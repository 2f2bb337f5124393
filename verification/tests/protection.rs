use fixedbitset::FixedBitSet;
use srtp::rtp::RtpFixedHeader;
use srtp::{
    Context, ErrorKind, ReadPacket, RtcpPacket, RtpPacket, Srtcp, SrtcpPacketReader,
    SrtcpPacketWriter, Srtp, SrtpPacketReader, SrtpPacketWriter, Ssrc, WritePacket,
};

const TEST_MASTER_KEY: &[u8] = &[
    211, 77, 116, 243, 125, 116, 231, 95, 59, 219, 79, 118, 241, 189, 244, 119,
];
const TEST_MASTER_SALT: &[u8] = &[
    127, 31, 227, 93, 120, 247, 126, 117, 231, 159, 123, 235, 95, 122,
];
const TEST_SRTP_SSRC: Ssrc = 446_919_554;
const TEST_SRTP_PACKET: &[u8] = &[
    128, 0, 3, 92, 222, 161, 6, 76, 26, 163, 115, 130, 222, 0, 143, 87, 0, 227, 123, 91, 200,
    238, 141, 220, 9, 191, 52, 111, 100, 62, 220, 158, 211, 79, 184, 199, 79, 182, 9, 248, 170,
    82, 125, 152, 143, 206, 8, 152, 80, 207, 27, 183, 141, 77, 33, 60, 101, 180, 210, 146, 139,
    170, 149, 13, 99, 75, 223, 156, 79, 71, 84, 119, 68, 236, 244, 163, 198, 175, 219, 160,
    255, 9, 82, 169, 64, 112, 106, 4, 0, 246, 39, 29, 88, 15, 62, 174, 21, 253, 171, 198, 128,
    61, 23, 43, 143, 255, 176, 125, 223, 23, 188, 90, 103, 139, 223, 56, 162, 35, 27, 225, 117,
    243, 138, 163, 35, 79, 221, 201, 149, 154, 203, 255, 2, 23, 184, 184, 169, 32, 1, 138, 172,
    60, 70, 240, 53, 11, 54, 81, 172, 214, 34, 136, 39, 152, 17, 247, 126, 199, 200, 184, 70,
    7, 52, 191, 129, 239, 86, 78, 172, 229, 178, 112, 22, 125, 191, 164, 17, 193, 24, 152, 197,
    146, 94, 74, 156, 171, 245, 239, 220, 205, 145, 206,
];
const TEST_SRTCP_SSRC: Ssrc = 3_270_675_037;
const TEST_SRTCP_PACKET: &[u8] = &[
    128, 201, 0, 1, 194, 242, 138, 93, 177, 31, 99, 88, 187, 209, 173, 181, 135, 18, 79, 59,
    119, 153, 115, 34, 75, 94, 96, 29, 32, 14, 118, 86, 145, 159, 203, 174, 225, 34, 196, 229,
    39, 22, 174, 54, 198, 56, 179, 171, 111, 229, 48, 234, 138, 249, 127, 11, 86, 94, 40, 213,
    87, 203, 60, 54, 52, 60, 10, 93, 128, 0, 0, 1, 114, 135, 74, 73, 233, 100, 85, 240, 125,
    93,
];

const TEST_2_MASTER_KEY: &[u8] = &[
    124, 185, 61, 185, 219, 148, 249, 33, 222, 227, 189, 112, 23, 80, 114, 233,
];
const TEST_2_MASTER_SALT: &[u8] =
    &[93, 4, 23, 245, 147, 199, 112, 49, 24, 105, 140, 1, 77, 98];
const TEST_2_SRTP_SSRC: Ssrc = 180_601_533;
const TEST_2_SRTP_PACKET_BEFORE_ROLLOVER: &[u8] = &[
    0x80, 0x61, 0xff, 0xff, 0x87, 0xf5, 0xee, 0x93, 0x0a, 0xc3, 0xc2, 0xbd, 0x93, 0x04, 0x0b,
    0x4d, 0xe9, 0x55, 0x69, 0xb7, 0xac, 0x88, 0xc5, 0xd6, 0xc2, 0x75, 0xb8, 0x15, 0x86, 0xc3,
    0xb2, 0x2a, 0x34, 0x64, 0xbe, 0x8b, 0x0d, 0x61, 0xfc, 0x22, 0xf1, 0x30, 0x66, 0xe0, 0x1e,
    0x1d, 0x0c, 0xec, 0xff, 0x8d, 0xff, 0x86, 0xf7, 0xf4, 0x7e, 0x40, 0x8a, 0xd0, 0x36, 0x3f,
    0x67, 0x60, 0x0f, 0xbd, 0x46, 0xa9, 0x3e, 0xa5, 0x4b, 0x31, 0x54, 0xc8, 0x45, 0x61, 0xc8,
    0x33, 0x68, 0x2b, 0x0c, 0x98, 0x5f, 0x61, 0x68, 0xc4, 0x32, 0x8f, 0x70, 0xc4, 0xc6, 0x05,
    0x7e, 0x30, 0xcf, 0x67, 0x78, 0xf4, 0x50, 0x1b, 0xba, 0x5f, 0x10, 0x5f, 0xf6, 0x6b, 0x99,
    0x6d, 0x68, 0xb8, 0x87, 0x21, 0x46, 0xd1, 0x4a, 0x4a,
];
const TEST_2_SRTP_PACKET_AFTER_ROLLOVER: &[u8] = &[
    128, 97, 0, 0, 135, 245, 242, 83, 10, 195, 194, 189, 254, 253, 61, 217, 224, 102, 52, 18,
    244, 100, 144, 73, 190, 225, 100, 195, 28, 35, 116, 15, 37, 91, 236, 28, 24, 134, 223, 188,
    129, 1, 164, 18, 143, 87, 6, 25, 195, 159, 33, 147, 36, 175, 190, 60, 215, 204, 240, 27,
    186, 247, 223, 217, 65, 189, 66, 59, 3, 214, 53, 146, 32, 234, 27, 127, 211, 58, 156, 25,
    139, 236, 11, 138, 245, 134, 84, 164, 130, 226, 90, 74, 131, 57, 100, 0, 106, 127, 239,
    184, 235, 197, 164, 15, 233, 146, 84, 127, 42, 9, 100,
];
/// An RTP packet split into header and payload.
#[derive(Debug, Clone, PartialEq, Eq)]
struct PlainRtp {
    header: RtpFixedHeader,
    payload: Vec<u8>,
}

impl RtpPacket for PlainRtp {}

#[derive(Debug, Clone, PartialEq, Eq)]
struct PlainRtpIo;

impl ReadPacket for PlainRtpIo {
    type Packet = PlainRtp;

    fn read_packet(&mut self, bytes: &[u8]) -> Result<PlainRtp, ErrorKind> {
        let (header, len) = RtpFixedHeader::read_from(bytes)?;
        Ok(PlainRtp { header, payload: bytes[len..].to_vec() })
    }

    fn supports_type(&self, ty: u8) -> bool {
        ty < 128
    }
}

impl WritePacket for PlainRtpIo {
    type Packet = PlainRtp;

    fn write_packet(&mut self, out: &mut Vec<u8>, packet: &PlainRtp) -> Result<(), ErrorKind> {
        packet.header.write_to(out)?;
        out.extend_from_slice(&packet.payload);
        Ok(())
    }
}

/// An RTCP packet as its bytes, of which the header has been looked at.
#[derive(Debug, Clone, PartialEq, Eq)]
struct PlainRtcp(Vec<u8>);

impl RtcpPacket for PlainRtcp {}

#[derive(Debug, Clone, PartialEq, Eq)]
struct PlainRtcpIo;

impl ReadPacket for PlainRtcpIo {
    type Packet = PlainRtcp;

    fn read_packet(&mut self, bytes: &[u8]) -> Result<PlainRtcp, ErrorKind> {
        let mut at: usize = 0;
        while at < bytes.len() {
            if bytes.len() - at < 4 || bytes[at] >> 6 != 2 {
                return Err(ErrorKind::Invalid);
            }
            let words = u16::from_be_bytes([bytes[at + 2], bytes[at + 3]]) as usize;
            at += 4 * (words + 1);
        }
        if at != bytes.len() {
            return Err(ErrorKind::Invalid);
        }
        Ok(PlainRtcp(bytes.to_vec()))
    }

    fn supports_type(&self, ty: u8) -> bool {
        (192..=223).contains(&ty)
    }
}

impl WritePacket for PlainRtcpIo {
    type Packet = PlainRtcp;

    fn write_packet(&mut self, out: &mut Vec<u8>, packet: &PlainRtcp) -> Result<(), ErrorKind> {
        out.extend_from_slice(&packet.0);
        Ok(())
    }
}

#[test]
fn rtp_packet_index_estimation_works() {
    let mut state = Srtp::default();
    let roc = 0u32;
    let roc_n1 = roc.wrapping_sub(1);
    let roc_p1 = roc.wrapping_add(1);
    state.rollover_counter = roc;

    let idx = |r: u32, s: u16| (u64::from(r) << 16) | u64::from(s);
    let est = |s: &Srtp, seq| Srtp::estimate_packet_index(s, seq);

    state.highest_seq_num = 1000;
    assert_eq!(est(&state, 1), idx(roc, 1));
    assert_eq!(est(&state, 10001), idx(roc, 10001));
    assert_eq!(est(&state, 60001), idx(roc_n1, 60001));

    state.highest_seq_num = 60000;
    assert_eq!(est(&state, 60001), idx(roc, 60001));
    assert_eq!(est(&state, 30001), idx(roc, 30001));
    assert_eq!(est(&state, 10001), idx(roc_p1, 10001));
}

#[test]
fn rtp_decryption_works() {
    let mut context = Context::new(TEST_MASTER_KEY, TEST_MASTER_SALT);
    context.add_ssrc(TEST_SRTP_SSRC);
    let mut reader = SrtpPacketReader::new(context, PlainRtpIo);
    let packet = reader.read_packet(TEST_SRTP_PACKET).unwrap();

    let expected_prefix = [
        0xbe, 0x9c, 0x8c, 0x86, 0x81, 0x80, 0x81, 0x86, 0x8d, 0x9c, 0xfd, 0x1b, 0x0d, 0x05,
        0x01, 0x00, 0x01, 0x05, 0x0d, 0x1b, 0xff, 0x9b, 0x8d, 0x85, 0x81, 0x80, 0x81, 0x85,
        0x8d, 0x9b, 0xff, 0x1b,
    ];
    assert_eq!(&packet.payload[..expected_prefix.len()], &expected_prefix);
}

#[test]
fn rtp_decryption_with_rollover_works() {
    let mut context = Context::<Srtp>::new(TEST_2_MASTER_KEY, TEST_2_MASTER_SALT);
    context.add_ssrc(TEST_2_SRTP_SSRC);
    context
        .ssrc_context
        .get_mut(&TEST_2_SRTP_SSRC)
        .unwrap()
        .protocol_specific
        .highest_seq_num = 65534;
    let mut reader = SrtpPacketReader::new(context, PlainRtpIo);
    reader.read_packet(TEST_2_SRTP_PACKET_BEFORE_ROLLOVER).unwrap();
    reader.read_packet(TEST_2_SRTP_PACKET_AFTER_ROLLOVER).unwrap();
}

#[test]
fn rtcp_decryption_works() {
    let master_key = [
        254, 123, 44, 240, 174, 252, 53, 54, 2, 213, 123, 106, 85, 165, 5, 13,
    ];
    let master_salt = [77, 202, 202, 112, 81, 101, 219, 232, 143, 131, 160, 89, 15, 141];
    let packet = [
        128, 201, 0, 1, 194, 242, 138, 93, 67, 38, 193, 233, 60, 78, 188, 195, 230, 90, 19,
        196, 152, 235, 136, 164, 15, 177, 174, 217, 207, 115, 148, 223, 109, 112, 71, 245, 16,
        214, 216, 232, 87, 153, 5, 238, 72, 201, 223, 43, 69, 99, 54, 211, 118, 28, 227, 100,
        161, 216, 90, 203, 99, 167, 215, 130, 151, 16, 128, 138, 128, 0, 0, 1, 126, 39, 201,
        236, 161, 194, 6, 232, 194, 230,
    ];
    let mut context = Context::new(&master_key, &master_salt);
    context.add_ssrc(TEST_SRTCP_SSRC);
    let mut reader = SrtcpPacketReader::new(context, PlainRtcpIo);
    let pkt = reader.read_packet(&packet[..]).unwrap();
    println!("# {pkt:?}");
}

#[test]
fn rtp_decryption_encryption_are_inverse() {
    let mut dec = Context::<Srtp>::new(TEST_MASTER_KEY, TEST_MASTER_SALT);
    let mut enc = Context::<Srtp>::new(TEST_MASTER_KEY, TEST_MASTER_SALT);
    dec.add_ssrc(TEST_SRTP_SSRC);
    enc.add_ssrc(TEST_SRTP_SSRC);
    let plain = dec.process_incoming(TEST_SRTP_PACKET).unwrap();
    let cipher = enc.process_outgoing(&plain).unwrap();
    assert_eq!(cipher.as_slice(), TEST_SRTP_PACKET);
}

#[test]
fn rtcp_decryption_encryption_are_inverse() {
    let mut dec = Context::<Srtcp>::new(TEST_MASTER_KEY, TEST_MASTER_SALT);
    let mut enc = Context::<Srtcp>::new(TEST_MASTER_KEY, TEST_MASTER_SALT);
    dec.add_ssrc(TEST_SRTCP_SSRC);
    enc.add_ssrc(TEST_SRTCP_SSRC);
    let plain = dec.process_incoming(TEST_SRTCP_PACKET).unwrap();
    let cipher = enc.process_outgoing(&plain).unwrap();
    assert_eq!(cipher.as_slice(), TEST_SRTCP_PACKET);
}

#[test]
fn rtcp_encryption_does_not_use_two_time_pad() {
    let mut dec = Context::<Srtcp>::new(TEST_MASTER_KEY, TEST_MASTER_SALT);
    let mut enc = Context::<Srtcp>::new(TEST_MASTER_KEY, TEST_MASTER_SALT);
    dec.add_ssrc(TEST_SRTCP_SSRC);
    enc.add_ssrc(TEST_SRTCP_SSRC);
    let plain = dec.process_incoming(TEST_SRTCP_PACKET).unwrap();
    let c1 = enc.process_outgoing(&plain).unwrap();
    let c2 = enc.process_outgoing(&plain).unwrap();
    let c3 = enc.process_outgoing(&plain).unwrap();
    assert_ne!(c1, c2);
    assert_ne!(c1, c3);
    assert_ne!(c2, c3);
}

#[test]
fn rtp_does_not_allow_packet_replay() {
    let mut ctx = Context::<Srtp>::new(TEST_MASTER_KEY, TEST_MASTER_SALT);
    ctx.add_ssrc(TEST_SRTP_SSRC);
    assert!(ctx.process_incoming(TEST_SRTP_PACKET).is_ok());
    assert!(ctx.process_incoming(TEST_SRTP_PACKET).is_err());
    assert!(ctx.process_incoming(TEST_SRTP_PACKET).is_err());
}

#[test]
fn rtcp_does_not_allow_packet_replay() {
    let mut ctx = Context::<Srtcp>::new(TEST_MASTER_KEY, TEST_MASTER_SALT);
    ctx.add_ssrc(TEST_SRTCP_SSRC);
    assert!(ctx.process_incoming(TEST_SRTCP_PACKET).is_ok());
    assert!(ctx.process_incoming(TEST_SRTCP_PACKET).is_err());
    assert!(ctx.process_incoming(TEST_SRTCP_PACKET).is_err());
}

#[test]
fn rtcp_does_not_allow_delayed_packet_replay() {
    let mut dec = Context::<Srtcp>::new(TEST_MASTER_KEY, TEST_MASTER_SALT);
    dec.add_ssrc(TEST_SRTCP_SSRC);
    let plain = dec.process_incoming(TEST_SRTCP_PACKET).unwrap();

    let mut enc = Context::<Srtcp>::new(TEST_MASTER_KEY, TEST_MASTER_SALT);
    enc.add_ssrc(TEST_SRTCP_SSRC);
    const N: usize = 10;
    let packets: Vec<_> = (0..N)
        .map(|_| enc.process_outgoing(&plain).unwrap())
        .collect();

    let mut dec = Context::<Srtcp>::new(TEST_MASTER_KEY, TEST_MASTER_SALT);
    dec.add_ssrc(TEST_SRTCP_SSRC);
    dec.ssrc_context
        .get_mut(&TEST_SRTCP_SSRC)
        .unwrap()
        .replay_window = FixedBitSet::with_capacity(4);

    for p in &packets[..6] {
        assert!(dec.process_incoming(p).is_ok());
    }
    for p in &packets[..6] {
        assert!(dec.process_incoming(p).is_err());
    }
    assert!(dec.process_incoming(&packets[7]).is_ok());
    assert!(dec.process_incoming(&packets[8]).is_ok());
    assert!(dec.process_incoming(&packets[9]).is_ok());
    assert!(dec.process_incoming(&packets[6]).is_ok());
    assert!(dec.process_incoming(&packets[7]).is_err());
    assert!(dec.process_incoming(&packets[8]).is_err());
    assert!(dec.process_incoming(&packets[9]).is_err());
    assert!(dec.process_incoming(&packets[6]).is_err());
}

fn rtp_packet(ssrc: Ssrc, seq_num: u16, payload: &[u8]) -> Vec<u8> {
    let mut packet = vec![0x80, 0x60];
    packet.extend_from_slice(&seq_num.to_be_bytes());
    packet.extend_from_slice(&[0, 0, 0, 1]);
    packet.extend_from_slice(&ssrc.to_be_bytes());
    packet.extend_from_slice(payload);
    packet
}

fn rtcp_packet(ssrc: Ssrc, words: u16) -> Vec<u8> {
    let mut packet = vec![0x80, 201];
    packet.extend_from_slice(&(words + 1).to_be_bytes());
    packet.extend_from_slice(&ssrc.to_be_bytes());
    for i in 0..4 * words {
        packet.push(i as u8);
    }
    packet
}

fn srtp_context() -> Context<Srtp> {
    let mut context = Context::new(TEST_MASTER_KEY, TEST_MASTER_SALT);
    context.add_ssrc(7);
    context
}

fn srtcp_context() -> Context<Srtcp> {
    let mut context = Context::new(TEST_MASTER_KEY, TEST_MASTER_SALT);
    context.add_ssrc(7);
    context
}

#[test]
fn srtp_receiver_gives_back_every_sent_packet() {
    let mut sender = srtp_context();
    let mut receiver = srtp_context();
    sender.ssrc_context.get_mut(&7).unwrap().protocol_specific.highest_seq_num = 65_000;
    receiver.ssrc_context.get_mut(&7).unwrap().protocol_specific.highest_seq_num = 65_000;
    let mut seq_num: u16 = 65_001;
    for i in 0..1000usize {
        let packet = rtp_packet(7, seq_num, &vec![i as u8; i % 50]);
        let cipher = sender.process_outgoing(&packet).unwrap();
        assert_eq!(cipher.len(), packet.len() + 10);
        assert_eq!(&cipher[..12], &packet[..12]);
        assert_eq!(receiver.process_incoming(&cipher), Ok(packet));
        seq_num = seq_num.wrapping_add(1);
    }
    let sent = sender.ssrc_context[&7].protocol_specific;
    assert_eq!(sent, Srtp { rollover_counter: 1, highest_seq_num: 464 });
    assert_eq!(sent, receiver.ssrc_context[&7].protocol_specific);
    assert_eq!(receiver.ssrc_context[&7].replay_window_head, 0x1_0000 + 464);
}

#[test]
fn srtcp_receiver_gives_back_every_sent_packet() {
    let mut sender = srtcp_context();
    let mut receiver = srtcp_context();
    for i in 1..300u32 {
        let packet = rtcp_packet(7, (i % 5) as u16);
        let cipher = sender.process_outgoing(&packet).unwrap();
        assert_eq!(cipher.len(), packet.len() + 14);
        let word = 0x8000_0000 | i;
        assert_eq!(&cipher[packet.len()..packet.len() + 4], &word.to_be_bytes());
        assert_eq!(receiver.process_incoming(&cipher), Ok(packet));
    }
    assert_eq!(receiver.ssrc_context[&7].replay_window_head, 299);
}

#[test]
fn srtcp_index_wraps() {
    let mut sender = srtcp_context();
    sender.ssrc_context.get_mut(&7).unwrap().protocol_specific.highest_sent_index = 0x7fff_ffff;
    let packet = rtcp_packet(7, 1);
    let cipher = sender.process_outgoing(&packet).unwrap();
    assert_eq!(&cipher[12..16], &[0x80, 0, 0, 0]);
    let cipher = sender.process_outgoing(&packet).unwrap();
    assert_eq!(&cipher[12..16], &[0x80, 0, 0, 1]);
}

#[test]
fn clear_srtcp_packet_is_authenticated_only() {
    let mut receiver = srtcp_context();
    receiver.update_session_keys(7, 5);
    let mut packet = rtcp_packet(7, 3);
    packet.extend_from_slice(&5u32.to_be_bytes());
    let tag = receiver.generate_auth_tag(&receiver.ssrc_context[&7], &packet, 5).unwrap();
    assert_eq!(tag.len(), 10);
    packet.extend_from_slice(&tag);
    assert_eq!(receiver.process_incoming(&packet), Ok(rtcp_packet(7, 3)));
}

#[test]
fn generated_tag_is_accepted_and_any_other_is_not() {
    let mut context = srtp_context();
    context.update_session_keys(7, 0x1_0000_0005);
    let stream = &context.ssrc_context[&7];
    let body = rtp_packet(7, 5, b"payload");
    let tag = context.generate_auth_tag(stream, &body, 0x1_0000_0005).unwrap();
    let mut packet = body.clone();
    packet.extend_from_slice(&tag);
    assert_eq!(context.authenticate(stream, &packet, 0x1_0000_0005), Ok(()));
    // another rollover counter
    assert_eq!(context.authenticate(stream, &packet, 5), Err(ErrorKind::Invalid));
    for i in 0..packet.len() {
        let mut forged = packet.clone();
        forged[i] ^= 1;
        assert_eq!(
            context.authenticate(stream, &forged, 0x1_0000_0005),
            Err(ErrorKind::Invalid)
        );
    }
}

#[test]
fn digest_limits_the_tag() {
    let mut context = srtcp_context();
    context.auth_tag_len = 32;
    let tag = context.generate_auth_tag(&context.ssrc_context[&7], b"abc", 0).unwrap();
    assert_eq!(tag.len(), 20);
    context.auth_tag_len = 0;
    let tag = context.generate_auth_tag(&context.ssrc_context[&7], b"abc", 0).unwrap();
    assert_eq!(tag, vec![]);
    assert_eq!(context.authenticate(&context.ssrc_context[&7], b"abc", 0), Ok(()));
}

#[test]
fn unknown_sources_are_taken_from_the_budget() {
    let mut sender = Context::<Srtp>::new(TEST_MASTER_KEY, TEST_MASTER_SALT);
    sender.add_unknown_ssrcs(3);
    let mut receiver = Context::<Srtp>::new(TEST_MASTER_KEY, TEST_MASTER_SALT);
    receiver.add_unknown_ssrcs(1);
    receiver.add_unknown_ssrcs(1);
    let mut packets = vec![];
    for ssrc in 1..4 {
        packets.push(sender.process_outgoing(&rtp_packet(ssrc, 1, b"x")).unwrap());
    }
    assert_eq!(sender.unknown_ssrcs, 0);
    assert_eq!(
        sender.process_outgoing(&rtp_packet(4, 1, b"x")),
        Err(ErrorKind::Invalid)
    );
    assert_eq!(receiver.process_incoming(&packets[0]), Ok(rtp_packet(1, 1, b"x")));
    assert_eq!((receiver.unknown_ssrcs, receiver.ssrc_context.len()), (1, 1));
    assert_eq!(receiver.process_incoming(&packets[1]), Ok(rtp_packet(2, 1, b"x")));
    assert_eq!((receiver.unknown_ssrcs, receiver.ssrc_context.len()), (0, 2));
    assert_eq!(receiver.process_incoming(&packets[2]), Err(ErrorKind::Invalid));
    assert_eq!((receiver.unknown_ssrcs, receiver.ssrc_context.len()), (0, 2));
}

#[test]
fn sources_do_not_disturb_each_other() {
    let mut context = srtp_context();
    context.add_ssrc(8);
    context.process_outgoing(&rtp_packet(7, 100, b"a")).unwrap();
    let first = context.ssrc_context[&7].clone();
    context.process_outgoing(&rtp_packet(8, 200, b"b")).unwrap();
    assert_eq!(context.ssrc_context[&7], first);
    assert_eq!(context.ssrc_context[&8].protocol_specific.highest_seq_num, 200);
}

#[test]
fn refused_packet_is_not_recorded() {
    let mut receiver = srtp_context();
    let mut forged = rtp_packet(7, 30_000, b"payload");
    forged.extend_from_slice(&[0; 10]);
    assert_eq!(receiver.process_incoming(&forged), Err(ErrorKind::Invalid));
    let stream = &receiver.ssrc_context[&7];
    assert_eq!(stream.replay_window_head, 0);
    assert_eq!(stream.replay_window, FixedBitSet::with_capacity(128));
    assert_eq!(stream.protocol_specific, Srtp::default());
}

#[test]
fn late_packets_are_taken_inside_the_window_only() {
    let mut sender = srtp_context();
    let packets: Vec<Vec<u8>> = (1..=300u16)
        .map(|seq_num| sender.process_outgoing(&rtp_packet(7, seq_num, b"late")).unwrap())
        .collect();
    let mut receiver = srtp_context();
    assert!(receiver.process_incoming(&packets[299]).is_ok());
    // 128 slots: 173 ..= 300
    assert_eq!(receiver.process_incoming(&packets[171]), Err(ErrorKind::Invalid));
    assert_eq!(
        receiver.process_incoming(&packets[172]),
        Ok(rtp_packet(7, 173, b"late"))
    );
    assert_eq!(receiver.process_incoming(&packets[172]), Err(ErrorKind::Invalid));
    assert!(receiver.process_incoming(&packets[250]).is_ok());
    assert_eq!(receiver.process_incoming(&packets[299]), Err(ErrorKind::Invalid));
}

#[test]
fn malformed_packets_are_refused() {
    let mut srtp = srtp_context();
    assert_eq!(srtp.process_incoming(&[]), Err(ErrorKind::Other));
    assert_eq!(srtp.process_incoming(&[0x80; 11]), Err(ErrorKind::Other));
    assert_eq!(srtp.process_incoming(&[0x40; 40]), Err(ErrorKind::Unsupported));
    assert_eq!(srtp.process_outgoing(&[0x40; 40]), Err(ErrorKind::Unsupported));
    let mut srtcp = srtcp_context();
    assert_eq!(srtcp.process_incoming(&[0x80; 3]), Err(ErrorKind::Other));
    assert_eq!(srtcp.process_outgoing(&[0x80; 7]), Err(ErrorKind::Other));
}

#[test]
fn short_packets_are_left_alone() {
    let mut srtp = srtp_context();
    assert!(srtp.fits_incoming(&rtp_packet(7, 1, b"")));
    assert_eq!(
        srtp.try_process_incoming(&rtp_packet(7, 1, b"")),
        Some(Err(ErrorKind::Invalid))
    );
    srtp.auth_tag_len = 13;
    let before = srtp.clone();
    assert_eq!(srtp.try_process_incoming(&rtp_packet(7, 1, b"")), None);
    assert_eq!(srtp, before);
    // an unknown source is refused before its length matters
    assert_eq!(
        srtp.try_process_incoming(&rtp_packet(9, 1, b"")),
        Some(Err(ErrorKind::Invalid))
    );
    let mut srtcp = srtcp_context();
    let before = srtcp.clone();
    assert_eq!(srtcp.try_process_incoming(&rtcp_packet(7, 1)), None);
    assert_eq!(srtcp, before);
    // long enough to be refused for its tag
    assert_eq!(
        srtcp.try_process_incoming(&rtcp_packet(7, 2)),
        Some(Err(ErrorKind::Invalid))
    );
}

#[test]
fn authentic_packets_need_room_for_their_headers() {
    // three contributing sources, the last ten bytes of which are the tag
    let mut srtp = srtp_context();
    srtp.update_session_keys(7, 1);
    let mut packet = rtp_packet(7, 1, &[0, 0]);
    packet[0] = 0x83;
    let tag = srtp.generate_auth_tag(&srtp.ssrc_context[&7], &packet, 1).unwrap();
    packet.extend_from_slice(&tag);
    assert_eq!(packet.len(), 24);
    assert!(!srtp.fits_incoming(&packet));
    let before = srtp.clone();
    assert_eq!(srtp.try_process_incoming(&packet), None);
    assert_eq!(srtp, before);
    // no index word but the source itself
    let mut srtcp = srtcp_context();
    srtcp.add_ssrc(0x8000_0007);
    srtcp.update_session_keys(0x8000_0007, 7);
    let mut packet = rtcp_packet(0x8000_0007, 0);
    let tag = srtcp.generate_auth_tag(&srtcp.ssrc_context[&0x8000_0007], &packet, 7).unwrap();
    packet.extend_from_slice(&tag);
    assert_eq!(srtcp.try_process_incoming(&packet), None);
    packet[17] ^= 1;
    assert_eq!(
        srtcp.try_process_incoming(&packet),
        Some(Err(ErrorKind::Invalid))
    );
}

#[test]
fn whole_packets_pass_through_try_process_incoming() {
    let mut sender = srtp_context();
    let mut receiver = srtp_context();
    let packet = rtp_packet(7, 9, b"something");
    let cipher = sender.process_outgoing(&packet).unwrap();
    assert_eq!(receiver.try_process_incoming(&cipher), Some(Ok(packet)));
    assert_eq!(
        receiver.try_process_incoming(&cipher),
        Some(Err(ErrorKind::Invalid))
    );
}

#[test]
fn keys_change_with_the_period_only() {
    let mut context = srtp_context();
    context.update_session_keys(7, 0);
    let first = context.ssrc_context[&7].clone();
    context.update_session_keys(7, 1 << 40);
    assert_eq!(context.ssrc_context[&7], first);
    // a new key every 2^4 packets
    context.key_derivation_rate = 5;
    context.update_session_keys(7, 15);
    assert_eq!(context.ssrc_context[&7], first);
    context.update_session_keys(7, 16);
    let second = context.ssrc_context[&7].clone();
    assert_ne!(second.session_encr_key, first.session_encr_key);
    assert_ne!(second.session_salt_key, first.session_salt_key);
    assert_ne!(second.session_auth_key, first.session_auth_key);
    context.update_session_keys(7, 31);
    assert_eq!(context.ssrc_context[&7], second);
}

#[test]
fn rekeying_ends_stay_together() {
    let mut sender = srtp_context();
    let mut receiver = srtp_context();
    sender.key_derivation_rate = 3;
    receiver.key_derivation_rate = 3;
    for seq_num in 1..40u16 {
        let packet = rtp_packet(7, seq_num, b"rekeyed");
        let cipher = sender.process_outgoing(&packet).unwrap();
        assert_eq!(receiver.process_incoming(&cipher), Ok(packet));
    }
}

#[test]
fn header_extension_stays_clear() {
    let mut packet = vec![0xb1, 0xe0, 0, 1, 0, 0, 0, 2, 0, 0, 0, 7, 1, 2, 3, 4];
    packet.extend_from_slice(&[0xbe, 0xde, 0, 2, 1, 2, 3, 4, 5, 6, 7, 8]);
    packet.extend_from_slice(b"payload\x01");
    let mut sender = srtp_context();
    let cipher = sender.process_outgoing(&packet).unwrap();
    assert_eq!(&cipher[..28], &packet[..28]);
    assert_ne!(&cipher[28..36], &packet[28..36]);
    assert_eq!(srtp_context().process_incoming(&cipher), Ok(packet));
}

#[test]
fn protocol_encryption_is_the_context_encryption() {
    let mut context = srtp_context();
    context.update_session_keys(7, 3);
    let stream = &context.ssrc_context[&7];
    let packet = rtp_packet(7, 3, b"sixteen byte word and some more");
    let sealed = context.encrypt(stream, &packet, 3).unwrap();
    let mut portion = packet[..12].to_vec();
    context.encrypt_portion(stream, &packet[12..], &mut portion, 7, 3);
    assert_eq!(sealed, portion);
    let mut back = vec![];
    context.decrypt_portion(stream, &sealed[12..], &mut back, 7, 3);
    assert_eq!(&back, &packet[12..]);
    let mut tagged = sealed.clone();
    tagged.extend_from_slice(&[0; 10]);
    assert_eq!(context.decrypt(stream, &tagged, 3), Ok(packet));
}

#[test]
fn rtp_reader_undoes_writer() {
    let mut writer = SrtpPacketWriter::new(srtp_context(), PlainRtpIo);
    let mut reader = SrtpPacketReader::new(srtp_context(), PlainRtpIo);
    let (header, len) = RtpFixedHeader::read_from(&rtp_packet(7, 11, b"")).unwrap();
    assert_eq!(len, 12);
    let packet = PlainRtp { header, payload: b"over the wire".to_vec() };
    let mut wire = vec![0xaa];
    writer.write_packet(&mut wire, &packet).unwrap();
    assert_eq!(wire[0], 0xaa);
    assert_eq!(wire.len(), 1 + 12 + 13 + 10);
    assert_ne!(&wire[13..26], b"over the wire");
    assert_eq!(reader.read_packet(&wire[1..]), Ok(packet));
    assert_eq!(reader.read_packet(&wire[1..]), Err(ErrorKind::Invalid));
    assert_eq!(reader.try_read_packet(&wire[1..12]), Some(Err(ErrorKind::Other)));
    assert!(reader.supports_type(96));
    assert!(!reader.supports_type(201));
}

#[test]
fn rtcp_reader_undoes_writer() {
    let mut writer = SrtcpPacketWriter::new(srtcp_context(), PlainRtcpIo);
    let mut reader = SrtcpPacketReader::new(srtcp_context(), PlainRtcpIo);
    let packet = PlainRtcp(rtcp_packet(7, 4));
    let mut wire = vec![];
    writer.write_packet(&mut wire, &packet).unwrap();
    assert_eq!(wire.len(), 24 + 14);
    assert_eq!(reader.try_read_packet(&wire[..12]), None);
    assert_eq!(reader.try_read_packet(&wire), Some(Ok(packet)));
    assert_eq!(reader.read_packet(&wire), Err(ErrorKind::Invalid));
    assert!(reader.supports_type(201));
    assert!(!reader.supports_type(96));
}

#[test]
fn writer_that_fails_writes_nothing() {
    let mut writer = SrtpPacketWriter::new(srtp_context(), PlainRtpIo);
    let (mut header, _) = RtpFixedHeader::read_from(&rtp_packet(7, 1, b"")).unwrap();
    header.payload_type = 200;
    let mut wire = vec![1, 2, 3];
    let refused = PlainRtp { header: header.clone(), payload: vec![] };
    assert_eq!(writer.write_packet(&mut wire, &refused), Err(ErrorKind::Invalid));
    header.payload_type = 96;
    header.ssrc = 1;
    let unknown = PlainRtp { header, payload: vec![] };
    assert_eq!(writer.write_packet(&mut wire, &unknown), Err(ErrorKind::Invalid));
    assert_eq!(wire, vec![1, 2, 3]);
}

#[test]
fn inner_reader_decides_what_a_packet_is() {
    // a length field that does not fit
    let mut packet = rtcp_packet(7, 4);
    packet[3] = 9;
    let mut sender = srtcp_context();
    let cipher = sender.process_outgoing(&packet).unwrap();
    let mut reader = SrtcpPacketReader::new(srtcp_context(), PlainRtcpIo);
    assert_eq!(reader.read_packet(&cipher), Err(ErrorKind::Invalid));
    // the index is used up all the same
    assert_eq!(reader.read_packet(&cipher), Err(ErrorKind::Invalid));
}

#[test]
fn sending_needs_the_keys_of_its_own_source_only() {
    let mut sender = srtp_context();
    sender.add_ssrc(8);
    sender.ssrc_context.get_mut(&7).unwrap().replay_window = FixedBitSet::with_capacity(0);
    sender.ssrc_context.get_mut(&8).unwrap().session_encr_key = vec![0; 3];
    let packet = rtp_packet(7, 1, b"send only");
    assert!(sender.fits_outgoing(&packet));
    let cipher = sender.process_outgoing(&packet).unwrap();
    let mut receiver = srtp_context();
    receiver.add_ssrc(8);
    receiver.ssrc_context.get_mut(&8).unwrap().session_encr_key = vec![0; 3];
    assert_eq!(receiver.process_incoming(&cipher), Ok(packet));
    assert!(!sender.fits_outgoing(&rtp_packet(8, 1, b"")));
    assert_eq!(receiver.try_process_incoming(&rtp_packet(8, 1, &[0; 10])), None);
}

#[test]
fn keys_of_other_lengths_are_found_out() {
    let mut context = Context::<Srtcp>::new(&TEST_MASTER_KEY[..15], TEST_MASTER_SALT);
    context.add_ssrc(7);
    let before = context.clone();
    assert!(!context.fits_outgoing(&rtcp_packet(7, 1)));
    assert_eq!(context.try_process_incoming(&rtcp_packet(7, 8)), None);
    assert_eq!(context, before);
    // an unknown source is refused before any key matters
    assert!(context.fits_outgoing(&rtcp_packet(8, 1)));
    assert_eq!(context.process_outgoing(&rtcp_packet(8, 1)), Err(ErrorKind::Invalid));
    let mut writer = SrtcpPacketWriter::new(context.clone(), PlainRtcpIo);
    let mut wire = vec![5];
    assert_eq!(writer.try_write_packet(&mut wire, &PlainRtcp(rtcp_packet(7, 1))), None);
    assert_eq!(
        writer.try_write_packet(&mut wire, &PlainRtcp(rtcp_packet(8, 1))),
        Some(Err(ErrorKind::Invalid))
    );
    assert_eq!(wire, vec![5]);
    context.master_key = TEST_MASTER_KEY.to_vec();
    context.key_derivation_rate = 65;
    assert!(!context.fits_outgoing(&rtcp_packet(7, 1)));
    context.key_derivation_rate = 64;
    assert!(context.fits_outgoing(&rtcp_packet(7, 1)));
    let mut reader = SrtcpPacketReader::new(before, PlainRtcpIo);
    assert_eq!(reader.try_read_packet(&rtcp_packet(7, 8)), None);
}

#[test]
fn exactly_the_budget_of_sources_gets_in() {
    let mut context = Context::<Srtcp>::new(TEST_MASTER_KEY, TEST_MASTER_SALT);
    context.add_unknown_ssrcs(3);
    let order = [5, 6, 5, 7, 8, 6, 9, 5, 8, 7];
    let let_in = [true, true, true, true, false, true, false, true, false, true];
    for (ssrc, expected) in order.iter().zip(let_in) {
        assert_eq!(context.process_outgoing(&rtcp_packet(*ssrc, 1)).is_ok(), expected);
        // an unauthentic packet of the same source neither costs nor gains anything more
        assert_eq!(
            context.process_incoming(&rtcp_packet(*ssrc, 9)),
            Err(ErrorKind::Invalid)
        );
        assert_eq!(context.ssrc_context.len() + context.unknown_ssrcs, 3);
    }
    let known: Vec<u32> = context.ssrc_context.keys().copied().collect();
    assert_eq!(known, vec![5, 6, 7]);
}

#[test]
fn replay_window_tells_the_history() {
    let mut sender = srtp_context();
    let packets: Vec<Vec<u8>> = (0..=400u16)
        .map(|seq_num| sender.process_outgoing(&rtp_packet(7, seq_num, b"h")).unwrap())
        .collect();
    let mut receiver = srtp_context();
    let mut accepted: Vec<usize> = vec![];
    let mut at: usize = 3;
    for _ in 0..600 {
        at = (at * 7 + 11) % 401;
        let highest = accepted.iter().copied().max().unwrap_or(0);
        let expected = !accepted.contains(&at) && at + 128 > highest;
        assert_eq!(receiver.process_incoming(&packets[at]).is_ok(), expected);
        if expected {
            accepted.push(at);
        }
        let stream = &receiver.ssrc_context[&7];
        let highest = accepted.iter().copied().max().unwrap_or(0);
        assert_eq!(stream.replay_window_head, highest as u64);
        assert_eq!(stream.protocol_specific.highest_seq_num as usize, highest);
        for index in highest.saturating_sub(127)..=highest {
            assert_eq!(stream.replay_window.contains(index % 128), accepted.contains(&index));
        }
    }
}

#[test]
fn sources_are_let_in_by_budget_in_turn() {
    let mut context = Context::<Srtp>::new(TEST_MASTER_KEY, TEST_MASTER_SALT);
    context.add_unknown_ssrcs(2);
    let order = [4, 4, 9, 1, 4, 9, 2, 1];
    let let_in = [true, true, true, false, true, true, false, false];
    for (ssrc, expected) in order.iter().zip(let_in) {
        let before = context.clone();
        let known = context.ssrc_context.contains_key(ssrc);
        if expected {
            assert_eq!(context.ensure_ssrc(*ssrc), Ok(()));
        } else {
            assert_eq!(context.ensure_ssrc(*ssrc), Err(ErrorKind::Invalid));
        }
        if known || !expected {
            assert_eq!(context, before);
        }
        assert_eq!(context.ssrc_context.len() + context.unknown_ssrcs, 2);
    }
    let known: Vec<u32> = context.ssrc_context.keys().copied().collect();
    assert_eq!(known, vec![4, 9]);
}

#[test]
fn empty_window_refuses_until_a_packet_would_be_accepted() {
    let mut sender = srtp_context();
    let old = sender.process_outgoing(&rtp_packet(7, 0, b"old")).unwrap();
    let good = sender.process_outgoing(&rtp_packet(7, 5, b"good")).unwrap();
    let mut forged = good.clone();
    forged[13] ^= 1;
    let mut receiver = srtp_context();
    receiver.ssrc_context.get_mut(&7).unwrap().replay_window = FixedBitSet::with_capacity(0);
    // at or below the head, and not authentic
    assert_eq!(receiver.try_process_incoming(&old), Some(Err(ErrorKind::Invalid)));
    assert_eq!(receiver.process_incoming(&forged), Err(ErrorKind::Invalid));
    let before = receiver.clone();
    assert_eq!(receiver.try_process_incoming(&good), None);
    assert_eq!(receiver, before);
}
