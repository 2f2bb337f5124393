use srtp::bytes::{read_u16, read_u32, u16_bytes, u32_bytes, u48_bytes};
use srtp::crypto::{append_under_keystream, build_iv, key_derivation_x, prf_n};
use srtp::rtp::{RtpFixedHeader, RtpHeaderExtension};
use srtp::{
    AuthenticationAlgorithm, Context, EncryptionAlgorithm, ErrorKind, Protocol, Srtcp, Srtp,
    SsrcContext,
};

const MASTER_KEY: [u8; 16] = [
    0xe1, 0xf9, 0x7a, 0x0d, 0x3e, 0x01, 0x8b, 0xe0, 0xd6, 0x4f, 0xa3, 0x2c, 0x06, 0xde, 0x41, 0x39,
];
const MASTER_SALT: [u8; 14] = [
    0x0e, 0xc6, 0x75, 0xad, 0x49, 0x8a, 0xfe, 0xeb, 0xb6, 0x96, 0x0b, 0x3a, 0xab, 0xe6,
];

#[test]
fn session_keys_match_known_answers() {
    let mut context = Context::<Srtp>::new(&MASTER_KEY, &MASTER_SALT);
    context.add_ssrc(1);
    context.update_session_keys(1, 0);
    let stream = &context.ssrc_context[&1];
    assert_eq!(
        stream.session_encr_key,
        vec![
            0xc6, 0x1e, 0x7a, 0x93, 0x74, 0x4f, 0x39, 0xee, 0x10, 0x73, 0x4a, 0xfe, 0x3f, 0xf7,
            0xa0, 0x87,
        ]
    );
    assert_eq!(
        stream.session_salt_key,
        vec![
            0x30, 0xcb, 0xbc, 0x08, 0x86, 0x3d, 0x8c, 0x85, 0xd4, 0x9d, 0xb3, 0x4a, 0x9a, 0xe1,
        ]
    );
    assert_eq!(
        stream.session_auth_key,
        vec![
            0xce, 0xbe, 0x32, 0x1f, 0x6f, 0xf7, 0x71, 0x6b, 0x6f, 0xd4, 0xab, 0x49, 0xaf, 0x25,
            0x6a, 0x15, 0x6d, 0x38, 0xba, 0xa4,
        ]
    );
}

#[test]
fn keystream_matches_known_answers() {
    let key = [
        0x2b, 0x7e, 0x15, 0x16, 0x28, 0xae, 0xd2, 0xa6, 0xab, 0xf7, 0x15, 0x88, 0x09, 0xcf, 0x4f,
        0x3c,
    ];
    let salt = [
        0xf0, 0xf1, 0xf2, 0xf3, 0xf4, 0xf5, 0xf6, 0xf7, 0xf8, 0xf9, 0xfa, 0xfb, 0xfc, 0xfd,
    ];
    let iv = build_iv(&salt, 0, 0);
    assert_eq!(&iv[..14], &salt);
    assert_eq!(&iv[14..], &[0, 0]);
    let mut stream = vec![9];
    append_under_keystream(&key, &iv, &[0; 40], &mut stream);
    assert_eq!(
        stream,
        vec![
            9, 0xe0, 0x3e, 0xad, 0x09, 0x35, 0xc9, 0x5e, 0x80, 0xe1, 0x66, 0xb1, 0x6d, 0xd9, 0x2b,
            0x4e, 0xb4, 0xd2, 0x35, 0x13, 0x16, 0x2b, 0x02, 0xd0, 0xf7, 0x2a, 0x43, 0xa2, 0xfe,
            0x4a, 0x5f, 0x97, 0xab, 0x41, 0xe9, 0x5b, 0x3b, 0xb0, 0xa2, 0xe8, 0xdd,
        ]
    );
}

#[test]
fn keystream_counter_carries_over_all_bytes() {
    let key = MASTER_KEY;
    let mut wrapped = vec![];
    append_under_keystream(&key, &[0xff; 16], &[0; 32], &mut wrapped);
    let mut zero = vec![];
    append_under_keystream(&key, &[0; 16], &[0; 16], &mut zero);
    assert_eq!(&wrapped[16..], &zero[..]);
}

#[test]
fn keystream_undoes_itself() {
    let iv = build_iv(&MASTER_SALT, 5, 6);
    let data: Vec<u8> = (0..100u8).collect();
    let mut once = vec![];
    append_under_keystream(&MASTER_KEY, &iv, &data, &mut once);
    assert_ne!(once, data);
    let mut twice = vec![];
    append_under_keystream(&MASTER_KEY, &iv, &once, &mut twice);
    assert_eq!(twice, data);
}

#[test]
fn digest_matches_known_answer() {
    let mut context = Context::<Srtcp>::new(&MASTER_KEY, &MASTER_SALT);
    context.auth_tag_len = 20;
    let mut stream = SsrcContext::<Srtcp>::new_empty();
    stream.session_auth_key = vec![0x0b; 20];
    assert_eq!(
        context.generate_auth_tag(&stream, b"Hi There", 0),
        Ok(vec![
            0xb6, 0x17, 0x31, 0x86, 0x55, 0x05, 0x72, 0x64, 0xe2, 0x8b, 0xc0, 0xb6, 0xfb, 0x37,
            0x8c, 0x8e, 0xf1, 0x46, 0xbe, 0x00,
        ])
    );
}

#[test]
fn prf_is_aes_on_x_xor_counter() {
    let key: Vec<u8> = (0..16u8).collect();
    let mut x = [0u8; 16];
    for i in 0..16usize {
        x[i] = 0x11 * i as u8;
    }
    let out = prf_n(&key, &x, 40);
    assert_eq!(out.len(), 40);
    assert_eq!(
        &out[..16],
        &[
            0x69, 0xc4, 0xe0, 0xd8, 0x6a, 0x7b, 0x04, 0x30, 0xd8, 0xcd, 0xb7, 0x80, 0x70, 0xb4,
            0xc5, 0x5a,
        ]
    );
    // 0xff XOR 1 and XOR 2
    x[15] = 0xfe;
    assert_eq!(&out[16..32], &prf_n(&key, &x, 16)[..]);
    x[15] = 0xfd;
    assert_eq!(&out[32..], &prf_n(&key, &x, 8)[..]);
    assert_eq!(prf_n(&key, &x, 0), vec![]);
}

#[test]
fn derivation_input_holds_label_and_period() {
    let x = key_derivation_x(3, 0xaa_bb01_0203_0405_06, &[0xff; 20]);
    let mut expected = [0xffu8; 16];
    expected[7] = 0xff ^ 3;
    for i in 0..6usize {
        expected[8 + i] = 0xff ^ (i as u8 + 1);
    }
    expected[14] = 0;
    expected[15] = 0;
    assert_eq!(x, expected);
    assert_eq!(key_derivation_x(0, 0, &[1, 2]), {
        let mut short = [0u8; 16];
        short[0] = 1;
        short[1] = 2;
        short
    });
}

#[test]
fn packet_iv_holds_source_and_index() {
    let iv = build_iv(&[], 0x0102_0304, 0x0506_0708_090a);
    assert_eq!(iv, [0, 0, 0, 0, 1, 2, 3, 4, 5, 6, 7, 8, 9, 10, 0, 0]);
    let salted = build_iv(&[0x10; 14], 0x0102_0304, 0x0506_0708_090a);
    assert_eq!(
        salted,
        [
            0x10, 0x10, 0x10, 0x10, 0x11, 0x12, 0x13, 0x14, 0x15, 0x16, 0x17, 0x18, 0x19, 0x1a, 0,
            0
        ]
    );
}

#[test]
fn labels_are_distinct() {
    let labels = vec![
        Srtp::ENC_KEY_LABEL,
        Srtp::AUTH_KEY_LABEL,
        Srtp::SALT_KEY_LABEL,
        Srtcp::ENC_KEY_LABEL,
        Srtcp::AUTH_KEY_LABEL,
        Srtcp::SALT_KEY_LABEL,
    ];
    assert_eq!(labels, vec![0, 1, 2, 3, 4, 5]);
}

#[test]
fn new_context_has_the_defaults() {
    let context = Context::<Srtp>::new(&MASTER_KEY, &MASTER_SALT);
    assert_eq!(context.master_key, MASTER_KEY.to_vec());
    assert_eq!(context.master_salt, MASTER_SALT.to_vec());
    assert_eq!(context.key_derivation_rate, 0);
    assert_eq!(context.encryption, EncryptionAlgorithm::AesCm);
    assert_eq!(context.authentication, AuthenticationAlgorithm::HmacSha1);
    assert_eq!(context.auth_tag_len, 10);
    assert_eq!(context.unknown_ssrcs, 0);
    assert!(context.ssrc_context.is_empty());
}

#[test]
fn new_stream_is_zeroed() {
    let stream = SsrcContext::<Srtp>::new_empty();
    assert_eq!(stream.replay_window_head, 0);
    assert_eq!(stream.replay_window.len(), 128);
    assert_eq!(stream.replay_window.count_ones(..), 0);
    assert_eq!(stream.session_encr_key, vec![0; 16]);
    assert_eq!(stream.session_salt_key, vec![0; 14]);
    assert_eq!(stream.session_auth_key, vec![0; 20]);
    assert_eq!(stream.protocol_specific, Srtp::default());
    assert_eq!(stream.clone(), stream);
}

#[test]
fn replay_window_slides() {
    let mut stream = SsrcContext::<Srtcp>::new_empty();
    assert!(!stream.is_replayed(0));
    stream.record_index(0);
    assert!(stream.is_replayed(0));
    stream.record_index(100);
    stream.record_index(90);
    for index in 0..=100u64 {
        assert_eq!(stream.is_replayed(index), index == 0 || index == 90 || index == 100);
    }
    // past the end of the ring
    stream.record_index(140);
    for index in 0..=141u64 {
        let seen = index <= 12 || index == 90 || index == 100 || index == 140;
        assert_eq!(stream.is_replayed(index), seen);
    }
    // further than the whole window
    stream.record_index(1000);
    for index in 800..=1001u64 {
        assert_eq!(stream.is_replayed(index), index <= 872 || index == 1000);
    }
    assert_eq!(stream.replay_window_head, 1000);
    assert_eq!(stream.replay_window.count_ones(..), 1);
}

#[test]
fn index_estimate_is_the_nearest() {
    let state = Srtp { rollover_counter: 5, highest_seq_num: 0x8000 };
    let index = |roc: u64, seq_num: u64| roc * 0x1_0000 + seq_num;
    assert_eq!(Srtp::estimate_packet_index(&state, 0), index(5, 0));
    assert_eq!(Srtp::estimate_packet_index(&state, 0xffff), index(5, 0xffff));
    let state = Srtp { rollover_counter: 5, highest_seq_num: 0x8001 };
    assert_eq!(Srtp::estimate_packet_index(&state, 0), index(6, 0));
    assert_eq!(Srtp::estimate_packet_index(&state, 1), index(5, 1));
    let state = Srtp { rollover_counter: 5, highest_seq_num: 0x7ffe };
    assert_eq!(Srtp::estimate_packet_index(&state, 0xffff), index(4, 0xffff));
    assert_eq!(Srtp::estimate_packet_index(&state, 0xfffe), index(5, 0xfffe));
    let state = Srtp { rollover_counter: u32::MAX, highest_seq_num: 0xffff };
    assert_eq!(Srtp::estimate_packet_index(&state, 3), 3);
}

#[test]
fn highest_index_moves_up_only() {
    let mut stream = SsrcContext::<Srtp>::new_empty();
    Srtp::update_highest_recv_index(&mut stream, 0x2_0005);
    assert_eq!(
        stream.protocol_specific,
        Srtp { rollover_counter: 2, highest_seq_num: 5 }
    );
    Srtp::update_highest_recv_index(&mut stream, 0x1_ffff);
    Srtp::update_highest_recv_index(&mut stream, 0x2_0004);
    assert_eq!(
        stream.protocol_specific,
        Srtp { rollover_counter: 2, highest_seq_num: 5 }
    );
    Srtp::update_highest_sent_index(&mut stream, 0x2_0006);
    assert_eq!(
        stream.protocol_specific,
        Srtp { rollover_counter: 2, highest_seq_num: 6 }
    );
    let mut stream = SsrcContext::<Srtcp>::new_empty();
    Srtcp::update_highest_recv_index(&mut stream, 9);
    assert_eq!(stream.protocol_specific, Srtcp { highest_sent_index: 0 });
    Srtcp::update_highest_sent_index(&mut stream, 9);
    assert_eq!(stream.protocol_specific, Srtcp { highest_sent_index: 9 });
}

#[test]
fn rollover_counter_is_authenticated() {
    let context = Context::<Srtp>::new(&MASTER_KEY, &MASTER_SALT);
    assert_eq!(
        Srtp::get_authenticated_bytes(&context, 0x0102_0304_0506, &[9, 9]),
        Ok(vec![9, 9, 1, 2, 3, 4])
    );
    let context = Context::<Srtcp>::new(&MASTER_KEY, &MASTER_SALT);
    assert_eq!(
        Srtcp::get_authenticated_bytes(&context, 0x0102_0304, &[9, 9]),
        Ok(vec![9, 9])
    );
}

#[test]
fn header_survives_reading_and_writing() {
    let header = RtpFixedHeader {
        padding: true,
        marker: false,
        payload_type: 127,
        seq_num: 0x0102,
        timestamp: 0x0304_0506,
        ssrc: 0x0708_090a,
        csrc_list: vec![1, 0xffff_ffff],
        extension: Some(RtpHeaderExtension { profile_specific: 0xbede, data: vec![5; 8] }),
    };
    let mut bytes = vec![];
    assert_eq!(header.write_to(&mut bytes), Ok(()));
    assert_eq!(
        bytes,
        vec![
            0xb2, 0x7f, 1, 2, 3, 4, 5, 6, 7, 8, 9, 10, 0, 0, 0, 1, 0xff, 0xff, 0xff, 0xff, 0xbe,
            0xde, 0, 2, 5, 5, 5, 5, 5, 5, 5, 5,
        ]
    );
    bytes.push(42);
    assert_eq!(RtpFixedHeader::read_from(&bytes), Ok((header, 32)));
    for len in 1..32usize {
        assert_eq!(RtpFixedHeader::read_from(&bytes[..len]), Err(ErrorKind::Other));
    }
    bytes[0] = 0x72;
    assert_eq!(RtpFixedHeader::read_from(&bytes), Err(ErrorKind::Unsupported));
}

#[test]
fn header_that_does_not_fit_is_not_written() {
    let fits = RtpFixedHeader {
        padding: false,
        marker: true,
        payload_type: 0,
        seq_num: 0,
        timestamp: 0,
        ssrc: 0,
        csrc_list: vec![0; 15],
        extension: None,
    };
    let mut out = vec![];
    assert_eq!(fits.write_to(&mut out), Ok(()));
    assert_eq!((out.len(), out[0], out[1]), (72, 0x8f, 0x80));
    let mut out = vec![7];
    let too_many = RtpFixedHeader { csrc_list: vec![0; 16], ..fits.clone() };
    assert_eq!(too_many.write_to(&mut out), Err(ErrorKind::Invalid));
    let too_large = RtpFixedHeader { payload_type: 128, ..fits.clone() };
    assert_eq!(too_large.write_to(&mut out), Err(ErrorKind::Invalid));
    let uneven = RtpFixedHeader {
        extension: Some(RtpHeaderExtension { profile_specific: 0, data: vec![0; 3] }),
        ..fits.clone()
    };
    assert_eq!(uneven.write_to(&mut out), Err(ErrorKind::Invalid));
    let too_long = RtpFixedHeader {
        extension: Some(RtpHeaderExtension { profile_specific: 0, data: vec![0; 4 * 0x1_0000] }),
        ..fits
    };
    assert_eq!(too_long.write_to(&mut out), Err(ErrorKind::Invalid));
    assert_eq!(out, vec![7]);
}

#[test]
fn numbers_are_big_endian() {
    assert_eq!(read_u16(&[1, 2, 3], 1), Ok(0x0203));
    assert_eq!(read_u16(&[1, 2, 3], 2), Err(ErrorKind::Other));
    assert_eq!(read_u32(&[0, 0xff, 2, 3, 4], 1), Ok(0xff02_0304));
    assert_eq!(read_u32(&[0, 1, 2, 3], 1), Err(ErrorKind::Other));
    assert_eq!(u16_bytes(0xfe01), [0xfe, 1]);
    assert_eq!(u32_bytes(0xfe01_0203), [0xfe, 1, 2, 3]);
    assert_eq!(u48_bytes(0xffff_0102_0304_0506), [1, 2, 3, 4, 5, 6]);
}
