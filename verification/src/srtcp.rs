//! SRTCP: protection of RTCP packets.
use crate::bytes::{
    be_bytes, be_value, lemma_be_bytes_len, lemma_be_bytes_of_value, lemma_be_roundtrip,
    lemma_be_value_bound, lemma_pow256, read_u32, u32_bytes,
};
use crate::context::{Context, ContextModel};
use crate::crypto::{law_keystream_is_self_inverse, packet_iv};
use crate::error::{bytes_result, ErrorKind};
use crate::pipeline::{
    law_generated_tag_is_authentic, law_no_index_is_accepted_twice, law_packets_keep_settings,
    law_shared_keys_give_one_session, law_shared_keys_stay_shared, law_sources_are_isolated,
};
use crate::protocol::{Protocol, Ssrc};
use crate::stream::{SsrcContext, StreamModel};
use vstd::prelude::*;

verus! {

/// SRTCP (RTCP) per-SSRC state.
/// The packet index is carried in-band, so only the highest *sent* index
/// needs to be tracked (for outgoing index assignment).
#[derive(Debug, Clone, Copy, PartialEq, Eq, Structural)]
pub struct Srtcp {
    /// 31-bit SRTCP index (E-bit is stored separately in the packet).
    pub highest_sent_index: u32,
}

impl Default for Srtcp {
    fn default() -> (r: Self)
        ensures
            r == Srtcp::initial(),
    {
        Srtcp { highest_sent_index: 0 }
    }
}

/// Where the index word of a received packet begins: right before the authentication tag.
pub open spec fn index_word_at(tag_len: int, packet: Seq<u8>) -> int {
    packet.len() - tag_len - 4
}

/// The index word of a received packet: the E-bit and the 31-bit index.
pub open spec fn index_word(tag_len: int, packet: Seq<u8>) -> nat {
    let at = index_word_at(tag_len, packet);
    be_value(packet.subrange(at, at + 4))
}

/// Whether the index word says that the payload is encrypted.
pub open spec fn e_bit(word: nat) -> bool {
    word >= 0x8000_0000
}

/// The source named in the second word of an RTCP packet.
pub open spec fn rtcp_ssrc(packet: Seq<u8>) -> Ssrc {
    be_value(packet.subrange(4, 8)) as u32
}

impl Protocol for Srtcp {
    type PacketIndex = u32;

    const ENC_KEY_LABEL: u8 = 3;

    const AUTH_KEY_LABEL: u8 = 4;

    const SALT_KEY_LABEL: u8 = 5;

    open spec fn key_labels() -> (u8, u8, u8) {
        (3, 4, 5)
    }

    open spec fn index_value(index: u32) -> u64 {
        index as u64
    }

    open spec fn initial() -> Self {
        Srtcp { highest_sent_index: 0 }
    }

    open spec fn ssrc_of(packet: Seq<u8>) -> Result<Ssrc, ErrorKind> {
        if packet.len() < 8 {
            Err(ErrorKind::Other)
        } else {
            Ok(rtcp_ssrc(packet))
        }
    }

    open spec fn index_readable(tag_len: int, packet: Seq<u8>) -> bool {
        index_word_at(tag_len, packet) >= 0
    }

    open spec fn incoming_index(tag_len: int, state: Self, packet: Seq<u8>) -> Result<
        u32,
        ErrorKind,
    > {
        Ok((index_word(tag_len, packet) % 0x8000_0000) as u32)
    }

    /// Strictly monotone; wraps at 2^31.
    open spec fn outgoing_index(state: Self, packet: Seq<u8>) -> Result<u32, ErrorKind> {
        Ok(((state.highest_sent_index + 1) % 0x8000_0000) as u32)
    }

    open spec fn authenticated_bytes(index: u32, portion: Seq<u8>) -> Result<Seq<u8>, ErrorKind> {
        Ok(portion)
    }

    open spec fn openable(tag_len: int, packet: Seq<u8>) -> bool {
        &&& index_word_at(tag_len, packet) >= 0
        &&& e_bit(index_word(tag_len, packet)) && packet.len() >= 8 ==> index_word_at(
            tag_len,
            packet,
        ) >= 8
    }

    open spec fn opened(
        tag_len: int,
        stream: StreamModel<Self>,
        packet: Seq<u8>,
        index: u32,
    ) -> Result<Seq<u8>, ErrorKind> {
        let at = index_word_at(tag_len, packet);
        if !e_bit(index_word(tag_len, packet)) {
            Ok(packet.take(at))
        } else if packet.len() < 8 {
            Err(ErrorKind::Other)
        } else {
            Ok(
                packet.take(8) + stream.keystreamed(
                    packet.subrange(8, at),
                    rtcp_ssrc(packet),
                    index as u64,
                ),
            )
        }
    }

    open spec fn sealed(stream: StreamModel<Self>, packet: Seq<u8>, index: u32) -> Result<
        Seq<u8>,
        ErrorKind,
    > {
        if packet.len() < 8 {
            Err(ErrorKind::Other)
        } else {
            Ok(
                packet.take(8) + stream.keystreamed(
                    packet.skip(8),
                    rtcp_ssrc(packet),
                    index as u64,
                ) + be_bytes((0x8000_0000 + index as int % 0x8000_0000) as nat, 4),
            )
        }
    }

    open spec fn after_received(state: Self, index: u32) -> Self {
        state
    }

    open spec fn after_sent(state: Self, index: u32) -> Self {
        Srtcp { highest_sent_index: index }
    }

    proof fn lemma_key_labels() {
    }

    proof fn lemma_initial(state: Self) {
    }

    fn packet_index_u64(index: u32) -> u64 {
        index as u64
    }

    fn has_readable_index(tag_len: usize, packet: &[u8]) -> bool {
        packet.len() >= 4 && packet.len() - 4 >= tag_len
    }

    fn has_room(tag_len: usize, packet: &[u8]) -> bool {
        if !Self::has_readable_index(tag_len, packet) {
            return false;
        }
        let index_word_offset: usize = packet.len() - tag_len - 4;
        match read_u32(packet, index_word_offset) {
            Ok(word) => word < 0x8000_0000 || packet.len() < 8 || index_word_offset >= 8,
            Err(_) => false,
        }
    }

    fn read_ssrc(packet: &[u8]) -> Result<Ssrc, ErrorKind> {
        if packet.len() < 4 {
            return Err(ErrorKind::Other);
        }
        // The first word holds version, padding, report count, packet type and length.
        read_u32(packet, 4)
    }

    fn determine_incoming_packet_index(
        context: &Context<Self>,
        _ssrc_context: &SsrcContext<Self>,
        packet: &[u8],
    ) -> Result<u32, ErrorKind> {
        // The SRTCP index is the 32-bit word immediately before the auth tag,
        // with bit 31 (the E-bit) masked off.
        let word = match read_u32(packet, packet.len() - context.auth_tag_len - 4) {
            Ok(word) => word,
            Err(e) => return Err(e),
        };
        assert(word & 0x7FFF_FFFF == word % 0x8000_0000) by (bit_vector);
        Ok(word & 0x7FFF_FFFF)
    }

    fn determine_outgoing_packet_index(context: &SsrcContext<Self>, _packet: &[u8]) -> Result<
        u32,
        ErrorKind,
    > {
        // Strictly monotone; wraps at 2^31.
        let next: u32 = context.protocol_specific.highest_sent_index.wrapping_add(1);
        assert(next & 0x7FFF_FFFF == next % 0x8000_0000) by (bit_vector);
        Ok(next & 0x7FFF_FFFF)
    }

    /// For SRTCP the authenticated bytes are the entire packet up to (and
    /// including) the SRTCP index word - already in the wire format.
    fn get_authenticated_bytes(
        _context: &Context<Self>,
        _index: u32,
        auth_portion: &[u8],
    ) -> Result<Vec<u8>, ErrorKind> {
        Ok(vstd::slice::slice_to_vec(auth_portion))
    }

    fn decrypt(
        context: &Context<Self>,
        ssrc_context: &SsrcContext<Self>,
        packet: &[u8],
        index: u32,
    ) -> Result<Vec<u8>, ErrorKind> {
        // Check the E-bit; if not set the payload is unencrypted.
        let index_word_offset: usize = packet.len() - context.auth_tag_len - 4;
        let word = match read_u32(packet, index_word_offset) {
            Ok(word) => word,
            Err(e) => return Err(e),
        };
        assert((word & 0x8000_0000 != 0) == (word >= 0x8000_0000)) by (bit_vector);
        if word & 0x8000_0000 == 0 {
            proof {
                assert(packet@.subrange(0, index_word_offset as int) =~= packet@.take(
                    index_word_offset as int,
                ));
            }
            return Ok(vstd::slice::slice_to_vec(&packet[0..index_word_offset]));
        }
        let ssrc = match Self::read_ssrc(packet) {
            Ok(ssrc) => ssrc,
            Err(e) => return Err(e),
        };
        // RTCP payload: everything after the first 8 bytes, before index+auth.
        let encrypted_portion = &packet[8..index_word_offset];
        let mut decrypted = vstd::slice::slice_to_vec(&packet[0..8]);
        ssrc_context.apply_keystream(encrypted_portion, &mut decrypted, ssrc, index as u64);
        assert(decrypted@ =~= Self::opened(
            context@.auth_tag_len as int,
            ssrc_context@,
            packet@,
            index,
        )->Ok_0);
        Ok(decrypted)
    }

    fn encrypt(
        _context: &Context<Self>,
        ssrc_context: &SsrcContext<Self>,
        packet: &[u8],
        index: u32,
    ) -> Result<Vec<u8>, ErrorKind> {
        let ssrc = match Self::read_ssrc(packet) {
            Ok(ssrc) => ssrc,
            Err(e) => return Err(e),
        };
        let plaintext_portion = &packet[8..packet.len()];
        // AES-CM: encryption = decryption (XOR with keystream)
        let mut encrypted = vstd::slice::slice_to_vec(&packet[0..8]);
        ssrc_context.apply_keystream(plaintext_portion, &mut encrypted, ssrc, index as u64);
        // Append the SRTCP index with the E-bit set.
        assert(index | 0x8000_0000 == 0x8000_0000 + index % 0x8000_0000) by (bit_vector);
        encrypted.extend_from_slice(&u32_bytes(index | 0x8000_0000));
        proof {
            assert(plaintext_portion@ =~= packet@.skip(8));
            assert(encrypted@ =~= Self::sealed(ssrc_context@, packet@, index)->Ok_0);
        }
        Ok(encrypted)
    }

    /// The full index is carried in-band; no tracking needed for receive.
    fn update_highest_recv_index(_context: &mut SsrcContext<Self>, _index: u32) {
    }

    fn update_highest_sent_index(context: &mut SsrcContext<Self>, index: u32) {
        context.protocol_specific = Srtcp { highest_sent_index: index };
    }
}

/// What the last word of a sealed packet says.
proof fn lemma_sealed_word(stream: StreamModel<Srtcp>, packet: Seq<u8>, index: u32)
    requires
        packet.len() >= 8,
        index < 0x8000_0000,
    ensures
        ({
            let body = Srtcp::sealed(stream, packet, index)->Ok_0;
            &&& body.len() == packet.len() + 4
            &&& be_value(body.skip(body.len() - 4)) == 0x8000_0000 + index
        }),
{
    let body = Srtcp::sealed(stream, packet, index)->Ok_0;
    let word = (0x8000_0000 + index) as nat;
    lemma_be_bytes_len(word, 4);
    lemma_pow256();
    lemma_be_roundtrip(word, 4);
    assert(body.skip(body.len() - 4) =~= be_bytes(word, 4));
}

/// Receiving gives back what was sent: whatever `sender` makes of a packet, a receiver with the
/// same keys that has not received its index before turns into the packet again.
pub proof fn law_srtcp_receiving_inverts_sending(
    sender: ContextModel<Srtcp>,
    receiver: ContextModel<Srtcp>,
    packet: Seq<u8>,
)
    requires
        sender.outgoing(packet).0 is Ok,
        sender.auth_tag_len <= 20,
        ({
            let ssrc = rtcp_ssrc(packet);
            let index = Srtcp::outgoing_index(sender.stream_of(ssrc).state, packet)->Ok_0;
            &&& sender.shares_keys(receiver, ssrc)
            &&& receiver.admits(ssrc)
            &&& receiver.stream_of(ssrc).window.len() > 0
            &&& !receiver.stream_of(ssrc).seen(index as int)
        }),
    ensures
        receiver.incoming_fits(sender.outgoing(packet).0->Ok_0),
        receiver.incoming(sender.outgoing(packet).0->Ok_0).0 == Ok::<Seq<u8>, ErrorKind>(packet),
{
    let ssrc = rtcp_ssrc(packet);
    let index = Srtcp::outgoing_index(sender.stream_of(ssrc).state, packet)->Ok_0;
    let value = Srtcp::index_value(index);
    law_shared_keys_give_one_session(sender, receiver, ssrc, value);
    let sending = sender.admitted(ssrc).rekeyed(ssrc, value).streams[ssrc];
    let receiving = receiver.admitted(ssrc).rekeyed(ssrc, value).streams[ssrc];
    let body = Srtcp::sealed(sending, packet, index)->Ok_0;
    let tag = sender.tag_of(sending.auth_key, body, index)->Ok_0;
    let cipher = body + tag;
    let tag_len = receiver.auth_tag_len as int;
    let at = index_word_at(tag_len, cipher);
    lemma_sealed_word(sending, packet, index);
    assert(cipher.subrange(at, at + 4) =~= body.skip(body.len() - 4));
    assert(cipher.subrange(4, 8) =~= packet.subrange(4, 8));
    law_generated_tag_is_authentic(receiver, receiving.auth_key, body, index);
    assert(cipher.subrange(8, at) =~= sending.keystreamed(packet.skip(8), ssrc, value));
    assert(cipher.take(8) =~= packet.take(8));
    law_keystream_is_self_inverse(
        sending.encr_key,
        packet_iv(sending.salt_key, ssrc, value as nat),
        packet.skip(8),
    );
    assert(packet.take(8) + packet.skip(8) =~= packet);
}

/// Whether a receiver follows a sender: they share the keys of a source, and the receiver has
/// received no index above those sent.
pub open spec fn srtcp_in_step(
    sender: ContextModel<Srtcp>,
    receiver: ContextModel<Srtcp>,
    ssrc: Ssrc,
) -> bool {
    &&& sender.shares_keys(receiver, ssrc)
    &&& sender.admits(ssrc)
    &&& receiver.admits(ssrc)
    &&& receiver.stream_of(ssrc).window.len() > 0
    &&& receiver.stream_of(ssrc).head <= sender.stream_of(ssrc).state.highest_sent_index
}

/// As long as a source's index does not wrap, a receiver that follows the sender accepts every
/// packet, gives it back as it was, and still follows the sender.
pub proof fn law_srtcp_receiver_keeps_in_step(
    sender: ContextModel<Srtcp>,
    receiver: ContextModel<Srtcp>,
    packet: Seq<u8>,
)
    requires
        packet.len() >= 8,
        sender.auth_tag_len <= 20,
        srtcp_in_step(sender, receiver, rtcp_ssrc(packet)),
        sender.stream_of(rtcp_ssrc(packet)).state.highest_sent_index + 1 < 0x8000_0000,
    ensures
        ({
            let cipher = sender.outgoing(packet).0->Ok_0;
            &&& sender.outgoing(packet).0 is Ok
            &&& receiver.incoming_fits(cipher)
            &&& receiver.incoming(cipher).0 == Ok::<Seq<u8>, ErrorKind>(packet)
            &&& srtcp_in_step(
                sender.outgoing(packet).1,
                receiver.incoming(cipher).1,
                rtcp_ssrc(packet),
            )
        }),
{
    let ssrc = rtcp_ssrc(packet);
    let cipher = sender.outgoing(packet).0->Ok_0;
    let index = Srtcp::outgoing_index(sender.stream_of(ssrc).state, packet)->Ok_0;
    law_srtcp_receiving_inverts_sending(sender, receiver, packet);
    law_shared_keys_stay_shared(sender, receiver, ssrc, packet, cipher);
    lemma_sent_trailer(sender, packet);
    assert(sender.outgoing(packet).1.streams[ssrc].state.highest_sent_index == index);
    assert(receiver.incoming(cipher).1.streams[ssrc].head == index);
}

/// A sent packet names its source and carries its index.
proof fn lemma_sent_trailer(sender: ContextModel<Srtcp>, packet: Seq<u8>)
    requires
        sender.outgoing(packet).0 is Ok,
        sender.auth_tag_len <= 20,
    ensures
        ({
            let cipher = sender.outgoing(packet).0->Ok_0;
            let state = sender.stream_of(rtcp_ssrc(packet)).state;
            &&& Srtcp::ssrc_of(cipher) == Srtcp::ssrc_of(packet)
            &&& Srtcp::incoming_index(sender.auth_tag_len as int, state, cipher)
                == Srtcp::outgoing_index(state, packet)
        }),
{
    let ssrc = rtcp_ssrc(packet);
    let index = Srtcp::outgoing_index(sender.stream_of(ssrc).state, packet)->Ok_0;
    let sending = sender.admitted(ssrc).rekeyed(ssrc, index as u64).streams[ssrc];
    let body = Srtcp::sealed(sending, packet, index)->Ok_0;
    let cipher = sender.outgoing(packet).0->Ok_0;
    let at = index_word_at(sender.auth_tag_len as int, cipher);
    lemma_sealed_word(sending, packet, index);
    assert(cipher.subrange(4, 8) =~= packet.subrange(4, 8));
    assert(cipher.subrange(at, at + 4) =~= body.skip(body.len() - 4));
}

/// Sending gives back what was received: whatever `receiver` makes of an accepted encrypted
/// packet, a sender with the same keys whose next index is that of the packet turns into the
/// packet again, index word and tag included.
pub proof fn law_srtcp_sending_inverts_receiving(
    receiver: ContextModel<Srtcp>,
    sender: ContextModel<Srtcp>,
    cipher: Seq<u8>,
)
    requires
        receiver.incoming_fits(cipher),
        receiver.incoming(cipher).0 is Ok,
        ({
            let ssrc = rtcp_ssrc(cipher);
            let word = index_word(receiver.auth_tag_len as int, cipher);
            &&& e_bit(word)
            &&& receiver.shares_keys(sender, ssrc)
            &&& sender.admits(ssrc)
            &&& (sender.stream_of(ssrc).state.highest_sent_index + 1) % 0x8000_0000 == word
                % 0x8000_0000
        }),
    ensures
        sender.outgoing(receiver.incoming(cipher).0->Ok_0).0 == Ok::<Seq<u8>, ErrorKind>(cipher),
{
    let ssrc = rtcp_ssrc(cipher);
    let tag_len = receiver.auth_tag_len as int;
    let at = index_word_at(tag_len, cipher);
    let word = index_word(tag_len, cipher);
    let index = Srtcp::incoming_index(tag_len, receiver.stream_of(ssrc).state, cipher)->Ok_0;
    let value = Srtcp::index_value(index);
    law_shared_keys_give_one_session(receiver, sender, ssrc, value);
    let receiving = receiver.admitted(ssrc).rekeyed(ssrc, value).streams[ssrc];
    let hidden = cipher.subrange(8, at);
    let plain = Srtcp::opened(tag_len, receiving, cipher, index)->Ok_0;
    assert(plain.subrange(4, 8) =~= cipher.subrange(4, 8));
    assert(plain.take(8) =~= cipher.take(8));
    assert(plain.skip(8) =~= receiving.keystreamed(hidden, ssrc, value));
    law_keystream_is_self_inverse(
        receiving.encr_key,
        packet_iv(receiving.salt_key, ssrc, value as nat),
        hidden,
    );
    let word_bytes = cipher.subrange(at, at + 4);
    lemma_be_value_bound(word_bytes);
    lemma_pow256();
    lemma_be_bytes_of_value(word_bytes);
    assert(word == 0x8000_0000 + index);
    let body = cipher.take(cipher.len() - tag_len);
    assert(cipher.take(8) + hidden + word_bytes =~= body);
    assert(body + cipher.skip(cipher.len() - tag_len) =~= cipher);
}

/// An accepted packet is refused whenever it comes again, whatever was received in between.
pub proof fn law_srtcp_replays_are_refused(
    ctx: ContextModel<Srtcp>,
    packet: Seq<u8>,
    later: Seq<Seq<u8>>,
)
    requires
        ctx.wf(),
        ctx.incoming(packet).0 is Ok,
    ensures
        ctx.incoming(packet).1.after_receiving(later).incoming(packet).0 == Err::<
            Seq<u8>,
            ErrorKind,
        >(ErrorKind::Invalid),
{
    lemma_tag_len_stays(ctx.incoming(packet).1, later);
    law_packets_keep_settings(ctx, packet);
    law_no_index_is_accepted_twice(ctx, packet, later, packet);
}

proof fn lemma_tag_len_stays(ctx: ContextModel<Srtcp>, packets: Seq<Seq<u8>>)
    ensures
        ctx.after_receiving(packets).auth_tag_len == ctx.auth_tag_len,
        ctx.after_sending(packets).auth_tag_len == ctx.auth_tag_len,
    decreases packets.len(),
{
    if packets.len() > 0 {
        lemma_tag_len_stays(ctx, packets.drop_last());
        law_packets_keep_settings(ctx.after_receiving(packets.drop_last()), packets.last());
        law_packets_keep_settings(ctx.after_sending(packets.drop_last()), packets.last());
    }
}

/// How many of some packets name the source `ssrc`.
pub open spec fn packets_of(packets: Seq<Seq<u8>>, ssrc: Ssrc) -> nat
    decreases packets.len(),
{
    if packets.len() == 0 {
        0
    } else {
        packets_of(packets.drop_last(), ssrc) + if Srtcp::ssrc_of(packets.last()) == Ok::<
            Ssrc,
            ErrorKind,
        >(ssrc) {
            1nat
        } else {
            0nat
        }
    }
}

/// The index of a source counts the packets sent for it, modulo `2^31`.
pub proof fn law_srtcp_indices_count_packets(
    ctx: ContextModel<Srtcp>,
    packets: Seq<Seq<u8>>,
    ssrc: Ssrc,
)
    requires
        ctx.streams.contains_key(ssrc),
    ensures
        ({
            let before = ctx.streams[ssrc].state.highest_sent_index;
            let after = ctx.after_sending(packets).streams[ssrc].state.highest_sent_index;
            let count = packets_of(packets, ssrc);
            &&& ctx.after_sending(packets).streams.contains_key(ssrc)
            &&& after == if count == 0 {
                before as int
            } else {
                (before + count) % 0x8000_0000
            }
        }),
    decreases packets.len(),
{
    if packets.len() > 0 {
        let fewer = packets.drop_last();
        law_srtcp_indices_count_packets(ctx, fewer, ssrc);
        let last = packets.last();
        if Srtcp::ssrc_of(last) != Ok::<Ssrc, ErrorKind>(ssrc) {
            law_sources_are_isolated(ctx.after_sending(fewer), last, ssrc);
        }
    }
}

/// Packets whose bodies end in different words differ, if their tags have one length.
proof fn lemma_last_words_tell_apart(
    body1: Seq<u8>,
    tag1: Seq<u8>,
    body2: Seq<u8>,
    tag2: Seq<u8>,
)
    requires
        body1.len() >= 4,
        body2.len() >= 4,
        tag1.len() == tag2.len(),
        be_value(body1.skip(body1.len() - 4)) != be_value(body2.skip(body2.len() - 4)),
    ensures
        body1 + tag1 != body2 + tag2,
{
    let packet1 = body1 + tag1;
    let packet2 = body2 + tag2;
    if packet1 == packet2 {
        assert(packet1.len() == body1.len() + tag1.len());
        assert(packet2.len() == body2.len() + tag2.len());
        assert(body1 =~= packet1.take(body1.len() as int));
        assert(body2 =~= packet1.take(body1.len() as int));
    }
}

/// The next index after `count` more packets is not the one before them.
proof fn lemma_next_index_differs(index: int, count: int)
    requires
        0 <= index < 0x8000_0000,
        0 <= count < 0x7fff_ffff,
    ensures
        (index + 1) % 0x8000_0000 != index,
        ((index + count) % 0x8000_0000 + 1) % 0x8000_0000 != index,
{
}

/// No two of fewer than `2^31` packets in a row of a source are sent under one index, so not even
/// the same packet is turned into the same bytes again.
pub proof fn law_srtcp_sends_no_index_twice(
    ctx: ContextModel<Srtcp>,
    first: Seq<u8>,
    between: Seq<Seq<u8>>,
    second: Seq<u8>,
)
    requires
        Srtcp::ssrc_of(first) is Ok,
        Srtcp::ssrc_of(second) == Srtcp::ssrc_of(first),
        ctx.admits(rtcp_ssrc(first)),
        packets_of(between, rtcp_ssrc(first)) + 1 < 0x8000_0000,
    ensures
        ({
            let ssrc = rtcp_ssrc(first);
            let next = ctx.outgoing(first).1.after_sending(between);
            &&& ctx.outgoing(first).0 is Ok
            &&& next.outgoing(second).0 is Ok
            &&& Srtcp::outgoing_index(ctx.stream_of(ssrc).state, first) != Srtcp::outgoing_index(
                next.stream_of(ssrc).state,
                second,
            )
            &&& ctx.outgoing(first).0 != next.outgoing(second).0
        }),
{
    let ssrc = rtcp_ssrc(first);
    let after = ctx.outgoing(first).1;
    let next = after.after_sending(between);
    law_packets_keep_settings(ctx, first);
    lemma_tag_len_stays(after, between);
    law_srtcp_indices_count_packets(after, between, ssrc);
    let index1 = Srtcp::outgoing_index(ctx.stream_of(ssrc).state, first)->Ok_0;
    let index2 = Srtcp::outgoing_index(next.stream_of(ssrc).state, second)->Ok_0;
    assert(after.streams[ssrc].state.highest_sent_index == index1);
    lemma_next_index_differs(index1 as int, packets_of(between, ssrc) as int);
    assert(index1 != index2);
    let stream1 = ctx.admitted(ssrc).rekeyed(ssrc, index1 as u64).streams[ssrc];
    let stream2 = next.rekeyed(ssrc, index2 as u64).streams[ssrc];
    lemma_sealed_word(stream1, first, index1);
    lemma_sealed_word(stream2, second, index2);
    let body1 = Srtcp::sealed(stream1, first, index1)->Ok_0;
    let body2 = Srtcp::sealed(stream2, second, index2)->Ok_0;
    let tag1 = ctx.tag_of(stream1.auth_key, body1, index1)->Ok_0;
    let tag2 = next.tag_of(stream2.auth_key, body2, index2)->Ok_0;
    lemma_last_words_tell_apart(body1, tag1, body2, tag2);
    assert(ctx.outgoing(first).0 == Ok::<Seq<u8>, ErrorKind>(body1 + tag1));
    assert(next.outgoing(second).0 == Ok::<Seq<u8>, ErrorKind>(body2 + tag2));
}

} // verus!
