//! SRTP: protection of RTP packets.
use crate::bytes::{be_bytes, u32_bytes};
use crate::context::{Context, ContextModel};
use crate::crypto::{law_keystream_is_self_inverse, packet_iv};
use crate::error::{bytes_result, ErrorKind};
use crate::pipeline::{
    law_generated_tag_is_authentic, law_no_index_is_accepted_twice,
    law_refused_packet_is_not_recorded, law_shared_keys_give_one_session,
    law_shared_keys_stay_shared,
};
use crate::protocol::{Protocol, Ssrc, U48};
use crate::rtp::{
    law_header_read_then_written, law_header_written_then_read, parsed, RtpFixedHeader,
};
use crate::stream::{SsrcContext, StreamModel};
use vstd::arithmetic::div_mod::lemma_fundamental_div_mod_converse;
use vstd::prelude::*;

verus! {

/// SRTP (RTP) per-SSRC state.
/// Tracks the rollover counter and highest sequence number for index estimation.
#[derive(Debug, Clone, Copy, PartialEq, Eq, Structural)]
pub struct Srtp {
    pub rollover_counter: u32,
    pub highest_seq_num: u16,
}

impl Default for Srtp {
    fn default() -> (r: Self)
        ensures
            r == Srtp::initial(),
    {
        Srtp { rollover_counter: 0, highest_seq_num: 0 }
    }
}

/// The packet index made of a rollover counter and a sequence number.
pub open spec fn index_of(roc: int, seq_num: int) -> int {
    roc * 0x1_0000 + seq_num
}

/// The rollover counter that a packet index carries.
pub open spec fn roc_of(index: u64) -> int {
    index as int / 0x1_0000 % 0x1_0000_0000
}

/// The sequence number that a packet index carries.
pub open spec fn seq_num_of(index: u64) -> int {
    index as int % 0x1_0000
}

/// How far apart two packet indices lie on the circle of the 48-bit numbers.
pub open spec fn index_distance(a: int, b: int) -> int {
    let up = (a - b) % 0x1_0000_0000_0000;
    let down = (b - a) % 0x1_0000_0000_0000;
    if up <= down {
        up
    } else {
        down
    }
}

impl Srtp {
    /// The highest packet index so far.
    pub open spec fn highest_index(self) -> int {
        index_of(self.rollover_counter as int, self.highest_seq_num as int)
    }

    /// The rollover counter under which a received sequence number most likely was sent: the one
    /// before if the number lies more than half the range above the highest seen, the one after if
    /// it lies more than half the range below, and the current one otherwise. Counters wrap.
    pub open spec fn estimated_roc(self, seq_num: u16) -> int {
        let roc = self.rollover_counter as int;
        if seq_num - self.highest_seq_num > 0x8000 {
            (roc - 1) % 0x1_0000_0000
        } else if self.highest_seq_num - seq_num > 0x8000 {
            (roc + 1) % 0x1_0000_0000
        } else {
            roc
        }
    }

    /// The estimated packet index of a received sequence number.
    pub open spec fn estimated_index(self, seq_num: u16) -> u64 {
        index_of(self.estimated_roc(seq_num), seq_num as int) as u64
    }

    /// The state after a packet with this index: the pair of rollover counter and sequence number
    /// that is the higher one.
    pub open spec fn advanced(self, index: u64) -> Self {
        let roc = roc_of(index);
        let seq_num = seq_num_of(index);
        if roc > self.rollover_counter || roc == self.rollover_counter && seq_num
            > self.highest_seq_num {
            Srtp { rollover_counter: roc as u32, highest_seq_num: seq_num as u16 }
        } else {
            self
        }
    }

    /// Parse the 16-bit RTP sequence number from a raw packet buffer.
    fn parse_seq_num(packet: &[u8]) -> (r: Result<u16, ErrorKind>)
        ensures
            r == match parsed(packet@) {
                Ok((h, _)) => Ok::<u16, ErrorKind>(h.seq_num),
                Err(e) => Err(e),
            },
    {
        match RtpFixedHeader::read_from(packet) {
            Ok((header, _)) => Ok(header.seq_num),
            Err(e) => Err(e),
        }
    }

    /// Estimate the 48-bit packet index from the 16-bit sequence number using
    /// the current rollover counter, minimising the absolute index distance.
    pub fn estimate_packet_index(state: &Self, seq_num: u16) -> (r: U48)
        ensures
            r == state.estimated_index(seq_num),
            r == index_of(state.estimated_roc(seq_num), seq_num as int),
            r < 0x1_0000_0000_0000,
    {
        let mid: u16 = 0x8000;
        let probable_roc: u32 = if state.highest_seq_num < mid {
            if state.highest_seq_num + mid < seq_num {
                state.rollover_counter.wrapping_sub(1)
            } else {
                state.rollover_counter
            }
        } else if state.highest_seq_num - mid > seq_num {
            state.rollover_counter.wrapping_add(1)
        } else {
            state.rollover_counter
        };
        (probable_roc as u64) * 0x1_0000 + seq_num as u64
    }
}

impl Protocol for Srtp {
    type PacketIndex = U48;

    const ENC_KEY_LABEL: u8 = 0;

    const AUTH_KEY_LABEL: u8 = 1;

    const SALT_KEY_LABEL: u8 = 2;

    open spec fn key_labels() -> (u8, u8, u8) {
        (0, 1, 2)
    }

    open spec fn index_value(index: U48) -> u64 {
        index
    }

    open spec fn initial() -> Self {
        Srtp { rollover_counter: 0, highest_seq_num: 0 }
    }

    open spec fn ssrc_of(packet: Seq<u8>) -> Result<Ssrc, ErrorKind> {
        match parsed(packet) {
            Ok((h, _)) => Ok(h.ssrc),
            Err(e) => Err(e),
        }
    }

    open spec fn index_readable(tag_len: int, packet: Seq<u8>) -> bool {
        true
    }

    open spec fn incoming_index(tag_len: int, state: Self, packet: Seq<u8>) -> Result<
        U48,
        ErrorKind,
    > {
        Self::outgoing_index(state, packet)
    }

    open spec fn outgoing_index(state: Self, packet: Seq<u8>) -> Result<U48, ErrorKind> {
        match parsed(packet) {
            Ok((h, _)) => Ok(state.estimated_index(h.seq_num)),
            Err(e) => Err(e),
        }
    }

    open spec fn authenticated_bytes(index: U48, portion: Seq<u8>) -> Result<Seq<u8>, ErrorKind> {
        Ok(portion + be_bytes(roc_of(index) as nat, 4))
    }

    open spec fn openable(tag_len: int, packet: Seq<u8>) -> bool {
        parsed(packet) matches Ok((_, n)) ==> packet.len() >= n + tag_len
    }

    open spec fn opened(
        tag_len: int,
        stream: StreamModel<Self>,
        packet: Seq<u8>,
        index: U48,
    ) -> Result<Seq<u8>, ErrorKind> {
        match parsed(packet) {
            Ok((h, n)) => Ok(
                packet.take(n) + stream.keystreamed(
                    packet.subrange(n, packet.len() - tag_len),
                    h.ssrc,
                    index,
                ),
            ),
            Err(e) => Err(e),
        }
    }

    open spec fn sealed(stream: StreamModel<Self>, packet: Seq<u8>, index: U48) -> Result<
        Seq<u8>,
        ErrorKind,
    > {
        match parsed(packet) {
            Ok((h, n)) => Ok(
                packet.take(n) + stream.keystreamed(packet.skip(n), h.ssrc, index),
            ),
            Err(e) => Err(e),
        }
    }

    open spec fn after_received(state: Self, index: U48) -> Self {
        state.advanced(index)
    }

    open spec fn after_sent(state: Self, index: U48) -> Self {
        state.advanced(index)
    }

    proof fn lemma_key_labels() {
    }

    proof fn lemma_initial(state: Self) {
    }

    fn packet_index_u64(index: U48) -> u64 {
        index
    }

    fn has_readable_index(_tag_len: usize, _packet: &[u8]) -> bool {
        true
    }

    fn has_room(tag_len: usize, packet: &[u8]) -> bool {
        match RtpFixedHeader::read_from(packet) {
            Ok((_, len)) => packet.len() - len >= tag_len,
            Err(_) => true,
        }
    }

    fn read_ssrc(packet: &[u8]) -> Result<Ssrc, ErrorKind> {
        match RtpFixedHeader::read_from(packet) {
            Ok((header, _)) => Ok(header.ssrc),
            Err(e) => Err(e),
        }
    }

    fn determine_incoming_packet_index(
        _context: &Context<Self>,
        ssrc_context: &SsrcContext<Self>,
        packet: &[u8],
    ) -> Result<U48, ErrorKind> {
        match Srtp::parse_seq_num(packet) {
            Ok(seq_num) => Ok(
                Srtp::estimate_packet_index(&ssrc_context.protocol_specific, seq_num),
            ),
            Err(e) => Err(e),
        }
    }

    fn determine_outgoing_packet_index(context: &SsrcContext<Self>, packet: &[u8]) -> Result<
        U48,
        ErrorKind,
    > {
        match Srtp::parse_seq_num(packet) {
            Ok(seq_num) => Ok(Srtp::estimate_packet_index(&context.protocol_specific, seq_num)),
            Err(e) => Err(e),
        }
    }

    /// For SRTP the authenticated bytes are: RTP header + payload + rollover counter.
    /// The counter is not in the wire packet but is appended here for HMAC input.
    fn get_authenticated_bytes(
        _context: &Context<Self>,
        index: U48,
        auth_portion: &[u8],
    ) -> Result<Vec<u8>, ErrorKind> {
        let roc: u32 = (index / 0x1_0000 % 0x1_0000_0000) as u32;
        let mut auth_bytes = vstd::slice::slice_to_vec(auth_portion);
        auth_bytes.extend_from_slice(&u32_bytes(roc));
        assert(auth_bytes@ =~= Self::authenticated_bytes(index, auth_portion@)->Ok_0);
        Ok(auth_bytes)
    }

    fn decrypt(
        context: &Context<Self>,
        ssrc_context: &SsrcContext<Self>,
        packet: &[u8],
        index: U48,
    ) -> Result<Vec<u8>, ErrorKind> {
        let (header, len) = match RtpFixedHeader::read_from(packet) {
            Ok(header) => header,
            Err(e) => return Err(e),
        };
        // Everything after the header, minus the trailing auth tag.
        let encrypted_portion = &packet[len..packet.len() - context.auth_tag_len];
        let mut decrypted: Vec<u8> = Vec::new();
        match header.write_to(&mut decrypted) {
            Ok(()) => {},
            Err(e) => return Err(e),
        }
        ssrc_context.apply_keystream(encrypted_portion, &mut decrypted, header.ssrc, index);
        proof {
            law_header_read_then_written(packet@);
            assert(decrypted@ =~= Self::opened(
                context@.auth_tag_len as int,
                ssrc_context@,
                packet@,
                index,
            )->Ok_0);
        }
        Ok(decrypted)
    }

    fn encrypt(
        _context: &Context<Self>,
        ssrc_context: &SsrcContext<Self>,
        packet: &[u8],
        index: U48,
    ) -> Result<Vec<u8>, ErrorKind> {
        let (header, len) = match RtpFixedHeader::read_from(packet) {
            Ok(header) => header,
            Err(e) => return Err(e),
        };
        // The full payload: there is no auth tag yet.
        let plaintext_portion = &packet[len..packet.len()];
        let mut encrypted: Vec<u8> = Vec::new();
        match header.write_to(&mut encrypted) {
            Ok(()) => {},
            Err(e) => return Err(e),
        }
        ssrc_context.apply_keystream(plaintext_portion, &mut encrypted, header.ssrc, index);
        proof {
            law_header_read_then_written(packet@);
            assert(plaintext_portion@ =~= packet@.skip(len as int));
            assert(encrypted@ =~= Self::sealed(ssrc_context@, packet@, index)->Ok_0);
        }
        Ok(encrypted)
    }

    fn update_highest_recv_index(context: &mut SsrcContext<Self>, index: U48) {
        let roc: u32 = (index / 0x1_0000 % 0x1_0000_0000) as u32;
        let seq_num: u16 = (index % 0x1_0000) as u16;
        let state = context.protocol_specific;
        if roc == state.rollover_counter {
            if seq_num > state.highest_seq_num {
                context.protocol_specific = Srtp {
                    rollover_counter: state.rollover_counter,
                    highest_seq_num: seq_num,
                };
            }
        } else if roc > state.rollover_counter {
            context.protocol_specific = Srtp { rollover_counter: roc, highest_seq_num: seq_num };
        }
    }

    /// Outgoing packets may arrive out of order at the far end, so the same tracking as for
    /// receiving is used.
    fn update_highest_sent_index(context: &mut SsrcContext<Self>, index: U48) {
        Self::update_highest_recv_index(context, index);
    }
}

/// The distance of two indices that lie `d` apart, up to whole turns.
proof fn lemma_index_distance(a: int, b: int, d: int, turns: int)
    requires
        a - b == d + turns * 0x1_0000_0000_0000,
        -0x8000_0000_0000 <= d <= 0x8000_0000_0000,
    ensures
        index_distance(a, b) == if d >= 0 {
            d
        } else {
            -d
        },
{
    let circle: int = 0x1_0000_0000_0000;
    if d > 0 {
        lemma_fundamental_div_mod_converse(a - b, circle, turns, d);
        lemma_fundamental_div_mod_converse(b - a, circle, -turns - 1, circle - d);
    } else if d < 0 {
        lemma_fundamental_div_mod_converse(a - b, circle, turns - 1, circle + d);
        lemma_fundamental_div_mod_converse(b - a, circle, -turns, -d);
    } else {
        lemma_fundamental_div_mod_converse(a - b, circle, turns, 0);
        lemma_fundamental_div_mod_converse(b - a, circle, -turns, 0);
    }
}

/// The estimate lies `d` from the highest index so far, up to whole turns.
proof fn lemma_estimate_offset(state: Srtp, seq_num: u16) -> (r: (int, int))
    ensures
        -0x8000 <= r.0 <= 0x8000,
        state.estimated_index(seq_num) == index_of(state.estimated_roc(seq_num), seq_num as int),
        0 <= state.estimated_roc(seq_num) < 0x1_0000_0000,
        state.estimated_index(seq_num) - state.highest_index() == r.0 + r.1 * 0x1_0000_0000_0000,
{
    let roc = state.rollover_counter as int;
    let step = seq_num - state.highest_seq_num;
    if step > 0x8000 {
        (step - 0x1_0000, if roc == 0 {
            1
        } else {
            0
        })
    } else if step < -0x8000 {
        (step + 0x1_0000, if roc == 0xffff_ffff {
            -1
        } else {
            0
        })
    } else {
        (step, 0)
    }
}

/// Indices of one sequence number under different rollover counters are at least one counter
/// apart, so at most one of them is near.
proof fn lemma_other_roc_is_far(highest: int, near: int, d: int, turns: int, rocs: int)
    requires
        near - highest == d + turns * 0x1_0000_0000_0000,
        -0x8000 <= d <= 0x8000,
        -0x1_0000_0000 < rocs < 0x1_0000_0000,
        rocs != 0,
    ensures
        index_distance(near + rocs * 0x1_0000, highest) >= 0x8000,
{
    let other = near + rocs * 0x1_0000;
    let offset = d + rocs * 0x1_0000;
    let half: int = 0x8000_0000_0000;
    if offset > half {
        lemma_index_distance(other, highest, offset - 2 * half, turns + 1);
    } else if offset < -half {
        lemma_index_distance(other, highest, offset + 2 * half, turns - 1);
    } else {
        lemma_index_distance(other, highest, offset, turns);
    }
}

/// Of all rollover counters, the estimated one puts the received sequence number nearest to the
/// highest index so far.
pub proof fn law_estimate_is_nearest(state: Srtp, seq_num: u16, roc: u32)
    ensures
        index_distance(state.estimated_index(seq_num) as int, state.highest_index())
            <= index_distance(index_of(roc as int, seq_num as int), state.highest_index()),
{
    let estimate = state.estimated_index(seq_num) as int;
    let (d, turns) = lemma_estimate_offset(state, seq_num);
    lemma_index_distance(estimate, state.highest_index(), d, turns);
    let rocs = roc - state.estimated_roc(seq_num);
    if rocs != 0 {
        lemma_other_roc_is_far(state.highest_index(), estimate, d, turns, rocs);
    }
}

/// A packet whose true index lies within half the sequence-number range of the highest index so
/// far is given that index.
pub proof fn law_estimate_recovers_near_index(state: Srtp, index: u64)
    requires
        index < 0x1_0000_0000_0000,
        index_distance(index as int, state.highest_index()) < 0x8000,
    ensures
        state.estimated_index(seq_num_of(index) as u16) == index,
{
    let seq_num = seq_num_of(index) as u16;
    let estimate = state.estimated_index(seq_num) as int;
    assert(index as int == index_of(roc_of(index), seq_num as int));
    let (d, turns) = lemma_estimate_offset(state, seq_num);
    let rocs = roc_of(index) - state.estimated_roc(seq_num);
    if rocs != 0 {
        lemma_other_roc_is_far(state.highest_index(), estimate, d, turns, rocs);
    }
}

/// The estimate is the highest index so far moved by the shortest way to the received sequence
/// number, on the circle of the 48-bit numbers. Where both ways are as long, the rollover counter
/// stays.
pub proof fn law_estimate_goes_the_shortest_way(state: Srtp, seq_num: u16, way: int)
    requires
        (state.highest_seq_num + way - seq_num) % 0x1_0000 == 0,
        -0x8000 < way < 0x8000 || (way == seq_num - state.highest_seq_num && -0x8000 <= way
            <= 0x8000),
    ensures
        state.estimated_index(seq_num) == (state.highest_index() + way) % 0x1_0000_0000_0000,
        state.estimated_index(seq_num) % 0x1_0000 == seq_num,
{
    let roc = state.rollover_counter as int;
    let step = seq_num - state.highest_seq_num;
    let circle: int = 0x1_0000_0000_0000;
    lemma_estimate_offset(state, seq_num);
    let estimate = state.estimated_index(seq_num) as int;
    assert(way == step || way == step - 0x1_0000 || way == step + 0x1_0000);
    let target = state.highest_index() + way;
    if step > 0x8000 {
        assert(way == step - 0x1_0000);
        lemma_fundamental_div_mod_converse(
            target,
            circle,
            if roc == 0 {
                -1
            } else {
                0
            },
            estimate,
        );
    } else if step < -0x8000 {
        assert(way == step + 0x1_0000);
        lemma_fundamental_div_mod_converse(
            target,
            circle,
            if roc == 0xffff_ffff {
                1
            } else {
                0
            },
            estimate,
        );
    } else {
        assert(way == step);
        lemma_fundamental_div_mod_converse(target, circle, 0, estimate);
    }
}

/// Receiving or sending under an index moves the highest index of a source to the higher of the
/// two, and never elsewhere.
pub proof fn law_highest_index_moves_up_only(state: Srtp, index: u64)
    ensures
        ({
            let highest = if index as int % 0x1_0000_0000_0000 > state.highest_index() {
                index as int % 0x1_0000_0000_0000
            } else {
                state.highest_index()
            };
            &&& Srtp::after_received(state, index).highest_index() == highest
            &&& Srtp::after_sent(state, index).highest_index() == highest
        }),
{
    assert(index as int % 0x1_0000_0000_0000 == index_of(roc_of(index), seq_num_of(index))) by {
        let v = index as int;
        assert(v == 0x1_0000 * (v / 0x1_0000) + v % 0x1_0000);
        assert(v / 0x1_0000 == 0x1_0000_0000 * (v / 0x1_0000 / 0x1_0000_0000) + roc_of(index));
        lemma_fundamental_div_mod_converse(
            v,
            0x1_0000_0000_0000,
            v / 0x1_0000 / 0x1_0000_0000,
            index_of(roc_of(index), seq_num_of(index)),
        );
    }
}

/// The highest index is spelt by rollover counter and sequence number.
pub proof fn law_highest_index_is_spelt_by_the_state(state: Srtp)
    ensures
        state.highest_index() == state.rollover_counter * 0x1_0000 + state.highest_seq_num,
{
}

/// The highest index tells rollover counter and sequence number apart.
pub proof fn law_highest_index_tells_the_state(a: Srtp, b: Srtp)
    requires
        a.highest_index() == b.highest_index(),
    ensures
        a == b,
{
}

/// Once the packet with an estimated index has been taken into account, its sequence number is
/// still given the same index.
pub proof fn law_estimate_is_stable(state: Srtp, seq_num: u16)
    ensures
        state.advanced(state.estimated_index(seq_num)).estimated_index(seq_num)
            == state.estimated_index(seq_num),
{
    let index = state.estimated_index(seq_num);
    assert(index == index_of(state.estimated_roc(seq_num), seq_num as int));
    assert(roc_of(index) == state.estimated_roc(seq_num));
    assert(seq_num_of(index) == seq_num);
}

/// A header is read alike from any bytes that begin with it.
proof fn lemma_parsed_by_prefix(s: Seq<u8>, t: Seq<u8>)
    requires
        parsed(s) is Ok,
        t.len() >= parsed(s)->Ok_0.1,
        t.take(parsed(s)->Ok_0.1) == s.take(parsed(s)->Ok_0.1),
    ensures
        parsed(t) == parsed(s),
{
    let (h, n) = parsed(s)->Ok_0;
    law_header_read_then_written(s);
    law_header_written_then_read(h, t.skip(n));
    assert(h.encoded() + t.skip(n) =~= t);
}

/// Receiving gives back what was sent: whatever `sender` makes of a packet, a receiver with the
/// same keys that gives the packet the same index, and has not received that index before, turns
/// into the packet again.
pub proof fn law_srtp_receiving_inverts_sending(
    sender: ContextModel<Srtp>,
    receiver: ContextModel<Srtp>,
    packet: Seq<u8>,
)
    requires
        sender.outgoing(packet).0 is Ok,
        sender.auth_tag_len <= 20,
        ({
            let (h, _) = parsed(packet)->Ok_0;
            let index = sender.stream_of(h.ssrc).state.estimated_index(h.seq_num);
            &&& sender.shares_keys(receiver, h.ssrc)
            &&& receiver.admits(h.ssrc)
            &&& receiver.stream_of(h.ssrc).state.estimated_index(h.seq_num) == index
            &&& receiver.stream_of(h.ssrc).window.len() > 0
            &&& !receiver.stream_of(h.ssrc).seen(index as int)
        }),
    ensures
        receiver.incoming_fits(sender.outgoing(packet).0->Ok_0),
        receiver.incoming(sender.outgoing(packet).0->Ok_0).0 == Ok::<Seq<u8>, ErrorKind>(packet),
{
    let (h, n) = parsed(packet)->Ok_0;
    let index = sender.stream_of(h.ssrc).state.estimated_index(h.seq_num);
    law_header_read_then_written(packet);
    law_shared_keys_give_one_session(sender, receiver, h.ssrc, index);
    let sending = sender.admitted(h.ssrc).rekeyed(h.ssrc, index).streams[h.ssrc];
    let receiving = receiver.admitted(h.ssrc).rekeyed(h.ssrc, index).streams[h.ssrc];
    let body = Srtp::sealed(sending, packet, index)->Ok_0;
    let tag = sender.tag_of(sending.auth_key, body, index)->Ok_0;
    let cipher = body + tag;
    assert(cipher.take(n) =~= packet.take(n));
    lemma_parsed_by_prefix(packet, cipher);
    law_generated_tag_is_authentic(receiver, receiving.auth_key, body, index);
    let tag_len = receiver.auth_tag_len as int;
    assert(cipher.subrange(n, cipher.len() - tag_len) =~= sending.keystreamed(
        packet.skip(n),
        h.ssrc,
        index,
    ));
    law_keystream_is_self_inverse(
        sending.encr_key,
        packet_iv(sending.salt_key, h.ssrc, index as nat),
        packet.skip(n),
    );
    assert(packet.take(n) + packet.skip(n) =~= packet);
}

/// Whether a receiver follows a sender: they share the keys of a source, expect the same indices
/// of it, and the receiver has received none above those.
pub open spec fn srtp_in_step(
    sender: ContextModel<Srtp>,
    receiver: ContextModel<Srtp>,
    ssrc: Ssrc,
) -> bool {
    &&& sender.shares_keys(receiver, ssrc)
    &&& sender.admits(ssrc)
    &&& receiver.admits(ssrc)
    &&& receiver.stream_of(ssrc).window.len() > 0
    &&& receiver.stream_of(ssrc).state == sender.stream_of(ssrc).state
    &&& receiver.stream_of(ssrc).head <= sender.stream_of(ssrc).state.highest_index()
}

/// As long as a source's indices grow, a receiver that follows the sender accepts every packet,
/// gives it back as it was, and still follows the sender.
pub proof fn law_srtp_receiver_keeps_in_step(
    sender: ContextModel<Srtp>,
    receiver: ContextModel<Srtp>,
    packet: Seq<u8>,
)
    requires
        parsed(packet) is Ok,
        sender.auth_tag_len <= 20,
        ({
            let (h, _) = parsed(packet)->Ok_0;
            let state = sender.stream_of(h.ssrc).state;
            &&& srtp_in_step(sender, receiver, h.ssrc)
            &&& state.estimated_index(h.seq_num) > state.highest_index()
        }),
    ensures
        ({
            let cipher = sender.outgoing(packet).0->Ok_0;
            &&& sender.outgoing(packet).0 is Ok
            &&& receiver.incoming_fits(cipher)
            &&& receiver.incoming(cipher).0 == Ok::<Seq<u8>, ErrorKind>(packet)
            &&& srtp_in_step(
                sender.outgoing(packet).1,
                receiver.incoming(cipher).1,
                parsed(packet)->Ok_0.0.ssrc,
            )
        }),
{
    let (h, n) = parsed(packet)->Ok_0;
    let cipher = sender.outgoing(packet).0->Ok_0;
    let state = sender.stream_of(h.ssrc).state;
    let index = state.estimated_index(h.seq_num);
    lemma_estimate_offset(state, h.seq_num);
    law_srtp_receiving_inverts_sending(sender, receiver, packet);
    law_shared_keys_stay_shared(sender, receiver, h.ssrc, packet, cipher);
    lemma_sent_header(sender, packet);
    let sent = sender.outgoing(packet).1;
    let received = receiver.incoming(cipher).1;
    assert(sent.streams[h.ssrc].state == state.advanced(index));
    assert(received.streams[h.ssrc].state == state.advanced(index));
    assert(received.streams[h.ssrc].head == index);
    assert(roc_of(index) == state.estimated_roc(h.seq_num));
    assert(state.advanced(index).highest_index() == index);
}

/// Whatever the order in which a source's packets are sent, a receiver that follows the sender
/// still follows it after each of them. It gives the packet back as it was, unless it has received
/// the packet's index before or has left it behind; then it refuses the packet.
pub proof fn law_srtp_receiver_follows_in_any_order(
    sender: ContextModel<Srtp>,
    receiver: ContextModel<Srtp>,
    packet: Seq<u8>,
)
    requires
        parsed(packet) is Ok,
        sender.auth_tag_len <= 20,
        srtp_in_step(sender, receiver, parsed(packet)->Ok_0.0.ssrc),
    ensures
        ({
            let (h, _) = parsed(packet)->Ok_0;
            let cipher = sender.outgoing(packet).0->Ok_0;
            let index = sender.stream_of(h.ssrc).state.estimated_index(h.seq_num);
            &&& sender.outgoing(packet).0 is Ok
            &&& receiver.incoming(cipher).0 == if receiver.stream_of(h.ssrc).seen(index as int) {
                Err::<Seq<u8>, ErrorKind>(ErrorKind::Invalid)
            } else {
                Ok::<Seq<u8>, ErrorKind>(packet)
            }
            &&& srtp_in_step(sender.outgoing(packet).1, receiver.incoming(cipher).1, h.ssrc)
        }),
{
    let (h, n) = parsed(packet)->Ok_0;
    let cipher = sender.outgoing(packet).0->Ok_0;
    let state = sender.stream_of(h.ssrc).state;
    let stream = receiver.stream_of(h.ssrc);
    let index = state.estimated_index(h.seq_num);
    lemma_estimate_offset(state, h.seq_num);
    law_shared_keys_stay_shared(sender, receiver, h.ssrc, packet, cipher);
    lemma_sent_header(sender, packet);
    law_highest_index_moves_up_only(state, index);
    let sent = sender.outgoing(packet).1;
    let received = receiver.incoming(cipher).1;
    assert(sent.streams[h.ssrc].state == Srtp::after_sent(state, index));
    if stream.seen(index as int) {
        assert(index <= stream.head);
        law_highest_index_tells_the_state(Srtp::after_sent(state, index), state);
        assert(received.streams[h.ssrc].state == state);
        assert(received.streams[h.ssrc].head == stream.head);
        assert(received.streams[h.ssrc].window == stream.window);
    } else {
        law_srtp_receiving_inverts_sending(sender, receiver, packet);
        law_highest_index_tells_the_state(
            Srtp::after_sent(state, index),
            Srtp::after_received(state, index),
        );
        assert(received.streams[h.ssrc].state == Srtp::after_received(state, index));
    }
}

/// The header of a sent packet is that of the packet.
proof fn lemma_sent_header(sender: ContextModel<Srtp>, packet: Seq<u8>)
    requires
        sender.outgoing(packet).0 is Ok,
    ensures
        parsed(sender.outgoing(packet).0->Ok_0) == parsed(packet),
{
    let (h, n) = parsed(packet)->Ok_0;
    law_header_read_then_written(packet);
    let cipher = sender.outgoing(packet).0->Ok_0;
    assert(cipher.take(n) =~= packet.take(n));
    lemma_parsed_by_prefix(packet, cipher);
}

/// Sending gives back what was received: whatever `receiver` makes of an accepted packet, a sender
/// with the same keys that gives it the same index turns into the packet again, tag included.
pub proof fn law_srtp_sending_inverts_receiving(
    receiver: ContextModel<Srtp>,
    sender: ContextModel<Srtp>,
    cipher: Seq<u8>,
)
    requires
        receiver.incoming_fits(cipher),
        receiver.incoming(cipher).0 is Ok,
        ({
            let (h, _) = parsed(cipher)->Ok_0;
            &&& receiver.shares_keys(sender, h.ssrc)
            &&& sender.admits(h.ssrc)
            &&& sender.stream_of(h.ssrc).state.estimated_index(h.seq_num) == receiver.stream_of(
                h.ssrc,
            ).state.estimated_index(h.seq_num)
        }),
    ensures
        sender.outgoing(receiver.incoming(cipher).0->Ok_0).0 == Ok::<Seq<u8>, ErrorKind>(cipher),
{
    let (h, n) = parsed(cipher)->Ok_0;
    let index = receiver.stream_of(h.ssrc).state.estimated_index(h.seq_num);
    law_header_read_then_written(cipher);
    law_shared_keys_give_one_session(receiver, sender, h.ssrc, index);
    let receiving = receiver.admitted(h.ssrc).rekeyed(h.ssrc, index).streams[h.ssrc];
    let tag_len = receiver.auth_tag_len as int;
    let hidden = cipher.subrange(n, cipher.len() - tag_len);
    let plain = Srtp::opened(tag_len, receiving, cipher, index)->Ok_0;
    assert(plain.take(n) =~= cipher.take(n));
    lemma_parsed_by_prefix(cipher, plain);
    assert(plain.skip(n) =~= receiving.keystreamed(hidden, h.ssrc, index));
    law_keystream_is_self_inverse(
        receiving.encr_key,
        packet_iv(receiving.salt_key, h.ssrc, index as nat),
        hidden,
    );
    let body = cipher.take(cipher.len() - tag_len);
    assert(cipher.take(n) + hidden =~= body);
    assert(body + cipher.skip(cipher.len() - tag_len) =~= cipher);
}

proof fn lemma_srtp_copies_refused(ctx: ContextModel<Srtp>, packet: Seq<u8>, copies: nat)
    requires
        ctx.wf(),
        ctx.incoming(packet).0 is Ok,
    ensures
        ({
            let ssrc = Srtp::ssrc_of(packet)->Ok_0;
            let accepted = ctx.incoming(packet).1;
            let end = accepted.after_receiving(Seq::new(copies, |i: int| packet));
            &&& accepted.streams.contains_key(ssrc)
            &&& end.streams.contains_key(ssrc)
            &&& end.streams[ssrc].state == accepted.streams[ssrc].state
            &&& end.incoming(packet).0 == Err::<Seq<u8>, ErrorKind>(ErrorKind::Invalid)
        }),
    decreases copies,
{
    let (h, _) = parsed(packet)->Ok_0;
    let repeats = Seq::new(copies, |i: int| packet);
    let accepted = ctx.incoming(packet).1;
    let end = accepted.after_receiving(repeats);
    if copies > 0 {
        let fewer = (copies - 1) as nat;
        assert(repeats.drop_last() =~= Seq::new(fewer, |i: int| packet));
        lemma_srtp_copies_refused(ctx, packet, fewer);
        law_refused_packet_is_not_recorded(
            accepted.after_receiving(repeats.drop_last()),
            packet,
            h.ssrc,
        );
    }
    law_estimate_is_stable(ctx.stream_of(h.ssrc).state, h.seq_num);
    law_no_index_is_accepted_twice(ctx, packet, repeats, packet);
}

/// An accepted packet is refused when it comes again, however often.
pub proof fn law_srtp_replays_are_refused(ctx: ContextModel<Srtp>, packet: Seq<u8>, copies: nat)
    requires
        ctx.wf(),
        ctx.incoming(packet).0 is Ok,
    ensures
        ctx.incoming(packet).1.after_receiving(Seq::new(copies, |i: int| packet)).incoming(
            packet,
        ).0 == Err::<Seq<u8>, ErrorKind>(ErrorKind::Invalid),
{
    lemma_srtp_copies_refused(ctx, packet, copies);
}

} // verus!
