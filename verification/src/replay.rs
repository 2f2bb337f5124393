//! What the replay window of a source says of its history: which indices have been accepted.
use crate::context::ContextModel;
use crate::error::ErrorKind;
use crate::pipeline::law_sources_are_isolated;
use crate::protocol::{Protocol, Ssrc};
use crate::rtp::parsed;
use crate::srtcp::Srtcp;
use crate::srtp::{index_of, law_highest_index_moves_up_only, roc_of, seq_num_of, Srtp};
use crate::stream::{lemma_slot_of_index, StreamModel};
use vstd::prelude::*;

verus! {

impl<P> StreamModel<P> {
    /// The window stands for exactly these accepted indices: the head is the highest of them, or 0
    /// where there is none, and inside the window the slot of an index is set if and only if the
    /// index is one of them.
    pub open spec fn remembers(self, accepted: Set<int>) -> bool {
        let size = self.window.len() as int;
        &&& forall|i: int| #[trigger] accepted.contains(i) ==> 0 <= i <= self.head
        &&& accepted.contains(self.head as int) || self.head == 0 && accepted =~= Set::empty()
        &&& forall|i: int|
            #![trigger accepted.contains(i)]
            #![trigger self.window[i % size]]
            0 <= i && self.head - size < i <= self.head ==> (self.window[i % size]
                <==> accepted.contains(i))
    }

    /// No index has been accepted yet.
    pub open spec fn untouched(self) -> bool {
        &&& self.window.len() > 0
        &&& self.head == 0
        &&& forall|slot: int| 0 <= slot < self.window.len() ==> !#[trigger] self.window[slot]
    }
}

impl<P: Protocol> ContextModel<P> {
    /// The indices under which packets of a source are accepted out of some packets received one
    /// after the other.
    pub open spec fn accepted_indices(self, packets: Seq<Seq<u8>>, ssrc: Ssrc) -> Set<int>
        decreases packets.len(),
    {
        if packets.len() == 0 {
            Set::empty()
        } else {
            let earlier = self.accepted_indices(packets.drop_last(), ssrc);
            let before = self.after_receiving(packets.drop_last());
            let packet = packets.last();
            if P::ssrc_of(packet) == Ok::<Ssrc, ErrorKind>(ssrc) && before.incoming(packet).0
                is Ok {
                earlier.insert(P::index_value(before.index_on_receipt(packet)->Ok_0) as int)
            } else {
                earlier
            }
        }
    }
}

/// A window that stands for some accepted indices turns away exactly those and the ones that it
/// has left behind.
pub proof fn law_window_turns_away_accepted_indices<P>(
    stream: StreamModel<P>,
    accepted: Set<int>,
    index: u64,
)
    requires
        stream.window.len() > 0,
        stream.remembers(accepted),
    ensures
        stream.seen(index as int) <==> accepted.contains(index as int) || index
            + stream.window.len() <= stream.head,
{
}

/// Recording an index that is not turned away adds that index to those the window stands for.
pub proof fn law_window_remembers_recorded_index<P>(
    stream: StreamModel<P>,
    accepted: Set<int>,
    index: u64,
)
    requires
        stream.window.len() > 0,
        stream.remembers(accepted),
        !stream.seen(index as int),
    ensures
        stream.recorded(index).remembers(accepted.insert(index as int)),
{
    let size = stream.window.len() as int;
    let after = stream.recorded(index);
    let more = accepted.insert(index as int);
    assert forall|i: int|
        0 <= i && after.head - size < i <= after.head implies (#[trigger] after.window[i % size]
        <==> more.contains(i)) by {
        lemma_slot_of_index(after.head as int, size, i);
        lemma_slot_of_index(after.head as int, size, index as int);
        if i <= stream.head {
            assert(stream.window[i % size] <==> accepted.contains(i));
        }
    }
}

/// One packet moves a window from the indices accepted before it to those accepted with it.
proof fn lemma_window_follows<P: Protocol>(
    ctx: ContextModel<P>,
    packet: Seq<u8>,
    ssrc: Ssrc,
    accepted: Set<int>,
)
    requires
        ctx.stream_of(ssrc).window.len() > 0,
        ctx.stream_of(ssrc).remembers(accepted),
    ensures
        ({
            let after = ctx.incoming(packet).1.stream_of(ssrc);
            let with = if P::ssrc_of(packet) == Ok::<Ssrc, ErrorKind>(ssrc) && ctx.incoming(
                packet,
            ).0 is Ok {
                accepted.insert(P::index_value(ctx.index_on_receipt(packet)->Ok_0) as int)
            } else {
                accepted
            };
            &&& after.window.len() == ctx.stream_of(ssrc).window.len()
            &&& after.remembers(with)
        }),
{
    let stream = ctx.stream_of(ssrc);
    if P::ssrc_of(packet) != Ok::<Ssrc, ErrorKind>(ssrc) {
        law_sources_are_isolated(ctx, packet, ssrc);
        assert(ctx.incoming(packet).1.stream_of(ssrc) == stream);
    } else if ctx.incoming(packet).0 is Ok {
        let value = P::index_value(ctx.index_on_receipt(packet)->Ok_0);
        let keyed = ctx.rekeyed_stream(stream, value);
        assert(keyed.remembers(accepted));
        law_window_remembers_recorded_index(keyed, accepted, value);
        let after = ctx.incoming(packet).1.stream_of(ssrc);
        assert(after.head == keyed.recorded(value).head);
        assert(after.window == keyed.recorded(value).window);
    } else {
        let after = ctx.incoming(packet).1.stream_of(ssrc);
        assert(after.head == stream.head);
        assert(after.window == stream.window);
    }
}

/// After any received packets, the window of a source that was untouched before them stands for
/// exactly the indices accepted from it.
pub proof fn law_window_remembers_history<P: Protocol>(
    ctx: ContextModel<P>,
    packets: Seq<Seq<u8>>,
    ssrc: Ssrc,
)
    requires
        ctx.stream_of(ssrc).untouched(),
    ensures
        ({
            let end = ctx.after_receiving(packets).stream_of(ssrc);
            &&& end.window.len() == ctx.stream_of(ssrc).window.len()
            &&& end.remembers(ctx.accepted_indices(packets, ssrc))
        }),
    decreases packets.len(),
{
    if packets.len() > 0 {
        law_window_remembers_history(ctx, packets.drop_last(), ssrc);
        lemma_window_follows(
            ctx.after_receiving(packets.drop_last()),
            packets.last(),
            ssrc,
            ctx.accepted_indices(packets.drop_last(), ssrc),
        );
    } else {
        let size = ctx.stream_of(ssrc).window.len() as int;
        assert(0int % size == 0) by {
            vstd::arithmetic::div_mod::lemma_small_mod(0, size as nat);
        }
    }
}

/// After any received packets, a packet of a source that was untouched before them is accepted
/// exactly if it is let in, authentic and complete, its index has not been accepted yet, and it
/// does not lie the window's size or more below one that has.
pub proof fn law_acceptance_follows_history<P: Protocol>(
    ctx: ContextModel<P>,
    packets: Seq<Seq<u8>>,
    packet: Seq<u8>,
    ssrc: Ssrc,
)
    requires
        ctx.stream_of(ssrc).untouched(),
        P::ssrc_of(packet) == Ok::<Ssrc, ErrorKind>(ssrc),
    ensures
        ({
            let end = ctx.after_receiving(packets);
            let accepted = ctx.accepted_indices(packets, ssrc);
            let size = ctx.stream_of(ssrc).window.len();
            end.incoming(packet).0 is Ok <==> {
                &&& end.admits(ssrc)
                &&& end.index_on_receipt(packet) is Ok
                &&& {
                    let index = end.index_on_receipt(packet)->Ok_0;
                    let value = P::index_value(index);
                    let keyed = end.rekeyed_stream(end.stream_of(ssrc), value);
                    &&& end.authentic(keyed.auth_key, packet, index)
                    &&& P::opened(end.auth_tag_len as int, keyed, packet, index) is Ok
                    &&& !accepted.contains(value as int)
                    &&& forall|other: int| #[trigger]
                        accepted.contains(other) ==> other < value + size
                }
            }
        }),
{
    let end = ctx.after_receiving(packets);
    let accepted = ctx.accepted_indices(packets, ssrc);
    law_window_remembers_history(ctx, packets, ssrc);
    if end.index_on_receipt(packet) is Ok {
        let value = P::index_value(end.index_on_receipt(packet)->Ok_0);
        let stream = end.stream_of(ssrc);
        let keyed = end.rekeyed_stream(stream, value);
        law_window_turns_away_accepted_indices(stream, accepted, value);
        assert(keyed.seen(value as int) == stream.seen(value as int));
        assert(accepted.contains(stream.head as int) || stream.head == 0);
        if end.admits(ssrc) {
            let known = end.admitted(ssrc).rekeyed(ssrc, value);
            assert(known.streams[ssrc] == keyed);
            assert(known.authentic(
                keyed.auth_key,
                packet,
                end.index_on_receipt(packet)->Ok_0,
            ) == end.authentic(keyed.auth_key, packet, end.index_on_receipt(packet)->Ok_0));
        }
    }
}

/// The head of an SRTP source's window and its highest rollover counter and sequence number move
/// together: from the start on, and through any received packets, they are the same index.
pub proof fn law_srtp_head_is_highest_index(
    ctx: ContextModel<Srtp>,
    packets: Seq<Seq<u8>>,
    ssrc: Ssrc,
)
    requires
        ctx.stream_of(ssrc).head == ctx.stream_of(ssrc).state.highest_index(),
    ensures
        ({
            let end = ctx.after_receiving(packets).stream_of(ssrc);
            end.head == end.state.highest_index()
        }),
    decreases packets.len(),
{
    if packets.len() > 0 {
        law_srtp_head_is_highest_index(ctx, packets.drop_last(), ssrc);
        let before = ctx.after_receiving(packets.drop_last());
        let packet = packets.last();
        let stream = before.stream_of(ssrc);
        if Srtp::ssrc_of(packet) != Ok::<Ssrc, ErrorKind>(ssrc) {
            law_sources_are_isolated(before, packet, ssrc);
        } else if before.incoming(packet).0 is Ok {
            let index = before.index_on_receipt(packet)->Ok_0;
            let after = before.incoming(packet).1.stream_of(ssrc);
            lemma_advanced_is_higher(stream.state, index);
            assert(after.state == stream.state.advanced(index));
        }
    }
}

/// After any received packets, in any order, the rollover counter and highest sequence number of a
/// source spell the highest of what they spelt before and the indices accepted.
pub proof fn law_srtp_receiving_keeps_the_highest_index(
    ctx: ContextModel<Srtp>,
    packets: Seq<Seq<u8>>,
    ssrc: Ssrc,
)
    ensures
        ({
            let start = ctx.stream_of(ssrc).state.highest_index();
            let end = ctx.after_receiving(packets).stream_of(ssrc).state.highest_index();
            let accepted = ctx.accepted_indices(packets, ssrc);
            &&& start <= end
            &&& forall|i: int| #[trigger] accepted.contains(i) ==> i <= end
            &&& end == start || accepted.contains(end)
        }),
    decreases packets.len(),
{
    if packets.len() > 0 {
        let fewer = packets.drop_last();
        let packet = packets.last();
        law_srtp_receiving_keeps_the_highest_index(ctx, fewer, ssrc);
        let before = ctx.after_receiving(fewer);
        let state = before.stream_of(ssrc).state;
        let after = before.incoming(packet).1.stream_of(ssrc).state;
        let earlier = ctx.accepted_indices(fewer, ssrc);
        let all = ctx.accepted_indices(packets, ssrc);
        assert(ctx.after_receiving(packets) == before.incoming(packet).1);
        if Srtp::ssrc_of(packet) != Ok::<Ssrc, ErrorKind>(ssrc) {
            law_sources_are_isolated(before, packet, ssrc);
            assert(after == state && all == earlier);
        } else if before.incoming(packet).0 is Ok {
            let index = before.index_on_receipt(packet)->Ok_0;
            assert(index == state.estimated_index(parsed(packet)->Ok_0.0.seq_num));
            assert(index < 0x1_0000_0000_0000);
            law_highest_index_moves_up_only(state, index);
            assert(after == Srtp::after_received(state, index) && all == earlier.insert(index as int));
        } else {
            assert(after == state && all == earlier);
        }
        assert forall|i: int| #[trigger] all.contains(i) implies i <= after.highest_index() by {
            if earlier.contains(i) {
                assert(i <= state.highest_index());
            }
        }
    }
}

impl<P: Protocol> ContextModel<P> {
    /// The index that sending `packet` now would give it.
    pub open spec fn index_on_sending(self, packet: Seq<u8>) -> Result<P::PacketIndex, ErrorKind> {
        match P::ssrc_of(packet) {
            Ok(ssrc) => P::outgoing_index(self.stream_of(ssrc).state, packet),
            Err(e) => Err(e),
        }
    }

    /// The indices under which packets of a source are sent out of some packets given one after
    /// the other.
    pub open spec fn sent_indices(self, packets: Seq<Seq<u8>>, ssrc: Ssrc) -> Set<int>
        decreases packets.len(),
    {
        if packets.len() == 0 {
            Set::empty()
        } else {
            let earlier = self.sent_indices(packets.drop_last(), ssrc);
            let before = self.after_sending(packets.drop_last());
            let packet = packets.last();
            if P::ssrc_of(packet) == Ok::<Ssrc, ErrorKind>(ssrc) && before.outgoing(packet).0
                is Ok {
                earlier.insert(P::index_value(before.index_on_sending(packet)->Ok_0) as int)
            } else {
                earlier
            }
        }
    }
}

/// After any sent packets, in any order, the rollover counter and highest sequence number of a
/// source spell the highest of what they spelt before and the indices sent.
pub proof fn law_srtp_sending_keeps_the_highest_index(
    ctx: ContextModel<Srtp>,
    packets: Seq<Seq<u8>>,
    ssrc: Ssrc,
)
    ensures
        ({
            let start = ctx.stream_of(ssrc).state.highest_index();
            let end = ctx.after_sending(packets).stream_of(ssrc).state.highest_index();
            let sent = ctx.sent_indices(packets, ssrc);
            &&& start <= end
            &&& forall|i: int| #[trigger] sent.contains(i) ==> i <= end
            &&& end == start || sent.contains(end)
        }),
    decreases packets.len(),
{
    if packets.len() > 0 {
        let fewer = packets.drop_last();
        let packet = packets.last();
        law_srtp_sending_keeps_the_highest_index(ctx, fewer, ssrc);
        let before = ctx.after_sending(fewer);
        let state = before.stream_of(ssrc).state;
        let after = before.outgoing(packet).1.stream_of(ssrc).state;
        let earlier = ctx.sent_indices(fewer, ssrc);
        let all = ctx.sent_indices(packets, ssrc);
        assert(ctx.after_sending(packets) == before.outgoing(packet).1);
        if Srtp::ssrc_of(packet) != Ok::<Ssrc, ErrorKind>(ssrc) {
            law_sources_are_isolated(before, packet, ssrc);
            assert(after == state && all == earlier);
        } else if before.outgoing(packet).0 is Ok {
            let index = before.index_on_sending(packet)->Ok_0;
            assert(index == state.estimated_index(parsed(packet)->Ok_0.0.seq_num));
            assert(index < 0x1_0000_0000_0000);
            law_highest_index_moves_up_only(state, index);
            assert(after == Srtp::after_sent(state, index) && all == earlier.insert(index as int));
        } else {
            assert(after == state && all == earlier);
        }
        assert forall|i: int| #[trigger] all.contains(i) implies i <= after.highest_index() by {
            if earlier.contains(i) {
                assert(i <= state.highest_index());
            }
        }
    }
}

/// Sending touches no replay window: it is for what is received.
pub proof fn law_sending_leaves_replay_windows<P: Protocol>(
    ctx: ContextModel<P>,
    packet: Seq<u8>,
    ssrc: Ssrc,
)
    ensures
        ({
            let before = ctx.stream_of(ssrc);
            let after = ctx.outgoing(packet).1.stream_of(ssrc);
            after.head == before.head && after.window == before.window
        }),
{
    if P::ssrc_of(packet) != Ok::<Ssrc, ErrorKind>(ssrc) {
        law_sources_are_isolated(ctx, packet, ssrc);
    }
}

/// Receiving leaves the index of the SRTCP packets to be sent alone.
pub proof fn law_srtcp_receiving_leaves_sent_index(
    ctx: ContextModel<Srtcp>,
    packet: Seq<u8>,
    ssrc: Ssrc,
)
    ensures
        ctx.incoming(packet).1.stream_of(ssrc).state == ctx.stream_of(ssrc).state,
{
    if Srtcp::ssrc_of(packet) != Ok::<Ssrc, ErrorKind>(ssrc) {
        law_sources_are_isolated(ctx, packet, ssrc);
    }
}

/// Advancing takes the higher of two indices.
proof fn lemma_advanced_is_higher(state: Srtp, index: u64)
    requires
        index < 0x1_0000_0000_0000,
    ensures
        state.advanced(index).highest_index() == if index > state.highest_index() {
            index as int
        } else {
            state.highest_index()
        },
{
    assert(index as int == index_of(roc_of(index), seq_num_of(index)));
}

} // verus!
