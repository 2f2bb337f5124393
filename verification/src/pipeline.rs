//! What holds of the packet pipelines over one packet after another.
use crate::context::{derivation_period, ContextModel};
use crate::crypto::{derivation_input, law_derivation_blocks_are_distinct, prf_block};
use crate::error::ErrorKind;
use crate::protocol::{Protocol, Ssrc};
use crate::srtcp::Srtcp;
use crate::srtp::Srtp;
use crate::stream::{
    law_only_recorded_index_becomes_seen, law_recorded_index_is_seen, law_seen_stays_seen,
    StreamModel,
};
use vstd::arithmetic::power2::pow2;
use vstd::prelude::*;

verus! {

impl<P: Protocol> ContextModel<P> {
    /// The context after receiving some packets one after the other, accepted or not.
    pub open spec fn after_receiving(self, packets: Seq<Seq<u8>>) -> Self
        decreases packets.len(),
    {
        if packets.len() == 0 {
            self
        } else {
            self.after_receiving(packets.drop_last()).incoming(packets.last()).1
        }
    }

    /// The context after sending some packets one after the other, accepted or not.
    pub open spec fn after_sending(self, packets: Seq<Seq<u8>>) -> Self
        decreases packets.len(),
    {
        if packets.len() == 0 {
            self
        } else {
            self.after_sending(packets.drop_last()).outgoing(packets.last()).1
        }
    }

    /// The index that receiving `packet` now would give it.
    pub open spec fn index_on_receipt(self, packet: Seq<u8>) -> Result<P::PacketIndex, ErrorKind> {
        match P::ssrc_of(packet) {
            Ok(ssrc) => P::incoming_index(
                self.auth_tag_len as int,
                self.stream_of(ssrc).state,
                packet,
            ),
            Err(e) => Err(e),
        }
    }

    /// Whether two contexts derive the same session keys for a source and cut tags to one length.
    pub open spec fn shares_keys(self, other: Self, ssrc: Ssrc) -> bool {
        &&& self.master_key == other.master_key
        &&& self.master_salt == other.master_salt
        &&& self.key_derivation_rate == other.key_derivation_rate
        &&& self.auth_tag_len == other.auth_tag_len
        &&& self.stream_of(ssrc).encr_key.len() == other.stream_of(ssrc).encr_key.len()
        &&& self.stream_of(ssrc).salt_key.len() == other.stream_of(ssrc).salt_key.len()
        &&& self.stream_of(ssrc).auth_key.len() == other.stream_of(ssrc).auth_key.len()
    }
}

/// A packet changes none of the settings of a context: only streams and the budget of unknown
/// sources move. A well-formed context stays so.
pub proof fn law_packets_keep_settings<P: Protocol>(ctx: ContextModel<P>, packet: Seq<u8>)
    ensures
        ({
            let received = ctx.incoming(packet).1;
            received == ContextModel {
                unknown_ssrcs: received.unknown_ssrcs,
                streams: received.streams,
                ..ctx
            }
        }),
        ({
            let sent = ctx.outgoing(packet).1;
            sent == ContextModel { unknown_ssrcs: sent.unknown_ssrcs, streams: sent.streams, ..ctx }
        }),
        ctx.wf() ==> ctx.incoming(packet).1.wf() && ctx.outgoing(packet).1.wf(),
{
}

/// A packet leaves every source but its own as it was, known or unknown.
pub proof fn law_sources_are_isolated<P: Protocol>(
    ctx: ContextModel<P>,
    packet: Seq<u8>,
    other: Ssrc,
)
    requires
        P::ssrc_of(packet) != Ok::<Ssrc, ErrorKind>(other),
    ensures
        ({
            let received = ctx.incoming(packet).1;
            &&& received.streams.contains_key(other) == ctx.streams.contains_key(other)
            &&& received.streams[other] == ctx.streams[other]
        }),
        ({
            let sent = ctx.outgoing(packet).1;
            &&& sent.streams.contains_key(other) == ctx.streams.contains_key(other)
            &&& sent.streams[other] == ctx.streams[other]
        }),
{
}

/// A refused packet moves no replay window, no index and no rollover counter.
pub proof fn law_refused_packet_is_not_recorded<P: Protocol>(
    ctx: ContextModel<P>,
    packet: Seq<u8>,
    ssrc: Ssrc,
)
    requires
        ctx.incoming(packet).0 is Err,
        ctx.streams.contains_key(ssrc),
    ensures
        ({
            let before = ctx.streams[ssrc];
            let after = ctx.incoming(packet).1.streams[ssrc];
            &&& ctx.incoming(packet).1.streams.contains_key(ssrc)
            &&& after.head == before.head
            &&& after.window == before.window
            &&& after.state == before.state
        }),
{
}

/// Every source that a packet brings in is taken out of the budget of unknown sources, so the two
/// together never change.
pub proof fn law_new_sources_use_up_the_budget<P: Protocol>(ctx: ContextModel<P>, packet: Seq<u8>)
    requires
        ctx.streams.dom().finite(),
    ensures
        ctx.incoming(packet).1.streams.dom().finite(),
        ctx.incoming(packet).1.streams.len() + ctx.incoming(packet).1.unknown_ssrcs
            == ctx.streams.len() + ctx.unknown_ssrcs,
        ctx.outgoing(packet).1.streams.dom().finite(),
        ctx.outgoing(packet).1.streams.len() + ctx.outgoing(packet).1.unknown_ssrcs
            == ctx.streams.len() + ctx.unknown_ssrcs,
{
    if let Ok(ssrc) = P::ssrc_of(packet) {
        let known = ctx.admitted(ssrc);
        if ctx.admits(ssrc) {
            assert(known.streams.contains_key(ssrc));
            assert forall|stream: StreamModel<P>| #[trigger]
                known.streams.insert(ssrc, stream).dom() =~= known.streams.dom() by {}
            assert forall|a: StreamModel<P>, b: StreamModel<P>| #[trigger]
                known.streams.insert(ssrc, a).insert(ssrc, b).dom() =~= known.streams.dom() by {}
        }
    }
}

/// A source that is neither registered nor covered by the budget is refused, and nothing changes.
pub proof fn law_unknown_source_is_refused<P: Protocol>(ctx: ContextModel<P>, packet: Seq<u8>)
    requires
        P::ssrc_of(packet) is Ok,
        !ctx.streams.contains_key(P::ssrc_of(packet)->Ok_0),
        ctx.unknown_ssrcs == 0,
    ensures
        ctx.incoming(packet) == (Err::<Seq<u8>, ErrorKind>(ErrorKind::Invalid), ctx),
        ctx.outgoing(packet) == (Err::<Seq<u8>, ErrorKind>(ErrorKind::Invalid), ctx),
{
}

/// An index that counts as received still does after any further packet.
pub proof fn law_received_index_stays_received<P: Protocol>(
    ctx: ContextModel<P>,
    packet: Seq<u8>,
    ssrc: Ssrc,
    index: u64,
)
    requires
        ctx.wf(),
        ctx.streams.contains_key(ssrc),
        ctx.streams[ssrc].seen(index as int),
    ensures
        ctx.incoming(packet).1.streams.contains_key(ssrc),
        ctx.incoming(packet).1.streams[ssrc].seen(index as int),
{
    if P::ssrc_of(packet) == Ok::<Ssrc, ErrorKind>(ssrc) {
        if let Ok(idx) = ctx.index_on_receipt(packet) {
            let value = P::index_value(idx);
            let keyed = ctx.rekeyed_stream(ctx.streams[ssrc], value);
            law_seen_stays_seen(keyed, value, index);
        }
    } else {
        law_sources_are_isolated(ctx, packet, ssrc);
    }
}

/// An index comes to count as received only when a packet of the source is accepted under it, or
/// when the replay window leaves it behind.
pub proof fn law_only_accepted_indices_become_received<P: Protocol>(
    ctx: ContextModel<P>,
    packet: Seq<u8>,
    ssrc: Ssrc,
    index: u64,
)
    requires
        ctx.wf(),
        !ctx.stream_of(ssrc).seen(index as int),
        ctx.incoming(packet).1.stream_of(ssrc).seen(index as int),
    ensures
        ctx.incoming(packet).0 is Ok,
        P::ssrc_of(packet) == Ok::<Ssrc, ErrorKind>(ssrc),
        ({
            let after = ctx.incoming(packet).1.stream_of(ssrc);
            ||| P::index_value(ctx.index_on_receipt(packet)->Ok_0) == index
            ||| index + after.window.len() <= after.head
        }),
{
    if P::ssrc_of(packet) != Ok::<Ssrc, ErrorKind>(ssrc) {
        law_sources_are_isolated(ctx, packet, ssrc);
    } else if ctx.incoming(packet).0 is Ok {
        let value = P::index_value(ctx.index_on_receipt(packet)->Ok_0);
        let keyed = ctx.rekeyed_stream(ctx.stream_of(ssrc), value);
        law_only_recorded_index_becomes_seen(keyed, value, index);
    }
}

proof fn lemma_received_index_stays_received_through<P: Protocol>(
    ctx: ContextModel<P>,
    packets: Seq<Seq<u8>>,
    ssrc: Ssrc,
    index: u64,
)
    requires
        ctx.wf(),
        ctx.streams.contains_key(ssrc),
        ctx.streams[ssrc].seen(index as int),
    ensures
        ctx.after_receiving(packets).wf(),
        ctx.after_receiving(packets).streams.contains_key(ssrc),
        ctx.after_receiving(packets).streams[ssrc].seen(index as int),
    decreases packets.len(),
{
    if packets.len() > 0 {
        lemma_received_index_stays_received_through(ctx, packets.drop_last(), ssrc, index);
        let before = ctx.after_receiving(packets.drop_last());
        law_packets_keep_settings(before, packets.last());
        law_received_index_stays_received(before, packets.last(), ssrc, index);
    }
}

/// No index is accepted twice from a source: once a packet was accepted, whatever was received in
/// between, a packet of that source that is given the same index is refused.
pub proof fn law_no_index_is_accepted_twice<P: Protocol>(
    ctx: ContextModel<P>,
    packet: Seq<u8>,
    later: Seq<Seq<u8>>,
    again: Seq<u8>,
)
    requires
        ctx.wf(),
        ctx.incoming(packet).0 is Ok,
        P::ssrc_of(again) == P::ssrc_of(packet),
        ({
            let end = ctx.incoming(packet).1.after_receiving(later);
            end.index_on_receipt(again) is Ok && P::index_value(end.index_on_receipt(again)->Ok_0)
                == P::index_value(ctx.index_on_receipt(packet)->Ok_0)
        }),
    ensures
        ctx.incoming(packet).1.after_receiving(later).incoming(again).0 == Err::<
            Seq<u8>,
            ErrorKind,
        >(ErrorKind::Invalid),
{
    let ssrc = P::ssrc_of(packet)->Ok_0;
    let value = P::index_value(ctx.index_on_receipt(packet)->Ok_0);
    let accepted = ctx.incoming(packet).1;
    let keyed = ctx.rekeyed_stream(ctx.stream_of(ssrc), value);
    law_recorded_index_is_seen(keyed, value);
    law_packets_keep_settings(ctx, packet);
    assert(accepted.streams[ssrc].seen(value as int));
    lemma_received_index_stays_received_through(accepted, later, ssrc, value);
}

/// The tag made for a packet is the one that authenticates it, where the digest is long enough for
/// the tag.
pub proof fn law_generated_tag_is_authentic<P: Protocol>(
    ctx: ContextModel<P>,
    auth_key: Seq<u8>,
    body: Seq<u8>,
    index: P::PacketIndex,
)
    requires
        ctx.auth_tag_len <= 20,
        ctx.tag_of(auth_key, body, index) is Ok,
    ensures
        ctx.authentic(auth_key, body + ctx.tag_of(auth_key, body, index)->Ok_0, index),
{
    let tag = ctx.tag_of(auth_key, body, index)->Ok_0;
    let packet = body + tag;
    let body_len = packet.len() - ctx.auth_tag_len;
    assert(packet.take(body_len) =~= body);
    assert(packet.skip(body_len) =~= tag);
}

/// Packets whose indices fall into one period of the key-derivation rate have the same session
/// keys; with rate 0, all packets do.
pub proof fn law_keys_last_for_a_period<P: Protocol>(
    ctx: ContextModel<P>,
    stream: StreamModel<P>,
    index1: u64,
    index2: u64,
)
    requires
        ctx.key_derivation_rate == 0 || index1 as nat / pow2(
            (ctx.key_derivation_rate - 1) as nat,
        ) == index2 as nat / pow2((ctx.key_derivation_rate - 1) as nat),
    ensures
        ctx.rekeyed_stream(stream, index1) == ctx.rekeyed_stream(stream, index2),
{
    assert(derivation_period(ctx.key_derivation_rate, index1) == derivation_period(
        ctx.key_derivation_rate,
        index2,
    ));
}

/// Contexts that share keys give a source the same session keys for one index.
pub proof fn law_shared_keys_give_one_session<P: Protocol>(
    a: ContextModel<P>,
    b: ContextModel<P>,
    ssrc: Ssrc,
    index: u64,
)
    requires
        a.shares_keys(b, ssrc),
    ensures
        ({
            let in_a = a.rekeyed_stream(a.stream_of(ssrc), index);
            let in_b = b.rekeyed_stream(b.stream_of(ssrc), index);
            &&& in_a.encr_key == in_b.encr_key
            &&& in_a.salt_key == in_b.salt_key
            &&& in_a.auth_key == in_b.auth_key
        }),
{
}

/// The labels of the six session keys, of SRTP and of SRTCP.
pub open spec fn session_labels() -> Seq<u8> {
    let rtp = Srtp::key_labels();
    let rtcp = Srtcp::key_labels();
    seq![rtp.0, rtp.1, rtp.2, rtcp.0, rtcp.1, rtcp.2]
}

/// The session keys are independent: no block that one of them is derived from is a block of
/// another, whatever the periods.
pub proof fn law_session_keys_share_no_block(
    master_salt: Seq<u8>,
    key1: int,
    r1: nat,
    block1: nat,
    key2: int,
    r2: nat,
    block2: nat,
)
    requires
        0 <= key1 < session_labels().len(),
        0 <= key2 < session_labels().len(),
        key1 != key2,
        r1 < 0x1_0000_0000_0000,
        r2 < 0x1_0000_0000_0000,
        block1 < 0x1_0000,
        block2 < 0x1_0000,
    ensures
        prf_block(derivation_input(session_labels()[key1], r1, master_salt), block1) != prf_block(
            derivation_input(session_labels()[key2], r2, master_salt),
            block2,
        ),
{
    let label1 = session_labels()[key1];
    let label2 = session_labels()[key2];
    assert(label1 == key1 && label2 == key2);
    if prf_block(derivation_input(label1, r1, master_salt), block1) == prf_block(
        derivation_input(label2, r2, master_salt),
        block2,
    ) {
        law_derivation_blocks_are_distinct(master_salt, label1, r1, block1, label2, r2, block2);
    }
}

/// A sender and a receiver that share the keys of a source still do after any packet on either
/// side.
pub proof fn law_shared_keys_stay_shared<P: Protocol>(
    sender: ContextModel<P>,
    receiver: ContextModel<P>,
    ssrc: Ssrc,
    sent: Seq<u8>,
    received: Seq<u8>,
)
    requires
        sender.shares_keys(receiver, ssrc),
    ensures
        sender.outgoing(sent).1.shares_keys(receiver.incoming(received).1, ssrc),
{
    lemma_key_lengths_stay(sender, ssrc, sent);
    lemma_key_lengths_stay(receiver, ssrc, received);
    law_packets_keep_settings(sender, sent);
    law_packets_keep_settings(receiver, received);
}

proof fn lemma_key_lengths_stay<P: Protocol>(ctx: ContextModel<P>, ssrc: Ssrc, packet: Seq<u8>)
    ensures
        ({
            let before = ctx.stream_of(ssrc);
            let received = ctx.incoming(packet).1.stream_of(ssrc);
            let sent = ctx.outgoing(packet).1.stream_of(ssrc);
            &&& received.encr_key.len() == before.encr_key.len()
            &&& received.salt_key.len() == before.salt_key.len()
            &&& received.auth_key.len() == before.auth_key.len()
            &&& sent.encr_key.len() == before.encr_key.len()
            &&& sent.salt_key.len() == before.salt_key.len()
            &&& sent.auth_key.len() == before.auth_key.len()
        }),
{
    if P::ssrc_of(packet) != Ok::<Ssrc, ErrorKind>(ssrc) {
        law_sources_are_isolated(ctx, packet, ssrc);
    }
}

} // verus!
