//! How many unknown sources get in: the budget of a context over any sources that are asked for,
//! and over any packets in either direction.
use crate::context::ContextModel;
use crate::error::ErrorKind;
use crate::protocol::{Protocol, Ssrc};
use crate::stream::StreamModel;
use vstd::prelude::*;

verus! {

impl<P: Protocol> ContextModel<P> {
    /// The context after making sure of some sources one after the other, admitted or not.
    pub open spec fn after_ensuring(self, ssrcs: Seq<Ssrc>) -> Self
        decreases ssrcs.len(),
    {
        if ssrcs.len() == 0 {
            self
        } else {
            self.after_ensuring(ssrcs.drop_last()).ensured(ssrcs.last()).1
        }
    }

    /// The distinct ones of some sources that are not registered yet.
    pub open spec fn newcomers(self, ssrcs: Seq<Ssrc>) -> Set<Ssrc>
        decreases ssrcs.len(),
    {
        if ssrcs.len() == 0 {
            Set::empty()
        } else if self.streams.contains_key(ssrcs.last()) {
            self.newcomers(ssrcs.drop_last())
        } else {
            self.newcomers(ssrcs.drop_last()).insert(ssrcs.last())
        }
    }

    /// Whether a source comes up among some others while no more distinct new ones have come up
    /// than the budget covers.
    pub open spec fn comes_in_budget(self, ssrcs: Seq<Ssrc>, ssrc: Ssrc) -> bool {
        exists|k: int|
            0 <= k < ssrcs.len() && #[trigger] ssrcs[k] == ssrc && self.newcomers(
                ssrcs.take(k + 1),
            ).len() <= self.unknown_ssrcs
    }
}

/// Making sure of a registered source always succeeds and changes nothing. A new source takes one
/// out of the budget and is registered; it is refused exactly when the budget is used up, and then
/// nothing changes.
pub proof fn law_only_new_sources_cost<P: Protocol>(ctx: ContextModel<P>, ssrc: Ssrc)
    ensures
        ({
            let (result, after) = ctx.ensured(ssrc);
            &&& result is Err <==> !ctx.streams.contains_key(ssrc) && ctx.unknown_ssrcs == 0
            &&& result is Err ==> result == Err::<(), ErrorKind>(ErrorKind::Invalid) && after == ctx
            &&& ctx.streams.contains_key(ssrc) ==> after == ctx
            &&& !ctx.streams.contains_key(ssrc) && result is Ok ==> after.unknown_ssrcs
                == ctx.unknown_ssrcs - 1 && after.streams.dom() == ctx.streams.dom().insert(ssrc)
        }),
{
    assert(ctx.admitted(ssrc).streams.dom() =~= ctx.streams.dom().insert(ssrc)
        || ctx.streams.contains_key(ssrc));
}

/// Registered sources and what is left of the budget together never change, whichever sources are
/// asked for.
pub proof fn law_budget_is_kept<P: Protocol>(ctx: ContextModel<P>, ssrcs: Seq<Ssrc>)
    requires
        ctx.streams.dom().finite(),
    ensures
        ctx.after_ensuring(ssrcs).streams.dom().finite(),
        ctx.after_ensuring(ssrcs).streams.len() + ctx.after_ensuring(ssrcs).unknown_ssrcs
            == ctx.streams.len() + ctx.unknown_ssrcs,
    decreases ssrcs.len(),
{
    if ssrcs.len() > 0 {
        law_budget_is_kept(ctx, ssrcs.drop_last());
        law_only_new_sources_cost(ctx.after_ensuring(ssrcs.drop_last()), ssrcs.last());
    }
}

/// A source that comes in budget does so among the first ones, or as the last one.
proof fn lemma_comes_in_budget_step<P: Protocol>(
    ctx: ContextModel<P>,
    ssrcs: Seq<Ssrc>,
    ssrc: Ssrc,
)
    requires
        ssrcs.len() > 0,
    ensures
        ctx.comes_in_budget(ssrcs, ssrc) <==> ctx.comes_in_budget(ssrcs.drop_last(), ssrc) || (
        ssrcs.last() == ssrc && ctx.newcomers(ssrcs).len() <= ctx.unknown_ssrcs),
{
    let fewer = ssrcs.drop_last();
    let last = ssrcs.len() - 1;
    assert(ssrcs.take(last + 1) =~= ssrcs);
    assert(ssrcs[last] == ssrcs.last());
    assert forall|k: int| 0 <= k < last implies ssrcs.take(k + 1) == fewer.take(k + 1)
        && #[trigger] ssrcs[k] == fewer[k] by {
        assert(ssrcs.take(k + 1) =~= fewer.take(k + 1));
    }
    if ctx.comes_in_budget(fewer, ssrc) {
        let k = choose|k: int|
            0 <= k < fewer.len() && #[trigger] fewer[k] == ssrc && ctx.newcomers(
                fewer.take(k + 1),
            ).len() <= ctx.unknown_ssrcs;
        assert(ssrcs[k] == fewer[k]);
    }
    if ctx.comes_in_budget(ssrcs, ssrc) {
        let k = choose|k: int|
            0 <= k < ssrcs.len() && #[trigger] ssrcs[k] == ssrc && ctx.newcomers(
                ssrcs.take(k + 1),
            ).len() <= ctx.unknown_ssrcs;
        if k < last {
            assert(fewer[k] == ssrcs[k]);
        }
    }
}

proof fn lemma_admission<P: Protocol>(ctx: ContextModel<P>, ssrcs: Seq<Ssrc>)
    ensures
        ({
            let end = ctx.after_ensuring(ssrcs);
            let new = ctx.newcomers(ssrcs);
            &&& new.finite()
            &&& new.len() <= ctx.unknown_ssrcs ==> end.streams.dom() == ctx.streams.dom().union(new)
                && end.unknown_ssrcs == ctx.unknown_ssrcs - new.len()
            &&& new.len() > ctx.unknown_ssrcs ==> end.unknown_ssrcs == 0
            &&& forall|ssrc: Ssrc| #[trigger]
                end.streams.contains_key(ssrc) <==> ctx.streams.contains_key(ssrc)
                    || ctx.comes_in_budget(ssrcs, ssrc)
            &&& forall|ssrc: Ssrc| #[trigger]
                end.streams.contains_key(ssrc) ==> ctx.streams.contains_key(ssrc) || new.contains(
                    ssrc,
                )
        }),
    decreases ssrcs.len(),
{
    let end = ctx.after_ensuring(ssrcs);
    let new = ctx.newcomers(ssrcs);
    if ssrcs.len() == 0 {
        assert(end.streams.dom() =~= ctx.streams.dom().union(new));
    } else {
        let fewer = ssrcs.drop_last();
        let last = ssrcs.last();
        let before = ctx.after_ensuring(fewer);
        let earlier = ctx.newcomers(fewer);
        lemma_admission(ctx, fewer);
        assert forall|ssrc: Ssrc| #[trigger]
            ctx.comes_in_budget(ssrcs, ssrc) <==> ctx.comes_in_budget(fewer, ssrc) || (last == ssrc
                && new.len() <= ctx.unknown_ssrcs) by {
            lemma_comes_in_budget_step(ctx, ssrcs, ssrc);
        }
        law_only_new_sources_cost(before, last);
        if earlier.contains(last) {
            assert(earlier.insert(last) =~= earlier);
        }
        assert forall|ssrc: Ssrc| #[trigger] end.streams.contains_key(ssrc) <==> (
        before.streams.contains_key(ssrc) || ssrc == last && before.admits(last)) by {}
        if new.len() <= ctx.unknown_ssrcs {
            assert(end.streams.dom() =~= ctx.streams.dom().union(new));
        }
    }
}

/// Of the sources that were not registered, the first so many distinct ones get in as the budget
/// covers, and no others: a source is registered in the end exactly if it was before, or if it
/// came up while no more distinct new ones had come up than the budget covers.
pub proof fn law_exactly_the_budget_gets_in<P: Protocol>(ctx: ContextModel<P>, ssrcs: Seq<Ssrc>)
    requires
        ctx.streams.dom().finite(),
    ensures
        ({
            let end = ctx.after_ensuring(ssrcs);
            let new = ctx.newcomers(ssrcs).len();
            &&& end.streams.len() == ctx.streams.len() + if new <= ctx.unknown_ssrcs {
                new as int
            } else {
                ctx.unknown_ssrcs as int
            }
            &&& forall|ssrc: Ssrc| #[trigger]
                end.streams.contains_key(ssrc) <==> ctx.streams.contains_key(ssrc)
                    || ctx.comes_in_budget(ssrcs, ssrc)
        }),
{
    law_budget_is_kept(ctx, ssrcs);
    lemma_admission(ctx, ssrcs);
}

/// Whether a source is let in after any others: exactly if it was registered, or comes in budget
/// now. Else it is refused, and nothing changes.
pub proof fn law_source_is_let_in_by_budget<P: Protocol>(
    ctx: ContextModel<P>,
    ssrcs: Seq<Ssrc>,
    ssrc: Ssrc,
)
    ensures
        ({
            let before = ctx.after_ensuring(ssrcs);
            let (result, after) = before.ensured(ssrc);
            &&& result is Ok <==> ctx.streams.contains_key(ssrc) || ctx.comes_in_budget(
                ssrcs.push(ssrc),
                ssrc,
            )
            &&& result is Err ==> result == Err::<(), ErrorKind>(ErrorKind::Invalid) && after
                == before
        }),
{
    let longer = ssrcs.push(ssrc);
    assert(longer.drop_last() =~= ssrcs);
    lemma_admission(ctx, longer);
    law_only_new_sources_cost(ctx.after_ensuring(ssrcs), ssrc);
    assert(ctx.after_ensuring(longer).streams.contains_key(ssrc) <==> ctx.after_ensuring(
        ssrcs,
    ).admits(ssrc));
}

/// A source that was let in is let in again, whichever others come in between, and at no cost.
pub proof fn law_source_stays_let_in<P: Protocol>(
    ctx: ContextModel<P>,
    ssrc: Ssrc,
    later: Seq<Ssrc>,
)
    requires
        ctx.ensured(ssrc).0 is Ok,
    ensures
        ({
            let end = ctx.ensured(ssrc).1.after_ensuring(later);
            end.ensured(ssrc) == (Ok::<(), ErrorKind>(()), end)
        }),
{
    lemma_admission(ctx.ensured(ssrc).1, later);
}

/// A context without sources and with a budget of `unknown_ssrcs`: whichever sources are asked
/// for, registered ones and budget together stay that many; a source is let in at its turn exactly
/// if it is among the first so many distinct ones; and as many are registered in the end as there
/// are distinct ones, up to the budget.
pub proof fn law_new_context_lets_in_exactly_its_budget<P: Protocol>(
    ctx: ContextModel<P>,
    ssrcs: Seq<Ssrc>,
    turn: int,
)
    requires
        ctx.streams == Map::<Ssrc, StreamModel<P>>::empty(),
        0 <= turn < ssrcs.len(),
    ensures
        ({
            let after = ctx.after_ensuring(ssrcs.take(turn + 1));
            after.streams.len() + after.unknown_ssrcs == ctx.unknown_ssrcs
        }),
        ctx.after_ensuring(ssrcs.take(turn)).ensured(ssrcs[turn]).0 is Ok <==> exists|first: int|
            0 <= first <= turn && #[trigger] ssrcs[first] == ssrcs[turn] && ssrcs.take(
                first + 1,
            ).to_set().len() <= ctx.unknown_ssrcs,
        ctx.after_ensuring(ssrcs).streams.len() == if ssrcs.to_set().len() <= ctx.unknown_ssrcs {
            ssrcs.to_set().len() as int
        } else {
            ctx.unknown_ssrcs as int
        },
{
    let before = ssrcs.take(turn);
    let with = ssrcs.take(turn + 1);
    let ssrc = ssrcs[turn];
    assert(ctx.streams.dom() =~= Set::empty());
    assert(ctx.streams.len() == 0);
    assert(before.push(ssrc) =~= with);
    law_budget_is_kept(ctx, with);
    law_source_is_let_in_by_budget(ctx, before, ssrc);
    law_exactly_the_budget_gets_in(ctx, ssrcs);
    lemma_newcomers_to_empty(ctx, ssrcs);
    assert forall|first: int| 0 <= first <= turn implies #[trigger] ssrcs[first] == with[first]
        && ctx.newcomers(with.take(first + 1)) == ssrcs.take(first + 1).to_set() by {
        assert(with.take(first + 1) =~= ssrcs.take(first + 1));
        lemma_newcomers_to_empty(ctx, ssrcs.take(first + 1));
    }
    if ctx.comes_in_budget(with, ssrc) {
        let k = choose|k: int|
            0 <= k < with.len() && #[trigger] with[k] == ssrc && ctx.newcomers(
                with.take(k + 1),
            ).len() <= ctx.unknown_ssrcs;
        assert(ssrcs[k] == with[k]);
    }
}

/// To a context without sources, all are new.
proof fn lemma_newcomers_to_empty<P: Protocol>(ctx: ContextModel<P>, ssrcs: Seq<Ssrc>)
    requires
        ctx.streams == Map::<Ssrc, StreamModel<P>>::empty(),
    ensures
        ctx.newcomers(ssrcs) == ssrcs.to_set(),
    decreases ssrcs.len(),
{
    if ssrcs.len() > 0 {
        let fewer = ssrcs.drop_last();
        lemma_newcomers_to_empty(ctx, fewer);
        assert forall|ssrc: Ssrc|
            ssrcs.to_set().contains(ssrc) <==> #[trigger] fewer.to_set().insert(
                ssrcs.last(),
            ).contains(ssrc) by {
            if ssrcs.contains(ssrc) {
                let k = choose|k: int| 0 <= k < ssrcs.len() && ssrcs[k] == ssrc;
                if k < fewer.len() {
                    assert(fewer[k] == ssrc);
                }
            }
            if fewer.contains(ssrc) {
                let k = choose|k: int| 0 <= k < fewer.len() && fewer[k] == ssrc;
                assert(ssrcs[k] == ssrc);
            }
            assert(ssrcs[ssrcs.len() - 1] == ssrcs.last());
        }
        assert(ssrcs.to_set() =~= fewer.to_set().insert(ssrcs.last()));
    } else {
        assert(ssrcs.to_set() =~= Set::empty());
    }
}

/// A packet on its way through a context.
pub enum Passage {
    Received(Seq<u8>),
    Sent(Seq<u8>),
}

impl Passage {
    /// The bytes that the context is given.
    pub open spec fn bytes(self) -> Seq<u8> {
        match self {
            Passage::Received(packet) => packet,
            Passage::Sent(packet) => packet,
        }
    }
}

impl<P: Protocol> ContextModel<P> {
    /// What a packet gives, and the context after it.
    pub open spec fn passed(self, passage: Passage) -> (Result<Seq<u8>, ErrorKind>, Self) {
        match passage {
            Passage::Received(packet) => self.incoming(packet),
            Passage::Sent(packet) => self.outgoing(packet),
        }
    }

    /// The context after some packets one after the other, accepted or not.
    pub open spec fn after_passing(self, traffic: Seq<Passage>) -> Self
        decreases traffic.len(),
    {
        if traffic.len() == 0 {
            self
        } else {
            self.after_passing(traffic.drop_last()).passed(traffic.last()).1
        }
    }
}

/// The sources that some packets name, in turn. A packet that names none is passed over.
pub open spec fn sources_of<P: Protocol>(traffic: Seq<Passage>) -> Seq<Ssrc>
    decreases traffic.len(),
{
    if traffic.len() == 0 {
        Seq::empty()
    } else {
        match P::ssrc_of(traffic.last().bytes()) {
            Ok(ssrc) => sources_of::<P>(traffic.drop_last()).push(ssrc),
            Err(_) => sources_of::<P>(traffic.drop_last()),
        }
    }
}

/// Packets register sources and use up the budget exactly as making sure of the sources that they
/// name does, received or sent, accepted or not.
pub proof fn law_packets_make_sure_of_their_sources<P: Protocol>(
    ctx: ContextModel<P>,
    traffic: Seq<Passage>,
)
    ensures
        ({
            let passed = ctx.after_passing(traffic);
            let ensured = ctx.after_ensuring(sources_of::<P>(traffic));
            &&& passed.streams.dom() == ensured.streams.dom()
            &&& passed.unknown_ssrcs == ensured.unknown_ssrcs
        }),
    decreases traffic.len(),
{
    if traffic.len() > 0 {
        let fewer = traffic.drop_last();
        law_packets_make_sure_of_their_sources(ctx, fewer);
        let before = ctx.after_passing(fewer);
        if let Ok(ssrc) = P::ssrc_of(traffic.last().bytes()) {
            let sources = sources_of::<P>(fewer);
            let ensured = ctx.after_ensuring(sources);
            assert(sources.push(ssrc).drop_last() =~= sources);
            assert(before.streams.contains_key(ssrc) == before.streams.dom().contains(ssrc));
            assert(ensured.streams.contains_key(ssrc) == ensured.streams.dom().contains(ssrc));
            if before.admits(ssrc) {
                assert(before.passed(traffic.last()).1.streams.dom() =~= before.streams.dom().insert(
                    ssrc,
                ));
                assert(ensured.ensured(ssrc).1.streams.dom() =~= ensured.streams.dom().insert(
                    ssrc,
                ));
            }
        }
    }
}

/// Registered sources and budget together stay the same over any packets, and over packets that
/// are all received or all sent.
pub proof fn law_packets_keep_the_budget<P: Protocol>(
    ctx: ContextModel<P>,
    traffic: Seq<Passage>,
    packets: Seq<Seq<u8>>,
)
    requires
        ctx.streams.dom().finite(),
    ensures
        ctx.after_passing(traffic).streams.len() + ctx.after_passing(traffic).unknown_ssrcs
            == ctx.streams.len() + ctx.unknown_ssrcs,
        ctx.after_receiving(packets).streams.len() + ctx.after_receiving(packets).unknown_ssrcs
            == ctx.streams.len() + ctx.unknown_ssrcs,
        ctx.after_sending(packets).streams.len() + ctx.after_sending(packets).unknown_ssrcs
            == ctx.streams.len() + ctx.unknown_ssrcs,
{
    let received = packets.map_values(|packet: Seq<u8>| Passage::Received(packet));
    let sent = packets.map_values(|packet: Seq<u8>| Passage::Sent(packet));
    lemma_one_way(ctx, packets);
    law_packets_make_sure_of_their_sources(ctx, traffic);
    law_packets_make_sure_of_their_sources(ctx, received);
    law_packets_make_sure_of_their_sources(ctx, sent);
    law_budget_is_kept(ctx, sources_of::<P>(traffic));
    law_budget_is_kept(ctx, sources_of::<P>(received));
    law_budget_is_kept(ctx, sources_of::<P>(sent));
}

proof fn lemma_one_way<P: Protocol>(ctx: ContextModel<P>, packets: Seq<Seq<u8>>)
    ensures
        ctx.after_receiving(packets) == ctx.after_passing(
            packets.map_values(|packet: Seq<u8>| Passage::Received(packet)),
        ),
        ctx.after_sending(packets) == ctx.after_passing(
            packets.map_values(|packet: Seq<u8>| Passage::Sent(packet)),
        ),
    decreases packets.len(),
{
    let received = packets.map_values(|packet: Seq<u8>| Passage::Received(packet));
    let sent = packets.map_values(|packet: Seq<u8>| Passage::Sent(packet));
    if packets.len() > 0 {
        let fewer = packets.drop_last();
        lemma_one_way(ctx, fewer);
        assert(received.drop_last() =~= fewer.map_values(
            |packet: Seq<u8>| Passage::Received(packet),
        ));
        assert(sent.drop_last() =~= fewer.map_values(|packet: Seq<u8>| Passage::Sent(packet)));
    }
}

/// Whether a packet is let in after any others: exactly if its source was registered, or comes in
/// budget with it. A packet that is not let in is refused, and nothing changes.
pub proof fn law_packet_is_let_in_by_budget<P: Protocol>(
    ctx: ContextModel<P>,
    traffic: Seq<Passage>,
    passage: Passage,
    ssrc: Ssrc,
)
    requires
        P::ssrc_of(passage.bytes()) == Ok::<Ssrc, ErrorKind>(ssrc),
    ensures
        ({
            let before = ctx.after_passing(traffic);
            let let_in = ctx.streams.contains_key(ssrc) || ctx.comes_in_budget(
                sources_of::<P>(traffic).push(ssrc),
                ssrc,
            );
            &&& before.admits(ssrc) <==> let_in
            &&& !let_in ==> before.passed(passage) == (
                Err::<Seq<u8>, ErrorKind>(ErrorKind::Invalid),
                before,
            )
        }),
{
    let before = ctx.after_passing(traffic);
    let ensured = ctx.after_ensuring(sources_of::<P>(traffic));
    law_packets_make_sure_of_their_sources(ctx, traffic);
    law_source_is_let_in_by_budget(ctx, sources_of::<P>(traffic), ssrc);
    assert(before.streams.contains_key(ssrc) == before.streams.dom().contains(ssrc));
    assert(ensured.streams.contains_key(ssrc) == ensured.streams.dom().contains(ssrc));
}

} // verus!
