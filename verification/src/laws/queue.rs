//! The one queue: first in, first out, and no input reads it.
use vstd::prelude::*;

use crate::history::Event;
use crate::message::{ActionView, Cost, MessageView, MsgId};
use crate::model;
use crate::model::State;
use crate::seqs;

verus! {

/// `t` is what came of `s`, and `drained` what came of `s` with an empty queue: they differ only
/// in that `t` has the queue of `s` before its own.
pub open spec fn appends<Id: Ord>(s: State<Id>, drained: State<Id>, t: State<Id>) -> bool {
    t == (State { outbound: s.outbound + drained.outbound, ..drained })
}

proof fn lemma_swap_appends<Id: Ord>(s: State<Id>, d: State<Id>, t: State<Id>, via: Id, lazy: Id)
    requires
        appends(s, d, t),
    ensures
        appends(s, d.swap(via, lazy), t.swap(via, lazy)),
{
    assert(t.swap(via, lazy) =~= State {
        outbound: s.outbound + d.swap(via, lazy).outbound,
        ..d.swap(via, lazy)
    });
}

proof fn lemma_on_announced_appends<Id: Ord>(
    s: State<Id>,
    d: State<Id>,
    t: State<Id>,
    from: Id,
    id: MsgId<Id>,
    round: u16,
)
    requires
        appends(s, d, t),
    ensures
        appends(s, d.on_announced(from, id, round), t.on_announced(from, id, round)),
{
    if d.cache.contains_key(id) {
        if let Some(via) = d.cache[id].from {
            lemma_swap_appends(s, d, t, via, from);
        }
    }
}

proof fn lemma_on_ihave_appends<Id: Ord>(
    s: State<Id>,
    d: State<Id>,
    t: State<Id>,
    from: Id,
    ids: Seq<(MsgId<Id>, u16)>,
)
    requires
        appends(s, d, t),
    ensures
        appends(s, d.on_ihave(from, ids), t.on_ihave(from, ids)),
    decreases ids.len(),
{
    if ids.len() > 0 {
        let front = ids.drop_last();
        lemma_on_ihave_appends(s, d, t, from, front);
        lemma_on_announced_appends(
            s,
            d.on_ihave(from, front),
            t.on_ihave(from, front),
            from,
            ids.last().0,
            ids.last().1,
        );
    }
}

proof fn lemma_on_first_appends<Id: Ord>(
    s: State<Id>,
    d: State<Id>,
    t: State<Id>,
    from: Id,
    id: MsgId<Id>,
    payload: Seq<u8>,
    here: u16,
)
    requires
        appends(s, d, t),
    ensures
        appends(s, d.on_first(from, id, payload, here), t.on_first(from, id, payload, here)),
{
    let d1 = d.accept(from, id, payload, here);
    let t1 = t.accept(from, id, payload, here);
    assert(t1 =~= State { outbound: s.outbound + d1.outbound, ..d1 });
    let announcers = d.announcers(id);
    assert(d1.replaces(from, here) =~= t1.replaces(from, here));
    let i = seqs::first_where(announcers, d1.replaces(from, here));
    if i < announcers.len() {
        lemma_swap_appends(s, d1, t1, from, announcers[i].peer);
    }
}

/// No input reads the queue: `broadcast` does the same whether or not the queue was drained
/// before, and adds what it has to say at the end of the queue.
pub proof fn broadcast_appends<Id: Ord>(s: State<Id>, payload: Seq<u8>)
    ensures
        s.broadcast(payload) == (State {
            outbound: s.outbound + s.drained().broadcast(payload).outbound,
            ..s.drained().broadcast(payload)
        }),
{
    assert(s.broadcast(payload) =~= State {
        outbound: s.outbound + s.drained().broadcast(payload).outbound,
        ..s.drained().broadcast(payload)
    });
}

/// No input reads the queue: `on_message` does the same whether or not the queue was drained
/// before, and adds what it has to say at the end of the queue.
pub proof fn on_message_appends<Id: Ord>(s: State<Id>, from: Id, message: MessageView<Id>)
    ensures
        s.on_message(from, message) == (State {
            outbound: s.outbound + s.drained().on_message(from, message).outbound,
            ..s.drained().on_message(from, message)
        }),
{
    let t = s.hear(from);
    let d = s.drained().hear(from);
    assert(t =~= State { outbound: s.outbound + d.outbound, ..d });
    match message {
        MessageView::Gossip { id, payload, round } => {
            let here = model::farther(round, t.cost_of(from) as int);
            if t.cache.contains_key(id) {
                assert(t.on_duplicate(from, id, here) =~= State {
                    outbound: s.outbound + d.on_duplicate(from, id, here).outbound,
                    ..d.on_duplicate(from, id, here)
                });
            } else {
                lemma_on_first_appends(s, d, t, from, id, payload, here);
            }
        },
        MessageView::Ihave(ids) => lemma_on_ihave_appends(s, d, t, from, ids),
        MessageView::Graft(id) => {
            assert(t.on_graft(from, id) =~= State {
                outbound: s.outbound + d.on_graft(from, id).outbound,
                ..d.on_graft(from, id)
            });
        },
        MessageView::Prune => {},
    }
}

/// No input reads the queue: `tick` does the same whether or not the queue was drained before,
/// and adds what it has to say at the end of the queue.
pub proof fn tick_appends<Id: Ord>(s: State<Id>, ticks: u64)
    ensures
        s.tick(ticks) == (State {
            outbound: s.outbound + s.drained().tick(ticks).outbound,
            ..s.drained().tick(ticks)
        }),
{
    let d = s.drained();
    let now = model::later(s.now, ticks);
    assert(s.is_asked(now) =~= d.is_asked(now));
    assert(s.requests(now) =~= d.requests(now));
    assert(s.tick(ticks) =~= State {
        outbound: s.outbound + d.tick(ticks).outbound,
        ..d.tick(ticks)
    });
}

/// `membership`, `down` and `up` only ever remove queued sends: what is queued after them was
/// queued before, in the same order, and what is gone were sends to the peers excluded. Nobody
/// has to be woken.
pub proof fn exclusion_only_removes<Id: Ord>(
    s: State<Id>,
    added: Seq<(Id, Cost)>,
    peers: Set<Id>,
)
    ensures
        s.membership(added, peers).outbound == s.outbound.filter(model::not_sent_to(peers)),
        s.down(peers).outbound == s.outbound.filter(model::not_sent_to(peers)),
        s.up(peers).outbound == s.outbound,
        forall|a: ActionView<Id>|
            #![trigger s.down(peers).outbound.contains(a)]
            #![trigger s.membership(added, peers).outbound.contains(a)]
            s.outbound.filter(model::not_sent_to(peers)).contains(a) <==> s.outbound.contains(a)
                && !a.is_send_to_any(peers),
        s.outbound.len() == 0 ==> s.membership(added, peers).outbound.len() == 0 && s.down(
            peers,
        ).outbound.len() == 0 && s.up(peers).outbound.len() == 0,
{
    seqs::lemma_filter_contains(s.outbound, model::not_sent_to(peers));
    let q = s.outbound.filter(model::not_sent_to(peers));
    if s.outbound.len() == 0 && q.len() > 0 {
        assert(q.contains(q[0]));
    }
}

/// Two states that differ in their queues at most.
pub open spec fn same_but_queue<Id: Ord>(s: State<Id>, t: State<Id>) -> bool {
    s.drained() == t.drained()
}

proof fn lemma_step_ignores_queue<Id: Ord>(s: State<Id>, t: State<Id>, event: Event<Id>)
    requires
        same_but_queue(s, t),
    ensures
        same_but_queue(s.step(event), t.step(event)),
{
    match event {
        Event::Broadcast(payload) => {
            broadcast_appends(s, payload);
            broadcast_appends(t, payload);
        },
        Event::Message(from, message) => {
            on_message_appends(s, from, message);
            on_message_appends(t, from, message);
        },
        Event::Tick(ticks) => {
            tick_appends(s, ticks);
            tick_appends(t, ticks);
        },
        _ => {
            assert(s.step(event).drained() =~= t.step(event).drained());
        },
    }
}

/// The event is an input: it does not drain.
pub open spec fn is_input<Id>() -> spec_fn(Event<Id>) -> bool {
    |e: Event<Id>| !(e is Drain)
}

/// Nothing depends on when the queue is drained: with the drains left out, a node ends in the
/// same state but for the queue.
pub proof fn draining_changes_nothing<Id: Ord>(s: State<Id>, events: Seq<Event<Id>>)
    ensures
        same_but_queue(s.run(events), s.run(events.filter(is_input()))),
    decreases events.len(),
{
    reveal(Seq::filter);
    if events.len() > 0 {
        let front = events.drop_last();
        draining_changes_nothing(s, front);
        let inputs = front.filter(is_input());
        if events.last() is Drain {
            assert(s.run(events).drained() =~= s.run(front).drained());
        } else {
            lemma_step_ignores_queue(s.run(front), s.run(inputs), events.last());
            assert(inputs.push(events.last()).drop_last() =~= inputs);
        }
    }
}

/// Outputs come out in call order: what several drains hand out is, together and with what is
/// left, what one drain at the end would hand out, unless a peer is excluded after something for
/// it was handed out.
pub proof fn outputs_concatenate<Id: Ord>(s: State<Id>, events: Seq<Event<Id>>)
    requires
        forall|k: int, i: int|
            #![trigger s.emitted(events.take(k))[i]]
            0 <= k < events.len() && 0 <= i < s.emitted(events.take(k)).len() ==> !s.emitted(
                events.take(k),
            )[i].is_send_to_any(events[k].excluded()),
    ensures
        s.emitted(events) + s.run(events).outbound == s.run(events.filter(is_input())).outbound,
    decreases events.len(),
{
    reveal(Seq::filter);
    if events.len() == 0 {
        assert(s.emitted(events) + s.run(events).outbound =~= s.outbound);
    } else {
        let front = events.drop_last();
        let last = events.last();
        assert forall|k: int, i: int|
            #![trigger s.emitted(front.take(k))[i]]
            0 <= k < front.len() && 0 <= i < s.emitted(front.take(k)).len() implies !s.emitted(
            front.take(k),
        )[i].is_send_to_any(front[k].excluded()) by {
            assert(front.take(k) =~= events.take(k));
            assert(front[k] == events[k]);
            assert(!s.emitted(events.take(k))[i].is_send_to_any(events[k].excluded()));
        }
        outputs_concatenate(s, front);
        draining_changes_nothing(s, front);
        let inputs = front.filter(is_input());
        let a = s.run(front);
        let b = s.run(inputs);
        let handed = s.emitted(front);
        if last is Drain {
            assert(s.emitted(events) + s.run(events).outbound =~= handed + a.outbound);
        } else {
            assert(inputs.push(last).drop_last() =~= inputs);
            let gone = last.excluded();
            let keep = model::not_sent_to(gone);
            match last {
                Event::Broadcast(payload) => {
                    broadcast_appends(a, payload);
                    broadcast_appends(b, payload);
                },
                Event::Message(from, message) => {
                    on_message_appends(a, from, message);
                    on_message_appends(b, from, message);
                },
                Event::Tick(ticks) => {
                    tick_appends(a, ticks);
                    tick_appends(b, ticks);
                },
                _ => {},
            }
            if last is Membership || last is Down {
                assert(events.take(events.len() - 1) =~= front);
                assert forall|i: int| 0 <= i < handed.len() implies keep(#[trigger] handed[i]) by {
                    assert(!s.emitted(events.take(events.len() - 1))[i].is_send_to_any(
                        events[events.len() - 1].excluded(),
                    ));
                }
                seqs::lemma_filter_all(handed, keep);
                Seq::filter_distributes_over_add(handed, a.outbound, keep);
                assert(a.step(last).outbound == a.outbound.filter(keep));
                assert(b.step(last).outbound == b.outbound.filter(keep));
            } else {
                let more = a.drained().step(last).outbound;
                assert(a.step(last).outbound =~= a.outbound + more);
                assert(b.step(last).outbound =~= b.outbound + more);
                assert(s.emitted(events) + s.run(events).outbound =~= (handed + a.outbound) + more);
            }
        }
    }
}

} // verus!
