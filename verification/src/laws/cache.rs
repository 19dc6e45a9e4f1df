//! Messages are kept to answer grafts, the newest of them, up to a limit.
use vstd::prelude::*;

use crate::history;
use crate::history::Event;
use crate::laws::links;
use crate::message::{ActionView, MessageView, MsgId};
use crate::model;
use crate::model::{CachedView, State};
use crate::order;

verus! {

/// No more messages are kept than the tuning allows.
pub proof fn cache_is_bounded<Id: Ord>(s: State<Id>)
    requires
        s.valid(),
    ensures
        s.cache.dom().finite(),
        s.cache.dom().len() <= s.cfg.cache_cap,
{
    s.cache_order.unique_seq_to_set();
    vstd::seq_lib::seq_to_set_is_finite(s.cache_order);
}

/// A message that starts here is kept, as the newest of all, if any may be kept.
pub proof fn broadcast_is_kept<Id: Ord>(s: State<Id>, payload: Seq<u8>)
    requires
        s.valid(),
        s.cfg.cache_cap > 0,
        !s.cache.contains_key((s.me, s.seq)),
    ensures
        s.broadcast(payload).cache.contains_key((s.me, s.seq)),
        s.broadcast(payload).cache[(s.me, s.seq)] == (CachedView::<Id> {
            payload,
            round: 0,
            from: None,
        }),
        s.broadcast(payload).cache_order.len() > 0,
        s.broadcast(payload).cache_order.last() == (s.me, s.seq),
{
    lemma_remembered(
        State { seq: (s.seq + 1) as u64, ..s },
        (s.me, s.seq),
        CachedView { payload, round: 0, from: None },
    );
}

/// A message that arrives for the first time is kept, as the newest of all, if any may be kept.
pub proof fn gossip_is_kept<Id: Ord>(
    s: State<Id>,
    from: Id,
    id: MsgId<Id>,
    payload: Seq<u8>,
    round: u16,
)
    requires
        s.valid(),
        s.cfg.cache_cap > 0,
        !s.cache.contains_key(id),
    ensures
        ({
            let t = s.on_message(from, MessageView::Gossip { id, payload, round });
            &&& t.cache.contains_key(id)
            &&& t.cache[id] == (CachedView {
                payload,
                round: model::farther(round, s.cost_of(from) as int),
                from: Some(from),
            })
            &&& t.cache_order.len() > 0
            &&& t.cache_order.last() == id
        }),
{
    let here = model::farther(round, s.cost_of(from) as int);
    lemma_remembered(s.hear(from), id, CachedView { payload, round: here, from: Some(from) });
}

proof fn lemma_remembered<Id: Ord>(s: State<Id>, id: MsgId<Id>, entry: CachedView<Id>)
    requires
        s.valid_cache(),
        s.cfg.cache_cap > 0,
        !s.cache.contains_key(id),
    ensures
        s.remember(id, entry).cache.contains_key(id),
        s.remember(id, entry).cache[id] == entry,
        s.remember(id, entry).cache_order.len() > 0,
        s.remember(id, entry).cache_order.last() == id,
{
    let pushed = s.cache_order.push(id);
    if pushed.len() > s.cfg.cache_cap {
        assert(s.cache_order.contains(pushed[0]));
        assert(s.cache_order.to_set().contains(pushed[0]));
    }
}

/// The event brings a message that is not here.
pub open spec fn stores<Id: Ord>(s: State<Id>, event: Event<Id>) -> bool {
    match event {
        Event::Broadcast(_) => !s.cache.contains_key((s.me, s.seq)),
        Event::Message(_, MessageView::Gossip { id, .. }) => !s.cache.contains_key(id),
        _ => false,
    }
}

/// How many of the events bring a message that is not here when it comes.
pub open spec fn stored<Id: Ord>(s: State<Id>, events: Seq<Event<Id>>) -> nat
    decreases events.len(),
{
    if events.len() == 0 {
        0
    } else {
        stored(s, events.drop_last()) + if stores(s.run(events.drop_last()), events.last()) {
            1nat
        } else {
            0nat
        }
    }
}

/// How many of the messages kept are newer than the one at index `i`.
pub open spec fn newer<Id: Ord>(s: State<Id>, i: int) -> int {
    s.cache_order.len() - 1 - i
}

proof fn lemma_remember_keeps<Id: Ord>(
    s: State<Id>,
    id: MsgId<Id>,
    entry: CachedView<Id>,
    i: int,
) -> (j: int)
    requires
        s.valid_cache(),
        0 <= i < s.cache_order.len(),
        s.cache_order[i] != id,
        !s.cache.contains_key(id) ==> newer(s, i) + 1 < s.cfg.cache_cap,
    ensures
        0 <= j < s.remember(id, entry).cache_order.len(),
        s.remember(id, entry).cache_order[j] == s.cache_order[i],
        newer(s.remember(id, entry), j) == newer(s, i) + if s.cache.contains_key(id) {
            0int
        } else {
            1int
        },
        s.remember(id, entry).cache.contains_key(s.cache_order[i]),
        s.remember(id, entry).cache[s.cache_order[i]] == s.cache[s.cache_order[i]],
{
    let kept = s.cache_order[i];
    assert(s.cache_order.contains(kept));
    assert(s.cache_order.to_set().contains(kept));
    if s.cache.contains_key(id) || s.cache_order.len() < s.cfg.cache_cap {
        i
    } else {
        assert(s.cache_order.push(id)[0] != kept);
        i - 1
    }
}

/// An announcement does not change what is kept.
pub proof fn lemma_on_ihave_cache<Id: Ord>(s: State<Id>, from: Id, ids: Seq<(MsgId<Id>, u16)>)
    ensures
        s.on_ihave(from, ids).cache == s.cache,
        s.on_ihave(from, ids).cache_order == s.cache_order,
    decreases ids.len(),
{
    if ids.len() > 0 {
        lemma_on_ihave_cache(s, from, ids.drop_last());
    }
}

/// One event, and a message that is kept: it is kept on, with the same payload, and at most one
/// newer message has come. Only a message that brings one more than the limit of newer ones, or a
/// broadcast that reuses the id, is left out.
proof fn lemma_step_keeps<Id: Ord>(s: State<Id>, event: Event<Id>, i: int) -> (j: int)
    requires
        s.valid(),
        0 <= i < s.cache_order.len(),
        stores(s, event) ==> newer(s, i) + 1 < s.cfg.cache_cap,
        event is Broadcast ==> s.cache_order[i] != (s.me, s.seq),
    ensures
        0 <= j < s.step(event).cache_order.len(),
        s.step(event).cache_order[j] == s.cache_order[i],
        newer(s.step(event), j) == newer(s, i) + if stores(s, event) {
            1int
        } else {
            0int
        },
        s.step(event).cache.contains_key(s.cache_order[i]),
        s.step(event).cache[s.cache_order[i]].payload == s.cache[s.cache_order[i]].payload,
{
    let kept = s.cache_order[i];
    assert(s.cache_order.contains(kept));
    assert(s.cache_order.to_set().contains(kept));
    match event {
        Event::Broadcast(payload) => lemma_remember_keeps(
            State { seq: (s.seq + 1) as u64, ..s },
            (s.me, s.seq),
            CachedView { payload, round: 0, from: None },
            i,
        ),
        Event::Message(from, MessageView::Gossip { id, payload, round }) => {
            let heard = s.hear(from);
            let here = model::farther(round, heard.cost_of(from) as int);
            if heard.cache.contains_key(id) {
                i
            } else {
                lemma_remember_keeps(
                    heard,
                    id,
                    CachedView { payload, round: here, from: Some(from) },
                    i,
                )
            }
        },
        Event::Message(from, MessageView::Ihave(ids)) => {
            lemma_on_ihave_cache(s.hear(from), from, ids);
            i
        },
        _ => i,
    }
}

/// A message is kept, with its payload, until as many newer ones have come as may be kept: the
/// oldest go first. The message is one that this node did not start, or started before.
pub proof fn message_is_kept<Id: Ord>(s: State<Id>, events: Seq<Event<Id>>, i: int)
    requires
        order::ordered_key::<Id>(),
        s.valid(),
        0 <= i < s.cache_order.len(),
        newer(s, i) + stored(s, events) < s.cfg.cache_cap,
        s.cache_order[i].0 == s.me ==> s.cache_order[i].1 < s.seq,
        s.seq + events.len() <= u64::MAX,
    ensures
        s.run(events).cache.contains_key(s.cache_order[i]),
        s.run(events).cache[s.cache_order[i]].payload == s.cache[s.cache_order[i]].payload,
{
    let j = lemma_run_keeps(s, events, i);
}

proof fn lemma_run_keeps<Id: Ord>(s: State<Id>, events: Seq<Event<Id>>, i: int) -> (j: int)
    requires
        order::ordered_key::<Id>(),
        s.valid(),
        0 <= i < s.cache_order.len(),
        newer(s, i) + stored(s, events) < s.cfg.cache_cap,
        s.cache_order[i].0 == s.me ==> s.cache_order[i].1 < s.seq,
        s.seq + events.len() <= u64::MAX,
    ensures
        0 <= j < s.run(events).cache_order.len(),
        s.run(events).cache_order[j] == s.cache_order[i],
        newer(s.run(events), j) == newer(s, i) + stored(s, events),
        s.run(events).cache.contains_key(s.cache_order[i]),
        s.run(events).cache[s.cache_order[i]].payload == s.cache[s.cache_order[i]].payload,
        s.run(events).me == s.me,
        s.run(events).cfg == s.cfg,
        s.seq <= s.run(events).seq <= s.seq + events.len(),
    decreases events.len(),
{
    if events.len() == 0 {
        assert(s.cache_order.contains(s.cache_order[i]));
        assert(s.cache_order.to_set().contains(s.cache_order[i]));
        i
    } else {
        let front = events.drop_last();
        let j = lemma_run_keeps(s, front, i);
        history::lemma_run_valid(s, front);
        links::each_part_has_its_input(s.run(front), events.last());
        lemma_step_keeps(s.run(front), events.last(), j)
    }
}

/// A graft for a message that is here is answered with it, at one hop more; a graft for a
/// message that is not here is not answered. Either way the link is eager.
pub proof fn graft_is_answered<Id: Ord>(s: State<Id>, from: Id, id: MsgId<Id>)
    requires
        from != s.me,
    ensures
        ({
            let t = s.on_message(from, MessageView::Graft(Some(id)));
            &&& t.eager == s.eager.insert(from)
            &&& t.lazy == s.lazy.remove(from)
            &&& t.outbound == if s.cache.contains_key(id) {
                s.outbound.push(
                    ActionView::Send(
                        from,
                        MessageView::Gossip {
                            id,
                            payload: s.cache[id].payload,
                            round: model::farther(s.cache[id].round, 1),
                        },
                    ),
                )
            } else {
                s.outbound
            }
        }),
{
    let t = s.on_message(from, MessageView::Graft(Some(id)));
    assert(t.eager =~= s.eager.insert(from));
    assert(t.lazy =~= s.lazy.remove(from));
    if s.cache.contains_key(id) {
        let answer = MessageView::Gossip {
            id,
            payload: s.cache[id].payload,
            round: model::farther(s.cache[id].round, 1),
        };
        assert(t.outbound =~= s.outbound.push(ActionView::Send(from, answer)));
    }
}

/// What is asked for is what was sent: as long as a message that this node started is among
/// those it keeps, a graft for it is answered with the payload it was started with.
pub proof fn graft_returns_what_was_broadcast<Id: Ord>(
    s: State<Id>,
    payload: Seq<u8>,
    events: Seq<Event<Id>>,
    from: Id,
)
    requires
        order::ordered_key::<Id>(),
        s.valid(),
        from != s.me,
        !s.cache.contains_key((s.me, s.seq)),
        stored(s.broadcast(payload), events) < s.cfg.cache_cap,
        s.seq + 1 + events.len() <= u64::MAX,
    ensures
        ({
            let id = (s.me, s.seq);
            let t = s.broadcast(payload).run(events);
            let u = t.on_message(from, MessageView::Graft(Some(id)));
            &&& u.outbound.len() == t.outbound.len() + 1
            &&& u.outbound.last() matches ActionView::Send(
                to,
                MessageView::Gossip { id: sent, payload: bytes, .. },
            )
            &&& to == from
            &&& sent == id
            &&& bytes == payload
        }),
{
    let id = (s.me, s.seq);
    let b = s.broadcast(payload);
    history::lemma_step_valid(s, Event::Broadcast(payload));
    broadcast_is_kept(s, payload);
    let i = b.cache_order.len() - 1;
    let j = lemma_run_keeps(b, events, i);
    graft_is_answered(b.run(events), from, id);
}

/// What is asked for is what was received: as long as a message that arrived here is among those
/// kept, a graft for it is answered with the payload it arrived with.
pub proof fn graft_returns_what_was_received<Id: Ord>(
    s: State<Id>,
    sender: Id,
    id: MsgId<Id>,
    payload: Seq<u8>,
    round: u16,
    events: Seq<Event<Id>>,
    from: Id,
)
    requires
        order::ordered_key::<Id>(),
        s.valid(),
        from != s.me,
        !s.cache.contains_key(id),
        id.0 == s.me ==> id.1 < s.seq,
        stored(s.on_message(sender, MessageView::Gossip { id, payload, round }), events)
            < s.cfg.cache_cap,
        s.seq + events.len() <= u64::MAX,
    ensures
        ({
            let t = s.on_message(sender, MessageView::Gossip { id, payload, round }).run(events);
            let u = t.on_message(from, MessageView::Graft(Some(id)));
            &&& u.outbound.len() == t.outbound.len() + 1
            &&& u.outbound.last() matches ActionView::Send(
                to,
                MessageView::Gossip { id: sent, payload: bytes, .. },
            )
            &&& to == from
            &&& sent == id
            &&& bytes == payload
        }),
{
    let gossip = MessageView::Gossip { id, payload, round };
    let b = s.on_message(sender, gossip);
    history::lemma_step_valid(s, Event::Message(sender, gossip));
    links::each_part_has_its_input(s, Event::Message(sender, gossip));
    gossip_is_kept(s, sender, id, payload, round);
    let i = b.cache_order.len() - 1;
    let j = lemma_run_keeps(b, events, i);
    graft_is_answered(b.run(events), from, id);
}

} // verus!
