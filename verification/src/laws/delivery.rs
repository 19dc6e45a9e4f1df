//! How a message spreads: it is delivered once, pushed to the eager peers and announced to the
//! lazy ones.
use vstd::prelude::*;

use crate::history;
use crate::history::Event;
use crate::laws::cache;
use crate::laws::links;
use crate::message::{ActionView, MessageView, MsgId};
use crate::model;
use crate::model::State;
use crate::order;
use crate::seqs;
use crate::validity;

verus! {

/// The action delivers a payload to the application.
pub open spec fn is_delivery<Id>() -> spec_fn(ActionView<Id>) -> bool {
    |a: ActionView<Id>| a is Deliver
}

/// The deliveries among `actions`, in order.
pub open spec fn deliveries<Id>(actions: Seq<ActionView<Id>>) -> Seq<ActionView<Id>> {
    actions.filter(is_delivery())
}

proof fn lemma_sends_deliver_nothing<Id>(q: Seq<ActionView<Id>>, sends: Seq<ActionView<Id>>)
    requires
        forall|i: int| 0 <= i < sends.len() ==> (#[trigger] sends[i]) is Send,
    ensures
        deliveries(q + sends) == deliveries(q),
    decreases sends.len(),
{
    reveal(Seq::filter);
    if sends.len() == 0 {
        assert(q + sends =~= q);
    } else {
        let front = sends.drop_last();
        assert forall|i: int| 0 <= i < front.len() implies (#[trigger] front[i]) is Send by {
            assert(front[i] == sends[i]);
        }
        lemma_sends_deliver_nothing(q, front);
        assert((q + sends).drop_last() =~= q + front);
        assert((q + sends).last() == sends[sends.len() - 1]);
    }
}

proof fn lemma_swap_delivers_nothing<Id: Ord>(s: State<Id>, via: Id, lazy: Id)
    ensures
        deliveries(s.swap(via, lazy).outbound) == deliveries(s.outbound),
{
    let sends = seq![
        ActionView::Send(lazy, MessageView::Graft(None)),
        ActionView::Send(via, MessageView::Prune),
    ];
    assert(s.swap(via, lazy).outbound =~= s.outbound + sends);
    lemma_sends_deliver_nothing(s.outbound, sends);
}

proof fn lemma_on_ihave_delivers_nothing<Id: Ord>(
    s: State<Id>,
    from: Id,
    ids: Seq<(MsgId<Id>, u16)>,
)
    ensures
        deliveries(s.on_ihave(from, ids).outbound) == deliveries(s.outbound),
    decreases ids.len(),
{
    if ids.len() > 0 {
        lemma_on_ihave_delivers_nothing(s, from, ids.drop_last());
        let t = s.on_ihave(from, ids.drop_last());
        let id = ids.last().0;
        if t.cache.contains_key(id) && t.cache[id].from is Some {
            lemma_swap_delivers_nothing(t, t.cache[id].from->Some_0, from);
        }
    }
}

proof fn lemma_exclude_delivers<Id: Ord>(q: Seq<ActionView<Id>>, gone: Set<Id>)
    ensures
        deliveries(q.filter(model::not_sent_to(gone))) == deliveries(q),
    decreases q.len(),
{
    reveal(Seq::filter);
    if q.len() > 0 {
        let kept = q.drop_last().filter(model::not_sent_to(gone));
        lemma_exclude_delivers(q.drop_last(), gone);
        assert(kept.push(q.last()).drop_last() =~= kept);
    }
}

/// What an event adds to the deliveries in the queue: a full message that is not here is
/// delivered, and nothing else is.
pub open spec fn delivered<Id: Ord>(s: State<Id>, event: Event<Id>) -> Seq<ActionView<Id>> {
    match event {
        Event::Message(_, MessageView::Gossip { id, payload, .. }) => if s.cache.contains_key(id) {
            Seq::empty()
        } else {
            seq![ActionView::Deliver(payload)]
        },
        _ => Seq::empty(),
    }
}

/// A payload is delivered when a full message arrives that is not here, and at no other time; a
/// delivery that is queued is never withdrawn.
pub proof fn delivered_when_new<Id: Ord>(s: State<Id>, event: Event<Id>)
    requires
        !(event is Drain),
    ensures
        deliveries(s.step(event).outbound) == deliveries(s.outbound) + delivered(s, event),
{
    let t = s.step(event);
    let none = Seq::<ActionView<Id>>::empty();
    assert(deliveries(s.outbound) + none =~= deliveries(s.outbound));
    match event {
        Event::Broadcast(payload) => {
            let to = order::ascending_except(s.eager, None);
            lemma_sends_deliver_nothing(
                s.outbound,
                model::gossip_to(to, (s.me, s.seq), payload, 0),
            );
        },
        Event::Message(from, message) => {
            let heard = s.hear(from);
            match message {
                MessageView::Gossip { id, payload, round } => {
                    let here = model::farther(round, heard.cost_of(from) as int);
                    if heard.cache.contains_key(id) {
                        let to = if heard.is_cheaper(from, id) {
                            heard.cache[id].from->Some_0
                        } else {
                            from
                        };
                        lemma_sends_deliver_nothing(
                            s.outbound,
                            seq![ActionView::Send(to, MessageView::Prune)],
                        );
                    } else {
                        lemma_on_first_delivers(heard, from, id, payload, here);
                    }
                },
                MessageView::Ihave(ids) => lemma_on_ihave_delivers_nothing(heard, from, ids),
                MessageView::Graft(id) => {
                    let sent = queued_since(s, t);
                    assert(t.outbound =~= s.outbound + sent);
                    lemma_sends_deliver_nothing(s.outbound, sent);
                },
                MessageView::Prune => {},
            }
        },
        Event::Tick(ticks) => {
            let now = model::later(s.now, ticks);
            lemma_sends_deliver_nothing(s.outbound, s.flushed());
            lemma_sends_deliver_nothing(s.outbound + s.flushed(), s.requests(now));
        },
        Event::Membership(_, removed) => lemma_exclude_delivers(s.outbound, removed.to_set()),
        Event::Down(peers) => lemma_exclude_delivers(s.outbound, peers.to_set()),
        Event::Up(_) => {},
        Event::Drain => {},
    }
}

proof fn lemma_on_first_delivers<Id: Ord>(
    s: State<Id>,
    from: Id,
    id: MsgId<Id>,
    payload: Seq<u8>,
    here: u16,
)
    ensures
        deliveries(s.on_first(from, id, payload, here).outbound) == deliveries(s.outbound)
            + seq![ActionView::Deliver(payload)],
{
    reveal(Seq::filter);
    let a = s.take_in(from, id, payload, here);
    assert(a.outbound =~= s.outbound.push(ActionView::Deliver(payload)));
    assert(a.outbound.drop_last() =~= s.outbound);
    assert(deliveries(a.outbound) =~= deliveries(s.outbound) + seq![ActionView::Deliver(payload)]);
    let further = model::farther(here, 1);
    let b = s.accept(from, id, payload, here);
    let to = order::ascending_except(a.eager, Some(from));
    lemma_sends_deliver_nothing(a.outbound, model::gossip_to(to, id, payload, further));
    let announcers = s.announcers(id);
    let i = seqs::first_where(announcers, b.replaces(from, here));
    if i < announcers.len() {
        lemma_swap_delivers_nothing(b, from, announcers[i].peer);
    }
}

/// A copy of a message is not delivered as long as the message is kept: until as many newer ones
/// have come as may be kept, whatever else happens.
pub proof fn kept_message_is_not_delivered_again<Id: Ord>(
    s: State<Id>,
    i: int,
    events: Seq<Event<Id>>,
    from: Id,
    payload: Seq<u8>,
    round: u16,
)
    requires
        order::ordered_key::<Id>(),
        s.valid(),
        0 <= i < s.cache_order.len(),
        cache::newer(s, i) + cache::stored(s, events) < s.cfg.cache_cap,
        s.cache_order[i].0 == s.me ==> s.cache_order[i].1 < s.seq,
        s.seq + events.len() <= u64::MAX,
    ensures
        deliveries(
            s.run(events).on_message(
                from,
                MessageView::Gossip { id: s.cache_order[i], payload, round },
            ).outbound,
        ) == deliveries(s.run(events).outbound),
{
    let t = s.run(events);
    let again = MessageView::Gossip { id: s.cache_order[i], payload, round };
    cache::message_is_kept(s, events, i);
    delivered_when_new(t, Event::Message(from, again));
    assert(deliveries(t.on_message(from, again).outbound) =~= deliveries(t.outbound));
}

/// A message that arrives twice is delivered once: when it first comes, and not when it comes
/// again, whatever happened between, as long as it is kept.
pub proof fn duplicate_is_not_delivered<Id: Ord>(
    s: State<Id>,
    first: Id,
    id: MsgId<Id>,
    payload: Seq<u8>,
    events: Seq<Event<Id>>,
    second: Id,
    again: Seq<u8>,
    rounds: (u16, u16),
)
    requires
        order::ordered_key::<Id>(),
        s.valid(),
        !s.cache.contains_key(id),
        id.0 == s.me ==> id.1 < s.seq,
        s.seq + events.len() <= u64::MAX,
        cache::stored(
            s.on_message(first, MessageView::Gossip { id, payload, round: rounds.0 }),
            events,
        ) < s.cfg.cache_cap,
    ensures
        ({
            let t = s.on_message(first, MessageView::Gossip { id, payload, round: rounds.0 });
            let u = t.run(events);
            let v = u.on_message(
                second,
                MessageView::Gossip { id, payload: again, round: rounds.1 },
            );
            &&& deliveries(t.outbound) == deliveries(s.outbound).push(ActionView::Deliver(payload))
            &&& deliveries(v.outbound) == deliveries(u.outbound)
        }),
{
    let once = MessageView::Gossip { id, payload, round: rounds.0 };
    let t = s.on_message(first, once);
    cache::gossip_is_kept(s, first, id, payload, rounds.0);
    validity::lemma_on_message_valid(s, first, once);
    links::each_part_has_its_input(s, Event::Message(first, once));
    delivered_when_new(s, Event::Message(first, once));
    assert(deliveries(t.outbound) =~= deliveries(s.outbound).push(ActionView::Deliver(payload)));
    kept_message_is_not_delivered_again(
        t,
        t.cache_order.len() - 1,
        events,
        second,
        again,
        rounds.1,
    );
}

/// The same full message to each of `peers` once, and to nobody else.
proof fn lemma_gossip_to_each<Id: Ord>(
    peers: Set<Id>,
    id: MsgId<Id>,
    payload: Seq<u8>,
    round: u16,
)
    requires
        order::ordered_key::<Id>(),
        peers.finite(),
    ensures
        ({
            let sent = model::gossip_to(order::ascending(peers), id, payload, round);
            &&& sent.no_duplicates()
            &&& forall|a: ActionView<Id>| #[trigger]
                sent.contains(a) <==> exists|p: Id| #[trigger]
                    peers.contains(p) && a == ActionView::Send(
                        p,
                        MessageView::Gossip { id, payload, round },
                    )
        }),
{
    let to = order::ascending(peers);
    let sent = model::gossip_to(to, id, payload, round);
    let gossip = MessageView::Gossip { id, payload, round };
    order::lemma_ascending(peers);
    assert forall|a: ActionView<Id>| #[trigger]
        sent.contains(a) <==> exists|p: Id| #[trigger]
            peers.contains(p) && a == ActionView::Send(p, gossip) by {
        if sent.contains(a) {
            let i = choose|i: int| 0 <= i < sent.len() && sent[i] == a;
            assert(to.contains(to[i]));
            assert(peers.contains(to[i]));
        }
        if exists|p: Id| #[trigger] peers.contains(p) && a == ActionView::Send(p, gossip) {
            let p = choose|p: Id| #[trigger]
                peers.contains(p) && a == ActionView::Send(p, gossip);
            assert(to.contains(p));
            let i = choose|i: int| 0 <= i < to.len() && to[i] == p;
            assert(sent[i] == a);
        }
    }
}

/// What `t` has queued after what `s` has.
pub open spec fn queued_since<Id: Ord>(s: State<Id>, t: State<Id>) -> Seq<ActionView<Id>> {
    t.outbound.skip(s.outbound.len() as int)
}

/// A broadcast pushes the full message to each eager peer once, at distance 0, and sends nothing
/// else.
pub proof fn broadcast_reaches_eager_peers<Id: Ord>(s: State<Id>, payload: Seq<u8>)
    requires
        order::ordered_key::<Id>(),
        s.valid(),
    ensures
        queued_since(s, s.broadcast(payload)).no_duplicates(),
        forall|a: ActionView<Id>| #[trigger]
            queued_since(s, s.broadcast(payload)).contains(a) <==> exists|p: Id| #[trigger]
                s.eager.contains(p) && a == ActionView::Send(
                    p,
                    MessageView::Gossip { id: (s.me, s.seq), payload, round: 0 },
                ),
{
    let sent = model::gossip_to(order::ascending(s.eager), (s.me, s.seq), payload, 0);
    assert(queued_since(s, s.broadcast(payload)) =~= sent);
    lemma_gossip_to_each(s.eager, (s.me, s.seq), payload, 0);
}

/// A message that arrives for the first time is passed on to each eager peer but its sender,
/// once, at the distance it has here and one hop more: each hop over a link counts one, and the
/// cost of the link extra.
pub proof fn new_message_is_passed_on<Id: Ord>(
    s: State<Id>,
    from: Id,
    id: MsgId<Id>,
    payload: Seq<u8>,
    round: u16,
    p: Id,
)
    requires
        order::ordered_key::<Id>(),
        s.valid(),
        from != s.me,
        !s.cache.contains_key(id),
    ensures
        ({
            let t = s.on_message(from, MessageView::Gossip { id, payload, round });
            let copy = MessageView::Gossip {
                id,
                payload,
                round: model::farther(round, s.cost_of(from) + 1),
            };
            &&& queued_since(s, t).no_duplicates()
            &&& queued_since(s, t).contains(ActionView::Send(p, copy)) <==> s.eager.contains(p)
                && p != from
        }),
{
    let heard = s.hear(from);
    let here = model::farther(round, s.cost_of(from) as int);
    let further = model::farther(here, 1);
    let copy = MessageView::Gossip { id, payload, round: further };
    let a = heard.take_in(from, id, payload, here);
    let b = heard.accept(from, id, payload, here);
    let t = s.on_message(from, MessageView::Gossip { id, payload, round });
    assert(a.eager.remove(from) =~= s.eager.remove(from));
    let to = s.eager.remove(from);
    let sent = model::gossip_to(order::ascending(to), id, payload, further);
    lemma_gossip_to_each(to, id, payload, further);
    assert(b.outbound =~= s.outbound + seq![ActionView::Deliver(payload)] + sent);
    let announcers = heard.announcers(id);
    let i = seqs::first_where(announcers, b.replaces(from, here));
    let swapped = if i < announcers.len() {
        seq![
            ActionView::Send(announcers[i].peer, MessageView::Graft(None)),
            ActionView::Send(from, MessageView::Prune),
        ]
    } else {
        Seq::empty()
    };
    assert(t.outbound =~= b.outbound + swapped);
    let new = queued_since(s, t);
    assert(new =~= seq![ActionView::Deliver(payload)] + sent + swapped);
    assert(new.no_duplicates()) by {
        assert forall|j: int, k: int|
            0 <= j < new.len() && 0 <= k < new.len() && j != k implies new[j] != new[k] by {
            if 1 <= j <= sent.len() && 1 <= k <= sent.len() {
                assert(sent[j - 1] != sent[k - 1]);
            }
        }
    }
    let want = ActionView::Send(p, copy);
    if s.eager.contains(p) && p != from {
        assert(to.contains(p));
        assert(sent.contains(want));
        let k = choose|k: int| 0 <= k < sent.len() && sent[k] == want;
        assert(new[k + 1] == want);
    }
    if new.contains(want) {
        let k = choose|k: int| 0 <= k < new.len() && new[k] == want;
        assert(sent[k - 1] == want);
        assert(sent.contains(want));
    }
}

// ---------------------------------------------------------------------- announcements

/// What an event adds to the announcement for the next tick, with the distance that the copies
/// pushed carry: a broadcast while anyone is lazy, and a message that arrives for the first time
/// while anyone but its sender is.
pub open spec fn announcement_of<Id: Ord>(s: State<Id>, event: Event<Id>) -> Option<
    (MsgId<Id>, u16),
> {
    match event {
        Event::Broadcast(_) => if s.lazy.is_empty() {
            None
        } else {
            Some(((s.me, s.seq), 0))
        },
        Event::Message(from, MessageView::Gossip { id, round, .. }) => {
            let others = if from == s.me {
                s.lazy
            } else {
                s.lazy.remove(from)
            };
            if s.cache.contains_key(id) || others.is_empty() {
                None
            } else {
                Some((id, model::farther(round, s.cost_of(from) + 1)))
            }
        },
        _ => None,
    }
}

/// The announcement after an event: a tick sends it, a message that starts or comes here is added
/// to it, and nothing else changes it.
pub open spec fn announcement_after<Id: Ord>(s: State<Id>, event: Event<Id>) -> Map<
    MsgId<Id>,
    u16,
> {
    match announcement_of(s, event) {
        Some((id, round)) => s.announce.insert(id, round),
        None => if event is Tick {
            Map::empty()
        } else {
            s.announce
        },
    }
}

/// What is to be announced is collected from one tick to the next.
pub proof fn announcements_are_collected<Id: Ord>(s: State<Id>, event: Event<Id>)
    ensures
        s.step(event).announce == announcement_after(s, event),
{
    if let Event::Message(from, message) = event {
        let heard = s.hear(from);
        match message {
            MessageView::Gossip { id, payload, round } => {
                let here = model::farther(round, heard.cost_of(from) as int);
                if !heard.cache.contains_key(id) {
                    let a = heard.take_in(from, id, payload, here);
                    if from == s.me {
                        assert(a.lazy == s.lazy);
                    } else {
                        assert(a.lazy =~= s.lazy.remove(from));
                    }
                }
            },
            MessageView::Ihave(ids) => links::lemma_on_ihave_constants(heard, from, ids),
            _ => {},
        }
    }
}

/// None of the events is a tick.
pub open spec fn without_ticks<Id>(events: Seq<Event<Id>>) -> bool {
    forall|k: int| 0 <= k < events.len() ==> !(#[trigger] events[k] is Tick)
}

/// The event at index `k` adds the message to the announcement, at distance `round`.
pub open spec fn adds_at<Id: Ord>(
    s: State<Id>,
    events: Seq<Event<Id>>,
    k: int,
    id: MsgId<Id>,
    round: u16,
) -> bool {
    announcement_of(s.run(events.take(k)), events[k]) == Some((id, round))
}

/// The events do not add the message to the announcement.
pub open spec fn never_adds<Id: Ord>(s: State<Id>, events: Seq<Event<Id>>, id: MsgId<Id>) -> bool {
    forall|k: int, round: u16|
        0 <= k < events.len() ==> !(#[trigger] adds_at(s, events, k, id, round))
}

proof fn lemma_drop_last<Id: Ord>(s: State<Id>, events: Seq<Event<Id>>)
    requires
        events.len() > 0,
    ensures
        forall|k: int, id: MsgId<Id>, round: u16|
            0 <= k < events.len() - 1 ==> #[trigger] adds_at(s, events.drop_last(), k, id, round)
                == adds_at(s, events, k, id, round),
        events.take(events.len() - 1) == events.drop_last(),
        without_ticks(events) ==> without_ticks(events.drop_last()) && !(events.last() is Tick),
{
    let front = events.drop_last();
    assert forall|k: int, id: MsgId<Id>, round: u16|
        0 <= k < events.len() - 1 implies #[trigger] adds_at(s, front, k, id, round) == adds_at(
        s,
        events,
        k,
        id,
        round,
    ) by {
        assert(front.take(k) =~= events.take(k));
    }
    assert(events.take(events.len() - 1) =~= front);
    if without_ticks(events) {
        assert(!(events[events.len() - 1] is Tick));
        assert forall|k: int| 0 <= k < front.len() implies !(#[trigger] front[k] is Tick) by {
            assert(front[k] == events[k]);
        }
    }
}

/// An announcement holds only what started or came here since the last tick, at the distance at
/// which it was pushed last.
pub proof fn announced_since_the_last_tick<Id: Ord>(
    s: State<Id>,
    ticks: u64,
    events: Seq<Event<Id>>,
    id: MsgId<Id>,
)
    requires
        without_ticks(events),
        s.tick(ticks).run(events).announce.contains_key(id),
    ensures
        exists|k: int|
            0 <= k < events.len() && #[trigger] adds_at(
                s.tick(ticks),
                events,
                k,
                id,
                s.tick(ticks).run(events).announce[id],
            ),
    decreases events.len(),
{
    let t = s.tick(ticks);
    if events.len() > 0 {
        let front = events.drop_last();
        let last = events.last();
        let u = t.run(front);
        let round = t.run(events).announce[id];
        lemma_drop_last(t, events);
        announcements_are_collected(u, last);
        match announcement_of(u, last) {
            Some((it, _)) if it == id => {
                assert(adds_at(t, events, events.len() - 1, id, round));
            },
            _ => {
                announced_since_the_last_tick(s, ticks, front, id);
                let k = choose|k: int|
                    0 <= k < front.len() && #[trigger] adds_at(t, front, k, id, round);
                assert(adds_at(t, events, k, id, round));
            },
        }
    }
}

proof fn lemma_run_announces<Id: Ord>(s: State<Id>, events: Seq<Event<Id>>, id: MsgId<Id>)
    requires
        s.announce.contains_key(id),
        without_ticks(events),
    ensures
        s.run(events).announce.contains_key(id),
        never_adds(s, events, id) ==> s.run(events).announce[id] == s.announce[id],
    decreases events.len(),
{
    if events.len() > 0 {
        let front = events.drop_last();
        let last = events.last();
        let u = s.run(front);
        lemma_drop_last(s, events);
        lemma_run_announces(s, front, id);
        announcements_are_collected(u, last);
        if never_adds(s, events, id) {
            assert forall|k: int, round: u16|
                0 <= k < front.len() implies !(#[trigger] adds_at(s, front, k, id, round)) by {
                assert(!adds_at(s, events, k, id, round));
            }
            if let Some((it, round)) = announcement_of(u, last) {
                assert(!adds_at(s, events, events.len() - 1, id, round));
            }
        }
    }
}

/// A tick announces everything there is to announce to every lazy peer, and then there is
/// nothing left to announce.
pub proof fn tick_tells_lazy_peers<Id: Ord>(s: State<Id>, ticks: u64, id: MsgId<Id>, p: Id)
    requires
        order::ordered_key::<Id>(),
        s.valid(),
        s.announce.contains_key(id),
        s.lazy.contains(p),
    ensures
        ({
            let ids = model::entries(s.announce);
            &&& ids.contains((id, s.announce[id]))
            &&& queued_since(s, s.tick(ticks)).contains(
                ActionView::Send(p, MessageView::Ihave(ids)),
            )
        }),
        s.tick(ticks).announce.dom().is_empty(),
{
    let t = s.tick(ticks);
    let now = model::later(s.now, ticks);
    let ids = model::entries(s.announce);
    let keys = order::ascending(s.announce.dom());
    order::lemma_ascending(s.announce.dom());
    assert(keys.contains(id));
    let k = choose|k: int| 0 <= k < keys.len() && keys[k] == id;
    assert(ids[k] == (id, s.announce[id]));
    order::lemma_ascending(s.lazy);
    let to = order::ascending(s.lazy);
    assert(to.contains(p));
    let i = choose|i: int| 0 <= i < to.len() && to[i] == p;
    assert(s.announce.dom().contains(id));
    assert(queued_since(s, t) =~= s.flushed() + s.requests(now));
    assert(queued_since(s, t)[i] == ActionView::Send(p, MessageView::Ihave(ids)));
}

/// What there is to announce is announced at the next tick, to everyone who is lazy by then,
/// whatever happens before; and at the same distance, unless it is pushed anew.
pub proof fn told_at_the_next_tick<Id: Ord>(
    s: State<Id>,
    events: Seq<Event<Id>>,
    ticks: u64,
    id: MsgId<Id>,
    p: Id,
)
    requires
        order::ordered_key::<Id>(),
        s.valid(),
        s.announce.contains_key(id),
        without_ticks(events),
        s.run(events).lazy.contains(p),
    ensures
        ({
            let t = s.run(events);
            let ids = model::entries(t.announce);
            &&& ids.contains((id, t.announce[id]))
            &&& never_adds(s, events, id) ==> t.announce[id] == s.announce[id]
            &&& queued_since(t, t.tick(ticks)).contains(
                ActionView::Send(p, MessageView::Ihave(ids)),
            )
        }),
{
    history::lemma_run_valid(s, events);
    lemma_run_announces(s, events, id);
    tick_tells_lazy_peers(s.run(events), ticks, id, p);
}

/// The lazy peers are told of a broadcast at the next tick, whatever happens before, at distance
/// 0 unless it is pushed anew. There was a lazy peer when it started.
pub proof fn broadcast_is_announced<Id: Ord>(
    s: State<Id>,
    payload: Seq<u8>,
    events: Seq<Event<Id>>,
    ticks: u64,
    p: Id,
)
    requires
        order::ordered_key::<Id>(),
        s.valid(),
        !s.lazy.is_empty(),
        without_ticks(events),
        s.broadcast(payload).run(events).lazy.contains(p),
    ensures
        ({
            let id = (s.me, s.seq);
            let t = s.broadcast(payload).run(events);
            let ids = model::entries(t.announce);
            &&& ids.contains((id, t.announce[id]))
            &&& never_adds(s.broadcast(payload), events, id) ==> t.announce[id] == 0
            &&& queued_since(t, t.tick(ticks)).contains(
                ActionView::Send(p, MessageView::Ihave(ids)),
            )
        }),
{
    validity::lemma_broadcast_valid(s, payload);
    announcements_are_collected(s, Event::Broadcast(payload));
    told_at_the_next_tick(s.broadcast(payload), events, ticks, (s.me, s.seq), p);
}

/// The lazy peers are told at the next tick of a message that arrived for the first time while
/// this node had lazy peers besides the sender, whatever happens before, at the distance that the
/// copies passed on carry unless it is pushed anew.
pub proof fn new_message_is_announced<Id: Ord>(
    s: State<Id>,
    from: Id,
    id: MsgId<Id>,
    payload: Seq<u8>,
    round: u16,
    events: Seq<Event<Id>>,
    ticks: u64,
    p: Id,
)
    requires
        order::ordered_key::<Id>(),
        s.valid(),
        announcement_of(
            s,
            Event::Message(from, MessageView::Gossip { id, payload, round }),
        ) is Some,
        without_ticks(events),
        s.on_message(from, MessageView::Gossip { id, payload, round }).run(events).lazy.contains(p),
    ensures
        ({
            let heard = s.on_message(from, MessageView::Gossip { id, payload, round });
            let t = heard.run(events);
            let ids = model::entries(t.announce);
            &&& ids.contains((id, t.announce[id]))
            &&& never_adds(heard, events, id) ==> t.announce[id] == model::farther(
                round,
                s.cost_of(from) + 1,
            )
            &&& queued_since(t, t.tick(ticks)).contains(
                ActionView::Send(p, MessageView::Ihave(ids)),
            )
        }),
{
    let gossip = MessageView::Gossip { id, payload, round };
    validity::lemma_on_message_valid(s, from, gossip);
    announcements_are_collected(s, Event::Message(from, gossip));
    told_at_the_next_tick(s.on_message(from, gossip), events, ticks, id, p);
}

// ---------------------------------------------------------------------- over the tree

/// The node at index `i` has its copy from the node at index `parent[i]`: a tree with its root at
/// index 0.
pub open spec fn is_tree(parent: Seq<int>) -> bool {
    forall|i: int| 0 < i < parent.len() ==> 0 <= #[trigger] parent[i] < i
}

/// The distance that the copy for the node at index `i` carries: 0 from the root, and along each
/// link one hop more, and the cost of the link.
pub open spec fn carried<Id: Ord>(nodes: Seq<State<Id>>, parent: Seq<int>, i: int) -> u16
    decreases i,
{
    let from = parent[i];
    if 0 < from < i {
        model::farther(
            carried(nodes, parent, from),
            nodes[from].cost_of(nodes[parent[from]].me) + 1,
        )
    } else {
        0
    }
}

/// The copy for the node at index `i` of what the root broadcasts.
pub open spec fn copy_for<Id: Ord>(
    nodes: Seq<State<Id>>,
    parent: Seq<int>,
    payload: Seq<u8>,
    i: int,
) -> MessageView<Id> {
    MessageView::Gossip {
        id: (nodes[0].me, nodes[0].seq),
        payload,
        round: carried(nodes, parent, i),
    }
}

/// The node at index `i` once the message has reached it: the root has broadcast it, and every
/// other node has heard its copy.
pub open spec fn reached<Id: Ord>(
    nodes: Seq<State<Id>>,
    parent: Seq<int>,
    payload: Seq<u8>,
    i: int,
) -> State<Id> {
    if i == 0 {
        nodes[0].broadcast(payload)
    } else {
        nodes[i].on_message(nodes[parent[i]].me, copy_for(nodes, parent, payload, i))
    }
}

/// A broadcast reaches every node of a tree of eager links. `nodes` are the nodes as they are
/// when the message comes to them; the root is first, each other node is an eager peer of its
/// parent, and none has the message before. Then each parent, once reached, has queued the copy
/// for the node, once, and the node delivers the payload when the copy arrives, once.
pub proof fn broadcast_spreads_over_the_tree<Id: Ord>(
    nodes: Seq<State<Id>>,
    parent: Seq<int>,
    payload: Seq<u8>,
    i: int,
)
    requires
        order::ordered_key::<Id>(),
        nodes.len() == parent.len(),
        is_tree(parent),
        forall|j: int| 0 <= j < nodes.len() ==> (#[trigger] nodes[j]).valid(),
        forall|j: int, k: int|
            #![trigger nodes[j], nodes[k]]
            0 <= j < k < nodes.len() ==> nodes[j].me != nodes[k].me,
        forall|j: int|
            0 < j < nodes.len() ==> nodes[parent[j]].eager.contains((#[trigger] nodes[j]).me),
        forall|j: int|
            0 < j < nodes.len() ==> !(#[trigger] nodes[j]).cache.contains_key(
                (nodes[0].me, nodes[0].seq),
            ),
        0 < i < nodes.len(),
    ensures
        ({
            let from = parent[i];
            let sent = queued_since(nodes[from], reached(nodes, parent, payload, from));
            let copy = ActionView::Send(nodes[i].me, copy_for(nodes, parent, payload, i));
            &&& sent.no_duplicates()
            &&& sent.contains(copy)
            &&& deliveries(reached(nodes, parent, payload, i).outbound) == deliveries(
                nodes[i].outbound,
            ).push(ActionView::Deliver(payload))
        }),
{
    let from = parent[i];
    let id = (nodes[0].me, nodes[0].seq);
    let copy = copy_for(nodes, parent, payload, i);
    assert(nodes[from].me != nodes[i].me);
    assert(nodes[from].eager.contains(nodes[i].me));
    if from == 0 {
        broadcast_reaches_eager_peers(nodes[0], payload);
    } else {
        let before = parent[from];
        assert(nodes[before].me != nodes[from].me);
        assert(nodes[before].me != nodes[i].me);
        new_message_is_passed_on(
            nodes[from],
            nodes[before].me,
            id,
            payload,
            carried(nodes, parent, from),
            nodes[i].me,
        );
    }
    delivered_when_new(nodes[i], Event::Message(nodes[from].me, copy));
    assert(deliveries(reached(nodes, parent, payload, i).outbound) =~= deliveries(
        nodes[i].outbound,
    ).push(ActionView::Deliver(payload)));
}

} // verus!
