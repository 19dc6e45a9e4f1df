//! Recovery: a message that was announced and did not come is asked for, from one announcer
//! after the other, cheapest first.
use vstd::prelude::*;

use crate::history;
use crate::history::Event;
use crate::laws::cache;
use crate::laws::delivery;
use crate::laws::links;
use crate::message::{ActionView, Cost, MessageView, MsgId};
use crate::model;
use crate::model::{Announcer, State};
use crate::order;
use crate::seqs;
use crate::validity;

verus! {

/// The request for a message.
pub open spec fn request_to<Id>(p: Id, id: MsgId<Id>) -> ActionView<Id> {
    ActionView::Send(p, MessageView::Graft(Some(id)))
}

/// A tick asks for a message if, and only if, it is missing and the time of one of its
/// announcers has come; it asks the first of them, and nobody else.
pub proof fn tick_asks_who_is_due<Id: Ord>(s: State<Id>, ticks: u64, id: MsgId<Id>, p: Id)
    requires
        order::ordered_key::<Id>(),
        s.valid(),
    ensures
        ({
            let now = model::later(s.now, ticks);
            delivery::queued_since(s, s.tick(ticks)).contains(request_to(p, id))
                <==> s.missing.contains_key(id) && model::is_due(s.missing[id], now)
                && s.missing[id][model::due(s.missing[id], now)].peer == p
        }),
{
    let now = model::later(s.now, ticks);
    let new = delivery::queued_since(s, s.tick(ticks));
    let flushed = s.flushed();
    let requests = s.requests(now);
    assert(new =~= flushed + requests);
    order::lemma_ascending(s.missing.dom());
    let ids = order::ascending(s.missing.dom());
    let asked = ids.filter(s.is_asked(now));
    seqs::lemma_filter_contains(ids, s.is_asked(now));
    let want = request_to(p, id);
    if new.contains(want) {
        let i = choose|i: int| 0 <= i < new.len() && new[i] == want;
        let k = i - flushed.len();
        assert(requests[k] == want);
        assert(asked.contains(asked[k]));
        assert(asked[k] == id);
    }
    if s.missing.contains_key(id) && model::is_due(s.missing[id], now)
        && s.missing[id][model::due(s.missing[id], now)].peer == p {
        assert(asked.contains(id));
        let k = choose|k: int| 0 <= k < asked.len() && asked[k] == id;
        assert(requests[k] == want);
        assert(new[flushed.len() + k] == want);
    }
}

/// When an announcer is asked, it leaves the list, the others stay in their order, and each of
/// them waits a full timeout more.
pub proof fn the_others_wait_longer<Id: Ord>(s: State<Id>, ticks: u64, id: MsgId<Id>, i: int)
    requires
        s.missing.contains_key(id),
        model::is_due(s.missing[id], model::later(s.now, ticks)),
        0 <= i < s.missing[id].len() - 1,
        model::later(s.now, ticks) + s.cfg.graft_timeout <= u64::MAX,
    ensures
        ({
            let now = model::later(s.now, ticks);
            let k = model::due(s.missing[id], now);
            let left = s.tick(ticks).missing[id];
            let was = s.missing[id].remove(k)[i];
            &&& s.tick(ticks).missing.contains_key(id)
            &&& left.len() == s.missing[id].len() - 1
            &&& left[i].peer == was.peer
            &&& left[i].round == was.round
            &&& left[i].ready >= was.ready
            &&& left[i].ready >= now + s.cfg.graft_timeout
        }),
{
    seqs::lemma_first_where(
        s.missing[id],
        model::may_ask::<Id>(model::later(s.now, ticks)),
    );
}

/// A message that nobody is left to ask for is given up at the next tick; another is not.
pub proof fn given_up_when_nobody_is_left<Id: Ord>(s: State<Id>, ticks: u64, id: MsgId<Id>)
    requires
        s.missing.contains_key(id),
    ensures
        s.tick(ticks).missing.contains_key(id) <==> s.missing[id].len() > 0,
{
}

/// `p` is among the announcers of the message.
pub open spec fn is_listed<Id: Ord>(s: State<Id>, id: MsgId<Id>, p: Id) -> bool {
    exists|i: int| 0 <= i < s.announcers(id).len() && (#[trigger] s.announcers(id)[i]).peer == p
}

/// `p` is among the announcers of the message, and its time comes by `bound`.
pub open spec fn is_listed_by<Id: Ord>(s: State<Id>, id: MsgId<Id>, p: Id, bound: int) -> bool {
    exists|i: int|
        0 <= i < s.announcers(id).len() && (#[trigger] s.announcers(id)[i]).peer == p
            && s.announcers(id)[i].ready <= bound
}

/// The event at index `k` is a tick that makes the node ask `p` for the message.
pub open spec fn asks_at<Id: Ord>(
    s: State<Id>,
    events: Seq<Event<Id>>,
    k: int,
    p: Id,
    id: MsgId<Id>,
) -> bool {
    &&& events[k] is Tick
    &&& delivery::queued_since(s.run(events.take(k)), s.run(events.take(k + 1))).contains(
        request_to(p, id),
    )
}

/// One of the events makes the node ask `p` for the message.
pub open spec fn asks<Id: Ord>(
    s: State<Id>,
    events: Seq<Event<Id>>,
    p: Id,
    id: MsgId<Id>,
) -> bool {
    exists|k: int| 0 <= k < events.len() && #[trigger] asks_at(s, events, k, p, id)
}

proof fn lemma_on_ihave_lists<Id: Ord>(
    s: State<Id>,
    from: Id,
    ids: Seq<(MsgId<Id>, u16)>,
    id: MsgId<Id>,
    p: Id,
    bound: int,
)
    requires
        is_listed_by(s, id, p, bound),
    ensures
        is_listed_by(s.on_ihave(from, ids), id, p, bound),
        s.on_ihave(from, ids).announcers(id).len() <= s.announcers(id).len() + ids.filter(
            history::is_entry_for(id),
        ).len(),
    decreases ids.len(),
{
    reveal(Seq::filter);
    if ids.len() > 0 {
        let front = ids.drop_last();
        lemma_on_ihave_lists(s, from, front, id, p, bound);
        let t = s.on_ihave(from, front);
        let u = s.on_ihave(from, ids);
        let before = t.announcers(id);
        let after = u.announcers(id);
        let i = choose|i: int|
            0 <= i < before.len() && (#[trigger] t.announcers(id)[i]).peer == p && before[i].ready
                <= bound;
        if ids.last().0 == id && !t.cache.contains_key(id) {
            let more = model::costs_more(t.cost, t.cost_of(from));
            let k = seqs::first_where(before, more);
            seqs::lemma_first_where(before, more);
            let j = if i < k { i } else { i + 1 };
            assert(after[j] == before[i]);
            assert(u.announcers(id)[j].peer == p);
        } else {
            assert(after == before);
            assert(u.announcers(id)[i].peer == p);
        }
    }
}

proof fn lemma_exclude_lists<Id: Ord>(
    s: State<Id>,
    gone: Set<Id>,
    id: MsgId<Id>,
    p: Id,
    bound: int,
)
    requires
        is_listed_by(s, id, p, bound),
        !gone.contains(p),
    ensures
        is_listed_by(s.exclude(gone), id, p, bound),
        s.exclude(gone).announcers(id).len() <= s.announcers(id).len(),
{
    let before = s.announcers(id);
    let stays = model::stays(gone);
    let t = s.exclude(gone);
    let i = choose|i: int|
        0 <= i < before.len() && (#[trigger] s.announcers(id)[i]).peer == p && before[i].ready
            <= bound;
    before.lemma_filter_len(stays);
    seqs::lemma_filter_contains(before, stays);
    assert(t.announcers(id) == before.filter(stays));
    assert(before.contains(before[i]));
    assert(t.announcers(id).contains(before[i]));
    let j = choose|j: int| 0 <= j < t.announcers(id).len() && t.announcers(id)[j] == before[i];
    assert(t.announcers(id)[j].peer == p);
}

proof fn lemma_tick_waits<Id: Ord>(
    s: State<Id>,
    ticks: u64,
    id: MsgId<Id>,
    p: Id,
    step: u64,
    bound: int,
)
    requires
        order::ordered_key::<Id>(),
        s.valid(),
        is_listed_by(s, id, p, bound),
        s.now < bound,
        ticks <= step,
        bound + s.cfg.graft_timeout + step <= u64::MAX + 1,
    ensures
        ({
            let t = s.tick(ticks);
            ||| delivery::queued_since(s, t).contains(request_to(p, id))
            ||| is_listed_by(t, id, p, bound) && t.now < bound && t.announcers(id).len()
                == s.announcers(id).len()
            ||| is_listed_by(t, id, p, bound + s.cfg.graft_timeout + step) && t.now < bound
                + s.cfg.graft_timeout + step && t.announcers(id).len() == s.announcers(id).len()
                - 1
        }),
{
    let t = s.tick(ticks);
    let before = s.announcers(id);
    let now = model::later(s.now, ticks);
    let i = choose|i: int|
        0 <= i < before.len() && (#[trigger] s.announcers(id)[i]).peer == p && before[i].ready
            <= bound;
    let k = model::due(before, now);
    seqs::lemma_first_where(before, model::may_ask::<Id>(now));
    tick_asks_who_is_due(s, ticks, id, p);
    if model::is_due(before, now) {
        if before[k].peer != p {
            let j = if i < k { i } else { i - 1 };
            assert(before.remove(k)[j] == before[i]);
            assert(t.announcers(id)[j].peer == p);
        }
    } else {
        assert(!model::may_ask::<Id>(now)(before[i]));
        assert(t.announcers(id)[i].peer == p);
    }
}

/// One event, while `p` is listed for a message that does not come: either `p` is asked, or it
/// stays listed, and the time by which it is asked, if all before it are asked first, does not
/// recede but for announcements.
proof fn lemma_step_waits<Id: Ord>(
    s: State<Id>,
    event: Event<Id>,
    id: MsgId<Id>,
    p: Id,
    step: u64,
    bound: int,
) -> (next: int)
    requires
        order::ordered_key::<Id>(),
        s.valid(),
        is_listed_by(s, id, p, bound),
        s.now < bound,
        !event.brings(id),
        !event.drops(p),
        !event.removes(p),
        event.ticks_within(step),
        bound + s.cfg.graft_timeout + step <= u64::MAX + 1,
    ensures
        ({
            let t = s.step(event);
            let pause = s.cfg.graft_timeout + step;
            ||| event is Tick && delivery::queued_since(s, t).contains(request_to(p, id))
            ||| {
                &&& is_listed_by(t, id, p, next)
                &&& t.now < next
                &&& next + (t.announcers(id).len() - 1) * pause <= bound + (s.announcers(id).len()
                    - 1 + event.announces(id)) * pause
            }
        }),
{
    let t = s.step(event);
    let pause = s.cfg.graft_timeout + step;
    let before = s.announcers(id);
    let i = choose|i: int|
        0 <= i < before.len() && (#[trigger] s.announcers(id)[i]).peer == p && before[i].ready
            <= bound;
    let mut next = bound;
    match event {
        Event::Tick(ticks) => {
            lemma_tick_waits(s, ticks, id, p, step, bound);
            if t.announcers(id).len() == before.len() - 1 {
                next = bound + pause;
                assert((before.len() - 2) * pause + pause == (before.len() - 1) * pause)
                    by (nonlinear_arith);
            }
        },
        Event::Message(from, MessageView::Ihave(ids)) => {
            let heard = s.hear(from);
            assert(heard.announcers(id)[i].peer == p);
            lemma_on_ihave_lists(heard, from, ids, id, p, bound);
            links::lemma_on_ihave_constants(heard, from, ids);
        },
        Event::Membership(added, removed) => {
            lemma_exclude_lists(s, removed.to_set(), id, p, bound);
            let e = s.exclude(removed.to_set());
            let j = choose|j: int|
                0 <= j < e.announcers(id).len() && (#[trigger] e.announcers(id)[j]).peer == p
                    && e.announcers(id)[j].ready <= bound;
            assert(t.announcers(id)[j].peer == p);
        },
        Event::Down(peers) => {
            lemma_exclude_lists(s, peers.to_set(), id, p, bound);
            let e = s.exclude(peers.to_set());
            let j = choose|j: int|
                0 <= j < e.announcers(id).len() && (#[trigger] e.announcers(id)[j]).peer == p
                    && e.announcers(id)[j].ready <= bound;
            assert(t.announcers(id)[j].peer == p);
        },
        _ => {
            assert(t.announcers(id) == before);
            assert(t.announcers(id)[i].peer == p);
        },
    }
    if next == bound {
        let len = t.announcers(id).len();
        let most = before.len() + event.announces(id);
        if len <= most {
            assert((len - 1) * pause <= (most - 1) * pause) by (nonlinear_arith)
                requires
                    len <= most,
                    pause >= 0,
            ;
        }
    }
    next
}

/// Once listed, an announcer stays listed until it is asked, whatever happens, as long as the
/// message does not come and the announcer is neither down nor removed.
pub proof fn listed_until_asked<Id: Ord>(s: State<Id>, event: Event<Id>, id: MsgId<Id>, p: Id)
    requires
        order::ordered_key::<Id>(),
        s.valid(),
        is_listed(s, id, p),
        !event.brings(id),
        !event.drops(p),
        !event.removes(p),
    ensures
        is_listed(s.step(event), id, p) || (event is Tick && delivery::queued_since(
            s,
            s.step(event),
        ).contains(request_to(p, id))),
{
    let t = s.step(event);
    let before = s.announcers(id);
    let i = choose|i: int| 0 <= i < before.len() && (#[trigger] s.announcers(id)[i]).peer == p;
    let bound = before[i].ready as int;
    assert(is_listed_by(s, id, p, bound));
    match event {
        Event::Tick(ticks) => {
            let now = model::later(s.now, ticks);
            let k = model::due(before, now);
            seqs::lemma_first_where(before, model::may_ask::<Id>(now));
            tick_asks_who_is_due(s, ticks, id, p);
            if model::is_due(before, now) {
                if before[k].peer != p {
                    let j = if i < k { i } else { i - 1 };
                    assert(before.remove(k)[j] == before[i]);
                    assert(t.announcers(id)[j].peer == p);
                }
            } else {
                assert(t.announcers(id)[i].peer == p);
            }
        },
        Event::Message(from, MessageView::Ihave(ids)) => {
            let heard = s.hear(from);
            assert(heard.announcers(id)[i].peer == p);
            lemma_on_ihave_lists(heard, from, ids, id, p, bound);
        },
        Event::Membership(added, removed) => {
            lemma_exclude_lists(s, removed.to_set(), id, p, bound);
            let e = s.exclude(removed.to_set());
            let j = choose|j: int|
                0 <= j < e.announcers(id).len() && (#[trigger] e.announcers(id)[j]).peer == p;
            assert(t.announcers(id)[j].peer == p);
        },
        Event::Down(peers) => {
            lemma_exclude_lists(s, peers.to_set(), id, p, bound);
            let e = s.exclude(peers.to_set());
            let j = choose|j: int|
                0 <= j < e.announcers(id).len() && (#[trigger] e.announcers(id)[j]).peer == p;
            assert(t.announcers(id)[j].peer == p);
        },
        _ => {
            assert(t.announcers(id)[i].peer == p);
        },
    }
}

/// The events leave `p` listed for the message until it is asked: the message does not come, `p`
/// is neither down nor removed, and the clock advances by at most `step` at a time.
pub open spec fn waits_through<Id>(
    events: Seq<Event<Id>>,
    id: MsgId<Id>,
    p: Id,
    step: u64,
) -> bool {
    forall|i: int|
        0 <= i < events.len() ==> !(#[trigger] events[i]).brings(id) && !events[i].drops(p)
            && !events[i].removes(p) && events[i].ticks_within(step)
}

/// The time by which an announcer is asked whose own time comes by `bound`: everyone else on the
/// list, and everyone who announces the message in the meantime, may be asked before, and each
/// of them costs a timeout and a step of the clock.
pub open spec fn asked_by<Id: Ord>(
    s: State<Id>,
    events: Seq<Event<Id>>,
    id: MsgId<Id>,
    step: u64,
    bound: int,
) -> int {
    bound + (s.announcers(id).len() - 1 + history::announcements(events, id)) * (
    s.cfg.graft_timeout + step)
}

proof fn lemma_run_waits<Id: Ord>(
    s: State<Id>,
    events: Seq<Event<Id>>,
    id: MsgId<Id>,
    p: Id,
    step: u64,
    bound: int,
) -> (next: int)
    requires
        order::ordered_key::<Id>(),
        s.valid(),
        is_listed_by(s, id, p, bound),
        s.now < bound,
        waits_through(events, id, p, step),
        asked_by(s, events, id, step, bound) + s.cfg.graft_timeout + step <= u64::MAX + 1,
    ensures
        ({
            let t = s.run(events);
            let pause = s.cfg.graft_timeout + step;
            ||| asks(s, events, p, id)
            ||| {
                &&& is_listed_by(t, id, p, next)
                &&& t.now < next
                &&& next + (t.announcers(id).len() - 1) * pause <= asked_by(
                    s,
                    events,
                    id,
                    step,
                    bound,
                )
            }
        }),
        s.run(events).cfg == s.cfg,
    decreases events.len(),
{
    if events.len() == 0 {
        bound
    } else {
        let front = events.drop_last();
        let last = events.last();
        let pause = s.cfg.graft_timeout + step;
        let u = s.run(front);
        assert forall|i: int| 0 <= i < front.len() implies !(#[trigger] front[i]).brings(id)
            && !front[i].drops(p) && !front[i].removes(p) && front[i].ticks_within(step) by {
            assert(front[i] == events[i]);
        }
        assert(last == events[events.len() - 1]);
        let base = s.announcers(id).len() - 1 + history::announcements(front, id);
        let more = last.announces(id);
        assert(base * pause + more * pause == (base + more) * pause && more * pause >= 0)
            by (nonlinear_arith)
            requires
                more >= 0,
                pause >= 0,
        ;
        let middle = lemma_run_waits(s, front, id, p, step, bound);
        history::lemma_run_valid(s, front);
        links::each_part_has_its_input(u, last);
        if asks(s, front, p, id) {
            let k = choose|k: int| 0 <= k < front.len() && #[trigger] asks_at(s, front, k, p, id);
            assert(front.take(k) =~= events.take(k));
            assert(front.take(k + 1) =~= events.take(k + 1));
            assert(asks_at(s, events, k, p, id));
            middle
        } else {
            let rest = u.announcers(id).len() - 1;
            assert(rest >= 0);
            assert(rest * pause >= 0) by (nonlinear_arith)
                requires
                    rest >= 0,
                    pause >= 0,
            ;
            let next = lemma_step_waits(u, last, id, p, step, middle);
            assert((rest + more) * pause == rest * pause + more * pause) by (nonlinear_arith);
            if last is Tick && delivery::queued_since(u, u.step(last)).contains(
                request_to(p, id),
            ) {
                let k = events.len() - 1;
                assert(events.take(k) =~= front);
                assert(events.take(k + 1) =~= events);
                assert(asks_at(s, events, k, p, id));
            }
            next
        }
    }
}

/// Whoever announced a message that does not come is asked for it in time, unless it is down or
/// removed: whatever else happens, and in whatever steps the clock advances, short or long, equal
/// or not. The only announcer of a message is asked as soon as its own time has come.
pub proof fn every_announcer_is_asked<Id: Ord>(
    s: State<Id>,
    events: Seq<Event<Id>>,
    id: MsgId<Id>,
    p: Id,
    step: u64,
    bound: int,
)
    requires
        order::ordered_key::<Id>(),
        s.valid(),
        is_listed_by(s, id, p, bound),
        s.now < bound,
        waits_through(events, id, p, step),
        asked_by(s, events, id, step, bound) + s.cfg.graft_timeout + step <= u64::MAX + 1,
        s.run(events).now >= asked_by(s, events, id, step, bound),
    ensures
        asks(s, events, p, id),
{
    let next = lemma_run_waits(s, events, id, p, step, bound);
    if !asks(s, events, p, id) {
        let rest = s.run(events).announcers(id).len() - 1;
        let pause = s.cfg.graft_timeout + step;
        assert(rest * pause >= 0) by (nonlinear_arith)
            requires
                rest >= 0,
                pause >= 0,
        ;
    }
}

/// A message that is not here does not come to be here unless it arrives, or is started here.
proof fn lemma_not_brought<Id: Ord>(s: State<Id>, events: Seq<Event<Id>>, id: MsgId<Id>)
    requires
        !s.cache.contains_key(id),
        id.0 == s.me ==> id.1 < s.seq,
        s.seq + events.len() <= u64::MAX,
        forall|i: int| 0 <= i < events.len() ==> !(#[trigger] events[i]).brings(id),
    ensures
        !s.run(events).cache.contains_key(id),
        s.run(events).me == s.me,
        s.seq <= s.run(events).seq <= s.seq + events.len(),
    decreases events.len(),
{
    if events.len() > 0 {
        let front = events.drop_last();
        let last = events.last();
        assert forall|i: int| 0 <= i < front.len() implies !(#[trigger] front[i]).brings(id) by {
            assert(front[i] == events[i]);
        }
        assert(last == events[events.len() - 1]);
        lemma_not_brought(s, front, id);
        links::each_part_has_its_input(s.run(front), last);
        if let Event::Message(from, MessageView::Ihave(ids)) = last {
            cache::lemma_on_ihave_cache(s.run(front).hear(from), from, ids);
        }
    }
}

/// One announcer that can be reached is enough: `b` misses a message, and `a`, which has it, is
/// one of its announcers. Unless the message comes otherwise, `a` is asked in time, whatever
/// else happens, and sends the message; and when that arrives, `b` delivers it and stops waiting
/// for it.
pub proof fn recovered_from_any_announcer<Id: Ord>(
    a: State<Id>,
    b: State<Id>,
    id: MsgId<Id>,
    events: Seq<Event<Id>>,
    step: u64,
    bound: int,
)
    requires
        order::ordered_key::<Id>(),
        b.valid(),
        a.me != b.me,
        a.cache.contains_key(id),
        !b.cache.contains_key(id),
        id.0 == b.me ==> id.1 < b.seq,
        b.seq + events.len() <= u64::MAX,
        is_listed_by(b, id, a.me, bound),
        b.now < bound,
        waits_through(events, id, a.me, step),
        asked_by(b, events, id, step, bound) + b.cfg.graft_timeout + step <= u64::MAX + 1,
        b.run(events).now >= asked_by(b, events, id, step, bound),
    ensures
        asks(b, events, a.me, id),
        ({
            let served = a.on_message(b.me, MessageView::Graft(Some(id)));
            let copy = MessageView::Gossip {
                id,
                payload: a.cache[id].payload,
                round: model::farther(a.cache[id].round, 1),
            };
            let done = b.run(events).on_message(a.me, copy);
            &&& served.outbound == a.outbound.push(ActionView::Send(b.me, copy))
            &&& served.eager.contains(b.me)
            &&& delivery::deliveries(done.outbound) == delivery::deliveries(
                b.run(events).outbound,
            ).push(ActionView::Deliver(a.cache[id].payload))
            &&& !done.missing.contains_key(id)
            &&& done.peers().contains(a.me)
        }),
{
    let t = b.run(events);
    let copy = MessageView::Gossip {
        id,
        payload: a.cache[id].payload,
        round: model::farther(a.cache[id].round, 1),
    };
    let done = t.on_message(a.me, copy);
    every_announcer_is_asked(b, events, id, a.me, step, bound);
    assert forall|i: int| 0 <= i < events.len() implies !(#[trigger] events[i]).brings(id) by {}
    lemma_not_brought(b, events, id);
    cache::graft_is_answered(a, b.me, id);
    history::lemma_run_valid(b, events);
    links::heard_from_is_a_peer(t, a.me, copy);
    delivery::delivered_when_new(t, Event::Message(a.me, copy));
    assert(delivery::deliveries(done.outbound) =~= delivery::deliveries(t.outbound).push(
        ActionView::Deliver(a.cache[id].payload),
    ));
}

proof fn lemma_on_ihave_enlists<Id: Ord>(
    s: State<Id>,
    from: Id,
    ids: Seq<(MsgId<Id>, u16)>,
    id: MsgId<Id>,
    i: int,
)
    requires
        0 <= i < ids.len(),
        ids[i].0 == id,
        !s.cache.contains_key(id),
        s.ready_time(from) <= u64::MAX,
    ensures
        is_listed_by(s.on_ihave(from, ids), id, from, s.ready_time(from)),
    decreases ids.len(),
{
    let front = ids.drop_last();
    let t = s.on_ihave(from, front);
    let u = s.on_ihave(from, ids);
    let last = ids.last();
    let bound = s.ready_time(from);
    cache::lemma_on_ihave_cache(s, from, front);
    links::lemma_on_ihave_constants(s, from, front);
    let before = t.announcers(id);
    let more = model::costs_more(t.cost, t.cost_of(from));
    let k = seqs::first_where(before, more);
    seqs::lemma_first_where(before, more);
    if i == ids.len() - 1 {
        assert(u.announcers(id)[k].peer == from);
    } else {
        assert(front[i] == ids[i]);
        lemma_on_ihave_enlists(s, from, front, id, i);
        let j = choose|j: int|
            0 <= j < before.len() && (#[trigger] t.announcers(id)[j]).peer == from
                && before[j].ready <= bound;
        if last.0 == id {
            let m = if j < k { j } else { j + 1 };
            assert(u.announcers(id)[m] == before[j]);
            assert(u.announcers(id)[m].peer == from);
        } else {
            assert(u.announcers(id)[j].peer == from);
        }
    }
}

/// A message that the tree lost is recovered, as long as one peer announces it: `b` hears from
/// `a` that it has the message, and whatever else happens then, `b` asks `a` for it in time,
/// unless it comes otherwise. The time is that of the timeout and the cost of the link, if `a`
/// is the only one who announced it.
pub proof fn announced_message_is_recovered<Id: Ord>(
    a: State<Id>,
    b: State<Id>,
    ids: Seq<(MsgId<Id>, u16)>,
    i: int,
    events: Seq<Event<Id>>,
    step: u64,
    bound: int,
)
    requires
        order::ordered_key::<Id>(),
        b.valid(),
        a.me != b.me,
        0 <= i < ids.len(),
        a.cache.contains_key(ids[i].0),
        !b.cache.contains_key(ids[i].0),
        ids[i].0.0 == b.me ==> ids[i].0.1 < b.seq,
        b.seq + events.len() <= u64::MAX,
        b.can_wait(a.me, ids),
        b.ready_time(a.me) <= bound,
        b.now < bound,
        waits_through(events, ids[i].0, a.me, step),
        ({
            let heard = b.on_message(a.me, MessageView::Ihave(ids));
            let end = asked_by(heard, events, ids[i].0, step, bound);
            &&& end + b.cfg.graft_timeout + step <= u64::MAX + 1
            &&& heard.run(events).now >= end
        }),
    ensures
        ({
            let id = ids[i].0;
            let heard = b.on_message(a.me, MessageView::Ihave(ids));
            let served = a.on_message(b.me, MessageView::Graft(Some(id)));
            let copy = MessageView::Gossip {
                id,
                payload: a.cache[id].payload,
                round: model::farther(a.cache[id].round, 1),
            };
            let done = heard.run(events).on_message(a.me, copy);
            &&& asks(heard, events, a.me, id)
            &&& served.outbound == a.outbound.push(ActionView::Send(b.me, copy))
            &&& delivery::deliveries(done.outbound) == delivery::deliveries(
                heard.run(events).outbound,
            ).push(ActionView::Deliver(a.cache[id].payload))
            &&& !done.missing.contains_key(id)
        }),
{
    let id = ids[i].0;
    let ihave = MessageView::Ihave(ids);
    let heard = b.on_message(a.me, ihave);
    let first = b.hear(a.me);
    validity::lemma_on_message_valid(b, a.me, ihave);
    links::each_part_has_its_input(b, Event::Message(a.me, ihave));
    cache::lemma_on_ihave_cache(first, a.me, ids);
    lemma_on_ihave_enlists(first, a.me, ids, id, i);
    let j = choose|j: int|
        0 <= j < heard.announcers(id).len() && (#[trigger] heard.announcers(id)[j]).peer == a.me
            && heard.announcers(id)[j].ready <= first.ready_time(a.me);
    assert(is_listed_by(heard, id, a.me, bound));
    recovered_from_any_announcer(a, heard, id, events, step, bound);
}

/// `a` announced the message before, and does not wait any less now.
pub open spec fn waited<Id: Ord>(s: State<Id>, id: MsgId<Id>, a: Announcer<Id>) -> bool {
    exists|j: int|
        0 <= j < s.announcers(id).len() && (#[trigger] s.announcers(id)[j]).peer == a.peer
            && s.announcers(id)[j].ready <= a.ready
}

proof fn lemma_on_ihave_waits<Id: Ord>(
    s: State<Id>,
    from: Id,
    ids: Seq<(MsgId<Id>, u16)>,
    id: MsgId<Id>,
    i: int,
)
    requires
        0 <= i < s.on_ihave(from, ids).announcers(id).len(),
    ensures
        ({
            let a = s.on_ihave(from, ids).announcers(id)[i];
            waited(s, id, a) || (a.peer == from && a.ready == s.ready_time(from) as u64)
        }),
        s.on_ihave(from, ids).now == s.now,
        s.on_ihave(from, ids).cfg == s.cfg,
        s.on_ihave(from, ids).cost == s.cost,
    decreases ids.len(),
{
    let t = s.on_ihave(from, ids);
    let a = t.announcers(id)[i];
    if ids.len() == 0 {
        assert(s.announcers(id)[i] == a);
    } else {
        let front = ids.drop_last();
        let u = s.on_ihave(from, front);
        let last = ids.last().0;
        links::lemma_on_ihave_constants(s, from, front);
        let before = u.announcers(id);
        if id == last && !u.cache.contains_key(id) {
            let more = model::costs_more(u.cost, u.cost_of(from));
            let k = seqs::first_where(before, more);
            seqs::lemma_first_where(before, more);
            if i < k {
                assert(a == before[i]);
                lemma_on_ihave_waits(s, from, front, id, i);
            } else if i > k {
                assert(a == before[i - 1]);
                lemma_on_ihave_waits(s, from, front, id, i - 1);
            }
        } else {
            assert(a == before[i]);
            lemma_on_ihave_waits(s, from, front, id, i);
        }
    }
}

/// Nobody is asked early: whoever is listed for a missing message has just announced it, and
/// waits the timeout and its cost from now, or was listed before, and waits no less than then.
pub proof fn announcers_wait<Id: Ord>(s: State<Id>, event: Event<Id>, id: MsgId<Id>, i: int)
    requires
        s.step(event).missing.contains_key(id),
        0 <= i < s.step(event).missing[id].len(),
    ensures
        ({
            let a = s.step(event).missing[id][i];
            waited(s, id, a) || (event.is_from(a.peer) && a.ready == s.ready_time(a.peer) as u64)
        }),
{
    let t = s.step(event);
    let a = t.missing[id][i];
    let before = s.announcers(id);
    match event {
        Event::Message(from, MessageView::Ihave(ids)) => {
            let heard = s.hear(from);
            lemma_on_ihave_waits(heard, from, ids, id, i);
            if waited(heard, id, a) {
                let j = choose|j: int|
                    0 <= j < heard.announcers(id).len() && (#[trigger] heard.announcers(
                        id,
                    )[j]).peer == a.peer && heard.announcers(id)[j].ready <= a.ready;
                assert(before[j].peer == a.peer);
            }
        },
        Event::Tick(ticks) => {
            let now = model::later(s.now, ticks);
            let j = validity::lemma_left_at(s.missing[id], now, s.cfg.graft_timeout, i);
            assert(before[j].peer == a.peer);
        },
        Event::Membership(_, removed) => {
            let stays = model::stays(removed.to_set());
            seqs::lemma_filter_contains(before, stays);
            assert(before.filter(stays).contains(a));
            let j = choose|j: int| 0 <= j < before.len() && before[j] == a;
            assert(before[j].peer == a.peer);
        },
        Event::Down(peers) => {
            let stays = model::stays(peers.to_set());
            seqs::lemma_filter_contains(before, stays);
            assert(before.filter(stays).contains(a));
            let j = choose|j: int| 0 <= j < before.len() && before[j] == a;
            assert(before[j].peer == a.peer);
        },
        _ => {
            assert(before[i].peer == a.peer);
        },
    }
}

/// `p` is not asked for the message before `time`.
spec fn waits_until<Id: Ord>(s: State<Id>, id: MsgId<Id>, p: Id, time: int) -> bool {
    forall|i: int|
        0 <= i < s.announcers(id).len() && (#[trigger] s.announcers(id)[i]).peer == p
            ==> s.announcers(id)[i].ready >= time
}

proof fn lemma_run_waits_until<Id: Ord>(
    s: State<Id>,
    events: Seq<Event<Id>>,
    id: MsgId<Id>,
    p: Id,
)
    requires
        !is_listed(s, id, p),
        forall|i: int| 0 <= i < events.len() ==> !(#[trigger] events[i]).prices(p),
        s.run(events).now + s.cfg.graft_timeout + s.cost_of(p) <= u64::MAX,
    ensures
        waits_until(s.run(events), id, p, s.ready_time(p)),
        s.run(events).cfg == s.cfg,
        s.run(events).cost_of(p) == s.cost_of(p),
        s.run(events).now >= s.now,
    decreases events.len(),
{
    if events.len() > 0 {
        let front = events.drop_last();
        let last = events.last();
        let u = s.run(front);
        let t = s.run(events);
        assert forall|i: int| 0 <= i < front.len() implies !(#[trigger] front[i]).prices(p) by {
            assert(front[i] == events[i]);
        }
        assert(last == events[events.len() - 1]);
        links::each_part_has_its_input(u, last);
        assert(u.now <= t.now);
        lemma_run_waits_until(s, front, id, p);
        if let Event::Membership(added, removed) = last {
            assert forall|j: int| 0 <= j < added.len() implies (#[trigger] added[j]).0 != p by {}
            links::others_keep_their_cost(u, added, removed.to_set(), p);
        }
        assert forall|i: int|
            0 <= i < t.announcers(id).len() && (#[trigger] t.announcers(id)[i]).peer
                == p implies t.announcers(id)[i].ready >= s.ready_time(p) by {
            announcers_wait(u, last, id, i);
            let a = t.missing[id][i];
            if waited(u, id, a) {
                let j = choose|j: int|
                    0 <= j < u.announcers(id).len() && (#[trigger] u.announcers(id)[j]).peer
                        == a.peer && u.announcers(id)[j].ready <= a.ready;
                assert(u.announcers(id)[j].ready >= s.ready_time(p));
            }
        }
    }
}

/// Nobody is asked for a message before the timeout, and its cost, have passed since it first
/// announced the message, whatever happens, as long as its cost stays the same.
pub proof fn not_asked_early<Id: Ord>(
    s: State<Id>,
    events: Seq<Event<Id>>,
    id: MsgId<Id>,
    p: Id,
    k: int,
)
    requires
        order::ordered_key::<Id>(),
        s.valid(),
        !is_listed(s, id, p),
        forall|i: int| 0 <= i < events.len() ==> !(#[trigger] events[i]).prices(p),
        0 <= k < events.len(),
        asks_at(s, events, k, p, id),
        s.run(events.take(k)).now + s.cfg.graft_timeout + s.cost_of(p) <= u64::MAX,
    ensures
        s.run(events.take(k + 1)).now >= s.ready_time(p),
{
    let front = events.take(k);
    let next = events.take(k + 1);
    let u = s.run(front);
    assert forall|i: int| 0 <= i < front.len() implies !(#[trigger] front[i]).prices(p) by {
        assert(front[i] == events[i]);
    }
    assert(next.drop_last() =~= front);
    history::lemma_run_valid(s, front);
    lemma_run_waits_until(s, front, id, p);
    if let Event::Tick(ticks) = events[k] {
        let now = model::later(u.now, ticks);
        tick_asks_who_is_due(u, ticks, id, p);
        seqs::lemma_first_where(u.missing[id], model::may_ask::<Id>(now));
        let j = model::due(u.missing[id], now);
        assert(u.announcers(id)[j].peer == p);
    }
}

/// Nothing that is here counts as missing.
pub open spec fn misses_only_what_is_not_here<Id: Ord>(s: State<Id>) -> bool {
    s.missing.dom().disjoint(s.cache.dom())
}

proof fn lemma_on_ihave_missing<Id: Ord>(s: State<Id>, from: Id, ids: Seq<(MsgId<Id>, u16)>)
    requires
        misses_only_what_is_not_here(s),
    ensures
        misses_only_what_is_not_here(s.on_ihave(from, ids)),
    decreases ids.len(),
{
    if ids.len() > 0 {
        lemma_on_ihave_missing(s, from, ids.drop_last());
    }
}

/// A message that is here is not waited for or asked for, whatever happens. The one event left
/// out is a broadcast under an id that someone else has announced already.
pub proof fn nothing_here_is_missing<Id: Ord>(s: State<Id>, event: Event<Id>)
    requires
        misses_only_what_is_not_here(s),
        event is Broadcast ==> !s.missing.contains_key((s.me, s.seq)),
    ensures
        misses_only_what_is_not_here(s.step(event)),
{
    if let Event::Message(from, MessageView::Ihave(ids)) = event {
        lemma_on_ihave_missing(s.hear(from), from, ids);
    }
}

// ---------------------------------------------------------------------- cheapest first

/// The announcers cost no less the later they are tried.
pub open spec fn is_cheapest_first<Id>(
    costs: Map<Id, Cost>,
    announcers: Seq<Announcer<Id>>,
) -> bool {
    forall|i: int, j: int|
        #![trigger announcers[i], announcers[j]]
        0 <= i < j < announcers.len() ==> model::cost_in(costs, announcers[i].peer)
            <= model::cost_in(costs, announcers[j].peer)
}

/// The announcers of every missing message are tried cheapest first.
pub open spec fn tries_cheapest_first<Id: Ord>(s: State<Id>) -> bool {
    forall|id: MsgId<Id>|
        s.missing.contains_key(id) ==> is_cheapest_first(s.cost, #[trigger] s.missing[id])
}

/// No announcer of a missing message changes its cost and stays.
pub open spec fn keeps_costs<Id: Ord>(s: State<Id>, event: Event<Id>) -> bool {
    forall|id: MsgId<Id>, i: int|
        #![trigger s.missing[id][i]]
        s.missing.contains_key(id) && 0 <= i < s.missing[id].len() ==> event.removes(
            s.missing[id][i].peer,
        ) || s.step(event).cost_of(s.missing[id][i].peer) == s.cost_of(s.missing[id][i].peer)
}

proof fn lemma_on_announced_cheapest_first<Id: Ord>(
    s: State<Id>,
    from: Id,
    id: MsgId<Id>,
    round: u16,
)
    requires
        tries_cheapest_first(s),
    ensures
        tries_cheapest_first(s.on_announced(from, id, round)),
{
    let t = s.on_announced(from, id, round);
    if !s.cache.contains_key(id) {
        let before = s.announcers(id);
        let after = t.missing[id];
        let more = model::costs_more(s.cost, s.cost_of(from));
        let k = seqs::first_where(before, more);
        seqs::lemma_first_where(before, more);
        assert(is_cheapest_first(s.cost, before));
        assert forall|i: int, j: int|
            #![trigger after[i], after[j]]
            0 <= i < j < after.len() implies model::cost_in(s.cost, after[i].peer)
            <= model::cost_in(s.cost, after[j].peer) by {
            if i < k {
                assert(after[i] == before[i]);
                assert(!more(before[i]));
            } else if i > k {
                assert(after[i] == before[i - 1]);
            }
            if j > k {
                assert(after[j] == before[j - 1]);
                assert(more(before[k]));
                if k < j - 1 {
                    assert(model::cost_in(s.cost, before[k].peer) <= model::cost_in(
                        s.cost,
                        before[j - 1].peer,
                    ));
                }
            } else if j < k {
                assert(after[j] == before[j]);
            }
        }
    }
    assert forall|m: MsgId<Id>| t.missing.contains_key(m) implies is_cheapest_first(
        t.cost,
        #[trigger] t.missing[m],
    ) by {
        if m != id || s.cache.contains_key(id) {
            assert(t.missing[m] == s.missing[m]);
        }
    }
}

proof fn lemma_on_ihave_cheapest_first<Id: Ord>(
    s: State<Id>,
    from: Id,
    ids: Seq<(MsgId<Id>, u16)>,
)
    requires
        tries_cheapest_first(s),
    ensures
        tries_cheapest_first(s.on_ihave(from, ids)),
    decreases ids.len(),
{
    if ids.len() > 0 {
        lemma_on_ihave_cheapest_first(s, from, ids.drop_last());
        lemma_on_announced_cheapest_first(
            s.on_ihave(from, ids.drop_last()),
            from,
            ids.last().0,
            ids.last().1,
        );
    }
}

proof fn lemma_filter_cheapest_first<Id>(
    costs: Map<Id, Cost>,
    q: Seq<Announcer<Id>>,
    f: spec_fn(Announcer<Id>) -> bool,
)
    requires
        is_cheapest_first(costs, q),
    ensures
        is_cheapest_first(costs, q.filter(f)),
    decreases q.len(),
{
    reveal(Seq::filter);
    if q.len() > 0 {
        let front = q.drop_last();
        assert forall|i: int, j: int|
            #![trigger front[i], front[j]]
            0 <= i < j < front.len() implies model::cost_in(costs, front[i].peer)
            <= model::cost_in(costs, front[j].peer) by {
            assert(front[i] == q[i] && front[j] == q[j]);
        }
        lemma_filter_cheapest_first(costs, front, f);
        seqs::lemma_filter_contains(front, f);
        let kept = front.filter(f);
        assert forall|i: int| 0 <= i < kept.len() implies model::cost_in(
            costs,
            (#[trigger] kept[i]).peer,
        ) <= model::cost_in(costs, q.last().peer) by {
            assert(kept.contains(kept[i]));
            let j = choose|j: int| 0 <= j < front.len() && front[j] == kept[i];
            assert(q[j] == kept[i]);
            assert(q[q.len() - 1] == q.last());
        }
    }
}

proof fn lemma_exclude_cheapest_first<Id: Ord>(s: State<Id>, gone: Set<Id>)
    requires
        tries_cheapest_first(s),
    ensures
        tries_cheapest_first(s.exclude(gone)),
{
    let t = s.exclude(gone);
    assert forall|m: MsgId<Id>| t.missing.contains_key(m) implies is_cheapest_first(
        t.cost,
        #[trigger] t.missing[m],
    ) by {
        lemma_filter_cheapest_first(s.cost, s.missing[m], model::stays(gone));
    }
}

proof fn lemma_step_cheapest_first<Id: Ord>(s: State<Id>, event: Event<Id>)
    requires
        tries_cheapest_first(s),
        keeps_costs(s, event),
    ensures
        tries_cheapest_first(s.step(event)),
{
    let t = s.step(event);
    match event {
        Event::Message(from, message) => {
            let heard = s.hear(from);
            assert(tries_cheapest_first(heard));
            match message {
                MessageView::Gossip { id, .. } => {
                    assert forall|m: MsgId<Id>| t.missing.contains_key(m) implies is_cheapest_first(
                        t.cost,
                        #[trigger] t.missing[m],
                    ) by {
                        assert(t.missing[m] == s.missing[m]);
                    }
                },
                MessageView::Ihave(ids) => lemma_on_ihave_cheapest_first(heard, from, ids),
                _ => {},
            }
        },
        Event::Tick(ticks) => {
            let now = model::later(s.now, ticks);
            assert forall|m: MsgId<Id>| t.missing.contains_key(m) implies is_cheapest_first(
                t.cost,
                #[trigger] t.missing[m],
            ) by {
                let all = s.missing[m];
                let left = t.missing[m];
                assert(is_cheapest_first(s.cost, all));
                let k = model::due(all, now);
                seqs::lemma_first_where(all, model::may_ask::<Id>(now));
                assert forall|i: int, j: int|
                    #![trigger left[i], left[j]]
                    0 <= i < j < left.len() implies model::cost_in(s.cost, left[i].peer)
                    <= model::cost_in(s.cost, left[j].peer) by {
                    if model::is_due(all, now) {
                        let a = if i < k { i } else { i + 1 };
                        let b = if j < k { j } else { j + 1 };
                        assert(left[i].peer == all[a].peer);
                        assert(left[j].peer == all[b].peer);
                    }
                }
            }
        },
        Event::Membership(added, removed) => {
            let gone = removed.to_set();
            lemma_exclude_cheapest_first(s, gone);
            let e = s.exclude(gone);
            assert forall|m: MsgId<Id>| t.missing.contains_key(m) implies is_cheapest_first(
                t.cost,
                #[trigger] t.missing[m],
            ) by {
                let left = t.missing[m];
                assert(left == e.missing[m]);
                seqs::lemma_filter_contains(s.missing[m], model::stays(gone));
                assert forall|i: int| 0 <= i < left.len() implies t.cost_of(
                    (#[trigger] left[i]).peer,
                ) == s.cost_of(left[i].peer) by {
                    assert(s.missing[m].filter(model::stays(gone)).contains(left[i]));
                    let j = choose|j: int|
                        0 <= j < s.missing[m].len() && s.missing[m][j] == left[i];
                    assert(s.missing[m][j].peer == left[i].peer);
                    assert(!removed.contains(left[i].peer));
                }
                assert(is_cheapest_first(s.cost, left));
                assert forall|i: int, j: int|
                    #![trigger left[i], left[j]]
                    0 <= i < j < left.len() implies model::cost_in(t.cost, left[i].peer)
                    <= model::cost_in(t.cost, left[j].peer) by {
                    assert(t.cost_of(left[i].peer) == s.cost_of(left[i].peer));
                    assert(t.cost_of(left[j].peer) == s.cost_of(left[j].peer));
                }
            }
        },
        Event::Down(peers) => lemma_exclude_cheapest_first(s, peers.to_set()),
        _ => {},
    }
}

/// No announcer of a missing message changes its cost and stays, at any of the events.
pub open spec fn keeps_costs_through<Id: Ord>(s: State<Id>, events: Seq<Event<Id>>) -> bool {
    forall|k: int|
        0 <= k < events.len() ==> keeps_costs(#[trigger] s.run(events.take(k)), events[k])
}

proof fn lemma_keeps_costs_front<Id: Ord>(s: State<Id>, events: Seq<Event<Id>>)
    requires
        keeps_costs_through(s, events),
        events.len() > 0,
    ensures
        keeps_costs_through(s, events.drop_last()),
        keeps_costs(s.run(events.drop_last()), events.last()),
{
    let front = events.drop_last();
    assert forall|k: int| 0 <= k < front.len() implies keeps_costs(
        #[trigger] s.run(front.take(k)),
        front[k],
    ) by {
        assert(front.take(k) =~= events.take(k));
        assert(keeps_costs(s.run(events.take(k)), events[k]));
    }
    assert(events.take(events.len() - 1) =~= front);
    assert(keeps_costs(s.run(events.take(events.len() - 1)), events[events.len() - 1]));
}

/// The announcers of a missing message stay in the order of their costs, whatever happens, as
/// long as none of them changes its cost. (A node that misses nothing has them in order.)
pub proof fn cheapest_stays_first<Id: Ord>(s: State<Id>, events: Seq<Event<Id>>)
    requires
        tries_cheapest_first(s),
        keeps_costs_through(s, events),
    ensures
        tries_cheapest_first(s.run(events)),
    decreases events.len(),
{
    if events.len() > 0 {
        lemma_keeps_costs_front(s, events);
        cheapest_stays_first(s, events.drop_last());
        lemma_step_cheapest_first(s.run(events.drop_last()), events.last());
    }
}

/// Of the announcers whose time has come, the one that is asked costs no more than any other,
/// and stands before any other on the list.
pub proof fn cheapest_is_asked<Id: Ord>(s: State<Id>, now: u64, id: MsgId<Id>, j: int)
    requires
        tries_cheapest_first(s),
        s.missing.contains_key(id),
        0 <= j < s.missing[id].len(),
        s.missing[id][j].ready <= now,
    ensures
        model::is_due(s.missing[id], now),
        s.cost_of(s.missing[id][model::due(s.missing[id], now)].peer) <= s.cost_of(
            s.missing[id][j].peer,
        ),
        model::due(s.missing[id], now) <= j,
{
    let all = s.missing[id];
    let k = model::due(all, now);
    seqs::lemma_first_where(all, model::may_ask::<Id>(now));
    assert(is_cheapest_first(s.cost, all));
    if j < k {
        assert(!model::may_ask::<Id>(now)(all[j]));
    }
}

// ---------------------------------------------------------------------- first to speak

/// `after` is `before` with some gone and some new: `origin[i]` is the place in `before` of who is
/// at place `i` in `after`, and negative for who is new. Who stays keeps the order, and waits
/// until `earliest` at least.
pub open spec fn keeps_order<Id>(
    before: Seq<Announcer<Id>>,
    after: Seq<Announcer<Id>>,
    origin: Seq<int>,
    earliest: u64,
) -> bool {
    &&& origin.len() == after.len()
    &&& forall|i: int|
        0 <= i < origin.len() && #[trigger] origin[i] >= 0 ==> {
            &&& origin[i] < before.len()
            &&& after[i].peer == before[origin[i]].peer
            &&& after[i].round == before[origin[i]].round
            &&& after[i].ready == model::latest(before[origin[i]].ready, earliest)
        }
    &&& forall|i: int, j: int|
        #![trigger origin[i], origin[j]]
        0 <= i < j < origin.len() && origin[i] >= 0 && origin[j] >= 0 ==> origin[i] < origin[j]
}

/// The time until which an event makes the announcers of a message wait who are left: one timeout
/// more, if the event is a tick at which one of them is asked.
pub open spec fn made_to_wait<Id: Ord>(s: State<Id>, event: Event<Id>, id: MsgId<Id>) -> u64 {
    match event {
        Event::Tick(ticks) => {
            let now = model::later(s.now, ticks);
            if model::is_due(s.announcers(id), now) {
                (now + s.cfg.graft_timeout) as u64
            } else {
                0
            }
        },
        _ => 0,
    }
}

/// Who is at place `k` among the announcers of a message leaves at an event: the message comes,
/// the announcer is down or removed, or it is asked.
pub open spec fn leaves<Id: Ord>(s: State<Id>, event: Event<Id>, id: MsgId<Id>, k: int) -> bool {
    ||| event.brings(id)
    ||| event.drops(s.announcers(id)[k].peer)
    ||| event.removes(s.announcers(id)[k].peer)
    ||| event matches Event::Tick(ticks) && k == model::due(
        s.announcers(id),
        model::later(s.now, ticks),
    )
}

/// Whoever is new stands behind those who cost no more, and before those who cost more.
pub open spec fn places_newcomers<Id>(
    costs: Map<Id, Cost>,
    after: Seq<Announcer<Id>>,
    origin: Seq<int>,
) -> bool {
    forall|i: int, j: int|
        #![trigger origin[i], origin[j]]
        0 <= i < origin.len() && 0 <= j < origin.len() && origin[i] < 0 && origin[j] >= 0 ==> (j
            < i <==> model::cost_in(costs, after[j].peer) <= model::cost_in(costs, after[i].peer))
}

/// Nobody moved.
spec fn same_places(len: nat) -> Seq<int> {
    Seq::new(len, |i: int| i)
}

proof fn lemma_on_ihave_order<Id: Ord>(
    s: State<Id>,
    from: Id,
    ids: Seq<(MsgId<Id>, u16)>,
    id: MsgId<Id>,
) -> (origin: Seq<int>)
    ensures
        ({
            let before = s.announcers(id);
            let after = s.on_ihave(from, ids).announcers(id);
            &&& keeps_order(before, after, origin, 0)
            &&& forall|k: int| 0 <= k < before.len() ==> #[trigger] origin.contains(k)
            &&& forall|i: int|
                0 <= i < origin.len() && #[trigger] origin[i] < 0 ==> after[i].peer == from
                    && after[i].ready == s.ready_time(from) as u64
            &&& tries_cheapest_first(s) ==> places_newcomers(s.cost, after, origin)
        }),
    decreases ids.len(),
{
    let before = s.announcers(id);
    let after = s.on_ihave(from, ids).announcers(id);
    if ids.len() == 0 {
        let origin = same_places(before.len());
        assert forall|k: int| 0 <= k < before.len() implies #[trigger] origin.contains(k) by {
            assert(origin[k] == k);
        }
        origin
    } else {
        let front = ids.drop_last();
        let t = s.on_ihave(from, front);
        let middle = t.announcers(id);
        let old = lemma_on_ihave_order(s, from, front, id);
        links::lemma_on_ihave_constants(s, from, front);
        if ids.last().0 != id || t.cache.contains_key(id) {
            assert(after == middle);
            old
        } else {
            let more = model::costs_more(t.cost, t.cost_of(from));
            let k = seqs::first_where(middle, more);
            seqs::lemma_first_where(middle, more);
            let origin = old.insert(k, -1);
            // Where place `i` was before the insertion.
            let was = |i: int| if i < k { i } else { i - 1 };
            assert forall|i: int| 0 <= i < origin.len() && i != k implies #[trigger] origin[i]
                == old[was(i)] && after[i] == middle[was(i)] by {}
            assert forall|j: int| 0 <= j < before.len() implies #[trigger] origin.contains(j) by {
                assert(old.contains(j));
                let i = choose|i: int| 0 <= i < old.len() && old[i] == j;
                let m = if i < k { i } else { i + 1 };
                assert(origin[m] == j);
            }
            if tries_cheapest_first(s) {
                lemma_on_ihave_cheapest_first(s, from, front);
                if t.missing.contains_key(id) {
                    assert(is_cheapest_first(t.cost, t.missing[id]));
                }
                assert(is_cheapest_first(s.cost, middle));
                assert forall|i: int, j: int|
                    #![trigger origin[i], origin[j]]
                    0 <= i < origin.len() && 0 <= j < origin.len() && origin[i] < 0 && origin[j]
                        >= 0 implies (j < i <==> model::cost_in(s.cost, after[j].peer)
                    <= model::cost_in(s.cost, after[i].peer)) by {
                    assert(j != k);
                    let b = was(j);
                    assert(after[j] == middle[b]);
                    if i == k {
                        assert(after[i].peer == from);
                        if b < k {
                            assert(!more(middle[b]));
                        } else {
                            assert(more(middle[k]));
                            if k < b {
                                assert(model::cost_in(s.cost, middle[k].peer) <= model::cost_in(
                                    s.cost,
                                    middle[b].peer,
                                ));
                            }
                        }
                    } else {
                        assert(old[was(i)] < 0 && old[b] >= 0);
                        assert(after[i] == middle[was(i)]);
                    }
                }
            }
            origin
        }
    }
}

proof fn lemma_exclude_order<Id: Ord>(
    s: State<Id>,
    gone: Set<Id>,
    id: MsgId<Id>,
) -> (origin: Seq<int>)
    ensures
        keeps_order(s.announcers(id), s.exclude(gone).announcers(id), origin, 0),
        forall|i: int| 0 <= i < origin.len() ==> #[trigger] origin[i] >= 0,
        forall|k: int|
            0 <= k < s.announcers(id).len() && !gone.contains(
                (#[trigger] s.announcers(id)[k]).peer,
            ) ==> origin.contains(k),
{
    let before = s.announcers(id);
    let stays = model::stays(gone);
    let origin = seqs::lemma_filter_origin(before, stays);
    if !s.missing.contains_key(id) {
        before.lemma_filter_len(stays);
        assert(before.filter(stays) =~= before);
    }
    assert(s.exclude(gone).announcers(id) == before.filter(stays));
    assert forall|k: int|
        0 <= k < s.announcers(id).len() && !gone.contains(
            (#[trigger] s.announcers(id)[k]).peer,
        ) implies origin.contains(k) by {
        assert(stays(before[k]));
    }
    origin
}

/// The list of the announcers of a message keeps its order, whatever happens: who stays stays in
/// order, and all wait the same time at least; who is new has just announced the message, and
/// stands behind those listed who cost no more; and who leaves has a reason.
pub proof fn list_keeps_its_order<Id: Ord>(
    s: State<Id>,
    event: Event<Id>,
    id: MsgId<Id>,
) -> (origin: Seq<int>)
    ensures
        ({
            let before = s.announcers(id);
            let after = s.step(event).announcers(id);
            &&& keeps_order(before, after, origin, made_to_wait(s, event, id))
            &&& forall|k: int|
                0 <= k < before.len() && !#[trigger] origin.contains(k) ==> leaves(s, event, id, k)
            &&& forall|i: int|
                0 <= i < origin.len() && #[trigger] origin[i] < 0 ==> event.is_from(after[i].peer)
                    && after[i].ready == s.ready_time(after[i].peer) as u64
            &&& tries_cheapest_first(s) ==> places_newcomers(s.cost, after, origin)
        }),
{
    let before = s.announcers(id);
    let t = s.step(event);
    let after = t.announcers(id);
    let same = same_places(before.len());
    assert forall|k: int| 0 <= k < before.len() implies #[trigger] same.contains(k) by {
        assert(same[k] == k);
    }
    match event {
        Event::Message(from, MessageView::Ihave(ids)) => {
            let heard = s.hear(from);
            assert(tries_cheapest_first(s) ==> tries_cheapest_first(heard));
            lemma_on_ihave_order(heard, from, ids, id)
        },
        Event::Message(from, MessageView::Gossip { id: it, .. }) => {
            if it == id && !s.cache.contains_key(id) {
                Seq::empty()
            } else {
                assert(after == before);
                same
            }
        },
        Event::Tick(ticks) => {
            let now = model::later(s.now, ticks);
            let d = model::due(before, now);
            seqs::lemma_first_where(before, model::may_ask::<Id>(now));
            if model::is_due(before, now) {
                let origin = Seq::new(
                    (before.len() - 1) as nat,
                    |i: int| if i < d { i } else { i + 1 },
                );
                assert forall|i: int| 0 <= i < origin.len() && #[trigger] origin[i] >= 0 implies {
                    &&& origin[i] < before.len()
                    &&& after[i].peer == before[origin[i]].peer
                    &&& after[i].round == before[origin[i]].round
                    &&& after[i].ready == model::latest(
                        before[origin[i]].ready,
                        (now + s.cfg.graft_timeout) as u64,
                    )
                } by {
                    assert(before.remove(d)[i] == before[origin[i]]);
                }
                assert forall|k: int|
                    0 <= k < before.len() && !#[trigger] origin.contains(k) implies leaves(
                    s,
                    event,
                    id,
                    k,
                ) by {
                    if k < d {
                        assert(origin[k] == k);
                    } else if k > d {
                        assert(origin[k - 1] == k);
                    }
                }
                origin
            } else {
                assert(after == before);
                same
            }
        },
        Event::Membership(_, removed) => {
            let origin = lemma_exclude_order(s, removed.to_set(), id);
            assert(after == s.exclude(removed.to_set()).announcers(id));
            assert forall|k: int|
                0 <= k < before.len() && !#[trigger] origin.contains(k) implies leaves(
                s,
                event,
                id,
                k,
            ) by {
                assert(removed.to_set().contains(s.announcers(id)[k].peer));
            }
            origin
        },
        Event::Down(peers) => {
            let origin = lemma_exclude_order(s, peers.to_set(), id);
            assert(after == s.exclude(peers.to_set()).announcers(id));
            assert forall|k: int|
                0 <= k < before.len() && !#[trigger] origin.contains(k) implies leaves(
                s,
                event,
                id,
                k,
            ) by {
                assert(peers.to_set().contains(s.announcers(id)[k].peer));
            }
            origin
        },
        _ => {
            assert(after == before);
            same
        },
    }
}

/// `p` is listed for the message before every listing of `q`, and waits no longer than `q` does,
/// or than `q` would if it announced the message now.
pub open spec fn goes_before<Id: Ord>(s: State<Id>, id: MsgId<Id>, p: Id, q: Id) -> bool {
    exists|i: int| #[trigger] goes_before_at(s, id, p, q, i)
}

/// [`goes_before`], for the listing of `p` at place `i`.
pub open spec fn goes_before_at<Id: Ord>(
    s: State<Id>,
    id: MsgId<Id>,
    p: Id,
    q: Id,
    i: int,
) -> bool {
    let all = s.announcers(id);
    &&& 0 <= i < all.len()
    &&& all[i].peer == p
    &&& all[i].ready <= s.ready_time(q)
    &&& forall|j: int|
        0 <= j < all.len() && (#[trigger] all[j]).peer == q ==> i < j && all[i].ready
            <= all[j].ready
}

proof fn lemma_step_goes_before<Id: Ord>(
    s: State<Id>,
    event: Event<Id>,
    id: MsgId<Id>,
    p: Id,
    q: Id,
)
    requires
        order::ordered_key::<Id>(),
        s.valid(),
        p != q,
        goes_before(s, id, p, q),
        tries_cheapest_first(s),
        s.cost_of(p) <= s.cost_of(q),
        !event.brings(id),
        !event.drops(p),
        !event.removes(p),
        s.step(event).cost_of(q) == s.cost_of(q),
        s.step(event).now + s.cfg.graft_timeout + s.cost_of(q) <= u64::MAX,
    ensures
        ({
            let t = s.step(event);
            ||| event is Tick && delivery::queued_since(s, t).contains(request_to(p, id))
            ||| goes_before(t, id, p, q)
        }),
        !(event is Tick && delivery::queued_since(s, s.step(event)).contains(request_to(q, id))),
{
    let t = s.step(event);
    let before = s.announcers(id);
    let after = t.announcers(id);
    let earliest = made_to_wait(s, event, id);
    let i = choose|i: int| #[trigger] goes_before_at(s, id, p, q, i);
    let origin = list_keeps_its_order(s, event, id);
    links::each_part_has_its_input(s, event);
    if let Event::Tick(ticks) = event {
        let now = model::later(s.now, ticks);
        let d = model::due(before, now);
        seqs::lemma_first_where(before, model::may_ask::<Id>(now));
        tick_asks_who_is_due(s, ticks, id, p);
        tick_asks_who_is_due(s, ticks, id, q);
        if model::is_due(before, now) && before[d].peer == q {
            assert(!model::may_ask::<Id>(now)(before[i]));
        }
    }
    if origin.contains(i) {
        let x = choose|x: int| 0 <= x < origin.len() && origin[x] == i;
        assert(origin[x] >= 0);
        assert(after[x].peer == p);
        assert forall|y: int| 0 <= y < after.len() && (#[trigger] after[y]).peer == q implies x < y
            && after[x].ready <= after[y].ready by {
            if origin[y] >= 0 {
                assert(before[origin[y]].peer == q);
                assert(i < origin[y]);
                if y < x {
                    assert(origin[y] < origin[x]);
                }
            } else {
                assert(origin[x] >= 0 && origin[y] < 0);
            }
        }
        assert(goes_before_at(t, id, p, q, x));
    } else {
        assert(leaves(s, event, id, i));
    }
}

/// The events leave the message missing, `p` reachable, and the costs of both as they are.
pub open spec fn leaves_in_line<Id>(
    events: Seq<Event<Id>>,
    id: MsgId<Id>,
    p: Id,
    q: Id,
) -> bool {
    forall|i: int|
        0 <= i < events.len() ==> !(#[trigger] events[i]).brings(id) && !events[i].drops(p)
            && !events[i].prices(p) && !events[i].prices(q)
}

proof fn lemma_step_price<Id: Ord>(s: State<Id>, event: Event<Id>, p: Id)
    requires
        !event.prices(p),
    ensures
        s.step(event).cost_of(p) == s.cost_of(p),
{
    links::each_part_has_its_input(s, event);
    if let Event::Membership(added, removed) = event {
        assert forall|j: int| 0 <= j < added.len() implies (#[trigger] added[j]).0 != p by {}
        links::others_keep_their_cost(s, added, removed.to_set(), p);
    }
}

/// The request goes to the announcer that spoke first: as long as `p` is listed for a message
/// before `q`, which costs no less, and may announce it later or again, `q` is not asked before
/// `p`. Whatever else happens, the message does not come, `p` is neither down nor removed, and
/// the announcers keep their costs.
pub proof fn first_to_speak_is_asked_first<Id: Ord>(
    s: State<Id>,
    events: Seq<Event<Id>>,
    id: MsgId<Id>,
    p: Id,
    q: Id,
)
    requires
        order::ordered_key::<Id>(),
        s.valid(),
        p != q,
        goes_before(s, id, p, q),
        tries_cheapest_first(s),
        s.cost_of(p) <= s.cost_of(q),
        leaves_in_line(events, id, p, q),
        keeps_costs_through(s, events),
        s.run(events).now + s.cfg.graft_timeout + s.cost_of(q) <= u64::MAX,
    ensures
        forall|k: int|
            0 <= k < events.len() && #[trigger] asks_at(s, events, k, q, id) ==> asks(
                s,
                events.take(k),
                p,
                id,
            ),
        asks(s, events, p, id) || goes_before(s.run(events), id, p, q),
        s.run(events).cfg == s.cfg,
        s.run(events).cost_of(p) == s.cost_of(p),
        s.run(events).cost_of(q) == s.cost_of(q),
    decreases events.len(),
{
    if events.len() > 0 {
        let front = events.drop_last();
        let last = events.last();
        let u = s.run(front);
        assert forall|i: int| 0 <= i < front.len() implies !(#[trigger] front[i]).brings(id)
            && !front[i].drops(p) && !front[i].prices(p) && !front[i].prices(q) by {
            assert(front[i] == events[i]);
        }
        assert(last == events[events.len() - 1]);
        lemma_keeps_costs_front(s, events);
        links::each_part_has_its_input(u, last);
        assert(u.now <= s.run(events).now);
        first_to_speak_is_asked_first(s, front, id, p, q);
        lemma_step_price(u, last, p);
        lemma_step_price(u, last, q);
        history::lemma_run_valid(s, front);
        cheapest_stays_first(s, front);
        let end = events.len() - 1;
        assert(events.take(end) =~= front);
        assert(events.take(end + 1) =~= events);
        if asks(s, front, p, id) {
            let k = choose|k: int| 0 <= k < front.len() && #[trigger] asks_at(s, front, k, p, id);
            assert(front.take(k) =~= events.take(k));
            assert(front.take(k + 1) =~= events.take(k + 1));
            assert(asks_at(s, events, k, p, id));
        } else {
            lemma_step_goes_before(u, last, id, p, q);
            if last is Tick && delivery::queued_since(u, u.step(last)).contains(
                request_to(p, id),
            ) {
                assert(asks_at(s, events, end, p, id));
            }
        }
        assert forall|k: int|
            0 <= k < events.len() && #[trigger] asks_at(s, events, k, q, id) implies asks(
            s,
            events.take(k),
            p,
            id,
        ) by {
            if k < end {
                assert(front.take(k) =~= events.take(k));
                assert(front.take(k + 1) =~= events.take(k + 1));
                assert(asks_at(s, front, k, q, id));
            }
        }
    }
}

/// Whoever announces a message that another, which costs no less, has not announced goes before
/// that other.
pub proof fn speaking_first_goes_before<Id: Ord>(
    s: State<Id>,
    p: Id,
    q: Id,
    ids: Seq<(MsgId<Id>, u16)>,
    i: int,
)
    requires
        p != q,
        0 <= i < ids.len(),
        !s.cache.contains_key(ids[i].0),
        !is_listed(s, ids[i].0, q),
        s.can_wait(p, ids),
        s.cost_of(p) <= s.cost_of(q),
    ensures
        goes_before(s.on_message(p, MessageView::Ihave(ids)), ids[i].0, p, q),
{
    let id = ids[i].0;
    let heard = s.hear(p);
    let t = s.on_message(p, MessageView::Ihave(ids));
    let before = heard.announcers(id);
    let all = t.announcers(id);
    links::lemma_on_ihave_constants(heard, p, ids);
    lemma_on_ihave_enlists(heard, p, ids, id, i);
    let origin = lemma_on_ihave_order(heard, p, ids, id);
    let x = choose|x: int|
        0 <= x < all.len() && (#[trigger] t.announcers(id)[x]).peer == p && all[x].ready
            <= heard.ready_time(p);
    assert forall|j: int| 0 <= j < all.len() implies (#[trigger] all[j]).peer != q by {
        if origin[j] >= 0 {
            assert(s.announcers(id)[origin[j]].peer != q);
        }
    }
    assert(goes_before_at(t, id, p, q, x));
}

} // verus!
