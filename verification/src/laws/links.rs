//! Who is a peer: links, liveness and membership.
use vstd::prelude::*;

use crate::history;
use crate::history::Event;
use crate::message::{ActionView, Cost, MessageView, MsgId};
use crate::model;
use crate::model::{Announcer, CachedView, State};
use crate::order;
use crate::seqs;
use crate::validity;

verus! {

proof fn lemma_queue_linked<Id: Ord>(s: State<Id>, actions: Seq<ActionView<Id>>)
    requires
        s.well_linked(),
        forall|i: int|
            0 <= i < actions.len() ==> model::sent_within(#[trigger] actions[i], s.peers()),
    ensures
        s.queue(actions).well_linked(),
        s.queue(actions).peers() == s.peers(),
{
    let t = s.queue(actions);
    assert forall|i: int| 0 <= i < t.outbound.len() implies model::sent_within(
        #[trigger] t.outbound[i],
        t.peers(),
    ) by {
        if i >= s.outbound.len() {
            assert(t.outbound[i] == actions[i - s.outbound.len()]);
        } else {
            assert(t.outbound[i] == s.outbound[i]);
        }
    }
}

/// Only the sets of links differ between the two states, and they hold the same peers.
proof fn lemma_relinked<Id: Ord>(s: State<Id>, t: State<Id>)
    requires
        s.well_linked(),
        t.me == s.me,
        t.missing == s.missing,
        t.outbound == s.outbound,
        t.peers() =~= s.peers(),
        t.eager.disjoint(t.lazy),
    ensures
        t.well_linked(),
        t.peers() == s.peers(),
{
}

proof fn lemma_graft_in_linked<Id: Ord>(s: State<Id>, peer: Id)
    requires
        s.well_linked(),
        s.peers().contains(peer),
    ensures
        s.graft_in(peer).well_linked(),
        s.graft_in(peer).peers() == s.peers(),
{
    lemma_relinked(s, s.graft_in(peer));
}

proof fn lemma_move_to_lazy_linked<Id: Ord>(s: State<Id>, peer: Id)
    requires
        s.well_linked(),
    ensures
        s.move_to_lazy(peer).well_linked(),
        s.move_to_lazy(peer).peers() == s.peers(),
{
    lemma_relinked(s, s.move_to_lazy(peer));
}

proof fn lemma_spread_linked<Id: Ord>(
    s: State<Id>,
    id: MsgId<Id>,
    payload: Seq<u8>,
    round: u16,
    except: Option<Id>,
)
    requires
        order::ordered_key::<Id>(),
        s.finite(),
        s.well_linked(),
    ensures
        s.spread(id, payload, round, except).well_linked(),
        s.spread(id, payload, round, except).peers() == s.peers(),
{
    let to = order::ascending_except(s.eager, except);
    let sent = model::gossip_to(to, id, payload, round);
    order::lemma_ascending(s.eager);
    if except is Some {
        order::lemma_ascending(s.eager.remove(except->Some_0));
    }
    assert forall|i: int| 0 <= i < sent.len() implies model::sent_within(
        #[trigger] sent[i],
        s.peers(),
    ) by {
        assert(to.contains(to[i]));
        assert(s.eager.contains(to[i]));
    }
    lemma_queue_linked(s, sent);
    lemma_relinked(s.queue(sent), s.spread(id, payload, round, except));
}

proof fn lemma_swap_linked<Id: Ord>(s: State<Id>, via: Id, lazy: Id)
    requires
        s.well_linked(),
        s.eager.contains(via),
        s.peers().contains(lazy),
    ensures
        s.swap(via, lazy).well_linked(),
        s.swap(via, lazy).peers() == s.peers(),
{
    let graft = seq![ActionView::Send(lazy, MessageView::Graft(None))];
    let a = s.graft_in(lazy);
    lemma_graft_in_linked(s, lazy);
    lemma_queue_linked(a, graft);
    lemma_move_to_lazy_linked(a.queue(graft), via);
    assert(s.peers().contains(via));
    lemma_queue_linked(
        a.queue(graft).move_to_lazy(via),
        seq![ActionView::Send(via, MessageView::Prune)],
    );
}

proof fn lemma_hear_linked<Id: Ord>(s: State<Id>, from: Id)
    requires
        s.well_linked(),
        from != s.me,
    ensures
        s.hear(from).well_linked(),
        s.hear(from).peers() == s.peers().insert(from),
{
    let t = s.hear(from);
    assert(t.peers() =~= s.peers().insert(from));
    assert forall|i: int| 0 <= i < t.outbound.len() implies model::sent_within(
        #[trigger] t.outbound[i],
        t.peers(),
    ) by {
        assert(model::sent_within(s.outbound[i], s.peers()));
    }
    assert forall|m: MsgId<Id>, i: int|
        #![trigger t.missing[m][i]]
        t.missing.contains_key(m) && 0 <= i < t.missing[m].len() implies t.peers().contains(
        t.missing[m][i].peer,
    ) by {
        assert(s.peers().contains(s.missing[m][i].peer));
    }
}

proof fn lemma_on_duplicate_linked<Id: Ord>(s: State<Id>, from: Id, id: MsgId<Id>, here: u16)
    requires
        s.well_linked(),
        s.peers().contains(from),
    ensures
        s.on_duplicate(from, id, here).well_linked(),
        s.on_duplicate(from, id, here).peers() == s.peers(),
{
    if s.is_cheaper(from, id) {
        let via = s.cache[id].from->Some_0;
        let entry = CachedView { from: Some(from), round: here, ..s.cache[id] };
        let a = State { cache: s.cache.insert(id, entry), ..s };
        lemma_relinked(s, a);
        lemma_graft_in_linked(a, from);
        lemma_move_to_lazy_linked(a.graft_in(from), via);
        assert(s.peers().contains(via));
        lemma_queue_linked(
            a.graft_in(from).move_to_lazy(via),
            seq![ActionView::Send(via, MessageView::Prune)],
        );
    } else {
        lemma_move_to_lazy_linked(s, from);
        lemma_queue_linked(
            s.move_to_lazy(from),
            seq![ActionView::Send(from, MessageView::Prune)],
        );
    }
}

proof fn lemma_on_first_linked<Id: Ord>(
    s: State<Id>,
    from: Id,
    id: MsgId<Id>,
    payload: Seq<u8>,
    here: u16,
)
    requires
        order::ordered_key::<Id>(),
        s.finite(),
        s.well_linked(),
        s.peers().contains(from),
    ensures
        s.on_first(from, id, payload, here).well_linked(),
        s.on_first(from, id, payload, here).peers() == s.peers(),
{
    let a = s.obtain(from, id, payload, here);
    assert(a.peers() == s.peers());
    assert forall|m: MsgId<Id>, i: int|
        #![trigger a.missing[m][i]]
        a.missing.contains_key(m) && 0 <= i < a.missing[m].len() implies a.peers().contains(
        a.missing[m][i].peer,
    ) by {
        assert(a.missing[m][i] == s.missing[m][i]);
    }
    assert(a.well_linked());
    lemma_graft_in_linked(a, from);
    lemma_queue_linked(a.graft_in(from), seq![ActionView::Deliver(payload)]);
    let b = s.take_in(from, id, payload, here);
    let c = s.accept(from, id, payload, here);
    lemma_spread_linked(b, id, payload, model::farther(here, 1), Some(from));
    let announcers = s.announcers(id);
    let worth = c.replaces(from, here);
    let i = seqs::first_where(announcers, worth);
    seqs::lemma_first_where(announcers, worth);
    if i < announcers.len() {
        assert(s.peers().contains(s.missing[id][i].peer));
        lemma_swap_linked(c, from, announcers[i].peer);
    }
}

proof fn lemma_on_announced_linked<Id: Ord>(s: State<Id>, from: Id, id: MsgId<Id>, round: u16)
    requires
        s.well_linked(),
        s.peers().contains(from),
    ensures
        s.on_announced(from, id, round).well_linked(),
        s.on_announced(from, id, round).peers() == s.peers(),
{
    let here = model::farther(round, s.cost_of(from) as int);
    if s.cache.contains_key(id) {
        if let Some(via) = s.cache[id].from {
            if s.swaps(via, s.cache[id].round, from, here) {
                lemma_swap_linked(s, via, from);
            }
        }
    } else {
        let announcer = Announcer { peer: from, round: here, ready: s.ready_time(from) as u64 };
        let before = s.announcers(id);
        let k = seqs::first_where(before, model::costs_more(s.cost, s.cost_of(from)));
        seqs::lemma_first_where(before, model::costs_more(s.cost, s.cost_of(from)));
        let after = s.enlist(before, announcer);
        let t = s.on_announced(from, id, round);
        assert forall|m: MsgId<Id>, i: int|
            #![trigger t.missing[m][i]]
            t.missing.contains_key(m) && 0 <= i < t.missing[m].len() implies t.peers().contains(
            t.missing[m][i].peer,
        ) by {
            if m == id {
                if i < k {
                    assert(after[i] == before[i]);
                    assert(s.peers().contains(s.missing[id][i].peer));
                } else if i > k {
                    assert(after[i] == before[i - 1]);
                    assert(s.peers().contains(s.missing[id][i - 1].peer));
                }
            } else {
                assert(t.missing[m][i] == s.missing[m][i]);
            }
        }
    }
}

proof fn lemma_on_ihave_linked<Id: Ord>(s: State<Id>, from: Id, ids: Seq<(MsgId<Id>, u16)>)
    requires
        s.well_linked(),
        s.peers().contains(from),
    ensures
        s.on_ihave(from, ids).well_linked(),
        s.on_ihave(from, ids).peers() == s.peers(),
    decreases ids.len(),
{
    if ids.len() > 0 {
        lemma_on_ihave_linked(s, from, ids.drop_last());
        lemma_on_announced_linked(
            s.on_ihave(from, ids.drop_last()),
            from,
            ids.last().0,
            ids.last().1,
        );
    }
}

proof fn lemma_on_message_linked<Id: Ord>(s: State<Id>, from: Id, message: MessageView<Id>)
    requires
        order::ordered_key::<Id>(),
        s.valid(),
        s.well_linked(),
        from != s.me,
    ensures
        s.on_message(from, message).well_linked(),
        s.on_message(from, message).peers() == s.peers().insert(from),
{
    let heard = s.hear(from);
    lemma_hear_linked(s, from);
    match message {
        MessageView::Gossip { id, payload, round } => {
            let here = model::farther(round, heard.cost_of(from) as int);
            if heard.cache.contains_key(id) {
                lemma_on_duplicate_linked(heard, from, id, here);
            } else {
                lemma_on_first_linked(heard, from, id, payload, here);
            }
        },
        MessageView::Ihave(ids) => lemma_on_ihave_linked(heard, from, ids),
        MessageView::Graft(id) => {
            lemma_graft_in_linked(heard, from);
            let grafted = heard.graft_in(from);
            if let Some(id) = id {
                if heard.cache.contains_key(id) {
                    let answer = MessageView::Gossip {
                        id,
                        payload: heard.cache[id].payload,
                        round: model::farther(heard.cache[id].round, 1),
                    };
                    lemma_queue_linked(grafted, seq![ActionView::Send(from, answer)]);
                }
            }
        },
        MessageView::Prune => lemma_move_to_lazy_linked(heard, from),
    }
}

proof fn lemma_tick_linked<Id: Ord>(s: State<Id>, ticks: u64)
    requires
        order::ordered_key::<Id>(),
        s.valid(),
        s.well_linked(),
    ensures
        s.tick(ticks).well_linked(),
        s.tick(ticks).peers() == s.peers(),
{
    let now = model::later(s.now, ticks);
    let t = s.tick(ticks);
    assert forall|m: MsgId<Id>, i: int|
        #![trigger t.missing[m][i]]
        t.missing.contains_key(m) && 0 <= i < t.missing[m].len() implies t.peers().contains(
        t.missing[m][i].peer,
    ) by {
        let j = validity::lemma_left_at(s.missing[m], now, s.cfg.graft_timeout, i);
        assert(s.peers().contains(s.missing[m][j].peer));
    }
    order::lemma_ascending(s.lazy);
    let flushed = s.flushed();
    assert forall|i: int| 0 <= i < flushed.len() implies model::sent_within(
        #[trigger] flushed[i],
        s.peers(),
    ) by {
        let p = order::ascending(s.lazy)[i];
        assert(order::ascending(s.lazy).contains(p));
    }
    let requests = s.requests(now);
    order::lemma_ascending(s.missing.dom());
    let ids = order::ascending(s.missing.dom());
    seqs::lemma_filter_contains(ids, s.is_asked(now));
    assert forall|i: int| 0 <= i < requests.len() implies model::sent_within(
        #[trigger] requests[i],
        s.peers(),
    ) by {
        let asked = ids.filter(s.is_asked(now));
        let id = asked[i];
        assert(asked.contains(id));
        assert(s.missing.contains_key(id));
        let k = model::due(s.missing[id], now);
        seqs::lemma_first_where(s.missing[id], model::may_ask::<Id>(now));
        assert(s.peers().contains(s.missing[id][k].peer));
    }
    lemma_queue_linked(s, flushed);
    lemma_queue_linked(s.queue(flushed), requests);
    assert(t.outbound == s.queue(flushed).queue(requests).outbound);
}

proof fn lemma_exclude_linked<Id: Ord>(s: State<Id>, gone: Set<Id>)
    requires
        s.well_linked(),
    ensures
        s.exclude(gone).well_linked(),
        s.exclude(gone).peers() == s.peers().difference(gone),
{
    let t = s.exclude(gone);
    let stays = model::stays::<Id>(gone);
    let unsent = model::not_sent_to::<Id>(gone);
    assert(t.peers() =~= s.peers().difference(gone));
    assert forall|m: MsgId<Id>, i: int|
        #![trigger t.missing[m][i]]
        t.missing.contains_key(m) && 0 <= i < t.missing[m].len() implies t.peers().contains(
        t.missing[m][i].peer,
    ) by {
        let a = t.missing[m][i];
        seqs::lemma_filter_contains(s.missing[m], stays);
        assert(t.missing[m] == s.missing[m].filter(stays));
        assert(s.missing[m].filter(stays).contains(a));
        let j = choose|j: int| 0 <= j < s.missing[m].len() && s.missing[m][j] == a;
        assert(s.peers().contains(s.missing[m][j].peer));
    }
    seqs::lemma_filter_contains(s.outbound, unsent);
    assert forall|i: int| 0 <= i < t.outbound.len() implies model::sent_within(
        #[trigger] t.outbound[i],
        t.peers(),
    ) by {
        let a = t.outbound[i];
        assert(s.outbound.filter(unsent).contains(a));
        let j = choose|j: int| 0 <= j < s.outbound.len() && s.outbound[j] == a;
        assert(model::sent_within(s.outbound[j], s.peers()));
    }
}

/// The peers after an event: whoever sends something is a peer from then on, a peer that is
/// down or removed is none, and a peer that is up again is one.
pub open spec fn peers_after<Id: Ord>(s: State<Id>, event: Event<Id>) -> Set<Id> {
    match event {
        Event::Message(from, _) => s.peers().insert(from),
        Event::Membership(_, removed) => s.peers().difference(removed.to_set()),
        Event::Down(peers) => s.peers().difference(peers.to_set()),
        Event::Up(peers) => s.peers().union(s.down.intersect(peers.to_set())),
        _ => s.peers(),
    }
}

/// The members set aside after an event: `down` sets members aside, and `up`, any message from
/// the member, or its removal ends that.
pub open spec fn down_after<Id: Ord>(s: State<Id>, event: Event<Id>) -> Set<Id> {
    match event {
        Event::Message(from, _) => s.down.remove(from),
        Event::Membership(_, removed) => s.down.difference(removed.to_set()),
        Event::Down(peers) => s.down.union(peers.to_set().remove(s.me)),
        Event::Up(peers) => s.down.difference(peers.to_set()),
        _ => s.down,
    }
}

/// Every link stays either eager or lazy, nobody becomes its own peer, and only peers are asked
/// or sent anything, whatever happens to a node that hears nothing from itself; and who is a
/// peer follows from the events alone.
pub proof fn links_stay_well_formed<Id: Ord>(s: State<Id>, event: Event<Id>)
    requires
        order::ordered_key::<Id>(),
        s.valid(),
        s.well_linked(),
        !event.is_from(s.me),
    ensures
        s.step(event).well_linked(),
        s.step(event).peers() == peers_after(s, event),
{
    match event {
        Event::Broadcast(payload) => {
            let entry = CachedView { payload, round: 0, from: None };
            let id = (s.me, s.seq);
            let a = State { seq: (s.seq + 1) as u64, ..s }.remember(id, entry);
            lemma_relinked(s, a);
            lemma_spread_linked(a, id, payload, 0, None);
        },
        Event::Message(from, message) => lemma_on_message_linked(s, from, message),
        Event::Tick(ticks) => lemma_tick_linked(s, ticks),
        Event::Membership(added, removed) => {
            lemma_exclude_linked(s, removed.to_set());
            lemma_relinked(s.exclude(removed.to_set()), s.step(event));
        },
        Event::Down(peers) => {
            lemma_exclude_linked(s, peers.to_set());
            lemma_relinked(s.exclude(peers.to_set()), s.step(event));
        },
        Event::Up(peers) => {
            let t = s.step(event);
            assert(t.peers() =~= peers_after(s, event));
            assert forall|i: int| 0 <= i < t.outbound.len() implies model::sent_within(
                #[trigger] t.outbound[i],
                t.peers(),
            ) by {
                assert(model::sent_within(s.outbound[i], s.peers()));
            }
            assert forall|m: MsgId<Id>, i: int|
                #![trigger t.missing[m][i]]
                t.missing.contains_key(m) && 0 <= i < t.missing[m].len() implies t.peers().contains(
                t.missing[m][i].peer,
            ) by {
                assert(s.peers().contains(s.missing[m][i].peer));
            }
        },
        Event::Drain => {},
    }
}

/// Each link is either eager or lazy, and none leads to this node itself.
pub open spec fn has_split_links<Id: Ord>(s: State<Id>) -> bool {
    &&& s.eager.disjoint(s.lazy)
    &&& !s.peers().contains(s.me)
}

proof fn lemma_swap_split<Id: Ord>(s: State<Id>, via: Id, lazy: Id)
    requires
        has_split_links(s),
    ensures
        has_split_links(s.swap(via, lazy)),
{
}

proof fn lemma_on_ihave_split<Id: Ord>(s: State<Id>, from: Id, ids: Seq<(MsgId<Id>, u16)>)
    requires
        has_split_links(s),
    ensures
        has_split_links(s.on_ihave(from, ids)),
    decreases ids.len(),
{
    if ids.len() > 0 {
        lemma_on_ihave_split(s, from, ids.drop_last());
        let t = s.on_ihave(from, ids.drop_last());
        let id = ids.last().0;
        if t.cache.contains_key(id) && t.cache[id].from is Some {
            lemma_swap_split(t, t.cache[id].from->Some_0, from);
        }
    }
}

/// Eager, lazy and down peers stay apart, and this node is never among them, whatever happens,
/// even if it hears from itself.
pub proof fn links_stay_split<Id: Ord>(s: State<Id>, event: Event<Id>)
    requires
        order::ordered_key::<Id>(),
        s.valid(),
        has_split_links(s),
    ensures
        has_split_links(s.step(event)),
        s.step(event).down.disjoint(s.step(event).peers()),
        !s.step(event).down.contains(s.me),
{
    history::lemma_step_valid(s, event);
    each_part_has_its_input(s, event);
    if let Event::Message(from, message) = event {
        let heard = s.hear(from);
        assert(has_split_links(heard));
        match message {
            MessageView::Gossip { id, payload, round } => {
                let here = model::farther(round, heard.cost_of(from) as int);
                if !heard.cache.contains_key(id) {
                    let a = heard.accept(from, id, payload, here);
                    assert(has_split_links(a));
                    let announcers = heard.announcers(id);
                    let i = seqs::first_where(announcers, a.replaces(from, here));
                    if i < announcers.len() {
                        lemma_swap_split(a, from, announcers[i].peer);
                    }
                }
            },
            MessageView::Ihave(ids) => lemma_on_ihave_split(heard, from, ids),
            _ => {},
        }
    }
}

proof fn lemma_on_ihave_down<Id: Ord>(s: State<Id>, from: Id, ids: Seq<(MsgId<Id>, u16)>)
    requires
        !s.down.contains(from),
    ensures
        s.on_ihave(from, ids).down == s.down,
    decreases ids.len(),
{
    if ids.len() > 0 {
        lemma_on_ihave_down(s, from, ids.drop_last());
        let t = s.on_ihave(from, ids.drop_last());
        assert(t.on_announced(from, ids.last().0, ids.last().1).down =~= t.down);
    }
}

/// Who is set aside follows from the events alone. In particular any message from a member that
/// is down proves it reachable and brings it back.
pub proof fn down_follows_events<Id: Ord>(s: State<Id>, event: Event<Id>)
    requires
        s.valid(),
    ensures
        s.step(event).down == down_after(s, event),
{
    if let Event::Message(from, message) = event {
        let heard = s.hear(from);
        assert(heard.down =~= s.down.remove(from));
        match message {
            MessageView::Gossip { id, payload, round } => {
                let here = model::farther(round, heard.cost_of(from) as int);
                if heard.cache.contains_key(id) {
                    assert(heard.on_duplicate(from, id, here).down =~= heard.down);
                } else {
                    let announcers = heard.announcers(id);
                    let a = heard.accept(from, id, payload, here);
                    assert(a.down =~= heard.down);
                    let worth = a.replaces(from, here);
                    let i = seqs::first_where(announcers, worth);
                    seqs::lemma_first_where(announcers, worth);
                    if i < announcers.len() {
                        assert(!s.down.contains(s.missing[id][i].peer));
                        assert(a.swap(from, announcers[i].peer).down =~= a.down);
                    }
                }
            },
            MessageView::Ihave(ids) => lemma_on_ihave_down(heard, from, ids),
            MessageView::Graft(_) => {
                assert(heard.graft_in(from).down =~= heard.down);
            },
            MessageView::Prune => {},
        }
    }
}

/// A member that is down is routed around until `up`, a message from it, or its removal: it
/// stays set aside, is in neither set of links, and nothing queued is sent to it.
pub proof fn down_until_heard<Id: Ord>(s: State<Id>, events: Seq<Event<Id>>, p: Id)
    requires
        order::ordered_key::<Id>(),
        s.valid(),
        s.down.contains(p),
        forall|i: int|
            0 <= i < events.len() ==> !(#[trigger] events[i]).is_from(p) && !events[i].lifts(p)
                && !events[i].removes(p),
    ensures
        s.run(events).down.contains(p),
        !s.run(events).eager.contains(p),
        !s.run(events).lazy.contains(p),
        forall|i: int|
            0 <= i < s.run(events).outbound.len() ==> !(#[trigger] s.run(
                events,
            ).outbound[i]).is_send_to(p),
    decreases events.len(),
{
    if events.len() > 0 {
        let front = events.drop_last();
        let last = events.last();
        assert forall|i: int| 0 <= i < front.len() implies !(#[trigger] front[i]).is_from(p)
            && !front[i].lifts(p) && !front[i].removes(p) by {
            assert(front[i] == events[i]);
        }
        down_until_heard(s, front, p);
        history::lemma_run_valid(s, front);
        down_follows_events(s.run(front), last);
        assert(last == events[events.len() - 1]);
        assert(down_after(s.run(front), last).contains(p));
    }
    history::lemma_run_valid(s, events);
    let t = s.run(events);
    assert forall|i: int| 0 <= i < t.outbound.len() implies !(#[trigger] t.outbound[i]).is_send_to(
        p,
    ) by {
        assert(!t.outbound[i].is_send_to_any(t.down));
    }
}

/// Two states that differ in who is down at most.
spec fn same_but_down<Id: Ord>(s: State<Id>, t: State<Id>) -> bool {
    s == (State { down: s.down, ..t })
}

proof fn lemma_on_ihave_ignores_down<Id: Ord>(
    s: State<Id>,
    t: State<Id>,
    from: Id,
    ids: Seq<(MsgId<Id>, u16)>,
)
    requires
        same_but_down(s, t),
    ensures
        same_but_down(s.on_ihave(from, ids), t.on_ihave(from, ids)),
    decreases ids.len(),
{
    if ids.len() > 0 {
        lemma_on_ihave_ignores_down(s, t, from, ids.drop_last());
    }
}

proof fn lemma_step_ignores_down<Id: Ord>(s: State<Id>, t: State<Id>, event: Event<Id>)
    requires
        same_but_down(s, t),
        !(event is Up),
    ensures
        same_but_down(s.step(event), t.step(event)),
{
    match event {
        Event::Message(from, message) => match message {
            MessageView::Gossip { id, payload, round } => {
                let a = s.hear(from);
                let b = t.hear(from);
                let here = model::farther(round, a.cost_of(from) as int);
                if !a.cache.contains_key(id) {
                    let c = a.accept(from, id, payload, here);
                    let d = b.accept(from, id, payload, here);
                    assert(same_but_down(c, d));
                    assert(c.replaces(from, here) =~= d.replaces(from, here));
                }
            },
            MessageView::Ihave(ids) => lemma_on_ihave_ignores_down(
                s.hear(from),
                t.hear(from),
                from,
                ids,
            ),
            _ => {},
        },
        Event::Tick(ticks) => {
            let now = model::later(s.now, ticks);
            assert(s.is_asked(now) =~= t.is_asked(now));
            assert(s.requests(now) =~= t.requests(now));
            assert(s.still_missing(now) =~= t.still_missing(now));
        },
        _ => {},
    }
}

/// `p` is in no set of links, is not asked for anything, and nothing queued is sent to it.
pub open spec fn is_excluded<Id: Ord>(s: State<Id>, p: Id) -> bool {
    &&& !s.eager.contains(p)
    &&& !s.lazy.contains(p)
    &&& forall|id: MsgId<Id>, i: int|
        #![trigger s.missing[id][i]]
        s.missing.contains_key(id) && 0 <= i < s.missing[id].len() ==> s.missing[id][i].peer != p
    &&& forall|i: int|
        0 <= i < s.outbound.len() ==> !(#[trigger] s.outbound[i]).is_send_to(p)
}

/// `p` is excluded, and not even known as a member that is down.
pub open spec fn is_forgotten<Id: Ord>(s: State<Id>, p: Id) -> bool {
    &&& is_excluded(s, p)
    &&& !s.down.contains(p)
}

/// A node that left for good is forgotten entirely, and so is its cost.
pub proof fn removed_is_forgotten<Id: Ord>(
    s: State<Id>,
    added: Seq<(Id, Cost)>,
    removed: Set<Id>,
    p: Id,
)
    requires
        removed.contains(p),
    ensures
        is_forgotten(s.membership(added, removed), p),
        !s.membership(added, removed).cost.contains_key(p),
{
    let t = s.membership(added, removed);
    let stays = model::stays::<Id>(removed);
    let unsent = model::not_sent_to::<Id>(removed);
    assert forall|m: MsgId<Id>, i: int|
        #![trigger t.missing[m][i]]
        t.missing.contains_key(m) && 0 <= i < t.missing[m].len() implies t.missing[m][i].peer
        != p by {
        seqs::lemma_filter_contains(s.missing[m], stays);
        assert(s.missing[m].filter(stays).contains(t.missing[m][i]));
    }
    seqs::lemma_filter_contains(s.outbound, unsent);
    assert forall|i: int| 0 <= i < t.outbound.len() implies !(#[trigger] t.outbound[i]).is_send_to(
        p,
    ) by {
        assert(s.outbound.filter(unsent).contains(t.outbound[i]));
    }
}

proof fn lemma_step_forgotten<Id: Ord>(s: State<Id>, event: Event<Id>, p: Id)
    requires
        order::ordered_key::<Id>(),
        s.valid(),
        p != s.me,
        is_forgotten(s, p),
        !event.is_from(p),
        !event.drops(p),
    ensures
        is_forgotten(s.step(event), p),
{
    match event {
        Event::Up(_) => {},
        Event::Membership(added, removed) if removed.contains(p) => {
            removed_is_forgotten(s, added, removed.to_set(), p);
        },
        _ => {
            // Nothing reads who is down, so `p` might as well be: then the event keeps it out.
            let d = State { down: set![p], ..s };
            assert(d.valid());
            history::lemma_step_valid(d, event);
            down_follows_events(d, event);
            down_follows_events(s, event);
            lemma_step_ignores_down(s, d, event);
            let t = d.step(event);
            assert(t.down.contains(p));
            assert forall|i: int| 0 <= i < t.outbound.len() implies !(
            #[trigger] t.outbound[i]).is_send_to(p) by {
                assert(!t.outbound[i].is_send_to_any(t.down));
            }
        },
    }
}

/// Another node that is forgotten stays forgotten until it is heard from again, or reported
/// down.
pub proof fn forgotten_until_heard<Id: Ord>(s: State<Id>, events: Seq<Event<Id>>, p: Id)
    requires
        order::ordered_key::<Id>(),
        s.valid(),
        p != s.me,
        is_forgotten(s, p),
        forall|i: int|
            0 <= i < events.len() ==> !(#[trigger] events[i]).is_from(p) && !events[i].drops(p),
    ensures
        is_forgotten(s.run(events), p),
        s.run(events).me == s.me,
    decreases events.len(),
{
    if events.len() > 0 {
        let front = events.drop_last();
        assert forall|i: int| 0 <= i < front.len() implies !(#[trigger] front[i]).is_from(p)
            && !front[i].drops(p) by {
            assert(front[i] == events[i]);
        }
        forgotten_until_heard(s, front, p);
        history::lemma_run_valid(s, front);
        assert(events.last() == events[events.len() - 1]);
        lemma_step_forgotten(s.run(front), events.last(), p);
        each_part_has_its_input(s.run(front), events.last());
    }
}

/// A member that is down is excluded.
pub proof fn down_is_excluded<Id: Ord>(s: State<Id>, p: Id)
    requires
        s.valid(),
        s.down.contains(p),
    ensures
        is_excluded(s, p),
{
    assert forall|i: int| 0 <= i < s.outbound.len() implies !(#[trigger] s.outbound[i]).is_send_to(
        p,
    ) by {
        assert(!s.outbound[i].is_send_to_any(s.down));
    }
}

/// Another node that is excluded, because it is down or removed, stays excluded until it is
/// reported up or heard from, whatever else happens: it may be reported down again, be removed,
/// or join again.
pub proof fn excluded_until_heard<Id: Ord>(s: State<Id>, events: Seq<Event<Id>>, p: Id)
    requires
        order::ordered_key::<Id>(),
        s.valid(),
        p != s.me,
        is_excluded(s, p),
        forall|i: int|
            0 <= i < events.len() ==> !(#[trigger] events[i]).is_from(p) && !events[i].lifts(p),
    ensures
        is_excluded(s.run(events), p),
        s.run(events).me == s.me,
    decreases events.len(),
{
    if events.len() > 0 {
        let front = events.drop_last();
        let last = events.last();
        let t = s.run(front);
        assert forall|i: int| 0 <= i < front.len() implies !(#[trigger] front[i]).is_from(p)
            && !front[i].lifts(p) by {
            assert(front[i] == events[i]);
        }
        assert(last == events[events.len() - 1]);
        excluded_until_heard(s, front, p);
        history::lemma_run_valid(s, front);
        history::lemma_step_valid(t, last);
        each_part_has_its_input(t, last);
        down_follows_events(t, last);
        if last.removes(p) {
            if let Event::Membership(added, removed) = last {
                assert(removed.to_set().contains(p));
                removed_is_forgotten(t, added, removed.to_set(), p);
            }
        } else if t.down.contains(p) || last.drops(p) {
            if let Event::Down(peers) = last {
                assert(peers.to_set().contains(p) <==> peers.contains(p));
            }
            if let Event::Up(peers) = last {
                assert(!peers.to_set().contains(p));
            }
            if let Event::Membership(_, removed) = last {
                assert(!removed.to_set().contains(p));
            }
            assert(t.step(last).down.contains(p));
            down_is_excluded(t.step(last), p);
        } else {
            lemma_step_forgotten(t, last, p);
        }
    }
}

/// After `down`, nothing goes to the peer until it is reported up or heard from, further reports
/// of it being down and its removal included.
pub proof fn nothing_goes_to_the_down<Id: Ord>(
    s: State<Id>,
    peers: Set<Id>,
    events: Seq<Event<Id>>,
    p: Id,
)
    requires
        order::ordered_key::<Id>(),
        s.valid(),
        p != s.me,
        peers.contains(p),
        forall|i: int|
            0 <= i < events.len() ==> !(#[trigger] events[i]).is_from(p) && !events[i].lifts(p),
    ensures
        is_excluded(s.down(peers).run(events), p),
{
    validity::lemma_down_valid(s, peers);
    down_is_excluded(s.down(peers), p);
    excluded_until_heard(s.down(peers), events, p);
}

/// An announcement that arrives changes neither id, tuning, sequence number, clock, costs nor what
/// there is to announce.
pub proof fn lemma_on_ihave_constants<Id: Ord>(s: State<Id>, from: Id, ids: Seq<(MsgId<Id>, u16)>)
    ensures
        s.on_ihave(from, ids).me == s.me,
        s.on_ihave(from, ids).cfg == s.cfg,
        s.on_ihave(from, ids).seq == s.seq,
        s.on_ihave(from, ids).now == s.now,
        s.on_ihave(from, ids).cost == s.cost,
        s.on_ihave(from, ids).announce == s.announce,
    decreases ids.len(),
{
    if ids.len() > 0 {
        lemma_on_ihave_constants(s, from, ids.drop_last());
    }
}

/// The id and the tuning of a node never change, its clock moves by `tick` alone, its sequence
/// number by `broadcast` alone, and its costs by `membership` alone.
pub proof fn each_part_has_its_input<Id: Ord>(s: State<Id>, event: Event<Id>)
    ensures
        s.step(event).me == s.me,
        s.step(event).cfg == s.cfg,
        !(event is Tick) ==> s.step(event).now == s.now,
        !(event is Broadcast) ==> s.step(event).seq == s.seq,
        !(event is Membership) ==> s.step(event).cost == s.cost,
{
    if let Event::Message(from, MessageView::Ihave(ids)) = event {
        lemma_on_ihave_constants(s.hear(from), from, ids);
    }
}

/// An announcement costs nobody its place.
pub proof fn lemma_on_ihave_keeps_peers<Id: Ord>(s: State<Id>, from: Id, ids: Seq<(MsgId<Id>, u16)>)
    ensures
        s.peers().subset_of(s.on_ihave(from, ids).peers()),
    decreases ids.len(),
{
    if ids.len() > 0 {
        lemma_on_ihave_keeps_peers(s, from, ids.drop_last());
    }
}

/// Whoever is heard from is a peer and not down, even a stranger, and whatever the message
/// says; and a message costs nobody its place.
pub proof fn heard_from_is_a_peer<Id: Ord>(s: State<Id>, from: Id, message: MessageView<Id>)
    requires
        s.valid(),
        from != s.me,
    ensures
        s.on_message(from, message).peers().contains(from),
        !s.on_message(from, message).down.contains(from),
        s.peers().subset_of(s.on_message(from, message).peers()),
{
    down_follows_events(s, Event::Message(from, message));
    let heard = s.hear(from);
    assert(heard.peers().contains(from));
    assert(s.peers().subset_of(heard.peers()));
    let t = s.on_message(from, message);
    if let MessageView::Ihave(ids) = message {
        lemma_on_ihave_keeps_peers(heard, from, ids);
    }
    assert(heard.peers().subset_of(t.peers()));
}

/// A member, be it a peer or set aside, stays a member until it is removed.
pub proof fn members_are_kept<Id: Ord>(s: State<Id>, event: Event<Id>, p: Id)
    requires
        s.valid(),
        p != s.me,
        s.peers().contains(p) || s.down.contains(p),
        !event.removes(p),
    ensures
        s.step(event).peers().contains(p) || s.step(event).down.contains(p),
{
    down_follows_events(s, event);
    match event {
        Event::Message(from, message) => {
            if from != s.me {
                heard_from_is_a_peer(s, from, message);
            } else {
                if let MessageView::Ihave(ids) = message {
                    lemma_on_ihave_keeps_peers(s, from, ids);
                }
                assert(s.peers().subset_of(s.step(event).peers()));
            }
        },
        Event::Down(peers) => {
            assert(peers.to_set().contains(p) <==> peers.contains(p));
        },
        Event::Up(peers) => {
            assert(peers.to_set().contains(p) <==> peers.contains(p));
        },
        Event::Membership(_, removed) => {
            assert(!removed.to_set().contains(p));
        },
        _ => {},
    }
}

/// Members that were down and are up again are lazy peers; everyone else is where they were.
pub proof fn down_then_up<Id: Ord>(s: State<Id>, peers: Set<Id>)
    requires
        s.valid(),
    ensures
        s.down(peers).up(peers).eager == s.eager.difference(peers),
        s.down(peers).up(peers).lazy == s.lazy.difference(peers).union(peers.remove(s.me)),
        s.down(peers).up(peers).down == s.down.difference(peers),
{
    let t = s.down(peers).up(peers);
    assert(t.eager =~= s.eager.difference(peers));
    assert(t.lazy =~= s.lazy.difference(peers).union(peers.remove(s.me)));
    assert(t.down =~= s.down.difference(peers));
}

/// `up` ignores peers that were not down, and changes nothing else.
pub proof fn up_ignores_the_reachable<Id: Ord>(s: State<Id>, peers: Set<Id>, p: Id)
    requires
        !s.down.contains(p),
    ensures
        s.up(peers).eager == s.eager,
        s.up(peers).lazy.contains(p) == s.lazy.contains(p),
        s.up(peers).down.contains(p) == s.down.contains(p),
        peers.disjoint(s.down) ==> s.up(peers) == s,
{
    if peers.disjoint(s.down) {
        assert(s.up(peers) =~= s);
    }
}

/// A joined node is only known: its cost is recorded, and nothing else happens until it
/// introduces itself.
pub proof fn joined_is_only_known<Id: Ord>(s: State<Id>, added: Seq<(Id, Cost)>)
    ensures
        s.membership(added, Set::empty()) == (State {
            cost: model::with_costs(s.cost, s.me, added),
            ..s
        }),
{
    let none = Set::<Id>::empty();
    let t = s.membership(added, none);
    seqs::lemma_filter_all(s.outbound, model::not_sent_to(none));
    assert forall|m: MsgId<Id>| #[trigger] t.missing.contains_key(m) implies t.missing[m]
        == s.missing[m] by {
        seqs::lemma_filter_all(s.missing[m], model::stays(none));
    }
    assert(t.missing =~= s.missing);
    assert(t.cost =~= model::with_costs(s.cost, s.me, added));
    assert(t =~= State { cost: model::with_costs(s.cost, s.me, added), ..s });
}

/// The last entry for a peer is its cost.
pub proof fn lemma_cost_of_last_entry<Id>(
    cost: Map<Id, Cost>,
    me: Id,
    added: Seq<(Id, Cost)>,
    i: int,
)
    requires
        0 <= i < added.len(),
        added[i].0 != me,
        forall|j: int| i < j < added.len() ==> (#[trigger] added[j]).0 != added[i].0,
    ensures
        model::cost_in(model::with_costs(cost, me, added), added[i].0) == added[i].1,
    decreases added.len(),
{
    if i < added.len() - 1 {
        let front = added.drop_last();
        assert(added[added.len() - 1].0 != added[i].0);
        assert forall|j: int| i < j < front.len() implies (#[trigger] front[j]).0 != front[i].0 by {
            assert(front[j] == added[j]);
        }
        lemma_cost_of_last_entry(cost, me, front, i);
    }
}

/// A peer without an entry keeps the cost it had, and so does the node itself.
pub proof fn lemma_cost_without_entry<Id>(
    cost: Map<Id, Cost>,
    me: Id,
    added: Seq<(Id, Cost)>,
    p: Id,
)
    requires
        p == me || forall|j: int| 0 <= j < added.len() ==> (#[trigger] added[j]).0 != p,
    ensures
        model::cost_in(model::with_costs(cost, me, added), p) == model::cost_in(cost, p),
    decreases added.len(),
{
    if added.len() > 0 {
        let front = added.drop_last();
        assert(p == me || added[added.len() - 1].0 != p);
        assert forall|j: int| p != me && 0 <= j < front.len() implies (#[trigger] front[j]).0
            != p by {
            assert(front[j] == added[j]);
        }
        lemma_cost_without_entry(cost, me, front, p);
    }
}

/// The cost recorded for a joined node is the one it came with last.
pub proof fn joined_at_its_cost<Id: Ord>(
    s: State<Id>,
    added: Seq<(Id, Cost)>,
    removed: Set<Id>,
    i: int,
)
    requires
        0 <= i < added.len(),
        added[i].0 != s.me,
        !removed.contains(added[i].0),
        forall|j: int| i < j < added.len() ==> (#[trigger] added[j]).0 != added[i].0,
    ensures
        s.membership(added, removed).cost_of(added[i].0) == added[i].1,
{
    lemma_cost_of_last_entry(s.cost, s.me, added, i);
}

/// Who neither joins nor leaves keeps the cost it had, and a node never records a cost of its
/// own.
pub proof fn others_keep_their_cost<Id: Ord>(
    s: State<Id>,
    added: Seq<(Id, Cost)>,
    removed: Set<Id>,
    p: Id,
)
    requires
        !removed.contains(p),
        p == s.me || forall|j: int| 0 <= j < added.len() ==> (#[trigger] added[j]).0 != p,
    ensures
        s.membership(added, removed).cost_of(p) == s.cost_of(p),
{
    lemma_cost_without_entry(s.cost, s.me, added, p);
}

/// A graft without an id makes the link eager and asks for nothing; a prune makes an eager link
/// lazy and is not answered.
pub proof fn bare_graft_and_prune<Id: Ord>(s: State<Id>, from: Id)
    requires
        from != s.me,
    ensures
        s.on_message(from, MessageView::Graft(None)).eager == s.eager.insert(from),
        s.on_message(from, MessageView::Graft(None)).lazy == s.lazy.remove(from),
        s.on_message(from, MessageView::Graft(None)).outbound == s.outbound,
        s.on_message(from, MessageView::Prune).eager == s.eager.remove(from),
        s.on_message(from, MessageView::Prune).lazy == s.lazy.insert(from),
        s.on_message(from, MessageView::Prune).outbound == s.outbound,
{
    let g = s.on_message(from, MessageView::Graft(None));
    let p = s.on_message(from, MessageView::Prune);
    assert(g.eager =~= s.eager.insert(from));
    assert(g.lazy =~= s.lazy.remove(from));
    assert(p.eager =~= s.eager.remove(from));
    assert(p.lazy =~= s.lazy.insert(from));
}

} // verus!
