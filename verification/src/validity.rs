//! Every input takes a valid state to a valid state.
use vstd::prelude::*;

use crate::message::{ActionView, Config, Cost, MessageView, MsgId};
use crate::model;
use crate::model::{Announcer, CachedView, State};
use crate::order;
use crate::seqs;

verus! {

/// None of the actions sends to a peer that is down.
pub open spec fn avoids_down<Id: Ord>(s: State<Id>, actions: Seq<ActionView<Id>>) -> bool {
    forall|i: int|
        0 <= i < actions.len() ==> !(#[trigger] actions[i]).is_send_to_any(s.down)
}

proof fn lemma_queue<Id: Ord>(s: State<Id>, actions: Seq<ActionView<Id>>)
    requires
        s.valid(),
        avoids_down(s, actions),
    ensures
        s.queue(actions).valid(),
{
    let t = s.queue(actions);
    assert forall|i: int| 0 <= i < t.outbound.len() implies !(
    #[trigger] t.outbound[i]).is_send_to_any(t.down) by {
        if i >= s.outbound.len() {
            assert(t.outbound[i] == actions[i - s.outbound.len()]);
        } else {
            assert(t.outbound[i] == s.outbound[i]);
        }
    }
}

proof fn lemma_graft_in<Id: Ord>(s: State<Id>, peer: Id)
    requires
        s.valid(),
    ensures
        s.graft_in(peer).valid(),
        !s.graft_in(peer).down.contains(peer),
        s.graft_in(peer).down.subset_of(s.down),
{
    let t = s.graft_in(peer);
    assert forall|i: int| 0 <= i < t.outbound.len() implies !(
    #[trigger] t.outbound[i]).is_send_to_any(t.down) by {
        assert(!s.outbound[i].is_send_to_any(s.down));
    }
}

proof fn lemma_move_to_lazy<Id: Ord>(s: State<Id>, peer: Id)
    requires
        s.valid(),
    ensures
        s.move_to_lazy(peer).valid(),
{
}

/// Keeping a message keeps a state valid.
pub proof fn lemma_remember<Id: Ord>(s: State<Id>, id: MsgId<Id>, entry: CachedView<Id>)
    requires
        s.valid(),
    ensures
        s.remember(id, entry).valid(),
{
    let t = s.remember(id, entry);
    if !s.cache.contains_key(id) {
        let pushed = s.cache_order.push(id);
        seqs::lemma_push_contains(s.cache_order, id);
        assert(!s.cache_order.to_set().contains(id));
        assert(!s.cache_order.contains(id));
        assert(pushed.no_duplicates());
        assert(pushed.to_set() =~= s.cache.insert(id, entry).dom()) by {
            assert forall|k: MsgId<Id>| #[trigger] pushed.to_set().contains(k) <==> s.cache.insert(
                id,
                entry,
            ).dom().contains(k) by {
                assert(pushed.contains(k) <==> s.cache_order.contains(k) || k == id);
                assert(s.cache_order.to_set().contains(k) <==> s.cache.dom().contains(k));
            }
        }
        if pushed.len() > s.cfg.cache_cap {
            let kept = pushed.drop_first();
            assert(pushed =~= seq![pushed[0]] + kept);
            assert forall|k: MsgId<Id>| #[trigger]
                kept.to_set().contains(k) <==> t.cache.dom().contains(k) by {
                let before = s.cache.insert(id, entry);
                assert(pushed.to_set().contains(k) <==> before.dom().contains(k));
                if kept.contains(k) {
                    let i = choose|i: int| 0 <= i < kept.len() && kept[i] == k;
                    assert(pushed[i + 1] == k);
                    assert(pushed[0] != pushed[i + 1]);
                    assert(pushed.contains(k));
                }
                if pushed.contains(k) && k != pushed[0] {
                    let i = choose|i: int| 0 <= i < pushed.len() && pushed[i] == k;
                    assert(kept[i - 1] == k);
                }
            }
            assert(kept.to_set() =~= t.cache.dom());
            assert(kept.no_duplicates());
        }
    } else {
        assert(s.cache.insert(id, entry).dom() =~= s.cache.dom());
    }
}

proof fn lemma_spread<Id: Ord>(
    s: State<Id>,
    id: MsgId<Id>,
    payload: Seq<u8>,
    round: u16,
    except: Option<Id>,
)
    requires
        order::ordered_key::<Id>(),
        s.valid(),
    ensures
        s.spread(id, payload, round, except).valid(),
        s.spread(id, payload, round, except).down == s.down,
{
    let to = order::ascending_except(s.eager, except);
    let sent = model::gossip_to(to, id, payload, round);
    order::lemma_ascending(s.eager);
    if except is Some {
        order::lemma_ascending(s.eager.remove(except->Some_0));
    }
    assert forall|i: int| 0 <= i < sent.len() implies !(#[trigger] sent[i]).is_send_to_any(
        s.down,
    ) by {
        assert(to.contains(to[i]));
        assert(s.eager.contains(to[i]));
    }
    lemma_queue(s, sent);
}

proof fn lemma_swap<Id: Ord>(s: State<Id>, via: Id, lazy: Id)
    requires
        s.valid(),
        s.eager.contains(via),
    ensures
        s.swap(via, lazy).valid(),
        s.swap(via, lazy).down.subset_of(s.down),
{
    let a = s.graft_in(lazy);
    lemma_graft_in(s, lazy);
    let b = a.queue(seq![ActionView::Send(lazy, MessageView::Graft(None))]);
    lemma_queue(a, seq![ActionView::Send(lazy, MessageView::Graft(None))]);
    let c = b.move_to_lazy(via);
    lemma_move_to_lazy(b, via);
    lemma_queue(c, seq![ActionView::Send(via, MessageView::Prune)]);
}

/// Hearing from someone keeps a state valid, and proves them reachable.
pub proof fn lemma_hear<Id: Ord>(s: State<Id>, from: Id)
    requires
        s.valid(),
    ensures
        s.hear(from).valid(),
        !s.hear(from).down.contains(from),
{
    let t = s.hear(from);
    assert forall|i: int| 0 <= i < t.outbound.len() implies !(
    #[trigger] t.outbound[i]).is_send_to_any(t.down) by {
        assert(!s.outbound[i].is_send_to_any(s.down));
    }
}

proof fn lemma_on_duplicate<Id: Ord>(s: State<Id>, from: Id, id: MsgId<Id>, here: u16)
    requires
        s.valid(),
        s.cache.contains_key(id),
        !s.down.contains(from),
    ensures
        s.on_duplicate(from, id, here).valid(),
{
    if s.is_cheaper(from, id) {
        let via = s.cache[id].from->Some_0;
        let entry = CachedView { from: Some(from), round: here, ..s.cache[id] };
        let a = State { cache: s.cache.insert(id, entry), ..s };
        assert(a.cache.dom() =~= s.cache.dom());
        assert(a.valid());
        let b = a.graft_in(from);
        lemma_graft_in(a, from);
        let c = b.move_to_lazy(via);
        lemma_move_to_lazy(b, via);
        assert(!c.down.contains(via));
        lemma_queue(c, seq![ActionView::Send(via, MessageView::Prune)]);
    } else {
        let a = s.move_to_lazy(from);
        lemma_move_to_lazy(s, from);
        lemma_queue(a, seq![ActionView::Send(from, MessageView::Prune)]);
    }
}

proof fn lemma_on_first<Id: Ord>(
    s: State<Id>,
    from: Id,
    id: MsgId<Id>,
    payload: Seq<u8>,
    here: u16,
)
    requires
        order::ordered_key::<Id>(),
        s.valid(),
        !s.down.contains(from),
    ensures
        s.on_first(from, id, payload, here).valid(),
{
    let entry = CachedView { payload, round: here, from: Some(from) };
    lemma_remember(s, id, entry);
    let a = s.obtain(from, id, payload, here);
    assert forall|k: MsgId<Id>, i: int|
        #![trigger a.missing[k][i]]
        a.missing.contains_key(k) && 0 <= i < a.missing[k].len() implies !a.down.contains(
        a.missing[k][i].peer,
    ) by {
        assert(a.missing[k][i] == s.missing[k][i]);
    }
    assert(a.valid());
    lemma_graft_in(a, from);
    lemma_queue(a.graft_in(from), seq![ActionView::Deliver(payload)]);
    let c = s.take_in(from, id, payload, here);
    let d = s.accept(from, id, payload, here);
    lemma_spread(c, id, payload, model::farther(here, 1), Some(from));
    let announcers = s.announcers(id);
    let worth = d.replaces(from, here);
    let i = seqs::first_where(announcers, worth);
    seqs::lemma_first_where(announcers, worth);
    if i < announcers.len() {
        lemma_swap(d, from, announcers[i].peer);
    }
}

proof fn lemma_on_announced<Id: Ord>(s: State<Id>, from: Id, id: MsgId<Id>, round: u16)
    requires
        s.valid(),
        !s.down.contains(from),
    ensures
        s.on_announced(from, id, round).valid(),
        !s.on_announced(from, id, round).down.contains(from),
{
    let here = model::farther(round, s.cost_of(from) as int);
    if s.cache.contains_key(id) {
        if let Some(via) = s.cache[id].from {
            if s.swaps(via, s.cache[id].round, from, here) {
                lemma_swap(s, via, from);
            }
        }
    } else {
        let announcer = Announcer { peer: from, round: here, ready: s.ready_time(from) as u64 };
        let before = s.announcers(id);
        let k = seqs::first_where(
            before,
            model::costs_more(s.cost, s.cost_of(from)),
        );
        seqs::lemma_first_where(before, model::costs_more(s.cost, s.cost_of(from)));
        let after = s.enlist(before, announcer);
        let t = s.on_announced(from, id, round);
        assert forall|m: MsgId<Id>, i: int|
            #![trigger t.missing[m][i]]
            t.missing.contains_key(m) && 0 <= i < t.missing[m].len() implies !t.down.contains(
            t.missing[m][i].peer,
        ) by {
            if m == id {
                if i < k {
                    assert(after[i] == before[i]);
                    assert(!s.down.contains(s.missing[id][i].peer));
                } else if i > k {
                    assert(after[i] == before[i - 1]);
                    assert(!s.down.contains(s.missing[id][i - 1].peer));
                }
            } else {
                assert(t.missing[m][i] == s.missing[m][i]);
            }
        }
    }
}

proof fn lemma_on_ihave<Id: Ord>(s: State<Id>, from: Id, ids: Seq<(MsgId<Id>, u16)>)
    requires
        s.valid(),
        !s.down.contains(from),
    ensures
        s.on_ihave(from, ids).valid(),
        !s.on_ihave(from, ids).down.contains(from),
    decreases ids.len(),
{
    if ids.len() > 0 {
        lemma_on_ihave(s, from, ids.drop_last());
        lemma_on_announced(s.on_ihave(from, ids.drop_last()), from, ids.last().0, ids.last().1);
    }
}

proof fn lemma_on_graft<Id: Ord>(s: State<Id>, from: Id, id: Option<MsgId<Id>>)
    requires
        s.valid(),
    ensures
        s.on_graft(from, id).valid(),
{
    lemma_graft_in(s, from);
    if let Some(id) = id {
        if s.cache.contains_key(id) {
            lemma_queue(
                s.graft_in(from),
                seq![
                    ActionView::Send(
                        from,
                        MessageView::Gossip {
                            id,
                            payload: s.cache[id].payload,
                            round: model::farther(s.cache[id].round, 1),
                        },
                    ),
                ],
            );
        }
    }
}

proof fn lemma_exclude<Id: Ord>(s: State<Id>, peers: Set<Id>)
    requires
        s.valid(),
    ensures
        s.exclude(peers).valid(),
{
    let t = s.exclude(peers);
    let stays = model::stays::<Id>(peers);
    assert(t.missing.dom() =~= s.missing.dom());
    assert forall|m: MsgId<Id>, i: int|
        #![trigger t.missing[m][i]]
        t.missing.contains_key(m) && 0 <= i < t.missing[m].len() implies !t.down.contains(
        t.missing[m][i].peer,
    ) by {
        let a = t.missing[m][i];
        seqs::lemma_filter_contains(s.missing[m], stays);
        assert(t.missing[m] == s.missing[m].filter(stays));
        assert(s.missing[m].filter(stays).contains(a));
        let j = choose|j: int| 0 <= j < s.missing[m].len() && s.missing[m][j] == a;
        assert(!s.down.contains(s.missing[m][j].peer));
    }
    let unsent = model::not_sent_to::<Id>(peers);
    seqs::lemma_filter_contains(s.outbound, unsent);
    assert forall|i: int| 0 <= i < t.outbound.len() implies !(
    #[trigger] t.outbound[i]).is_send_to_any(t.down) by {
        let a = t.outbound[i];
        assert(s.outbound.filter(unsent).contains(a));
        let j = choose|j: int| 0 <= j < s.outbound.len() && s.outbound[j] == a;
        assert(!s.outbound[j].is_send_to_any(s.down));
    }
}

/// Whoever is left of the announcers was an announcer before, and is not asked any earlier.
pub proof fn lemma_left_at<Id>(
    announcers: Seq<Announcer<Id>>,
    now: u64,
    timeout: u64,
    i: int,
) -> (j: int)
    requires
        0 <= i < model::left_at(announcers, now, timeout).len(),
    ensures
        0 <= j < announcers.len(),
        announcers[j].peer == model::left_at(announcers, now, timeout)[i].peer,
        announcers[j].round == model::left_at(announcers, now, timeout)[i].round,
        announcers[j].ready <= model::left_at(announcers, now, timeout)[i].ready,
{
    let k = model::due(announcers, now);
    seqs::lemma_first_where(announcers, model::may_ask::<Id>(now));
    if model::is_due(announcers, now) && i >= k {
        assert(announcers.remove(k)[i] == announcers[i + 1]);
        i + 1
    } else {
        i
    }
}

// ---------------------------------------------------------------------- inputs

/// A node with an explicit split starts in a valid state.
pub proof fn lemma_split_valid<Id: Ord>(me: Id, eager: Set<Id>, lazy: Set<Id>, cfg: Config)
    requires
        eager.finite(),
        lazy.finite(),
    ensures
        State::split(me, eager, lazy, cfg).valid(),
{
    let s = State::split(me, eager, lazy, cfg);
    assert(s.cache_order.to_set() =~= s.cache.dom());
}

/// The peers picked at the start are finitely many.
pub proof fn lemma_first_links_finite<Id: Ord>(peers: Seq<(Id, Cost)>, fanout: usize)
    ensures
        model::first_eager(peers, fanout).finite(),
        model::first_lazy(peers, fanout).finite(),
{
    let names = peers.map_values(|p: (Id, Cost)| p.0);
    vstd::seq_lib::seq_to_set_is_finite(names);
    let eager = model::first_eager(peers, fanout);
    let lazy = model::first_lazy(peers, fanout);
    assert forall|p: Id| eager.contains(p) || lazy.contains(p) implies #[trigger] names.to_set()
        .contains(p) by {
        let i = choose|i: int| 0 <= i < peers.len() && (#[trigger] peers[i]).0 == p;
        assert(names[i] == p);
    }
    vstd::set_lib::lemma_set_subset_finite(names.to_set(), eager);
    vstd::set_lib::lemma_set_subset_finite(names.to_set(), lazy);
}

/// A node that picks its links starts in a valid state.
pub proof fn lemma_start_valid<Id: Ord>(me: Id, peers: Seq<(Id, Cost)>, cfg: Config)
    ensures
        State::start(me, peers, cfg).valid(),
{
    let others = peers.filter(model::another(me));
    lemma_first_links_finite(others, cfg.fanout);
    let s = State::start(me, peers, cfg);
    assert(s.cache_order.to_set() =~= s.cache.dom());
}

/// `broadcast` keeps a state valid.
pub proof fn lemma_broadcast_valid<Id: Ord>(s: State<Id>, payload: Seq<u8>)
    requires
        order::ordered_key::<Id>(),
        s.valid(),
    ensures
        s.broadcast(payload).valid(),
{
    let id = (s.me, s.seq);
    let a = State { seq: (s.seq + 1) as u64, ..s };
    assert(a.valid());
    let entry = CachedView { payload, round: 0, from: None };
    lemma_remember(a, id, entry);
    lemma_spread(a.remember(id, entry), id, payload, 0, None);
}

/// `on_message` keeps a state valid.
pub proof fn lemma_on_message_valid<Id: Ord>(s: State<Id>, from: Id, message: MessageView<Id>)
    requires
        order::ordered_key::<Id>(),
        s.valid(),
    ensures
        s.on_message(from, message).valid(),
{
    let heard = s.hear(from);
    lemma_hear(s, from);
    match message {
        MessageView::Gossip { id, payload, round } => {
            let here = model::farther(round, heard.cost_of(from) as int);
            if heard.cache.contains_key(id) {
                lemma_on_duplicate(heard, from, id, here);
            } else {
                lemma_on_first(heard, from, id, payload, here);
            }
        },
        MessageView::Ihave(ids) => {
            lemma_on_ihave(heard, from, ids);
        },
        MessageView::Graft(id) => {
            lemma_on_graft(heard, from, id);
        },
        MessageView::Prune => {
            lemma_move_to_lazy(heard, from);
        },
    }
}

/// `tick` keeps a state valid.
pub proof fn lemma_tick_valid<Id: Ord>(s: State<Id>, ticks: u64)
    requires
        order::ordered_key::<Id>(),
        s.valid(),
    ensures
        s.tick(ticks).valid(),
{
    let now = model::later(s.now, ticks);
    let t = s.tick(ticks);
    vstd::set_lib::lemma_set_subset_finite(s.missing.dom(), t.missing.dom());
    assert forall|m: MsgId<Id>, i: int|
        #![trigger t.missing[m][i]]
        t.missing.contains_key(m) && 0 <= i < t.missing[m].len() implies !t.down.contains(
        t.missing[m][i].peer,
    ) by {
        let j = lemma_left_at(s.missing[m], now, s.cfg.graft_timeout, i);
        assert(!s.down.contains(s.missing[m][j].peer));
    }
    order::lemma_ascending(s.lazy);
    let flushed = s.flushed();
    assert forall|i: int| 0 <= i < flushed.len() implies !(#[trigger] flushed[i]).is_send_to_any(
        s.down,
    ) by {
        let p = order::ascending(s.lazy)[i];
        assert(order::ascending(s.lazy).contains(p));
    }
    let requests = s.requests(now);
    order::lemma_ascending(s.missing.dom());
    let ids = order::ascending(s.missing.dom());
    seqs::lemma_filter_contains(ids, s.is_asked(now));
    assert forall|i: int| 0 <= i < requests.len() implies !(#[trigger] requests[i]).is_send_to_any(
        s.down,
    ) by {
        let asked = ids.filter(s.is_asked(now));
        let id = asked[i];
        assert(asked.contains(id));
        assert(s.missing.contains_key(id));
        let k = model::due(s.missing[id], now);
        seqs::lemma_first_where(s.missing[id], model::may_ask::<Id>(now));
        assert(!s.down.contains(s.missing[id][k].peer));
    }
    lemma_queue(s, flushed);
    lemma_queue(s.queue(flushed), requests);
    assert(t.outbound == s.queue(flushed).queue(requests).outbound);
}

/// `membership` keeps a state valid.
pub proof fn lemma_membership_valid<Id: Ord>(
    s: State<Id>,
    added: Seq<(Id, Cost)>,
    removed: Set<Id>,
)
    requires
        s.valid(),
    ensures
        s.membership(added, removed).valid(),
{
    lemma_exclude(s, removed);
    let e = s.exclude(removed);
    let t = s.membership(added, removed);
    assert forall|i: int| 0 <= i < t.outbound.len() implies !(
    #[trigger] t.outbound[i]).is_send_to_any(t.down) by {
        assert(!e.outbound[i].is_send_to_any(e.down));
    }
}

/// `down` keeps a state valid.
pub proof fn lemma_down_valid<Id: Ord>(s: State<Id>, peers: Set<Id>)
    requires
        s.valid(),
    ensures
        s.down(peers).valid(),
{
    lemma_exclude(s, peers);
    let e = s.exclude(peers);
    let t = s.down(peers);
    let stays = model::stays::<Id>(peers);
    let unsent = model::not_sent_to::<Id>(peers);
    assert forall|m: MsgId<Id>, i: int|
        #![trigger t.missing[m][i]]
        t.missing.contains_key(m) && 0 <= i < t.missing[m].len() implies !t.down.contains(
        t.missing[m][i].peer,
    ) by {
        assert(!e.down.contains(e.missing[m][i].peer));
        seqs::lemma_filter_contains(s.missing[m], stays);
        assert(s.missing[m].filter(stays).contains(t.missing[m][i]));
    }
    seqs::lemma_filter_contains(s.outbound, unsent);
    assert forall|i: int| 0 <= i < t.outbound.len() implies !(
    #[trigger] t.outbound[i]).is_send_to_any(t.down) by {
        assert(!e.outbound[i].is_send_to_any(e.down));
        assert(s.outbound.filter(unsent).contains(t.outbound[i]));
    }
}

/// `up` keeps a state valid: it names finitely many peers.
pub proof fn lemma_up_valid<Id: Ord>(s: State<Id>, peers: Set<Id>)
    requires
        s.valid(),
        peers.finite(),
    ensures
        s.up(peers).valid(),
{
    let t = s.up(peers);
    assert forall|i: int| 0 <= i < t.outbound.len() implies !(
    #[trigger] t.outbound[i]).is_send_to_any(t.down) by {
        assert(!s.outbound[i].is_send_to_any(s.down));
    }
    vstd::set_lib::lemma_set_subset_finite(peers, s.down.intersect(peers));
}

} // verus!
