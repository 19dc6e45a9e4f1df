//! What each input does to each part of a node, in terms of the input and of what was there
//! before. Nothing here goes by the functions that define a state after an input: distances,
//! times, costs and orders are those of the numbers themselves.
use vstd::prelude::*;
use vstd::std_specs::cmp::OrdSpec;

use crate::laws::links;
use crate::laws::start;
use crate::message;
use crate::message::{Action, ActionView, Config, Cost, Message, MessageView, MsgId};
use crate::model;
use crate::model::{Announcer, CachedView, State};
use crate::order;
use crate::seqs;
use crate::validity;

verus! {

// ---------------------------------------------------------------------- terms

/// A distance, or the largest distance there is if it is larger.
pub open spec fn capped(distance: int) -> u16 {
    if distance > 65535 {
        65535
    } else {
        distance as u16
    }
}

/// What is recorded as the cost of `p`, and 0 if nothing is.
pub open spec fn price<Id>(s: State<Id>, p: Id) -> int {
    if s.cost.contains_key(p) {
        s.cost[p] as int
    } else {
        0
    }
}

/// Who announced a message that is missing.
pub open spec fn listed<Id>(s: State<Id>, id: MsgId<Id>) -> Seq<Announcer<Id>> {
    if s.missing.contains_key(id) {
        s.missing[id]
    } else {
        Seq::empty()
    }
}

/// `x` is less than `y`.
pub open spec fn less<K: Ord>(x: K, y: K) -> bool {
    x.cmp_spec(&y) is Less
}

/// Whom an action sends to.
pub open spec fn target<Id>(a: ActionView<Id>) -> Id {
    a->Send_0
}

/// `actions` send `message` to each of `peers` once, in the order of their ids, and nothing else.
pub open spec fn sends_to_each<Id: Ord>(
    actions: Seq<ActionView<Id>>,
    peers: Set<Id>,
    message: MessageView<Id>,
) -> bool {
    &&& forall|i: int|
        0 <= i < actions.len() ==> (#[trigger] actions[i]) == ActionView::Send(
            target(actions[i]),
            message,
        ) && peers.contains(target(actions[i]))
    &&& forall|p: Id| #[trigger]
        peers.contains(p) ==> actions.contains(ActionView::Send(p, message))
    &&& forall|i: int, j: int|
        #![trigger actions[i], actions[j]]
        0 <= i < j < actions.len() ==> less(target(actions[i]), target(actions[j]))
}

/// `ids` are the entries of `m`, once each, in the order of their ids.
pub open spec fn lists_entries<Id: Ord>(
    ids: Seq<(MsgId<Id>, u16)>,
    m: Map<MsgId<Id>, u16>,
) -> bool {
    &&& forall|i: int|
        0 <= i < ids.len() ==> m.contains_key((#[trigger] ids[i]).0) && m[ids[i].0] == ids[i].1
    &&& forall|id: MsgId<Id>| #[trigger] m.contains_key(id) ==> ids.contains((id, m[id]))
    &&& forall|i: int, j: int|
        #![trigger ids[i], ids[j]]
        0 <= i < j < ids.len() ==> less(ids[i].0, ids[j].0)
}

/// What no message, report or tick changes but the one that is for it: who the node is, its
/// tuning, its sequence number, its clock and the costs.
pub open spec fn same_node<Id>(s: State<Id>, t: State<Id>) -> bool {
    &&& t.me == s.me
    &&& t.cfg == s.cfg
    &&& t.seq == s.seq
    &&& t.now == s.now
    &&& t.cost == s.cost
}

/// The messages here, those that are not, and those to announce.
pub open spec fn same_messages<Id>(s: State<Id>, t: State<Id>) -> bool {
    &&& t.cache == s.cache
    &&& t.cache_order == s.cache_order
    &&& t.missing == s.missing
    &&& t.announce == s.announce
}

/// A message that was not here is the newest of those kept. As many are kept as may be, the
/// newest of them, each as it was.
pub open spec fn keeps_the_newest<Id>(
    s: State<Id>,
    t: State<Id>,
    id: MsgId<Id>,
    entry: CachedView<Id>,
) -> bool {
    let all = s.cache_order.push(id);
    let n = t.cache_order.len();
    &&& n == if all.len() <= s.cfg.cache_cap {
        all.len()
    } else {
        s.cfg.cache_cap as nat
    }
    &&& forall|i: int|
        0 <= i < n ==> (#[trigger] t.cache_order[i]) == all[all.len() - n + i]
    &&& forall|k: MsgId<Id>| #[trigger] t.cache.contains_key(k) <==> t.cache_order.contains(k)
    &&& forall|k: MsgId<Id>| #[trigger]
        t.cache.contains_key(k) ==> t.cache[k] == if k == id {
            entry
        } else {
            s.cache[k]
        }
}

/// The eager peers, with `p` unless it is the node itself.
pub open spec fn eager_with<Id>(s: State<Id>, p: Id) -> Set<Id> {
    if p == s.me {
        s.eager
    } else {
        s.eager.insert(p)
    }
}

/// The lazy peers, without `p` unless it is the node itself.
pub open spec fn lazy_without<Id>(s: State<Id>, p: Id) -> Set<Id> {
    if p == s.me {
        s.lazy
    } else {
        s.lazy.remove(p)
    }
}

// ---------------------------------------------------------------------- order

proof fn lemma_less<K: Ord>(s: Set<K>)
    requires
        order::ordered_key::<K>(),
        s.finite(),
    ensures
        forall|i: int, j: int|
            #![trigger order::ascending(s)[i], order::ascending(s)[j]]
            0 <= i < j < order::ascending(s).len() ==> less(
                order::ascending(s)[i],
                order::ascending(s)[j],
            ),
        forall|x: K| #[trigger] order::ascending(s).contains(x) <==> s.contains(x),
{
    order::lemma_ascending(s);
    let q = order::ascending(s);
    assert forall|i: int, j: int| #![trigger q[i], q[j]] 0 <= i < j < q.len() implies less(
        q[i],
        q[j],
    ) by {
        assert(order::precedes(q[i], q[j]));
    }
}

proof fn lemma_sends<Id: Ord>(
    actions: Seq<ActionView<Id>>,
    to: Seq<Id>,
    peers: Set<Id>,
    message: MessageView<Id>,
)
    requires
        order::ordered_key::<Id>(),
        peers.finite(),
        to == order::ascending(peers),
        actions.len() == to.len(),
        forall|i: int|
            0 <= i < to.len() ==> (#[trigger] actions[i]) == ActionView::Send(to[i], message),
    ensures
        sends_to_each(actions, peers, message),
{
    lemma_less(peers);
    assert forall|i: int| 0 <= i < actions.len() implies (#[trigger] actions[i])
        == ActionView::Send(target(actions[i]), message) && peers.contains(target(actions[i])) by {
        assert(to.contains(to[i]));
    }
    assert forall|p: Id| #[trigger] peers.contains(p) implies actions.contains(
        ActionView::Send(p, message),
    ) by {
        assert(to.contains(p));
        let i = choose|i: int| 0 <= i < to.len() && to[i] == p;
        assert(actions[i] == ActionView::Send(p, message));
    }
    assert forall|i: int, j: int|
        #![trigger actions[i], actions[j]]
        0 <= i < j < actions.len() implies less(target(actions[i]), target(actions[j])) by {
        assert(less(to[i], to[j]));
    }
}

/// The peers of a node are listed in the order of their ids, each once.
pub proof fn ids_are_listed_in_order<K: Ord>(s: Set<K>)
    requires
        order::ordered_key::<K>(),
        s.finite(),
    ensures
        forall|i: int, j: int|
            #![trigger order::ascending(s)[i], order::ascending(s)[j]]
            0 <= i < j < order::ascending(s).len() ==> order::ascending(s)[i].cmp_spec(
                &order::ascending(s)[j],
            ) is Less,
        forall|x: K| #[trigger] order::ascending(s).contains(x) <==> s.contains(x),
{
    lemma_less(s);
    let q = order::ascending(s);
    assert forall|i: int, j: int|
        #![trigger q[i], q[j]]
        0 <= i < j < q.len() implies q[i].cmp_spec(&q[j]) is Less by {
        assert(less(q[i], q[j]));
    }
}

// ---------------------------------------------------------------------- time

/// The request for a missing message goes to `p`: the first of its announcers whose time has
/// come at `now`.
pub open spec fn is_first_due<Id>(
    announcers: Seq<Announcer<Id>>,
    now: int,
    k: int,
) -> bool {
    &&& 0 <= k < announcers.len()
    &&& announcers[k].ready <= now
    &&& forall|j: int| 0 <= j < k ==> (#[trigger] announcers[j]).ready > now
}

/// None of the announcers may be asked at `now`.
pub open spec fn none_due<Id>(announcers: Seq<Announcer<Id>>, now: int) -> bool {
    forall|j: int| 0 <= j < announcers.len() ==> (#[trigger] announcers[j]).ready > now
}

/// What is left of a list of announcers at `now`: nobody leaves if nobody may be asked. Otherwise
/// the first who may be asked leaves, and everyone else waits until `now` and `timeout` at least.
pub open spec fn is_left<Id>(
    before: Seq<Announcer<Id>>,
    after: Seq<Announcer<Id>>,
    now: int,
    timeout: int,
) -> bool {
    if none_due(before, now) {
        after == before
    } else {
        exists|k: int| #[trigger]
            is_first_due(before, now, k) && after.len() == before.len() - 1 && (forall|i: int|
                0 <= i < after.len() ==> {
                    let was = before[if i < k {
                        i
                    } else {
                        i + 1
                    }];
                    &&& (#[trigger] after[i]).peer == was.peer
                    &&& after[i].round == was.round
                    &&& now + timeout <= u64::MAX ==> after[i].ready == if was.ready < now
                        + timeout {
                        now + timeout
                    } else {
                        was.ready as int
                    }
                })
    }
}

/// What a tick says, when the clock shows `now`: `told` announces what there is to announce to
/// each lazy peer, and `asked` asks for each missing message that someone may be asked for, in
/// the order of the ids.
pub open spec fn tick_says<Id: Ord>(
    s: State<Id>,
    now: int,
    told: Seq<ActionView<Id>>,
    asked: Seq<ActionView<Id>>,
    ids: Seq<(MsgId<Id>, u16)>,
    about: Seq<MsgId<Id>>,
) -> bool {
    &&& lists_entries(ids, s.announce)
    &&& if ids.len() == 0 {
        told.len() == 0
    } else {
        sends_to_each(told, s.lazy, MessageView::Ihave(ids))
    }
    &&& asked.len() == about.len()
    &&& forall|i: int|
        0 <= i < about.len() ==> s.missing.contains_key(#[trigger] about[i]) && exists|k: int|
            #[trigger] is_first_due(s.missing[about[i]], now, k) && asked[i] == ActionView::Send(
                s.missing[about[i]][k].peer,
                MessageView::Graft(Some(about[i])),
            )
    &&& forall|id: MsgId<Id>| #[trigger]
        s.missing.contains_key(id) && !none_due(s.missing[id], now) ==> about.contains(id)
    &&& forall|i: int, j: int|
        #![trigger about[i], about[j]]
        0 <= i < j < about.len() ==> less(about[i], about[j])
}

/// A tick advances the clock by as many ticks as it is told, or to the last time there is.
pub proof fn tick_advances_the_clock<Id: Ord>(s: State<Id>, ticks: u64)
    ensures
        s.now + ticks <= 18446744073709551615 ==> s.tick(ticks).now == s.now + ticks,
        s.now + ticks > 18446744073709551615 ==> s.tick(ticks).now == 18446744073709551615,
{
}

/// Two ticks are one tick of both lengths, as far as the clock goes.
pub proof fn ticks_add_up<Id: Ord>(s: State<Id>, first: u64, second: u64)
    requires
        first + second <= u64::MAX,
    ensures
        s.tick(first).tick(second).now == s.tick((first + second) as u64).now,
{
}

proof fn lemma_due<Id>(announcers: Seq<Announcer<Id>>, now: u64)
    ensures
        model::is_due(announcers, now) <==> !none_due(announcers, now as int),
        model::is_due(announcers, now) ==> is_first_due(
            announcers,
            now as int,
            model::due(announcers, now),
        ),
        forall|k: int| #[trigger]
            is_first_due(announcers, now as int, k) ==> k == model::due(announcers, now),
{
    let ripe = model::may_ask::<Id>(now);
    let d = model::due(announcers, now);
    seqs::lemma_first_where(announcers, ripe);
    assert forall|j: int| 0 <= j < d implies (#[trigger] announcers[j]).ready > now by {
        assert(!ripe(announcers[j]));
    }
    if d < announcers.len() {
        assert(ripe(announcers[d]));
    }
    assert forall|k: int| #[trigger] is_first_due(announcers, now as int, k) implies k == d by {
        if k < d {
            assert(announcers[k].ready > now);
        }
        if d < k {
            assert(announcers[d].ready > now);
        }
    }
}

proof fn lemma_is_left<Id>(before: Seq<Announcer<Id>>, now: u64, timeout: u64)
    ensures
        is_left(before, model::left_at(before, now, timeout), now as int, timeout as int),
{
    lemma_due(before, now);
    let after = model::left_at(before, now, timeout);
    if model::is_due(before, now) {
        let d = model::due(before, now);
        assert(is_first_due(before, now as int, d));
        assert forall|i: int| 0 <= i < after.len() implies {
            let was = before[if i < d {
                i
            } else {
                i + 1
            }];
            &&& (#[trigger] after[i]).peer == was.peer
            &&& after[i].round == was.round
            &&& now + timeout <= u64::MAX ==> after[i].ready == if was.ready < now + timeout {
                now + timeout
            } else {
                was.ready as int
            }
        } by {
            assert(before.remove(d)[i] == before[if i < d {
                i
            } else {
                i + 1
            }]);
        }
    }
}

/// A tick announces what there is to announce, asks for what is missing and someone may be asked
/// for, takes whoever is asked off the list, gives up what nobody is left to ask for, and leaves
/// everything else alone.
pub proof fn tick_effect<Id: Ord>(s: State<Id>, ticks: u64)
    requires
        order::ordered_key::<Id>(),
        s.valid(),
    ensures
        ({
            let t = s.tick(ticks);
            &&& t.me == s.me && t.cfg == s.cfg && t.seq == s.seq && t.cost == s.cost
            &&& t.eager == s.eager && t.lazy == s.lazy && t.down == s.down
            &&& t.cache == s.cache && t.cache_order == s.cache_order
            &&& t.announce == Map::<MsgId<Id>, u16>::empty()
            &&& forall|id: MsgId<Id>| #[trigger]
                t.missing.contains_key(id) <==> s.missing.contains_key(id) && s.missing[id].len()
                    > 0
            &&& forall|id: MsgId<Id>| #[trigger]
                t.missing.contains_key(id) ==> is_left(
                    s.missing[id],
                    t.missing[id],
                    t.now as int,
                    s.cfg.graft_timeout as int,
                )
            &&& exists|
                told: Seq<ActionView<Id>>,
                asked: Seq<ActionView<Id>>,
                ids: Seq<(MsgId<Id>, u16)>,
                about: Seq<MsgId<Id>>,
            | #[trigger]
                tick_says(s, t.now as int, told, asked, ids, about) && t.outbound == s.outbound
                    + told + asked
        }),
{
    let t = s.tick(ticks);
    let now = t.now;
    assert forall|id: MsgId<Id>| #[trigger] t.missing.contains_key(id) implies is_left(
        s.missing[id],
        t.missing[id],
        now as int,
        s.cfg.graft_timeout as int,
    ) by {
        lemma_is_left(s.missing[id], now, s.cfg.graft_timeout);
    }
    let told = s.flushed();
    let asked = s.requests(now);
    let ids = model::entries(s.announce);
    let keys = order::ascending(s.announce.dom());
    lemma_less(s.announce.dom());
    assert forall|i: int| 0 <= i < ids.len() implies s.announce.contains_key((#[trigger] ids[i]).0)
        && s.announce[ids[i].0] == ids[i].1 by {
        assert(keys.contains(keys[i]));
    }
    assert forall|id: MsgId<Id>| #[trigger] s.announce.contains_key(id) implies ids.contains(
        (id, s.announce[id]),
    ) by {
        assert(keys.contains(id));
        let i = choose|i: int| 0 <= i < keys.len() && keys[i] == id;
        assert(ids[i] == (id, s.announce[id]));
    }
    assert forall|i: int, j: int| #![trigger ids[i], ids[j]] 0 <= i < j < ids.len() implies less(
        ids[i].0,
        ids[j].0,
    ) by {
        assert(less(keys[i], keys[j]));
    }
    if ids.len() == 0 {
        assert forall|id: MsgId<Id>| !#[trigger] s.announce.dom().contains(id) by {
            if s.announce.contains_key(id) {
                assert(ids.contains((id, s.announce[id])));
            }
        }
        assert(s.announce.dom() =~= Set::empty());
    } else {
        assert(s.announce.contains_key(ids[0].0));
        assert(s.announce.dom().contains(ids[0].0));
        lemma_sends(told, order::ascending(s.lazy), s.lazy, MessageView::Ihave(ids));
    }
    let missing = order::ascending(s.missing.dom());
    let about = missing.filter(s.is_asked(now));
    lemma_less(s.missing.dom());
    let origin = seqs::lemma_filter_origin(missing, s.is_asked(now));
    seqs::lemma_filter_contains(missing, s.is_asked(now));
    assert forall|i: int| 0 <= i < about.len() implies s.missing.contains_key(#[trigger] about[i])
        && exists|k: int| #[trigger]
        is_first_due(s.missing[about[i]], now as int, k) && asked[i] == ActionView::Send(
            s.missing[about[i]][k].peer,
            MessageView::Graft(Some(about[i])),
        ) by {
        assert(about.contains(about[i]));
        assert(missing.contains(about[i]));
        lemma_due(s.missing[about[i]], now);
        assert(is_first_due(
            s.missing[about[i]],
            now as int,
            model::due(s.missing[about[i]], now),
        ));
    }
    assert forall|id: MsgId<Id>| #[trigger]
        s.missing.contains_key(id) && !none_due(s.missing[id], now as int) implies about.contains(
        id,
    ) by {
        lemma_due(s.missing[id], now);
        assert(missing.contains(id));
    }
    assert forall|i: int, j: int|
        #![trigger about[i], about[j]]
        0 <= i < j < about.len() implies less(about[i], about[j]) by {
        assert(origin[i] < origin[j]);
        assert(less(missing[origin[i]], missing[origin[j]]));
    }
    assert(tick_says(s, now as int, told, asked, ids, about));
}

// ---------------------------------------------------------------------- broadcast

/// A broadcast takes the next sequence number, is kept, is pushed to each eager peer at distance
/// 0, is to be announced if anyone is lazy, and leaves everything else alone.
pub proof fn broadcast_effect<Id: Ord>(s: State<Id>, payload: Seq<u8>)
    requires
        order::ordered_key::<Id>(),
        s.valid(),
        s.seq < u64::MAX,
    ensures
        ({
            let t = s.broadcast(payload);
            let id = (s.me, s.seq);
            let entry = CachedView::<Id> { payload, round: 0, from: None };
            &&& t.seq == s.seq + 1
            &&& t.me == s.me && t.cfg == s.cfg && t.now == s.now && t.cost == s.cost
            &&& t.eager == s.eager && t.lazy == s.lazy && t.down == s.down
            &&& t.missing == s.missing
            &&& !s.cache.contains_key(id) ==> keeps_the_newest(s, t, id, entry)
            &&& s.cache.contains_key(id) ==> t.cache == s.cache.insert(id, entry) && t.cache_order
                == s.cache_order
            &&& t.announce == if exists|p: Id| s.lazy.contains(p) {
                s.announce.insert(id, 0u16)
            } else {
                s.announce
            }
            &&& exists|sent: Seq<ActionView<Id>>| #[trigger]
                sends_to_each(sent, s.eager, MessageView::Gossip { id, payload, round: 0 })
                    && t.outbound == s.outbound + sent
        }),
{
    let t = s.broadcast(payload);
    let id = (s.me, s.seq);
    let entry = CachedView::<Id> { payload, round: 0, from: None };
    let a = State { seq: (s.seq + 1) as u64, ..s };
    if !s.cache.contains_key(id) {
        lemma_keeps_the_newest(a, id, entry);
        assert(keeps_the_newest(s, t, id, entry));
    }
    lemma_nobody(s.lazy);
    let sent = model::gossip_to(order::ascending(s.eager), id, payload, 0);
    lemma_sends(
        sent,
        order::ascending(s.eager),
        s.eager,
        MessageView::Gossip { id, payload, round: 0 },
    );
    assert(t.outbound == s.outbound + sent);
}

proof fn lemma_nobody<A>(s: Set<A>)
    ensures
        s.is_empty() <==> !(exists|p: A| s.contains(p)),
{
    if !(exists|p: A| s.contains(p)) {
        assert(s =~= Set::empty());
    }
}

proof fn lemma_keeps_the_newest<Id: Ord>(s: State<Id>, id: MsgId<Id>, entry: CachedView<Id>)
    requires
        s.valid(),
        !s.cache.contains_key(id),
    ensures
        keeps_the_newest(s, s.remember(id, entry), id, entry),
{
    let t = s.remember(id, entry);
    let all = s.cache_order.push(id);
    let n = t.cache_order.len();
    validity::lemma_remember(s, id, entry);
    assert forall|k: MsgId<Id>| #[trigger] t.cache.contains_key(k) <==> t.cache_order.contains(
        k,
    ) by {
        assert(t.cache_order.to_set().contains(k) <==> t.cache.dom().contains(k));
    }
    if all.len() > s.cfg.cache_cap {
        assert(all.len() == s.cfg.cache_cap + 1);
        assert(t.cache_order == all.drop_first());
    }
    assert forall|i: int| 0 <= i < n implies (#[trigger] t.cache_order[i]) == all[all.len() - n
        + i] by {}
}

// ---------------------------------------------------------------------- full messages

/// The announcer at place `i` should take the place of the sender of a first copy that arrived
/// at distance `here`: it is another one, not eager, and offers the message by the threshold
/// closer, while the sender is an eager peer.
pub open spec fn is_closer<Id>(s: State<Id>, from: Id, id: MsgId<Id>, here: int, i: int) -> bool {
    let a = listed(s, id)[i];
    &&& a.peer != from
    &&& !s.eager.contains(a.peer)
    &&& from != s.me || s.eager.contains(from)
    &&& here - a.round >= s.cfg.swap_threshold
}

/// The first announcer that [`is_closer`].
pub open spec fn is_first_closer<Id>(
    s: State<Id>,
    from: Id,
    id: MsgId<Id>,
    here: int,
    i: int,
) -> bool {
    &&& 0 <= i < listed(s, id).len()
    &&& is_closer(s, from, id, here, i)
    &&& forall|j: int| 0 <= j < i ==> !#[trigger] is_closer(s, from, id, here, j)
}

/// A message that is not here is kept at the distance it came from, is missing no longer, is
/// delivered, is passed on to each eager peer but its sender, and is to be announced if anyone
/// else is lazy. The sender is eager, unless an announcer is closer: then the first such one is,
/// in its place, and both are told.
pub proof fn first_copy_effect<Id: Ord>(
    s: State<Id>,
    from: Id,
    id: MsgId<Id>,
    payload: Seq<u8>,
    round: u16,
)
    requires
        order::ordered_key::<Id>(),
        s.valid(),
        !s.cache.contains_key(id),
    ensures
        ({
            let t = s.on_message(from, MessageView::Gossip { id, payload, round });
            let here = capped(round + price(s, from));
            let further = capped(here + 1);
            let eager = eager_with(s, from);
            let lazy = lazy_without(s, from);
            let copy = MessageView::Gossip { id, payload, round: further };
            &&& same_node(s, t)
            &&& t.down == s.down.remove(from)
            &&& keeps_the_newest(s, t, id, CachedView { payload, round: here, from: Some(from) })
            &&& t.missing == s.missing.remove(id)
            &&& t.announce == if exists|p: Id| lazy.contains(p) {
                s.announce.insert(id, further)
            } else {
                s.announce
            }
            &&& exists|sent: Seq<ActionView<Id>>, swapped: Seq<ActionView<Id>>| #[trigger]
                says_on_first_copy(s, t, from, id, here as int, sent, swapped) && sends_to_each(
                    sent,
                    s.eager.remove(from),
                    copy,
                ) && t.outbound == s.outbound + seq![ActionView::Deliver(payload)] + sent + swapped
            &&& (forall|i: int|
                0 <= i < listed(s, id).len() ==> !is_closer(s, from, id, here as int, i))
                ==> t.eager == eager && t.lazy == lazy
            &&& forall|i: int| #[trigger]
                is_first_closer(s, from, id, here as int, i) ==> {
                    let p = listed(s, id)[i].peer;
                    &&& t.eager == (if p == s.me {
                        eager
                    } else {
                        eager.insert(p)
                    }).remove(from)
                    &&& t.lazy == (if p == s.me {
                        lazy
                    } else {
                        lazy.remove(p)
                    }).insert(from)
                }
        }),
{
    let t = s.on_message(from, MessageView::Gossip { id, payload, round });
    let heard = s.hear(from);
    let here = model::farther(round, heard.cost_of(from) as int);
    let further = model::farther(here, 1);
    let copy = MessageView::Gossip { id, payload, round: further };
    let entry = CachedView { payload, round: here, from: Some(from) };
    let eager = eager_with(s, from);
    let lazy = lazy_without(s, from);
    assert(here == capped(round + price(s, from)));
    assert(further == capped(here + 1));
    let a = heard.take_in(from, id, payload, here);
    let b = heard.accept(from, id, payload, here);
    validity::lemma_hear(s, from);
    lemma_keeps_the_newest(heard, id, entry);
    assert(keeps_the_newest(s, t, id, entry));
    assert(a.eager =~= eager);
    assert(a.lazy =~= lazy);
    assert(a.down =~= s.down.remove(from));
    lemma_nobody(lazy);
    assert(eager.remove(from) =~= s.eager.remove(from));
    let to = order::ascending(s.eager.remove(from));
    let sent = model::gossip_to(to, id, payload, further);
    lemma_sends(sent, to, s.eager.remove(from), copy);
    let all = listed(s, id);
    assert(all == heard.announcers(id));
    let worth = b.replaces(from, here);
    let k = seqs::first_where(all, worth);
    seqs::lemma_first_where(all, worth);
    assert forall|j: int| 0 <= j < all.len() implies worth(#[trigger] all[j]) == is_closer(
        s,
        from,
        id,
        here as int,
        j,
    ) by {
        assert(b.eager == eager);
    }
    assert forall|i: int| #[trigger] is_first_closer(s, from, id, here as int, i) implies i
        == k by {
        assert(worth(all[i]));
        if k < i {
            assert(!is_closer(s, from, id, here as int, k));
        }
    }
    let swapped = if k < all.len() {
        seq![
            ActionView::Send(all[k].peer, MessageView::Graft(None)),
            ActionView::Send(from, MessageView::Prune),
        ]
    } else {
        Seq::empty()
    };
    assert(t.outbound =~= s.outbound + seq![ActionView::Deliver(payload)] + sent + swapped);
    if k < all.len() {
        let p = all[k].peer;
        assert(!s.down.contains(s.missing[id][k].peer));
        assert(worth(all[k]));
        assert(is_closer(s, from, id, here as int, k));
        assert forall|j: int| 0 <= j < k implies !#[trigger] is_closer(
            s,
            from,
            id,
            here as int,
            j,
        ) by {
            assert(!worth(all[j]));
        }
        assert(is_first_closer(s, from, id, here as int, k));
        assert(t.down =~= s.down.remove(from));
        assert(t.eager =~= (if p == s.me {
            eager
        } else {
            eager.insert(p)
        }).remove(from));
        assert(t.lazy =~= (if p == s.me {
            lazy
        } else {
            lazy.remove(p)
        }).insert(from));
    } else {
        assert forall|i: int| !#[trigger] is_first_closer(s, from, id, here as int, i) by {
            if is_first_closer(s, from, id, here as int, i) {
                assert(!worth(all[i]));
            }
        }
    }
    assert(says_on_first_copy(s, t, from, id, here as int, sent, swapped));
}

/// What goes out behind the copies passed on: if links are swapped, a bare graft to the closer
/// announcer and a prune to the sender; otherwise nothing.
pub open spec fn says_on_first_copy<Id>(
    s: State<Id>,
    t: State<Id>,
    from: Id,
    id: MsgId<Id>,
    here: int,
    sent: Seq<ActionView<Id>>,
    swapped: Seq<ActionView<Id>>,
) -> bool {
    &&& t.outbound.len() == s.outbound.len() + 1 + sent.len() + swapped.len()
    &&& (forall|i: int| !#[trigger] is_first_closer(s, from, id, here, i)) ==> swapped.len() == 0
    &&& forall|i: int| #[trigger]
        is_first_closer(s, from, id, here, i) ==> swapped == seq![
            ActionView::Send(listed(s, id)[i].peer, MessageView::Graft(None)),
            ActionView::Send(from, MessageView::Prune),
        ]
}

/// A message that is here comes once more, from anyone. It came before over an eager link that
/// costs more: then that link becomes lazy and is pruned, and the sender is eager, and counts as
/// where the message came from. Otherwise the link to the sender becomes lazy and is pruned.
pub proof fn duplicate_effect<Id: Ord>(
    s: State<Id>,
    from: Id,
    id: MsgId<Id>,
    payload: Seq<u8>,
    round: u16,
)
    requires
        s.valid(),
        s.cache.contains_key(id),
    ensures
        ({
            let t = s.on_message(from, MessageView::Gossip { id, payload, round });
            let was = s.cache[id];
            &&& same_node(s, t)
            &&& t.down == s.down.remove(from)
            &&& t.cache_order == s.cache_order && t.missing == s.missing && t.announce
                == s.announce
            &&& match was.from {
                Some(via) if s.eager.contains(via) && price(s, from) < price(s, via) => {
                    &&& t.eager == eager_with(s, from).remove(via)
                    &&& t.lazy == lazy_without(s, from).insert(via)
                    &&& t.outbound == s.outbound + seq![ActionView::Send(via, MessageView::Prune)]
                    &&& t.cache == s.cache.insert(
                        id,
                        CachedView {
                            payload: was.payload,
                            round: capped(round + price(s, from)),
                            from: Some(from),
                        },
                    )
                },
                _ => {
                    &&& t.eager == s.eager.remove(from)
                    &&& t.lazy == if from == s.me && !s.eager.contains(from) {
                        s.lazy
                    } else {
                        s.lazy.insert(from)
                    }
                    &&& t.outbound == s.outbound + seq![ActionView::Send(from, MessageView::Prune)]
                    &&& t.cache == s.cache
                },
            }
        }),
{
    let t = s.on_message(from, MessageView::Gossip { id, payload, round });
    let heard = s.hear(from);
    assert(heard.down =~= s.down.remove(from));
    match s.cache[id].from {
        Some(via) if s.eager.contains(via) && price(s, from) < price(s, via) => {
            assert(t.down =~= s.down.remove(from));
            assert(t.eager =~= eager_with(s, from).remove(via));
            assert(t.lazy =~= lazy_without(s, from).insert(via));
        },
        _ => {
            assert(t.eager =~= s.eager.remove(from));
            assert(t.lazy =~= if from == s.me && !s.eager.contains(from) {
                s.lazy
            } else {
                s.lazy.insert(from)
            });
        },
    }
}

// ---------------------------------------------------------------------- announcements

/// An announcement of nothing makes a peer of its sender, a lazy one unless it is one already,
/// and does nothing else.
pub proof fn empty_announcement_effect<Id: Ord>(s: State<Id>, from: Id)
    requires
        s.valid(),
    ensures
        ({
            let t = s.on_message(from, MessageView::Ihave(Seq::empty()));
            &&& same_node(s, t) && same_messages(s, t) && t.outbound == s.outbound
            &&& t.eager == s.eager
            &&& t.lazy == if from == s.me || s.eager.contains(from) {
                s.lazy
            } else {
                s.lazy.insert(from)
            }
            &&& t.down == s.down.remove(from)
        }),
{
    let t = s.on_message(from, MessageView::Ihave(Seq::empty()));
    assert(t == s.hear(from));
    assert(t.down =~= s.down.remove(from));
    assert(t.lazy =~= if from == s.me || s.eager.contains(from) {
        s.lazy
    } else {
        s.lazy.insert(from)
    });
}

proof fn lemma_on_ihave_add<Id: Ord>(
    s: State<Id>,
    from: Id,
    first: Seq<(MsgId<Id>, u16)>,
    second: Seq<(MsgId<Id>, u16)>,
)
    ensures
        s.on_ihave(from, first + second) == s.on_ihave(from, first).on_ihave(from, second),
    decreases second.len(),
{
    if second.len() == 0 {
        assert(first + second =~= first);
    } else {
        lemma_on_ihave_add(s, from, first, second.drop_last());
        assert((first + second).drop_last() =~= first + second.drop_last());
        assert((first + second).last() == second.last());
    }
}

/// An announcement of many messages is as good as many announcements: each entry is looked at,
/// in turn.
pub proof fn announcements_compose<Id: Ord>(
    s: State<Id>,
    from: Id,
    first: Seq<(MsgId<Id>, u16)>,
    second: Seq<(MsgId<Id>, u16)>,
)
    ensures
        s.on_message(from, MessageView::Ihave(first + second)) == s.on_message(
            from,
            MessageView::Ihave(first),
        ).on_message(from, MessageView::Ihave(second)),
{
    let heard = s.hear(from);
    let t = s.on_message(from, MessageView::Ihave(first));
    lemma_on_ihave_add(heard, from, first, second);
    links::lemma_on_ihave_constants(heard, from, first);
    links::lemma_on_ihave_keeps_peers(heard, from, first);
    if from != s.me {
        assert(heard.peers().contains(from));
        assert(t.peers().contains(from));
    }
    assert(t.hear(from) == t);
}

/// A copy of the message that `from` announces at distance `round` would come by the threshold
/// closer than the one that is here, which came over the eager link to `via`, and `from` is not
/// eager.
pub open spec fn offers_closer<Id>(
    s: State<Id>,
    from: Id,
    id: MsgId<Id>,
    round: u16,
    via: Id,
) -> bool {
    &&& s.cache.contains_key(id)
    &&& s.cache[id].from == Some(via)
    &&& via != from
    &&& s.eager.contains(via)
    &&& !s.eager.contains(from)
    &&& s.cache[id].round - capped(round + price(s, from)) >= s.cfg.swap_threshold
}

/// One message is announced that is here. If a copy would come by the threshold closer, the two
/// links change places, and both are told. Otherwise the announcement is as good as empty.
pub proof fn announcement_of_known_effect<Id: Ord>(
    s: State<Id>,
    from: Id,
    id: MsgId<Id>,
    round: u16,
    via: Id,
)
    requires
        s.valid(),
        s.cache.contains_key(id),
    ensures
        ({
            let t = s.on_message(from, MessageView::Ihave(seq![(id, round)]));
            &&& offers_closer(s, from, id, round, via) ==> {
                &&& same_node(s, t) && same_messages(s, t)
                &&& t.eager == eager_with(s, from).remove(via)
                &&& t.lazy == lazy_without(s, from).insert(via)
                &&& t.down == s.down.remove(from)
                &&& t.outbound == s.outbound + seq![
                    ActionView::Send(from, MessageView::Graft(None)),
                    ActionView::Send(via, MessageView::Prune),
                ]
            }
            &&& (forall|v: Id| !#[trigger] offers_closer(s, from, id, round, v)) ==> t
                == s.on_message(from, MessageView::Ihave(Seq::empty()))
        }),
{
    let ids = seq![(id, round)];
    let heard = s.hear(from);
    let t = s.on_message(from, MessageView::Ihave(ids));
    assert(heard.down =~= s.down.remove(from));
    reveal_with_fuel(State::on_ihave, 2);
    assert(ids.drop_last() =~= Seq::empty());
    assert(t == heard.on_announced(from, id, round));
    if offers_closer(s, from, id, round, via) {
        assert(t.eager =~= eager_with(s, from).remove(via));
        assert(t.lazy =~= lazy_without(s, from).insert(via));
        assert(t.down =~= s.down.remove(from));
        assert(t.outbound =~= s.outbound + seq![
            ActionView::Send(from, MessageView::Graft(None)),
            ActionView::Send(via, MessageView::Prune),
        ]);
    }
    if forall|v: Id| !#[trigger] offers_closer(s, from, id, round, v) {
        if let Some(v) = s.cache[id].from {
            assert(!offers_closer(s, from, id, round, v));
        }
    }
}

/// One message is announced that is not here. Its announcer joins the list behind those who cost
/// no more and before the first who costs more, with the distance at which a copy would arrive,
/// and may be asked when the timeout and its cost have passed. Otherwise the announcement is as
/// good as empty.
pub proof fn announcement_of_unknown_effect<Id: Ord>(
    s: State<Id>,
    from: Id,
    id: MsgId<Id>,
    round: u16,
) -> (k: int)
    requires
        !s.cache.contains_key(id),
        s.now + s.cfg.graft_timeout + price(s, from) <= u64::MAX,
    ensures
        ({
            let t = s.on_message(from, MessageView::Ihave(seq![(id, round)]));
            let before = listed(s, id);
            let after = t.missing[id];
            &&& t == (State {
                missing: t.missing,
                ..s.on_message(from, MessageView::Ihave(Seq::empty()))
            })
            &&& t.missing == s.missing.insert(id, after)
            &&& 0 <= k <= before.len()
            &&& after == before.insert(k, after[k])
            &&& after[k].peer == from
            &&& after[k].round == capped(round + price(s, from))
            &&& after[k].ready == s.now + s.cfg.graft_timeout + price(s, from)
            &&& forall|i: int|
                0 <= i < k ==> price(s, (#[trigger] before[i]).peer) <= price(s, from)
            &&& k < before.len() ==> price(s, before[k].peer) > price(s, from)
        }),
{
    let ids = seq![(id, round)];
    let heard = s.hear(from);
    let t = s.on_message(from, MessageView::Ihave(ids));
    reveal_with_fuel(State::on_ihave, 2);
    assert(ids.drop_last() =~= Seq::empty());
    assert(t == heard.on_announced(from, id, round));
    let before = listed(s, id);
    let more = model::costs_more(heard.cost, heard.cost_of(from));
    let k = seqs::first_where(before, more);
    seqs::lemma_first_where(before, more);
    assert(before == heard.announcers(id));
    assert forall|i: int| 0 <= i < k implies price(s, (#[trigger] before[i]).peer) <= price(
        s,
        from,
    ) by {
        assert(!more(before[i]));
    }
    if k < before.len() {
        assert(more(before[k]));
    }
    assert(t.missing[id] =~= before.insert(k, t.missing[id][k]));
    k
}

/// A node that is eager is not swapped in again: the rest of the announcement changes neither
/// links nor queue.
proof fn lemma_on_ihave_from_eager<Id: Ord>(
    s: State<Id>,
    from: Id,
    ids: Seq<(MsgId<Id>, u16)>,
)
    requires
        s.eager.contains(from),
    ensures
        s.on_ihave(from, ids).eager == s.eager,
        s.on_ihave(from, ids).lazy == s.lazy,
        s.on_ihave(from, ids).outbound == s.outbound,
    decreases ids.len(),
{
    if ids.len() > 0 {
        lemma_on_ihave_from_eager(s, from, ids.drop_last());
    }
}

/// Every entry of an announcement counts: if the entries before the one at `i` change neither
/// links nor queue, and that one is for a message of which `from` offers a copy by the threshold
/// closer than the one that is here, then `from` and the peer that brought it change places, and
/// both are told, and nothing else is said, however long the announcement is.
pub proof fn every_entry_may_swap<Id: Ord>(
    s: State<Id>,
    from: Id,
    ids: Seq<(MsgId<Id>, u16)>,
    i: int,
    via: Id,
)
    requires
        s.valid(),
        from != s.me,
        0 <= i < ids.len(),
        offers_closer(s, from, ids[i].0, ids[i].1, via),
        forall|j: int, v: Id|
            0 <= j < i ==> !#[trigger] offers_closer(s, from, ids[j].0, ids[j].1, v),
    ensures
        ({
            let t = s.on_message(from, MessageView::Ihave(ids));
            &&& t.eager == s.eager.insert(from).remove(via)
            &&& t.lazy == s.lazy.remove(from).insert(via)
            &&& t.outbound == s.outbound + seq![
                ActionView::Send(from, MessageView::Graft(None)),
                ActionView::Send(via, MessageView::Prune),
            ]
        }),
{
    let heard = s.hear(from);
    let front = ids.take(i);
    let rest = ids.skip(i + 1);
    let entry = seq![ids[i]];
    let u = heard.on_ihave(from, front);
    lemma_on_ihave_without_offers(heard, from, front, s);
    assert(ids =~= front + entry + rest);
    lemma_on_ihave_add(heard, from, front + entry, rest);
    lemma_on_ihave_add(heard, from, front, entry);
    reveal_with_fuel(State::on_ihave, 2);
    assert(entry.drop_last() =~= Seq::empty());
    let v = u.on_ihave(from, entry);
    assert(v == u.on_announced(from, ids[i].0, ids[i].1));
    assert(v == u.swap(via, from));
    assert(v.eager =~= s.eager.insert(from).remove(via));
    assert(v.lazy =~= s.lazy.remove(from).insert(via));
    assert(v.outbound =~= s.outbound + seq![
        ActionView::Send(from, MessageView::Graft(None)),
        ActionView::Send(via, MessageView::Prune),
    ]);
    lemma_on_ihave_from_eager(v, from, rest);
}

proof fn lemma_on_ihave_without_offers<Id: Ord>(
    heard: State<Id>,
    from: Id,
    ids: Seq<(MsgId<Id>, u16)>,
    s: State<Id>,
)
    requires
        heard == s.hear(from),
        forall|j: int, v: Id|
            0 <= j < ids.len() ==> !#[trigger] offers_closer(s, from, ids[j].0, ids[j].1, v),
    ensures
        ({
            let t = heard.on_ihave(from, ids);
            &&& same_node(heard, t)
            &&& t.eager == heard.eager && t.lazy == heard.lazy && t.down == heard.down
            &&& t.outbound == heard.outbound
            &&& t.cache == heard.cache
        }),
    decreases ids.len(),
{
    if ids.len() > 0 {
        let front = ids.drop_last();
        let id = ids.last().0;
        assert forall|j: int, v: Id| 0 <= j < front.len() implies !#[trigger] offers_closer(
            s,
            from,
            front[j].0,
            front[j].1,
            v,
        ) by {
            assert(!offers_closer(s, from, ids[j].0, ids[j].1, v));
        }
        lemma_on_ihave_without_offers(heard, from, front, s);
        if s.cache.contains_key(id) {
            if let Some(v) = s.cache[id].from {
                let last = ids.len() - 1;
                assert(!offers_closer(s, from, ids[last].0, ids[last].1, v));
            }
        }
    }
}

/// An announcement in which no entry offers a copy by the threshold closer changes neither links
/// nor queue, beyond that its sender is a peer.
pub proof fn announcement_without_offers<Id: Ord>(
    s: State<Id>,
    from: Id,
    ids: Seq<(MsgId<Id>, u16)>,
)
    requires
        s.valid(),
        forall|j: int, v: Id|
            0 <= j < ids.len() ==> !#[trigger] offers_closer(s, from, ids[j].0, ids[j].1, v),
    ensures
        ({
            let t = s.on_message(from, MessageView::Ihave(ids));
            &&& t.eager == s.eager
            &&& t.lazy == if from == s.me || s.eager.contains(from) {
                s.lazy
            } else {
                s.lazy.insert(from)
            }
            &&& t.outbound == s.outbound
        }),
{
    empty_announcement_effect(s, from);
    assert(s.on_message(from, MessageView::Ihave(Seq::empty())) == s.hear(from));
    lemma_on_ihave_without_offers(s.hear(from), from, ids, s);
}

// ---------------------------------------------------------------------- grafts and prunes

/// A graft makes its sender eager, and is answered if, and only if, it asks for a message that is
/// here: with that message, at one hop more than its distance here.
pub proof fn graft_effect<Id: Ord>(s: State<Id>, from: Id, asked: Option<MsgId<Id>>)
    requires
        s.valid(),
    ensures
        ({
            let t = s.on_message(from, MessageView::Graft(asked));
            &&& same_node(s, t) && same_messages(s, t)
            &&& t.eager == eager_with(s, from)
            &&& t.lazy == lazy_without(s, from)
            &&& t.down == s.down.remove(from)
            &&& t.outbound == match asked {
                Some(id) if s.cache.contains_key(id) => s.outbound + seq![
                    ActionView::Send(
                        from,
                        MessageView::Gossip {
                            id,
                            payload: s.cache[id].payload,
                            round: capped(s.cache[id].round + 1),
                        },
                    ),
                ],
                _ => s.outbound,
            }
        }),
{
    let t = s.on_message(from, MessageView::Graft(asked));
    assert(t.eager =~= eager_with(s, from));
    assert(t.lazy =~= lazy_without(s, from));
    assert(t.down =~= s.down.remove(from));
}

/// A prune makes the link to its sender lazy, and does nothing else.
pub proof fn prune_effect<Id: Ord>(s: State<Id>, from: Id)
    requires
        s.valid(),
    ensures
        ({
            let t = s.on_message(from, MessageView::Prune);
            &&& same_node(s, t) && same_messages(s, t) && t.outbound == s.outbound
            &&& t.eager == s.eager.remove(from)
            &&& t.lazy == if from == s.me && !s.eager.contains(from) {
                s.lazy
            } else {
                s.lazy.insert(from)
            }
            &&& t.down == s.down.remove(from)
        }),
{
    let t = s.on_message(from, MessageView::Prune);
    assert(t.eager =~= s.eager.remove(from));
    assert(t.lazy =~= if from == s.me && !s.eager.contains(from) {
        s.lazy
    } else {
        s.lazy.insert(from)
    });
    assert(t.down =~= s.down.remove(from));
}

// ---------------------------------------------------------------------- membership, liveness

/// `t` has nothing to do with `gone` any more, and is like `s` otherwise: the links of the others
/// are what they were, the lists of announcers keep the others in order, and the queue keeps the
/// deliveries and what goes to others, in order.
pub open spec fn drops_only<Id>(s: State<Id>, t: State<Id>, gone: Set<Id>) -> bool {
    &&& t.eager == s.eager.difference(gone)
    &&& t.lazy == s.lazy.difference(gone)
    &&& forall|id: MsgId<Id>| #[trigger] t.missing.contains_key(id) <==> s.missing.contains_key(id)
    &&& forall|id: MsgId<Id>| #[trigger]
        t.missing.contains_key(id) ==> t.missing[id] == s.missing[id].filter(
            |a: Announcer<Id>| !gone.contains(a.peer),
        )
    &&& t.outbound == s.outbound.filter(
        |a: ActionView<Id>|
            match a {
                ActionView::Send(to, _) => !gone.contains(to),
                ActionView::Deliver(_) => true,
            },
    )
    &&& t.me == s.me && t.cfg == s.cfg && t.seq == s.seq && t.now == s.now
    &&& t.cache == s.cache && t.cache_order == s.cache_order && t.announce == s.announce
}

proof fn lemma_drops_only<Id: Ord>(s: State<Id>, gone: Set<Id>)
    ensures
        drops_only(s, s.exclude(gone), gone),
{
    assert(model::stays::<Id>(gone) =~= |a: Announcer<Id>| !gone.contains(a.peer));
    assert(model::not_sent_to::<Id>(gone) =~= |a: ActionView<Id>|
        match a {
            ActionView::Send(to, _) => !gone.contains(to),
            ActionView::Deliver(_) => true,
        });
}

/// A change of membership drops the removed from everything, records the joined at their cost,
/// the last one given, and leaves everyone else where they are.
pub proof fn membership_effect<Id: Ord>(
    s: State<Id>,
    added: Seq<(Id, Cost)>,
    removed: Set<Id>,
)
    ensures
        ({
            let t = s.membership(added, removed);
            &&& drops_only(s, t, removed)
            &&& t.down == s.down.difference(removed)
            &&& forall|p: Id| #[trigger] removed.contains(p) ==> price(t, p) == 0
            &&& forall|p: Id|
                !removed.contains(p) && (p == s.me || forall|j: int|
                    0 <= j < added.len() ==> (#[trigger] added[j]).0 != p) ==> #[trigger] price(
                    t,
                    p,
                ) == price(s, p)
            &&& forall|i: int|
                0 <= i < added.len() && (#[trigger] added[i]).0 != s.me && !removed.contains(
                    added[i].0,
                ) && (forall|j: int| i < j < added.len() ==> (#[trigger] added[j]).0 != added[i].0)
                    ==> price(t, added[i].0) == added[i].1
        }),
{
    let t = s.membership(added, removed);
    lemma_drops_only(s, removed);
    assert forall|p: Id|
        !removed.contains(p) && (p == s.me || forall|j: int|
            0 <= j < added.len() ==> (#[trigger] added[j]).0 != p) implies #[trigger] price(t, p)
        == price(s, p) by {
        links::others_keep_their_cost(s, added, removed, p);
    }
    assert forall|i: int|
        0 <= i < added.len() && (#[trigger] added[i]).0 != s.me && !removed.contains(added[i].0)
            && (forall|j: int| i < j < added.len() ==> (#[trigger] added[j]).0 != added[i].0)
        implies price(t, added[i].0) == added[i].1 by {
        links::joined_at_its_cost(s, added, removed, i);
    }
}

/// Peers that are down are dropped from everything and set aside, and everyone else is left where
/// they are. The node itself is not set aside.
pub proof fn down_effect<Id: Ord>(s: State<Id>, peers: Set<Id>)
    ensures
        ({
            let t = s.down(peers);
            &&& drops_only(s, t, peers)
            &&& t.cost == s.cost
            &&& forall|p: Id| #[trigger]
                t.down.contains(p) <==> s.down.contains(p) || (peers.contains(p) && p != s.me)
        }),
{
    lemma_drops_only(s, peers);
}

/// Peers that were down and are up again are lazy, and nothing else changes.
pub proof fn up_effect<Id: Ord>(s: State<Id>, peers: Set<Id>)
    ensures
        ({
            let t = s.up(peers);
            &&& same_node(s, t) && same_messages(s, t) && t.outbound == s.outbound
            &&& t.eager == s.eager
            &&& forall|p: Id| #[trigger]
                t.lazy.contains(p) <==> s.lazy.contains(p) || (s.down.contains(p)
                    && peers.contains(p))
            &&& forall|p: Id| #[trigger]
                t.down.contains(p) <==> s.down.contains(p) && !peers.contains(p)
        }),
{
}

/// Draining empties the queue, and changes nothing else.
pub proof fn drain_effect<Id: Ord>(s: State<Id>)
    ensures
        ({
            let t = s.drained();
            &&& same_node(s, t) && same_messages(s, t)
            &&& t.eager == s.eager && t.lazy == s.lazy && t.down == s.down
            &&& t.outbound.len() == 0
        }),
{
}

// ---------------------------------------------------------------------- the start

/// A node with an explicit split has the peers and the tuning it is given, knows no costs, and has
/// heard, sent and queued nothing.
pub proof fn split_effect<Id: Ord>(me: Id, eager: Set<Id>, lazy: Set<Id>, cfg: Config)
    ensures
        ({
            let s = State::split(me, eager, lazy, cfg);
            &&& s.me == me && s.eager == eager && s.lazy == lazy && s.cfg == cfg
            &&& s.seq == 0 && s.now == 0
            &&& forall|p: Id| !#[trigger] s.down.contains(p)
            &&& forall|p: Id| #[trigger] price(s, p) == 0
            &&& starts_empty(s)
            &&& s.outbound.len() == 0
        }),
{
}

/// No message is here, missing or to be announced.
pub open spec fn starts_empty<Id>(s: State<Id>) -> bool {
    &&& forall|id: MsgId<Id>| !#[trigger] s.cache.contains_key(id)
    &&& s.cache_order.len() == 0
    &&& forall|id: MsgId<Id>| !#[trigger] s.missing.contains_key(id)
    &&& forall|id: MsgId<Id>| !#[trigger] s.announce.contains_key(id)
}

/// How many of the entries before the one at `i` are for other nodes at the same cost.
pub open spec fn rank<Id>(me: Id, peers: Seq<(Id, Cost)>, i: int) -> nat {
    peers.take(i).filter(|e: (Id, Cost)| e.0 != me && e.1 == peers[i].1).len()
}

/// The entry at `i` is for `p`, another node, and `p` is picked by it: it is among the first
/// `fanout` of its cost if that is 0, and the first of its cost otherwise.
pub open spec fn is_picked_by<Id>(
    me: Id,
    peers: Seq<(Id, Cost)>,
    fanout: usize,
    p: Id,
    i: int,
) -> bool {
    &&& 0 <= i < peers.len()
    &&& peers[i].0 == p
    &&& p != me
    &&& rank(me, peers, i) < if peers[i].1 == 0 {
        fanout as int
    } else {
        1
    }
}

/// The entry at `i` is for `p`, another node, and comes too late for `p` to be picked by it.
pub open spec fn is_left_by<Id>(
    me: Id,
    peers: Seq<(Id, Cost)>,
    fanout: usize,
    p: Id,
    i: int,
) -> bool {
    &&& 0 <= i < peers.len()
    &&& peers[i].0 == p
    &&& p != me
    &&& !is_picked_by(me, peers, fanout, p, i)
}

proof fn lemma_picked<Id: Ord>(me: Id, peers: Seq<(Id, Cost)>, cfg: Config, i: int) -> (k: int)
    requires
        0 <= i < peers.len(),
        peers[i].0 != me,
    ensures
        ({
            let others = peers.filter(model::another(me));
            &&& 0 <= k < others.len()
            &&& others[k] == peers[i]
            &&& k == peers.take(i).filter(model::another(me)).len()
            &&& model::starts_eager(others, cfg.fanout, k) <==> is_picked_by(
                me,
                peers,
                cfg.fanout,
                peers[i].0,
                i,
            )
        }),
{
    let keep = model::another(me);
    let others = peers.filter(keep);
    let cost = peers[i].1;
    let k = peers.take(i).filter(keep).len() as int;
    start::lemma_filter_place(peers, keep, i);
    start::lemma_starts_eager(others, cfg, k);
    let both = |e: (Id, Cost)| e.0 != me && e.1 == peers[i].1;
    start::lemma_filter_twice(peers.take(i), keep, start::costs(cost), both);
    k
}

/// A node that picks its links has the tuning it is given, and has heard and sent nothing. It
/// starts eager to the first peers of cost 0 on the list, as many as the tuning says, and to the
/// first of each other cost, and lazy to the others; knows each peer at its cost, the last one
/// given; and introduces itself with a bare graft to each eager peer and an empty announcement to
/// each lazy one.
pub proof fn start_effect<Id: Ord>(me: Id, peers: Seq<(Id, Cost)>, cfg: Config)
    requires
        order::ordered_key::<Id>(),
    ensures
        ({
            let s = State::start(me, peers, cfg);
            &&& s.me == me && s.cfg == cfg
            &&& s.seq == 0 && s.now == 0
            &&& forall|p: Id| !#[trigger] s.down.contains(p)
            &&& starts_empty(s)
            &&& forall|p: Id| #[trigger]
                s.eager.contains(p) <==> exists|i: int| #[trigger]
                    is_picked_by(me, peers, cfg.fanout, p, i)
            &&& forall|p: Id| #[trigger]
                s.lazy.contains(p) <==> exists|i: int| #[trigger]
                    is_left_by(me, peers, cfg.fanout, p, i)
            &&& forall|p: Id|
                (p == me || forall|j: int| 0 <= j < peers.len() ==> (#[trigger] peers[j]).0 != p)
                    ==> #[trigger] price(s, p) == 0
            &&& forall|i: int|
                0 <= i < peers.len() && (#[trigger] peers[i]).0 != me && (forall|j: int|
                    i < j < peers.len() ==> (#[trigger] peers[j]).0 != peers[i].0) ==> price(
                    s,
                    peers[i].0,
                ) == peers[i].1
            &&& exists|grafts: Seq<ActionView<Id>>, told: Seq<ActionView<Id>>|
                #![trigger grafts + told]
                sends_to_each(grafts, s.eager, MessageView::Graft(None)) && sends_to_each(
                    told,
                    s.lazy,
                    MessageView::Ihave(Seq::empty()),
                ) && s.outbound == grafts + told
        }),
{
    let s = State::start(me, peers, cfg);
    let keep = model::another(me);
    let others = peers.filter(keep);
    assert forall|p: Id| #[trigger]
        s.eager.contains(p) <==> exists|i: int| #[trigger]
            is_picked_by(me, peers, cfg.fanout, p, i) by {
        if s.eager.contains(p) {
            let k = choose|k: int|
                0 <= k < others.len() && (#[trigger] others[k]).0 == p && model::starts_eager(
                    others,
                    cfg.fanout,
                    k,
                );
            let i = start::lemma_filter_index(peers, keep, k);
            let again = lemma_picked(me, peers, cfg, i);
            assert(is_picked_by(me, peers, cfg.fanout, p, i));
        }
        if exists|i: int| #[trigger] is_picked_by(me, peers, cfg.fanout, p, i) {
            let i = choose|i: int| #[trigger] is_picked_by(me, peers, cfg.fanout, p, i);
            let k = lemma_picked(me, peers, cfg, i);
            assert(others[k].0 == p);
        }
    }
    assert forall|p: Id| #[trigger]
        s.lazy.contains(p) <==> exists|i: int| #[trigger]
            is_left_by(me, peers, cfg.fanout, p, i) by {
        if s.lazy.contains(p) {
            let k = choose|k: int|
                0 <= k < others.len() && (#[trigger] others[k]).0 == p && !model::starts_eager(
                    others,
                    cfg.fanout,
                    k,
                );
            let i = start::lemma_filter_index(peers, keep, k);
            let again = lemma_picked(me, peers, cfg, i);
            assert(is_left_by(me, peers, cfg.fanout, p, i));
        }
        if exists|i: int| #[trigger] is_left_by(me, peers, cfg.fanout, p, i) {
            let i = choose|i: int| #[trigger] is_left_by(me, peers, cfg.fanout, p, i);
            let k = lemma_picked(me, peers, cfg, i);
            assert(others[k].0 == p);
        }
    }
    assert forall|p: Id|
        (p == me || forall|j: int| 0 <= j < peers.len() ==> (#[trigger] peers[j]).0
            != p) implies #[trigger] price(s, p) == 0 by {
        links::lemma_cost_without_entry(Map::empty(), me, peers, p);
    }
    assert forall|i: int|
        0 <= i < peers.len() && (#[trigger] peers[i]).0 != me && (forall|j: int|
            i < j < peers.len() ==> (#[trigger] peers[j]).0 != peers[i].0) implies price(
        s,
        peers[i].0,
    ) == peers[i].1 by {
        links::lemma_cost_of_last_entry(Map::empty(), me, peers, i);
    }
    validity::lemma_start_valid(me, peers, cfg);
    let grafts = model::graft_to(order::ascending(s.eager));
    let told = model::announce_to(order::ascending(s.lazy), Seq::empty());
    lemma_sends(grafts, order::ascending(s.eager), s.eager, MessageView::Graft(None));
    lemma_sends(told, order::ascending(s.lazy), s.lazy, MessageView::Ihave(Seq::empty()));
    assert(s.outbound == grafts + told);
}

// ---------------------------------------------------------------------- limits, and what is shown

/// Every message, and every tick, is accepted as long as the times to reckon with are times of
/// the clock.
pub proof fn calls_are_accepted<Id: Ord>(
    s: State<Id>,
    from: Id,
    message: MessageView<Id>,
    ticks: u64,
)
    ensures
        !(message is Ihave) ==> s.can_wait_for(from, message),
        s.now + s.cfg.graft_timeout + price(s, from) <= u64::MAX ==> s.can_wait_for(from, message),
        s.now + ticks + s.cfg.graft_timeout <= u64::MAX ==> s.can_postpone(ticks),
        (forall|id: MsgId<Id>| #[trigger] s.missing.contains_key(id) ==> s.missing[id].len() <= 1)
            ==> s.can_postpone(ticks),
{
}

/// A message shows all there is in it, and so does an action.
pub proof fn messages_show_their_content<Id>(
    id: MsgId<Id>,
    payload: Vec<u8>,
    round: u16,
    ids: Vec<(MsgId<Id>, u16)>,
    asked: Option<MsgId<Id>>,
    to: Id,
    message: Message<Id>,
)
    ensures
        (Message::Gossip { id, payload, round })@ == (MessageView::Gossip {
            id,
            payload: payload@,
            round,
        }),
        Message::Ihave(ids)@ == MessageView::<Id>::Ihave(ids@),
        Message::Graft(asked)@ == MessageView::<Id>::Graft(asked),
        Message::<Id>::Prune@ == MessageView::<Id>::Prune,
        Action::Send(to, message)@ == ActionView::Send(to, message@),
        Action::<Id>::Deliver(payload)@ == ActionView::<Id>::Deliver(payload@),
{
}

/// A sequence of actions shows each of them, in order.
pub proof fn actions_show_each<Id>(actions: Seq<Action<Id>>)
    ensures
        message::action_views(actions).len() == actions.len(),
        forall|i: int|
            0 <= i < actions.len() ==> (#[trigger] message::action_views(actions)[i])
                == actions[i]@,
{
}

} // verus!
