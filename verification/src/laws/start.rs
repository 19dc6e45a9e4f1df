//! How a node starts: the links it picks, the introductions that make them mutual, and the ids
//! it gives its messages.
use vstd::prelude::*;

use crate::history::Event;
use crate::laws::delivery;
use crate::laws::links;
use crate::message::{ActionView, Config, Cost, MessageView};
use crate::model;
use crate::model::State;
use crate::order;
use crate::seqs;
use crate::validity;

verus! {

/// One of the entries names `p`.
pub open spec fn lists<Id>(peers: Seq<(Id, Cost)>, p: Id) -> bool {
    exists|i: int| 0 <= i < peers.len() && (#[trigger] peers[i]).0 == p
}

/// `p` is not listed twice.
pub open spec fn lists_once<Id>(peers: Seq<(Id, Cost)>, p: Id) -> bool {
    forall|i: int, j: int|
        #![trigger peers[i], peers[j]]
        0 <= i < j < peers.len() ==> peers[i].0 != p || peers[j].0 != p
}

/// No peer is listed twice.
pub open spec fn lists_each_once<Id>(peers: Seq<(Id, Cost)>) -> bool {
    forall|i: int, j: int|
        #![trigger peers[i], peers[j]]
        0 <= i < j < peers.len() ==> peers[i].0 != peers[j].0
}

/// The entry is for a peer of this cost.
pub open spec fn costs<Id>(cost: Cost) -> spec_fn((Id, Cost)) -> bool {
    |p: (Id, Cost)| p.1 == cost
}

/// How many peers of a cost start eager: of those of cost 0 as many as the tuning says, and of
/// those of any other cost one.
pub open spec fn quota(cost: Cost, cfg: Config) -> nat {
    if cost == 0 {
        cfg.fanout as nat
    } else {
        1
    }
}

/// Everyone listed, except the node itself, is a peer from the start, and nobody else is.
pub proof fn starts_with_the_peers_listed<Id: Ord>(
    me: Id,
    peers: Seq<(Id, Cost)>,
    cfg: Config,
    p: Id,
)
    ensures
        State::start(me, peers, cfg).peers().contains(p) <==> lists(peers, p) && p != me,
{
    let others = peers.filter(model::another(me));
    seqs::lemma_filter_contains(peers, model::another(me));
    let s = State::start(me, peers, cfg);
    if s.peers().contains(p) {
        let i = choose|i: int| 0 <= i < others.len() && (#[trigger] others[i]).0 == p;
        assert(others.contains(others[i]));
        let j = choose|j: int| 0 <= j < peers.len() && peers[j] == others[i];
        assert(peers[j].0 == p);
    }
    if lists(peers, p) && p != me {
        let j = choose|j: int| 0 <= j < peers.len() && (#[trigger] peers[j]).0 == p;
        assert(peers.contains(peers[j]));
        assert(others.contains(peers[j]));
        let i = choose|i: int| 0 <= i < others.len() && others[i] == peers[j];
        assert(others[i].0 == p);
        if model::starts_eager(others, cfg.fanout, i) {
            assert(s.eager.contains(p));
        } else {
            assert(s.lazy.contains(p));
        }
    }
}

/// The place of an element in a filtered sequence is the number of those before it that pass.
pub proof fn lemma_filter_place<A>(q: Seq<A>, f: spec_fn(A) -> bool, i: int)
    requires
        0 <= i < q.len(),
        f(q[i]),
    ensures
        ({
            let k = q.take(i).filter(f).len() as int;
            &&& k < q.filter(f).len()
            &&& q.filter(f)[k] == q[i]
            &&& q.filter(f).take(k) == q.take(i).filter(f)
        }),
    decreases q.len(),
{
    reveal(Seq::filter);
    let front = q.drop_last();
    let k = q.take(i).filter(f).len() as int;
    if i == q.len() - 1 {
        assert(q.take(i) =~= front);
        assert(q.filter(f).take(k) =~= front.filter(f));
    } else {
        lemma_filter_place(front, f, i);
        assert(q.take(i) =~= front.take(i));
        assert(q.filter(f).take(k) =~= front.filter(f).take(k));
    }
}

/// Filtering twice is filtering by both tests.
pub proof fn lemma_filter_twice<A>(
    q: Seq<A>,
    f: spec_fn(A) -> bool,
    g: spec_fn(A) -> bool,
    both: spec_fn(A) -> bool,
)
    requires
        forall|a: A| #[trigger] both(a) <==> f(a) && g(a),
    ensures
        q.filter(f).filter(g) == q.filter(both),
    decreases q.len(),
{
    reveal(Seq::filter);
    if q.len() > 0 {
        lemma_filter_twice(q.drop_last(), f, g, both);
        let kept = q.drop_last().filter(f);
        assert(kept.push(q.last()).drop_last() =~= kept);
        assert(both(q.last()) <==> f(q.last()) && g(q.last()));
    }
}

/// The element at index `k` of a filtered sequence stands in the sequence behind exactly `k`
/// elements that pass.
pub proof fn lemma_filter_index<A>(q: Seq<A>, f: spec_fn(A) -> bool, k: int) -> (i: int)
    requires
        0 <= k < q.filter(f).len(),
    ensures
        0 <= i < q.len(),
        q[i] == q.filter(f)[k],
        f(q[i]),
        q.take(i).filter(f).len() == k,
    decreases q.len(),
{
    reveal(Seq::filter);
    if q.len() == 0 {
        0
    } else {
        let front = q.drop_last();
        if k < front.filter(f).len() {
            let i = lemma_filter_index(front, f, k);
            assert(q.take(i) =~= front.take(i));
            i
        } else {
            assert(q.take(q.len() - 1) =~= front);
            q.len() - 1
        }
    }
}

proof fn lemma_filter_once<Id>(peers: Seq<(Id, Cost)>, f: spec_fn((Id, Cost)) -> bool, p: Id)
    requires
        lists_once(peers, p),
    ensures
        lists_once(peers.filter(f), p),
    decreases peers.len(),
{
    reveal(Seq::filter);
    if peers.len() > 0 {
        let front = peers.drop_last();
        assert forall|i: int, j: int|
            #![trigger front[i], front[j]]
            0 <= i < j < front.len() implies front[i].0 != p || front[j].0 != p by {
            assert(front[i] == peers[i] && front[j] == peers[j]);
        }
        lemma_filter_once(front, f, p);
        seqs::lemma_filter_contains(front, f);
        let kept = front.filter(f);
        assert forall|i: int| 0 <= i < kept.len() implies (#[trigger] kept[i]).0 != p
            || peers.last().0 != p by {
            assert(kept.contains(kept[i]));
            let j = choose|j: int| 0 <= j < front.len() && front[j] == kept[i];
            assert(peers[j] == kept[i]);
            assert(peers[peers.len() - 1] == peers.last());
        }
    }
}

/// A peer that is listed once starts either eager or lazy.
proof fn lemma_starts_one_way<Id: Ord>(me: Id, peers: Seq<(Id, Cost)>, cfg: Config, p: Id)
    requires
        lists_once(peers, p),
    ensures
        !(State::start(me, peers, cfg).eager.contains(p) && State::start(
            me,
            peers,
            cfg,
        ).lazy.contains(p)),
{
    let s = State::start(me, peers, cfg);
    let others = peers.filter(model::another(me));
    lemma_filter_once(peers, model::another(me), p);
    if s.eager.contains(p) && s.lazy.contains(p) {
        let i = choose|i: int|
            0 <= i < others.len() && (#[trigger] others[i]).0 == p && model::starts_eager(
                others,
                cfg.fanout,
                i,
            );
        let j = choose|j: int|
            0 <= j < others.len() && (#[trigger] others[j]).0 == p && !model::starts_eager(
                others,
                cfg.fanout,
                j,
            );
        if i < j {
            assert(others[i].0 != p || others[j].0 != p);
        } else if j < i {
            assert(others[j].0 != p || others[i].0 != p);
        }
    }
}

/// Whether an entry starts eager depends on how many of the same cost stand before it.
pub proof fn lemma_starts_eager<Id>(peers: Seq<(Id, Cost)>, cfg: Config, i: int)
    requires
        0 <= i < peers.len(),
    ensures
        model::starts_eager(peers, cfg.fanout, i) <==> peers.take(i).filter(
            costs(peers[i].1),
        ).len() < quota(peers[i].1, cfg),
{
    let cost = peers[i].1;
    let before = peers.take(i);
    let same = before.filter(costs(cost));
    if cost == 0 {
        assert(costs::<Id>(0) =~= model::is_cheap::<Id>());
    } else {
        seqs::lemma_filter_contains(before, costs(cost));
        if model::has_cost(before, cost) {
            let j = choose|j: int| 0 <= j < before.len() && (#[trigger] before[j]).1 == cost;
            assert(before.contains(before[j]));
            assert(same.contains(before[j]));
        }
        if same.len() > 0 {
            assert(same.contains(same[0]));
            let j = choose|j: int| 0 <= j < before.len() && before[j] == same[0];
            assert(before[j].1 == cost);
        }
    }
}

/// The links are picked in the order of the list: the first peers of cost 0, as many as the
/// tuning says, and the first peer of each other cost start eager, so that every other domain
/// is entered once; the rest start lazy.
pub proof fn picks_links_by_cost<Id: Ord>(
    me: Id,
    peers: Seq<(Id, Cost)>,
    cfg: Config,
    cost: Cost,
    k: int,
)
    requires
        0 <= k < peers.filter(model::another(me)).filter(costs(cost)).len(),
        lists_once(peers, peers.filter(model::another(me)).filter(costs(cost))[k].0),
    ensures
        ({
            let p = peers.filter(model::another(me)).filter(costs(cost))[k].0;
            let s = State::start(me, peers, cfg);
            &&& s.eager.contains(p) <==> k < quota(cost, cfg)
            &&& s.lazy.contains(p) <==> k >= quota(cost, cfg)
        }),
{
    let others = peers.filter(model::another(me));
    let i = lemma_filter_index(others, costs(cost), k);
    lemma_starts_eager(others, cfg, i);
    let p = others[i].0;
    lemma_starts_one_way(me, peers, cfg, p);
    let s = State::start(me, peers, cfg);
    if model::starts_eager(others, cfg.fanout, i) {
        assert(s.eager.contains(p));
    } else {
        assert(s.lazy.contains(p));
    }
}

/// A node that picks its links among peers listed once each starts with every link either eager
/// or lazy, and with no link to itself.
pub proof fn starts_well_linked<Id: Ord>(me: Id, peers: Seq<(Id, Cost)>, cfg: Config)
    requires
        order::ordered_key::<Id>(),
        lists_each_once(peers),
    ensures
        State::start(me, peers, cfg).well_linked(),
{
    let s = State::start(me, peers, cfg);
    starts_with_the_peers_listed(me, peers, cfg, me);
    assert forall|p: Id| !(s.eager.contains(p) && #[trigger] s.lazy.contains(p)) by {
        assert(lists_once(peers, p)) by {
            assert forall|i: int, j: int|
                #![trigger peers[i], peers[j]]
                0 <= i < j < peers.len() implies peers[i].0 != p || peers[j].0 != p by {
                assert(peers[i].0 != peers[j].0);
            }
        }
        lemma_starts_one_way(me, peers, cfg, p);
    }
    validity::lemma_start_valid(me, peers, cfg);
    order::lemma_ascending(s.eager);
    order::lemma_ascending(s.lazy);
    let eager = order::ascending(s.eager);
    let lazy = order::ascending(s.lazy);
    assert forall|i: int| 0 <= i < s.outbound.len() implies model::sent_within(
        #[trigger] s.outbound[i],
        s.peers(),
    ) by {
        if i < eager.len() {
            assert(eager.contains(eager[i]));
        } else {
            assert(lazy.contains(lazy[i - eager.len()]));
        }
    }
}

/// What `node` says to `other` to introduce itself.
pub open spec fn introduction<Id: Ord>(node: State<Id>, other: Id) -> Option<MessageView<Id>> {
    if node.eager.contains(other) {
        Some(MessageView::Graft(None))
    } else if node.lazy.contains(other) {
        Some(MessageView::Ihave(Seq::empty()))
    } else {
        None
    }
}

/// A node introduces itself to each of its peers, and has nothing else to do. `p` is anyone who
/// is not listed twice.
pub proof fn introduces_itself_to_each_peer<Id: Ord>(
    me: Id,
    peers: Seq<(Id, Cost)>,
    cfg: Config,
    p: Id,
    message: MessageView<Id>,
)
    requires
        order::ordered_key::<Id>(),
        lists_once(peers, p),
    ensures
        State::start(me, peers, cfg).outbound.contains(ActionView::Send(p, message))
            <==> introduction(State::start(me, peers, cfg), p) == Some(message),
        delivery::deliveries(State::start(me, peers, cfg).outbound).len() == 0,
{
    let s = State::start(me, peers, cfg);
    lemma_starts_one_way(me, peers, cfg, p);
    validity::lemma_start_valid(me, peers, cfg);
    order::lemma_ascending(s.eager);
    order::lemma_ascending(s.lazy);
    let eager = order::ascending(s.eager);
    let lazy = order::ascending(s.lazy);
    let action = ActionView::Send(p, message);
    if s.outbound.contains(action) {
        let i = choose|i: int| 0 <= i < s.outbound.len() && s.outbound[i] == action;
        if i < eager.len() {
            assert(eager.contains(eager[i]));
        } else {
            assert(lazy.contains(lazy[i - eager.len()]));
            assert(s.lazy.contains(p));
        }
    }
    if introduction(s, p) == Some(message) {
        if s.eager.contains(p) {
            assert(eager.contains(p));
            let i = choose|i: int| 0 <= i < eager.len() && eager[i] == p;
            assert(s.outbound[i] == action);
        } else {
            assert(lazy.contains(p));
            let i = choose|i: int| 0 <= i < lazy.len() && lazy[i] == p;
            assert(s.outbound[eager.len() + i] == action);
        }
    }
    seqs::lemma_filter_contains(s.outbound, delivery::is_delivery());
    let d = delivery::deliveries(s.outbound);
    if d.len() > 0 {
        assert(d.contains(d[0]));
        let i = choose|i: int| 0 <= i < s.outbound.len() && s.outbound[i] == d[0];
        assert(s.outbound[i] is Send);
    }
}

/// The state of a node that has heard the introduction of `other`.
pub open spec fn introduced<Id: Ord>(node: State<Id>, other: State<Id>) -> State<Id> {
    match introduction(other, node.me) {
        Some(message) => node.on_message(other.me, message),
        None => node,
    }
}

/// Once two nodes have heard the introductions that they have for each other, the link between
/// them is the same from both ends.
pub proof fn introductions_make_links_mutual<Id: Ord>(a: State<Id>, b: State<Id>)
    requires
        a.me != b.me,
        a.eager.disjoint(a.lazy),
        b.eager.disjoint(b.lazy),
    ensures
        introduced(a, b).eager.contains(b.me) <==> introduced(b, a).eager.contains(a.me),
        introduced(a, b).lazy.contains(b.me) <==> introduced(b, a).lazy.contains(a.me),
        introduced(a, b).eager.contains(b.me) <==> a.eager.contains(b.me) || b.eager.contains(a.me),
        introduced(a, b).peers().contains(b.me) <==> a.peers().contains(b.me) || b.peers().contains(
            a.me,
        ),
{
    links::bare_graft_and_prune(a, b.me);
    links::bare_graft_and_prune(b, a.me);
    assert(a.hear(b.me).on_ihave(b.me, Seq::empty()) == a.hear(b.me));
    assert(b.hear(a.me).on_ihave(a.me, Seq::empty()) == b.hear(a.me));
}

/// The sequence number never goes back, and each broadcast takes the next one.
proof fn lemma_run_seq<Id: Ord>(s: State<Id>, events: Seq<Event<Id>>)
    requires
        s.seq + events.len() <= u64::MAX,
    ensures
        s.run(events).me == s.me,
        s.seq <= s.run(events).seq <= s.seq + events.len(),
    decreases events.len(),
{
    if events.len() > 0 {
        lemma_run_seq(s, events.drop_last());
        links::each_part_has_its_input(s.run(events.drop_last()), events.last());
    }
}

/// The id of a message is never used again by the node that started it, and never by another.
pub proof fn ids_are_unique<Id: Ord>(
    s: State<Id>,
    payload: Seq<u8>,
    events: Seq<Event<Id>>,
    other: State<Id>,
)
    requires
        s.seq + 1 + events.len() <= u64::MAX,
        other.me != s.me,
    ensures
        ({
            let later = s.broadcast(payload).run(events);
            &&& (later.me, later.seq) != (s.me, s.seq)
            &&& (other.me, other.seq) != (s.me, s.seq)
        }),
{
    lemma_run_seq(s.broadcast(payload), events);
}

} // verus!
