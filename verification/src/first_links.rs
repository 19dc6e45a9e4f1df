//! How the links that a node starts with depend on its list of peers.
use vstd::prelude::*;

use crate::message::Cost;
use crate::model;

verus! {

/// A peer that comes later in the list does not change how an earlier one starts.
pub proof fn lemma_starts_eager_push<Id>(
    peers: Seq<(Id, Cost)>,
    more: (Id, Cost),
    fanout: usize,
    i: int,
)
    requires
        0 <= i < peers.len(),
    ensures
        model::starts_eager(peers.push(more), fanout, i) == model::starts_eager(peers, fanout, i),
{
    let longer = peers.push(more);
    assert(longer.take(i) =~= peers.take(i));
    assert(longer[i] == peers[i]);
}

/// One peer more in the list is one cost more.
pub proof fn lemma_has_cost_push<Id>(peers: Seq<(Id, Cost)>, more: (Id, Cost))
    ensures
        forall|c: Cost| #[trigger]
            model::has_cost(peers.push(more), c) <==> model::has_cost(peers, c) || c == more.1,
{
    let longer = peers.push(more);
    assert forall|c: Cost| #[trigger]
        model::has_cost(longer, c) <==> model::has_cost(peers, c) || c == more.1 by {
        if model::has_cost(peers, c) {
            let i = choose|i: int| 0 <= i < peers.len() && (#[trigger] peers[i]).1 == c;
            assert(longer[i].1 == c);
        }
        assert(longer[peers.len() as int].1 == more.1);
        if model::has_cost(longer, c) {
            let i = choose|i: int| 0 <= i < longer.len() && (#[trigger] longer[i]).1 == c;
            if i < peers.len() {
                assert(peers[i].1 == c);
            }
        }
    }
}

/// One peer more in the list is one link more.
pub proof fn lemma_first_links_push<Id>(peers: Seq<(Id, Cost)>, more: (Id, Cost), fanout: usize)
    ensures
        model::first_eager(peers.push(more), fanout) == if model::starts_eager(
            peers.push(more),
            fanout,
            peers.len() as int,
        ) {
            model::first_eager(peers, fanout).insert(more.0)
        } else {
            model::first_eager(peers, fanout)
        },
        model::first_lazy(peers.push(more), fanout) == if model::starts_eager(
            peers.push(more),
            fanout,
            peers.len() as int,
        ) {
            model::first_lazy(peers, fanout)
        } else {
            model::first_lazy(peers, fanout).insert(more.0)
        },
{
    let longer = peers.push(more);
    let n = peers.len() as int;
    let starts = model::starts_eager(longer, fanout, n);
    assert forall|i: int| 0 <= i < n implies #[trigger] model::starts_eager(longer, fanout, i)
        == model::starts_eager(peers, fanout, i) by {
        lemma_starts_eager_push(peers, more, fanout, i);
    }
    assert forall|p: Id| #[trigger]
        model::first_eager(longer, fanout).contains(p) <==> model::first_eager(
            peers,
            fanout,
        ).contains(p) || (starts && p == more.0) by {
        if model::first_eager(peers, fanout).contains(p) {
            let i = choose|i: int|
                0 <= i < peers.len() && (#[trigger] peers[i]).0 == p && model::starts_eager(
                    peers,
                    fanout,
                    i,
                );
            assert(longer[i].0 == p && model::starts_eager(longer, fanout, i));
        }
        if starts && p == more.0 {
            assert(longer[n].0 == p);
        }
        if model::first_eager(longer, fanout).contains(p) {
            let i = choose|i: int|
                0 <= i < longer.len() && (#[trigger] longer[i]).0 == p && model::starts_eager(
                    longer,
                    fanout,
                    i,
                );
            if i < n {
                assert(peers[i].0 == p && model::starts_eager(peers, fanout, i));
            }
        }
    }
    assert forall|p: Id| #[trigger]
        model::first_lazy(longer, fanout).contains(p) <==> model::first_lazy(
            peers,
            fanout,
        ).contains(p) || (!starts && p == more.0) by {
        if model::first_lazy(peers, fanout).contains(p) {
            let i = choose|i: int|
                0 <= i < peers.len() && (#[trigger] peers[i]).0 == p && !model::starts_eager(
                    peers,
                    fanout,
                    i,
                );
            assert(longer[i].0 == p && !model::starts_eager(longer, fanout, i));
        }
        if !starts && p == more.0 {
            assert(longer[n].0 == p);
        }
        if model::first_lazy(longer, fanout).contains(p) {
            let i = choose|i: int|
                0 <= i < longer.len() && (#[trigger] longer[i]).0 == p && !model::starts_eager(
                    longer,
                    fanout,
                    i,
                );
            if i < n {
                assert(peers[i].0 == p && !model::starts_eager(peers, fanout, i));
            }
        }
    }
    assert(model::first_eager(longer, fanout) =~= if starts {
        model::first_eager(peers, fanout).insert(more.0)
    } else {
        model::first_eager(peers, fanout)
    });
    assert(model::first_lazy(longer, fanout) =~= if starts {
        model::first_lazy(peers, fanout)
    } else {
        model::first_lazy(peers, fanout).insert(more.0)
    });
}

} // verus!
