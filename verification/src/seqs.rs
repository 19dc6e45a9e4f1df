//! Facts about sequences.
use vstd::prelude::*;

verus! {

/// The index of the first element that satisfies `f`; the length of `q` if none does.
pub open spec fn first_where<A>(q: Seq<A>, f: spec_fn(A) -> bool) -> int
    decreases q.len(),
{
    if q.len() == 0 {
        0
    } else if f(q[0]) {
        0
    } else {
        1 + first_where(q.drop_first(), f)
    }
}

/// What [`first_where`] finds: everything before the index fails `f`, and the element at the
/// index, if there is one, satisfies it.
pub proof fn lemma_first_where<A>(q: Seq<A>, f: spec_fn(A) -> bool)
    ensures
        0 <= first_where(q, f) <= q.len(),
        first_where(q, f) < q.len() ==> f(q[first_where(q, f)]),
        forall|j: int| 0 <= j < first_where(q, f) ==> !f(#[trigger] q[j]),
    decreases q.len(),
{
    if q.len() > 0 && !f(q[0]) {
        lemma_first_where(q.drop_first(), f);
        assert forall|j: int| 0 <= j < first_where(q, f) implies !f(#[trigger] q[j]) by {
            if j > 0 {
                assert(q[j] == q.drop_first()[j - 1]);
            }
        }
    }
}

/// The index that [`first_where`] gives is the only one with these properties.
pub proof fn lemma_first_where_is<A>(q: Seq<A>, f: spec_fn(A) -> bool, i: int)
    requires
        0 <= i <= q.len(),
        i < q.len() ==> f(q[i]),
        forall|j: int| 0 <= j < i ==> !f(#[trigger] q[j]),
    ensures
        first_where(q, f) == i,
{
    lemma_first_where(q, f);
    let k = first_where(q, f);
    if k < i {
        assert(!f(q[k]));
    }
    if i < k {
        assert(!f(q[i]));
    }
}

/// Filtering one element more.
pub proof fn lemma_filter_step<A>(q: Seq<A>, f: spec_fn(A) -> bool, i: int)
    requires
        0 <= i < q.len(),
    ensures
        q.take(i + 1).filter(f) == if f(q[i]) {
            q.take(i).filter(f).push(q[i])
        } else {
            q.take(i).filter(f)
        },
{
    reveal(Seq::filter);
    assert(q.take(i + 1).drop_last() =~= q.take(i));
}

/// A sequence with one element more holds that element too.
pub proof fn lemma_push_contains<A>(q: Seq<A>, x: A)
    ensures
        forall|a: A| #[trigger] q.push(x).contains(a) <==> q.contains(a) || a == x,
{
    assert forall|a: A| #[trigger] q.push(x).contains(a) <==> q.contains(a) || a == x by {
        if q.contains(a) {
            let i = choose|i: int| 0 <= i < q.len() && q[i] == a;
            assert(q.push(x)[i] == a);
        }
        if a == x {
            assert(q.push(x)[q.len() as int] == a);
        }
    }
}

/// What a filtered sequence holds.
pub proof fn lemma_filter_contains<A>(q: Seq<A>, f: spec_fn(A) -> bool)
    ensures
        forall|a: A| #[trigger] q.filter(f).contains(a) <==> q.contains(a) && f(a),
    decreases q.len(),
{
    reveal(Seq::filter);
    if q.len() > 0 {
        let front = q.drop_last();
        lemma_filter_contains(front, f);
        lemma_push_contains(front, q.last());
        lemma_push_contains(front.filter(f), q.last());
        assert(q =~= front.push(q.last()));
        assert forall|a: A| #[trigger] q.filter(f).contains(a) <==> q.contains(a) && f(a) by {
            assert(front.filter(f).contains(a) <==> front.contains(a) && f(a));
        }
    }
}

/// Where the elements of a filtered sequence stood before: they keep their order, and none that
/// passes is lost.
pub proof fn lemma_filter_origin<A>(q: Seq<A>, f: spec_fn(A) -> bool) -> (origin: Seq<int>)
    ensures
        origin.len() == q.filter(f).len(),
        forall|i: int|
            0 <= i < origin.len() ==> 0 <= #[trigger] origin[i] < q.len() && q[origin[i]]
                == q.filter(f)[i],
        forall|i: int, j: int|
            #![trigger origin[i], origin[j]]
            0 <= i < j < origin.len() ==> origin[i] < origin[j],
        forall|k: int| 0 <= k < q.len() && f(#[trigger] q[k]) ==> origin.contains(k),
    decreases q.len(),
{
    reveal(Seq::filter);
    if q.len() == 0 {
        Seq::empty()
    } else {
        let front = q.drop_last();
        let before = lemma_filter_origin(front, f);
        let last = q.len() - 1;
        let origin = if f(q[last]) {
            before.push(last)
        } else {
            before
        };
        assert forall|i: int| 0 <= i < before.len() implies 0 <= #[trigger] before[i] < last
            && q[before[i]] == front.filter(f)[i] by {
            assert(front[before[i]] == q[before[i]]);
        }
        assert forall|k: int| 0 <= k < q.len() && f(#[trigger] q[k]) implies origin.contains(k) by {
            if k < last {
                assert(front[k] == q[k]);
                let i = choose|i: int| 0 <= i < before.len() && before[i] == k;
                assert(origin[i] == k);
            } else {
                assert(origin[before.len() as int] == k);
            }
        }
        origin
    }
}

/// Filtering by a test that every element passes changes nothing.
pub proof fn lemma_filter_all<A>(q: Seq<A>, f: spec_fn(A) -> bool)
    requires
        forall|i: int| 0 <= i < q.len() ==> f(#[trigger] q[i]),
    ensures
        q.filter(f) == q,
    decreases q.len(),
{
    reveal(Seq::filter);
    if q.len() > 0 {
        let front = q.drop_last();
        assert forall|i: int| 0 <= i < front.len() implies f(#[trigger] front[i]) by {
            assert(front[i] == q[i]);
        }
        lemma_filter_all(front, f);
        assert(f(q[q.len() - 1]));
    }
}

} // verus!
