//! The order on ids: what an id type must obey, and sets listed in ascending order.
use std::collections::{BTreeMap, BTreeSet};
use vstd::laws_cmp::obeys_cmp;
use vstd::laws_eq::obeys_concrete_eq;
use vstd::prelude::*;
use vstd::std_specs::cmp::{OrdSpec, PartialOrdSpec};
use vstd::std_specs::iter::IteratorSpec;

use crate::message;
use crate::message::MsgId;
use crate::seqs;

verus! {

/// A type whose `==` is equality and whose order is a total order in agreement with it.
pub open spec fn ordered_key<K: Ord>() -> bool {
    &&& obeys_cmp::<K>()
    &&& obeys_concrete_eq::<K>()
}

/// What a node id must obey: it is an [`ordered_key`], and a clone of an id equals the id.
pub open spec fn lawful_id<Id: Ord + Clone>() -> bool {
    &&& ordered_key::<Id>()
    &&& message::faithful_clone::<Id>()
}

/// Integers are lawful ids.
pub proof fn integers_are_lawful()
    ensures
        lawful_id::<u8>(),
        lawful_id::<u16>(),
        lawful_id::<u32>(),
        lawful_id::<u64>(),
        lawful_id::<u128>(),
        lawful_id::<usize>(),
        lawful_id::<i8>(),
        lawful_id::<i16>(),
        lawful_id::<i32>(),
        lawful_id::<i64>(),
        lawful_id::<i128>(),
        lawful_id::<isize>(),
{
}

/// `x` comes before `y` in the order of the type.
pub open spec fn precedes<K: Ord>(x: K, y: K) -> bool {
    x.cmp_spec(&y) is Less
}

/// `q` is strictly ascending.
pub open spec fn is_ascending<K: Ord>(q: Seq<K>) -> bool {
    forall|i: int, j: int| #![trigger q[i], q[j]] 0 <= i < j < q.len() ==> precedes(q[i], q[j])
}

/// `q` lists each element of `s` once, in ascending order.
pub open spec fn enumerates<K: Ord>(q: Seq<K>, s: Set<K>) -> bool {
    &&& is_ascending(q)
    &&& q.to_set() == s
}

/// The elements of `s` in ascending order.
pub open spec fn ascending<K: Ord>(s: Set<K>) -> Seq<K> {
    choose|q: Seq<K>| enumerates(q, s)
}

/// The order of an [`ordered_key`] is strict and total.
pub proof fn lemma_precedes<K: Ord>()
    requires
        ordered_key::<K>(),
    ensures
        forall|x: K| !#[trigger] precedes(x, x),
        forall|x: K, y: K, z: K|
            #![trigger precedes(x, y), precedes(y, z)]
            precedes(x, y) && precedes(y, z) ==> precedes(x, z),
        forall|x: K, y: K| #[trigger] precedes(x, y) || precedes(y, x) || x == y,
{
    reveal(vstd::laws_cmp::obeys_cmp_ord);
    reveal(vstd::laws_cmp::obeys_cmp_partial_ord);
    reveal(vstd::laws_cmp::obeys_partial_cmp_spec_properties);
    reveal(obeys_concrete_eq);
    assert forall|x: K| !#[trigger] precedes(x, x) by {
        assert(x.partial_cmp_spec(&x) == Some(x.cmp_spec(&x)));
    }
    assert forall|x: K, y: K, z: K|
        #![trigger precedes(x, y), precedes(y, z)]
        precedes(x, y) && precedes(y, z) implies precedes(x, z) by {
        assert(x.partial_cmp_spec(&y) == Some(x.cmp_spec(&y)));
        assert(y.partial_cmp_spec(&z) == Some(y.cmp_spec(&z)));
        assert(x.partial_cmp_spec(&z) == Some(x.cmp_spec(&z)));
    }
    assert forall|x: K, y: K| #[trigger] precedes(x, y) || precedes(y, x) || x == y by {
        assert(x.partial_cmp_spec(&y) == Some(x.cmp_spec(&y)));
        assert(y.partial_cmp_spec(&x) == Some(y.cmp_spec(&x)));
    }
}

/// A set has at most one ascending enumeration.
pub proof fn lemma_enumeration_unique<K: Ord>(p: Seq<K>, q: Seq<K>, s: Set<K>)
    requires
        ordered_key::<K>(),
        enumerates(p, s),
        enumerates(q, s),
    ensures
        p == q,
    decreases p.len(),
{
    lemma_precedes::<K>();
    if p.len() == 0 {
        if q.len() > 0 {
            assert(q.to_set().contains(q[0]));
            assert(p.to_set().contains(q[0]));
        }
    } else {
        assert(p.to_set().contains(p[0]));
        assert(q.to_set().contains(p[0]));
        let j = choose|j: int| 0 <= j < q.len() && q[j] == p[0];
        assert(q.to_set().contains(q[0]));
        assert(p.to_set().contains(q[0]));
        let i = choose|i: int| 0 <= i < p.len() && p[i] == q[0];
        assert(precedes(p[0], p[i]) || i == 0);
        assert(precedes(q[0], q[j]) || j == 0);
        assert(p[0] == q[0]);
        let rest = s.remove(p[0]);
        lemma_enumeration_tail(p, s);
        lemma_enumeration_tail(q, s);
        lemma_enumeration_unique(p.drop_first(), q.drop_first(), rest);
        assert(p =~= seq![p[0]] + p.drop_first());
        assert(q =~= seq![q[0]] + q.drop_first());
    }
}

/// The tail of an ascending enumeration enumerates the set without its least element.
proof fn lemma_enumeration_tail<K: Ord>(q: Seq<K>, s: Set<K>)
    requires
        ordered_key::<K>(),
        enumerates(q, s),
        q.len() > 0,
    ensures
        enumerates(q.drop_first(), s.remove(q[0])),
{
    lemma_precedes::<K>();
    let t = q.drop_first();
    assert forall|x: K| #[trigger] t.to_set().contains(x) <==> s.remove(q[0]).contains(x) by {
        if t.to_set().contains(x) {
            let i = choose|i: int| 0 <= i < t.len() && t[i] == x;
            assert(q[i + 1] == x);
            assert(q.to_set().contains(x));
            assert(precedes(q[0], q[i + 1]));
        }
        if s.remove(q[0]).contains(x) {
            assert(q.to_set().contains(x));
            let i = choose|i: int| 0 <= i < q.len() && q[i] == x;
            assert(t[i - 1] == x);
        }
    }
    assert(t.to_set() =~= s.remove(q[0]));
    assert forall|i: int, j: int| #![trigger t[i], t[j]] 0 <= i < j < t.len() implies precedes(
        t[i],
        t[j],
    ) by {
        assert(t[i] == q[i + 1]);
        assert(t[j] == q[j + 1]);
    }
}

/// Every finite set has an ascending enumeration.
proof fn lemma_enumeration_exists<K: Ord>(s: Set<K>) -> (q: Seq<K>)
    requires
        ordered_key::<K>(),
        s.finite(),
    ensures
        enumerates(q, s),
    decreases s.len(),
{
    lemma_precedes::<K>();
    if s.len() == 0 {
        let q = Seq::<K>::empty();
        assert(q.to_set() =~= s);
        q
    } else {
        let x = s.choose();
        let rest = lemma_enumeration_exists(s.remove(x));
        let later = |y: K| precedes(x, y);
        let k = seqs::first_where(rest, later);
        seqs::lemma_first_where(rest, later);
        let q = rest.insert(k, x);
        assert forall|i: int| 0 <= i < rest.len() implies #[trigger] rest[i] != x by {
            assert(rest.to_set().contains(rest[i]));
        }
        assert forall|i: int, j: int| #![trigger q[i], q[j]] 0 <= i < j < q.len() implies precedes(
            q[i],
            q[j],
        ) by {
            if i < k {
                assert(q[i] == rest[i]);
                assert(!later(rest[i]));
                assert(precedes(rest[i], x));
            } else if i > k {
                assert(q[i] == rest[i - 1]);
            }
            if j > k {
                assert(q[j] == rest[j - 1]);
                assert(later(rest[k]));
                assert(k == j - 1 || precedes(rest[k], rest[j - 1]));
                assert(precedes(x, rest[j - 1]));
            } else if j < k {
                assert(q[j] == rest[j]);
            }
        }
        assert forall|y: K| #[trigger] q.to_set().contains(y) <==> s.contains(y) by {
            if q.to_set().contains(y) {
                let i = choose|i: int| 0 <= i < q.len() && q[i] == y;
                if i != k {
                    let m = if i < k { i } else { i - 1 };
                    assert(rest[m] == y);
                    assert(rest.to_set().contains(y));
                }
            }
            if s.contains(y) {
                if y == x {
                    assert(q[k] == y);
                } else {
                    assert(rest.to_set().contains(y));
                    let m = choose|m: int| 0 <= m < rest.len() && rest[m] == y;
                    let i = if m < k { m } else { m + 1 };
                    assert(q[i] == y);
                }
            }
        }
        assert(q.to_set() =~= s);
        q
    }
}

/// [`ascending`] lists each element of a finite set once, in ascending order.
pub proof fn lemma_ascending<K: Ord>(s: Set<K>)
    requires
        ordered_key::<K>(),
        s.finite(),
    ensures
        enumerates(ascending(s), s),
        ascending(s).no_duplicates(),
        forall|x: K| #[trigger] ascending(s).contains(x) <==> s.contains(x),
{
    let q = lemma_enumeration_exists(s);
    lemma_precedes::<K>();
    assert forall|x: K| #[trigger] ascending(s).contains(x) <==> s.contains(x) by {
        assert(ascending(s).to_set().contains(x) <==> s.contains(x));
    }
}

/// Any ascending enumeration of `s` is [`ascending`]`(s)`.
pub proof fn lemma_ascending_is<K: Ord>(q: Seq<K>, s: Set<K>)
    requires
        ordered_key::<K>(),
        enumerates(q, s),
    ensures
        ascending(s) == q,
{
    lemma_enumeration_unique(q, ascending(s), s);
}

/// `vstd`'s description of the ascending iteration of an ordered collection, in the terms of
/// this module.
pub proof fn lemma_increasing_refs<K: Ord>(refs: Seq<&K>, s: Set<K>)
    requires
        ordered_key::<K>(),
        vstd::std_specs::btree::increasing_seq(refs),
        refs.unref().to_set() == s,
    ensures
        refs.unref() == ascending(s),
        s.finite(),
{
    let q = refs.unref();
    assert(obeys_cmp::<&K>());
    assert forall|i: int, j: int| #![trigger q[i], q[j]] 0 <= i < j < q.len() implies precedes(
        q[i],
        q[j],
    ) by {
        assert(OrdSpec::cmp_spec(&refs[i], &refs[j]) is Less);
    }
    lemma_ascending_is(q, s);
    vstd::seq_lib::seq_to_set_is_finite(q);
}

/// The elements of a set, in ascending order, without the one given by `except`.
pub open spec fn ascending_except<K: Ord>(s: Set<K>, except: Option<K>) -> Seq<K> {
    match except {
        Some(e) => ascending(s.remove(e)),
        None => ascending(s),
    }
}

/// What an optional reference refers to.
pub open spec fn owned<A>(reference: Option<&A>) -> Option<A> {
    match reference {
        Some(a) => Some(*a),
        None => None,
    }
}

/// The elements of `s` in ascending order.
pub(crate) fn elements<Id: Ord + Clone>(s: &BTreeSet<Id>) -> (r: Vec<Id>)
    requires
        lawful_id::<Id>(),
    ensures
        r@ == ascending(s@),
        s@.finite(),
{
    let mut r: Vec<Id> = Vec::new();
    let it = s.iter();
    let ghost refs = it.remaining();
    for p in walk: it
        invariant
            lawful_id::<Id>(),
            walk.seq() == refs,
            r@ == refs.unref().take(walk.index()),
    {
        r.push(p.clone());
    }
    proof {
        assert(refs.unref().take(refs.len() as int) =~= refs.unref());
        lemma_increasing_refs(refs, s@);
    }
    r
}

/// The elements of `s` in ascending order, without `except`.
pub(crate) fn elements_except<Id: Ord + Clone>(s: &BTreeSet<Id>, except: Option<&Id>) -> (r: Vec<
    Id,
>)
    requires
        lawful_id::<Id>(),
    ensures
        r@ == ascending_except(s@, owned(except)),
        s@.finite(),
{
    let all = elements(s);
    let except = match except {
        Some(e) => e,
        None => return all,
    };
    proof {
        lemma_ascending(s@);
    }
    let mut r: Vec<Id> = Vec::new();
    for i in 0..all.len()
        invariant
            lawful_id::<Id>(),
            is_ascending(all@),
            is_ascending(r@),
            forall|x: Id| #[trigger]
                r@.contains(x) <==> all@.take(i as int).contains(x) && x != *except,
    {
        let p = &all[i];
        let ghost before = r@;
        proof {
            let front = all@.take(i as int);
            assert(all@.take(i + 1) =~= front.push(*p));
            seqs::lemma_push_contains(front, *p);
            seqs::lemma_push_contains(before, *p);
            assert forall|j: int| 0 <= j < before.len() implies precedes(
                #[trigger] before[j],
                *p,
            ) by {
                assert(before.contains(before[j]));
                let k = choose|k: int| 0 <= k < front.len() && front[k] == before[j];
                assert(all@[k] == before[j]);
                assert(all@[i as int] == *p);
            }
            reveal(obeys_concrete_eq);
        }
        if *p != *except {
            r.push(p.clone());
            assert(r@ == before.push(*p));
        }
    }
    proof {
        assert(all@.take(all@.len() as int) =~= all@);
        assert forall|x: Id| #[trigger] r@.to_set().contains(x) <==> s@.remove(*except).contains(
            x,
        ) by {
            assert(r@.contains(x) <==> all@.contains(x) && x != *except);
        }
        assert(r@.to_set() =~= s@.remove(*except));
        lemma_ascending_is(r@, s@.remove(*except));
    }
    r
}

/// The ids in a map, in ascending order.
pub(crate) fn message_ids<Id: Ord + Clone, V>(m: &BTreeMap<MsgId<Id>, V>) -> (r: Vec<MsgId<Id>>)
    requires
        lawful_id::<Id>(),
    ensures
        r@ == ascending(m@.dom()),
        m@.dom().finite(),
{
    let mut r: Vec<MsgId<Id>> = Vec::new();
    let it = m.keys();
    let ghost refs = it.remaining();
    for id in walk: it
        invariant
            lawful_id::<Id>(),
            walk.seq() == refs,
            r@ == refs.unref().take(walk.index()),
    {
        r.push(message::clone_id(id));
    }
    proof {
        assert(refs.unref().take(refs.len() as int) =~= refs.unref());
        lemma_increasing_refs(refs, m@.dom());
    }
    r
}

/// The set of the elements of `v`.
pub(crate) fn set_of<Id: Ord + Clone>(v: Vec<Id>) -> (r: BTreeSet<Id>)
    requires
        lawful_id::<Id>(),
    ensures
        r@ == v@.to_set(),
{
    let mut r: BTreeSet<Id> = BTreeSet::new();
    let ghost all = v@;
    for p in walk: v
        invariant
            lawful_id::<Id>(),
            walk.seq() == all,
            r@ == all.take(walk.index()).to_set(),
    {
        let ghost front = all.take(walk.index());
        r.insert(p);
        proof {
            assert(all.take(walk.index() + 1) =~= front.push(p));
            seqs::lemma_push_contains(front, p);
            assert(r@ =~= front.push(p).to_set());
        }
    }
    assert(all.take(all.len() as int) =~= all);
    r
}

/// Whether `x` is one of `v`.
pub(crate) fn is_among<Id: Ord + Clone>(x: &Id, v: &[Id]) -> (r: bool)
    requires
        lawful_id::<Id>(),
    ensures
        r == v@.contains(*x),
{
    for i in 0..v.len()
        invariant
            lawful_id::<Id>(),
            forall|j: int| 0 <= j < i ==> #[trigger] v@[j] != *x,
    {
        proof {
            reveal(obeys_concrete_eq);
        }
        if v[i] == *x {
            return true;
        }
    }
    false
}

} // verus!
