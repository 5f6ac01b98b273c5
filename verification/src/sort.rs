//! Stable sorting by an integer key.
//!
//! `stable_sort` is the order that a stable sort by key gives: equal keys keep
//! the order they had. `sort_by_key` computes it on a `Vec`.
use vstd::prelude::*;

verus! {

/// A value that is ordered by an integer key; `O` names the order, so that a
/// type can be sorted in more than one way.
pub trait SpecKey<O> {
    spec fn sort_key(&self) -> int;
}

/// A value whose key can be compared in executable code.
pub trait SortKey<O>: SpecKey<O> + Sized {
    fn key_less(&self, other: &Self) -> (b: bool)
        ensures
            b == (SpecKey::<O>::sort_key(self) < SpecKey::<O>::sort_key(other)),
    ;
}

/// Where `x` goes in `p`: before the first element with a greater key.
pub open spec fn insert_pos<T: SpecKey<O>, O>(p: Seq<T>, x: T) -> int
    decreases p.len(),
{
    if p.len() == 0 {
        0
    } else if x.sort_key() < p[0].sort_key() {
        0
    } else {
        1 + insert_pos(p.drop_first(), x)
    }
}

/// `s` in the order of a stable sort by `sort_key`.
pub open spec fn stable_sort<T: SpecKey<O>, O>(s: Seq<T>) -> Seq<T>
    decreases s.len(),
{
    if s.len() == 0 {
        s
    } else {
        let p = stable_sort(s.drop_last());
        p.insert(insert_pos(p, s.last()), s.last())
    }
}

/// Whether the keys of `s` do not decrease.
pub open spec fn key_sorted<T: SpecKey<O>, O>(s: Seq<T>) -> bool {
    forall|i: int, j: int| 0 <= i < j < s.len() ==> s[i].sort_key() <= s[j].sort_key()
}

pub proof fn lemma_insert_pos<T: SpecKey<O>, O>(p: Seq<T>, x: T)
    ensures
        0 <= insert_pos(p, x) <= p.len(),
        forall|t: int| 0 <= t < insert_pos(p, x) ==> p[t].sort_key() <= x.sort_key(),
        insert_pos(p, x) < p.len() ==> x.sort_key() < p[insert_pos(p, x)].sort_key(),
    decreases p.len(),
{
    if p.len() > 0 && !(x.sort_key() < p[0].sort_key()) {
        lemma_insert_pos(p.drop_first(), x);
        assert forall|t: int| 0 <= t < insert_pos(p, x) implies p[t].sort_key() <= x.sort_key() by {
            if t > 0 {
                assert(p[t] == p.drop_first()[t - 1]);
            }
        }
    }
}

/// A stable sort keeps the elements and their number.
pub proof fn lemma_stable_sort_permutes<T: SpecKey<O>, O>(s: Seq<T>)
    ensures
        stable_sort(s).len() == s.len(),
        stable_sort(s).to_multiset() == s.to_multiset(),
    decreases s.len(),
{
    broadcast use vstd::seq_lib::to_multiset_insert, vstd::seq_lib::to_multiset_build;

    if s.len() > 0 {
        let p = stable_sort(s.drop_last());
        lemma_stable_sort_permutes(s.drop_last());
        lemma_insert_pos(p, s.last());
        assert(s == s.drop_last().push(s.last()));
    }
}

/// A stable sort puts the keys in order.
pub proof fn lemma_stable_sort_sorted<T: SpecKey<O>, O>(s: Seq<T>)
    ensures
        key_sorted(stable_sort(s)),
    decreases s.len(),
{
    if s.len() > 0 {
        let p = stable_sort(s.drop_last());
        let x = s.last();
        lemma_stable_sort_sorted(s.drop_last());
        lemma_insert_pos(p, x);
        let j = insert_pos(p, x);
        let r = p.insert(j, x);
        assert forall|a: int, b: int| 0 <= a < b < r.len() implies r[a].sort_key()
            <= r[b].sort_key() by {
            if b < j {
            } else if b == j {
            } else if a < j {
                assert(p[a].sort_key() <= x.sort_key());
                assert(x.sort_key() < p[j].sort_key());
                assert(p[j].sort_key() <= p[b - 1].sort_key());
            } else if a == j {
                assert(x.sort_key() < p[j].sort_key());
                if b - 1 > j {
                    assert(p[j].sort_key() <= p[b - 1].sort_key());
                }
            } else {
                assert(p[a - 1].sort_key() <= p[b - 1].sort_key());
            }
        }
    }
}

/// Sorting what is already in key order changes nothing.
pub proof fn lemma_stable_sort_sorted_id<T: SpecKey<O>, O>(s: Seq<T>)
    requires
        key_sorted(s),
    ensures
        stable_sort(s) == s,
    decreases s.len(),
{
    if s.len() > 0 {
        let d = s.drop_last();
        assert(key_sorted(d));
        lemma_stable_sort_sorted_id(d);
        let x = s.last();
        lemma_insert_pos(d, x);
        if insert_pos(d, x) < d.len() {
            assert(d[insert_pos(d, x)].sort_key() <= x.sort_key());
        }
        assert(d.insert(d.len() as int, x) =~= s);
    }
}

/// Every element of a stable sort is an element of what was sorted.
pub proof fn lemma_stable_sort_elements<T: SpecKey<O>, O>(s: Seq<T>)
    ensures
        forall|i: int| 0 <= i < stable_sort(s).len() ==> s.contains(#[trigger] stable_sort(s)[i]),
{
    lemma_stable_sort_permutes(s);
    let r = stable_sort(s);
    r.to_multiset_ensures();
    s.to_multiset_ensures();
    assert forall|i: int| 0 <= i < r.len() implies s.contains(#[trigger] r[i]) by {
        assert(r.contains(r[i]));
        assert(r.to_multiset().count(r[i]) > 0);
        assert(s.to_multiset().count(r[i]) > 0);
    }
}

/// Sorting commutes with a map that keeps keys.
pub proof fn lemma_stable_sort_map<A: SpecKey<O>, B: SpecKey<O>, O>(s: Seq<A>, f: spec_fn(A) -> B)
    requires
        forall|x: A| #[trigger] f(x).sort_key() == x.sort_key(),
    ensures
        stable_sort(s.map_values(f)) == stable_sort(s).map_values(f),
    decreases s.len(),
{
    if s.len() > 0 {
        let p = stable_sort(s.drop_last());
        let x = s.last();
        let q = stable_sort(s.map_values(f).drop_last());
        assert(s.map_values(f).drop_last() == s.drop_last().map_values(f));
        lemma_stable_sort_map(s.drop_last(), f);
        assert(q == p.map_values(f));
        lemma_insert_pos_map(p, x, f);
        lemma_insert_pos(p, x);
        assert(p.insert(insert_pos(p, x), x).map_values(f) =~= q.insert(
            insert_pos(q, f(x)),
            f(x),
        ));
    }
}

proof fn lemma_insert_pos_map<A: SpecKey<O>, B: SpecKey<O>, O>(p: Seq<A>, x: A, f: spec_fn(A) -> B)
    requires
        forall|y: A| #[trigger] f(y).sort_key() == y.sort_key(),
    ensures
        insert_pos(p.map_values(f), f(x)) == insert_pos(p, x),
    decreases p.len(),
{
    if p.len() > 0 {
        assert(p.map_values(f).drop_first() == p.drop_first().map_values(f));
        assert(p.map_values(f)[0] == f(p[0]));
        lemma_insert_pos_map(p.drop_first(), x, f);
    }
}

/// Sorts `v` by key; elements with equal keys keep their order.
pub fn sort_by_key<T: SortKey<O>, O>(v: &mut Vec<T>)
    ensures
        final(v)@ == stable_sort(old(v)@),
{
    let n = v.len();
    let ghost orig = v@;
    let mut i: usize = 0;
    assert(orig.take(0) =~= Seq::<T>::empty());
    assert(v@.skip(0) == orig.skip(0));
    while i < n
        invariant
            n == orig.len(),
            v.len() == n,
            i <= n,
            v@.take(i as int) == stable_sort(orig.take(i as int)),
            v@.skip(i as int) == orig.skip(i as int),
        decreases n - i,
    {
        let ghost p = v@.take(i as int);
        assert(orig.take(i + 1).drop_last() == orig.take(i as int));
        assert(orig[i as int] == v@.skip(i as int)[0]);
        let ghost vb = v@;
        let x = v.remove(i);
        assert(x == orig.take(i + 1).last());
        assert(v@.skip(i as int) =~= vb.skip(i as int).drop_first());
        assert(orig.skip(i + 1) =~= orig.skip(i as int).drop_first());
        assert(v@.take(i as int) =~= vb.take(i as int));
        let mut j: usize = 0;
        assert(p.skip(0) == p);
        while j < i && !x.key_less(&v[j])
            invariant
                i < n,
                v.len() == n - 1,
                j <= i,
                p == v@.take(i as int),
                insert_pos(p, x) == j + insert_pos(p.skip(j as int), x),
            decreases i - j,
        {
            assert(p.skip(j as int)[0] == v@[j as int]);
            assert(p.skip(j as int).drop_first() == p.skip(j + 1));
            j += 1;
        }
        proof {
            if j < i {
                assert(p.skip(j as int)[0] == v@[j as int]);
            } else {
                assert(p.skip(j as int).len() == 0);
            }
        }
        let ghost before = v@;
        v.insert(j, x);
        assert(v@.take(i + 1) == p.insert(j as int, x));
        assert(v@.skip(i + 1) == before.skip(i as int));
        assert(before.skip(i as int) == orig.skip(i + 1));
        i += 1;
    }
    assert(v@.take(n as int) == v@);
    assert(orig.take(n as int) == orig);
}

} // verus!
