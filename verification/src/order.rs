//! Putting items in order by a relation of which nothing is known.
//!
//! The order is that of insertion: the items are taken one by one, and each
//! is put behind the items placed so far, in front of those at the end that
//! it comes before. This is a definite arrangement for any relation
//! whatever, and it is sorted in the usual sense where the relation is a
//! strict order.

use crate::text::views;
use vstd::prelude::*;

verus! {

/// `t` with `x` put in front of the items at its end that `x` comes before.
pub open spec fn insert_by<V>(t: Seq<V>, x: V, before: spec_fn(V, V) -> bool) -> Seq<V>
    decreases t.len(),
{
    if t.len() > 0 && before(x, t.last()) {
        insert_by(t.drop_last(), x, before).push(t.last())
    } else {
        t.push(x)
    }
}

/// The items of `s`, each put in its place in turn.
pub open spec fn arranged<V>(s: Seq<V>, before: spec_fn(V, V) -> bool) -> Seq<V>
    decreases s.len(),
{
    if s.len() == 0 {
        s
    } else {
        insert_by(arranged(s.drop_last(), before), s.last(), before)
    }
}

/// Where `x` is put: at `j`, if `x` comes before every item from `j` on and
/// not before the one in front of `j`.
pub proof fn lemma_insert_position<V>(t: Seq<V>, x: V, before: spec_fn(V, V) -> bool, j: int)
    requires
        0 <= j <= t.len(),
        forall|k: int| j <= k < t.len() ==> before(x, #[trigger] t[k]),
        j > 0 ==> !before(x, t[j - 1]),
    ensures
        insert_by(t, x, before) == t.insert(j, x),
    decreases t.len() - j,
{
    if j == t.len() {
        assert(t.insert(j, x) =~= t.push(x));
    } else {
        assert(before(x, t.last()));
        lemma_insert_position(t.drop_last(), x, before, j);
        assert(t.drop_last().insert(j, x).push(t.last()) =~= t.insert(j, x));
    }
}

/// Putting an item in its place puts it somewhere and moves nothing else.
pub proof fn lemma_insert_somewhere<V>(t: Seq<V>, x: V, before: spec_fn(V, V) -> bool) -> (j: int)
    ensures
        0 <= j <= t.len(),
        insert_by(t, x, before) == t.insert(j, x),
        forall|k: int| j <= k < t.len() ==> before(x, #[trigger] t[k]),
        j > 0 ==> !before(x, t[j - 1]),
    decreases t.len(),
{
    if t.len() > 0 && before(x, t.last()) {
        let j = lemma_insert_somewhere(t.drop_last(), x, before);
        assert(t.drop_last().insert(j, x).push(t.last()) =~= t.insert(j, x));
        assert forall|k: int| j <= k < t.len() implies before(x, #[trigger] t[k]) by {
            if k < t.len() - 1 {
                assert(t[k] == t.drop_last()[k]);
            }
        }
        j
    } else {
        assert(t.insert(t.len() as int, x) =~= t.push(x));
        t.len() as int
    }
}

/// The arrangement holds the same items as often as the sequence does.
pub proof fn lemma_arranged_is_rearranged<V>(s: Seq<V>, before: spec_fn(V, V) -> bool)
    ensures
        arranged(s, before).len() == s.len(),
        arranged(s, before).to_multiset() == s.to_multiset(),
    decreases s.len(),
{
    broadcast use vstd::seq_lib::group_to_multiset_ensures;

    if s.len() > 0 {
        let t = arranged(s.drop_last(), before);
        lemma_arranged_is_rearranged(s.drop_last(), before);
        let j = lemma_insert_somewhere(t, s.last(), before);
        let r = t.insert(j, s.last());
        assert(r.remove(j) =~= t);
        assert(r.to_multiset().remove(r[j]) == t.to_multiset());
        assert(r.to_multiset() =~= t.to_multiset().insert(s.last()));
        assert(s.drop_last().push(s.last()) =~= s);
        assert(s.to_multiset() =~= s.drop_last().to_multiset().insert(s.last()));
    }
}

/// Of two neighbours in the arrangement, the first comes before the second,
/// or the second does not come before the first.
pub proof fn lemma_arranged_neighbours<V>(s: Seq<V>, before: spec_fn(V, V) -> bool)
    ensures
        forall|k: int|
            #![trigger arranged(s, before)[k]]
            0 < k < arranged(s, before).len() ==> before(
                arranged(s, before)[k - 1],
                arranged(s, before)[k],
            ) || !before(arranged(s, before)[k], arranged(s, before)[k - 1]),
    decreases s.len(),
{
    if s.len() > 0 {
        let t = arranged(s.drop_last(), before);
        let x = s.last();
        lemma_arranged_neighbours(s.drop_last(), before);
        let j = lemma_insert_somewhere(t, x, before);
        let r = arranged(s, before);
        assert forall|k: int| 0 < k < r.len() implies before(r[k - 1], #[trigger] r[k]) || !before(
            r[k],
            r[k - 1],
        ) by {
            if k < j {
                assert(r[k] == t[k] && r[k - 1] == t[k - 1]);
            } else if k == j {
                assert(r[k] == x && r[k - 1] == t[j - 1]);
            } else if k == j + 1 {
                assert(r[k - 1] == x && r[k] == t[j]);
            } else {
                assert(r[k] == t[k - 1] && r[k - 1] == t[k - 2]);
            }
        }
    }
}

/// The relation is a strict order in which items that it leaves apart
/// count as equal: of two items at most one comes before the other, and
/// where `b` does not come before `a`, nor `c` before `b`, `c` does not
/// come before `a`.
pub open spec fn is_strict_order<V>(before: spec_fn(V, V) -> bool) -> bool {
    &&& forall|a: V, b: V| #[trigger] before(a, b) ==> !before(b, a)
    &&& forall|a: V, b: V, c: V|
        !(#[trigger] before(b, a)) && !(#[trigger] before(c, b)) ==> !before(c, a)
}

/// By a strict order the arrangement is sorted: no item comes before one
/// that stands in front of it.
pub proof fn lemma_arranged_is_sorted<V>(s: Seq<V>, before: spec_fn(V, V) -> bool)
    requires
        is_strict_order(before),
    ensures
        forall|i: int, j: int|
            #![trigger arranged(s, before)[i], arranged(s, before)[j]]
            0 <= i < j < arranged(s, before).len() ==> !before(
                arranged(s, before)[j],
                arranged(s, before)[i],
            ),
    decreases s.len(),
{
    if s.len() > 0 {
        let t = arranged(s.drop_last(), before);
        let x = s.last();
        lemma_arranged_is_sorted(s.drop_last(), before);
        let k = lemma_insert_somewhere(t, x, before);
        let r = arranged(s, before);
        assert forall|i: int, j: int| 0 <= i < j < r.len() implies !before(
            #[trigger] r[j],
            #[trigger] r[i],
        ) by {
            if j < k {
                assert(r[i] == t[i] && r[j] == t[j]);
            } else if j == k {
                assert(r[j] == x && r[i] == t[i]);
                assert(!before(x, t[k - 1]));
                if i < k - 1 {
                    assert(!before(t[k - 1], t[i]));
                }
            } else if i < k {
                assert(r[i] == t[i] && r[j] == t[j - 1]);
            } else if i == k {
                assert(r[i] == x && r[j] == t[j - 1]);
                assert(before(x, t[j - 1]));
            } else {
                assert(r[i] == t[i - 1] && r[j] == t[j - 1]);
            }
        }
    }
}

/// Every item of the arrangement is an item of the sequence.
pub proof fn lemma_arranged_items<V>(s: Seq<V>, before: spec_fn(V, V) -> bool)
    ensures
        forall|k: int|
            0 <= k < arranged(s, before).len() ==> s.contains(#[trigger] arranged(s, before)[k]),
    decreases s.len(),
{
    if s.len() > 0 {
        let t = arranged(s.drop_last(), before);
        let x = s.last();
        lemma_arranged_items(s.drop_last(), before);
        let j = lemma_insert_somewhere(t, x, before);
        let r = arranged(s, before);
        assert forall|k: int| 0 <= k < r.len() implies s.contains(#[trigger] r[k]) by {
            if k == j {
                assert(s[s.len() - 1] == r[k]);
            } else {
                let m = if k < j {
                    k
                } else {
                    k - 1
                };
                assert(r[k] == t[m]);
                assert(s.drop_last().contains(t[m]));
                let w = choose|w: int| 0 <= w < s.drop_last().len() && s.drop_last()[w] == t[m];
                assert(s[w] == r[k]);
            }
        }
    }
}

/// Items that are pairwise apart are pairwise apart in the arrangement.
pub proof fn lemma_arranged_keeps_apart<V>(
    s: Seq<V>,
    before: spec_fn(V, V) -> bool,
    apart: spec_fn(V, V) -> bool,
)
    requires
        forall|a: int, b: int| 0 <= a < s.len() && 0 <= b < s.len() && a != b ==> apart(s[a], s[b]),
    ensures
        forall|a: int, b: int|
            #![trigger arranged(s, before)[a], arranged(s, before)[b]]
            0 <= a < arranged(s, before).len() && 0 <= b < arranged(s, before).len() && a != b
                ==> apart(arranged(s, before)[a], arranged(s, before)[b]),
    decreases s.len(),
{
    if s.len() > 0 {
        let u = s.drop_last();
        let t = arranged(u, before);
        let x = s.last();
        assert forall|a: int, b: int| 0 <= a < u.len() && 0 <= b < u.len() && a != b implies apart(
            u[a],
            u[b],
        ) by {
            assert(u[a] == s[a] && u[b] == s[b]);
        }
        lemma_arranged_keeps_apart(u, before, apart);
        lemma_arranged_items(u, before);
        let j = lemma_insert_somewhere(t, x, before);
        let r = arranged(s, before);
        assert forall|a: int, b: int|
            0 <= a < r.len() && 0 <= b < r.len() && a != b implies apart(
            #[trigger] r[a],
            #[trigger] r[b],
        ) by {
            let ma = if a < j {
                a
            } else {
                a - 1
            };
            let mb = if b < j {
                b
            } else {
                b - 1
            };
            if a == j {
                assert(r[a] == x && r[b] == t[mb]);
                assert(u.contains(t[mb]));
                let w = choose|w: int| 0 <= w < u.len() && u[w] == t[mb];
                assert(apart(s[s.len() - 1], s[w]));
            } else if b == j {
                assert(r[b] == x && r[a] == t[ma]);
                assert(u.contains(t[ma]));
                let w = choose|w: int| 0 <= w < u.len() && u[w] == t[ma];
                assert(apart(s[w], s[s.len() - 1]));
            } else {
                assert(r[a] == t[ma] && r[b] == t[mb]);
            }
        }
    }
}

/// Items that can be put in order: each tells of another whether it comes
/// before it.
pub trait Ranked: View + Sized {
    /// An item with the plain value `a` comes before one with `b`.
    spec fn before(a: Self::V, b: Self::V) -> bool;

    /// Tells whether this item comes before `other`.
    fn comes_before(&self, other: &Self) -> (r: bool)
        ensures
            r == Self::before(self@, other@),
    ;
}

/// The relation by which items of the type `T` are put in order.
pub open spec fn rank_of<T: Ranked>() -> spec_fn(T::V, T::V) -> bool {
    |a: T::V, b: T::V| T::before(a, b)
}

/// The plain values of items of the type `T`, put in order.
pub open spec fn ranked<T: Ranked>(s: Seq<T::V>) -> Seq<T::V> {
    arranged(s, rank_of::<T>())
}

/// Puts the items in order: each in turn behind the items placed so far, in
/// front of those at the end that it comes before.
pub fn arrange<T: Ranked>(v: &mut Vec<T>)
    ensures
        views(final(v)@) == ranked::<T>(views(old(v)@)),
{
    let ghost before = rank_of::<T>();
    let ghost given = views(v@);
    let n = v.len();
    let mut i: usize = 0;
    assert(views(v@).take(0) =~= arranged(given.take(0), before));
    while i < n
        invariant
            i <= n,
            n == v.len(),
            given.len() == n,
            before == rank_of::<T>(),
            views(v@).take(i as int) == arranged(given.take(i as int), before),
            views(v@).skip(i as int) == given.skip(i as int),
        decreases n - i,
    {
        let ghost placed = views(v@).take(i as int);
        let ghost whole = views(v@);
        let x = v.remove(i);
        assert(x@ == given[i as int]) by {
            assert(whole.skip(i as int)[0] == given.skip(i as int)[0]);
        }
        assert(views(v@) =~= whole.remove(i as int));
        let mut j: usize = i;
        while j > 0 && x.comes_before(&v[j - 1])
            invariant
                j <= i < n,
                v.len() == n - 1,
                placed == views(v@).take(i as int),
                forall|k: int| j <= k < i ==> T::before(x@, #[trigger] placed[k]),
            decreases j,
        {
            j -= 1;
        }
        proof {
            if j > 0 {
                assert(placed[j - 1] == v@[j - 1]@);
            }
            lemma_insert_position(placed, x@, before, j as int);
            assert(given.take(i + 1).drop_last() =~= given.take(i as int));
            assert(given.take(i + 1).last() == x@);
        }
        let ghost rest = views(v@);
        v.insert(j, x);
        proof {
            assert(views(v@) =~= rest.insert(j as int, x@));
            assert(views(v@).take(i + 1) =~= placed.insert(j as int, x@));
            assert(views(v@).skip(i + 1) =~= given.skip(i + 1)) by {
                let now = views(v@).skip(i + 1);
                assert forall|k: int| 0 <= k < n - i - 1 implies #[trigger] now[k] == given.skip(
                    i + 1,
                )[k] by {
                    assert(views(v@)[i + 1 + k] == rest[i + k]);
                    assert(rest[i + k] == whole[i + 1 + k]);
                    assert(whole[i + 1 + k] == whole.skip(i as int)[k + 1]);
                    assert(given.skip(i as int)[k + 1] == given[i + 1 + k]);
                }
            }
        }
        i += 1;
    }
    assert(views(v@).take(n as int) =~= views(v@));
    assert(given.take(n as int) =~= given);
}

} // verus!
