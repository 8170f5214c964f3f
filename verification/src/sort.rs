//! A stable sort.

use vstd::prelude::*;

use crate::model::views;

verus! {

/// A type whose values are ranked by part of what they hold: values of the same rank need
/// not be equal.
pub trait Ranked: View + Sized {
    /// Whether `a` ranks below `b`.
    spec fn below(a: Self::V, b: Self::V) -> bool;

    fn is_below(&self, other: &Self) -> (r: bool)
        ensures
            r == Self::below(self@, other@),
    ;

    fn copy(&self) -> (c: Self)
        ensures
            c@ == self@,
    ;

    proof fn irreflexive(a: Self::V)
        ensures
            !Self::below(a, a),
    ;

    proof fn transitive(a: Self::V, b: Self::V, c: Self::V)
        requires
            Self::below(a, b),
            Self::below(b, c),
        ensures
            Self::below(a, c),
    ;

    /// What ranks neither below nor above `b` ranks as `b` does.
    proof fn same_rank(a: Self::V, b: Self::V, c: Self::V)
        requires
            !Self::below(a, b),
            !Self::below(b, c),
        ensures
            !Self::below(a, c),
    ;
}

/// Position `i` of `s` comes before position `j` in the sorted sequence: its value ranks
/// below, or ranks the same and stood before it.
pub open spec fn comes_before<T: Ranked>(s: Seq<T::V>, i: int, j: int) -> bool {
    T::below(s[i], s[j]) || (!T::below(s[j], s[i]) && i < j)
}

/// `p` lists positions of `s` in sorted order.
pub open spec fn in_order<T: Ranked>(s: Seq<T::V>, p: Seq<int>) -> bool {
    forall|i: int, j: int|
        0 <= i < j < p.len() ==> comes_before::<T>(s, #[trigger] p[i], #[trigger] p[j])
}

/// `p` lists every position of `s`, in sorted order.
pub open spec fn sorted_positions<T: Ranked>(s: Seq<T::V>, p: Seq<int>) -> bool {
    &&& p.len() == s.len()
    &&& forall|i: int| 0 <= i < p.len() ==> 0 <= #[trigger] p[i] < s.len()
    &&& in_order::<T>(s, p)
}

/// `r` is `s` with the values sorted by rank and values of the same rank in the order in
/// which they stood.
pub open spec fn stably_sorted<T: Ranked>(s: Seq<T::V>, r: Seq<T::V>) -> bool {
    exists|p: Seq<int>| #[trigger]
        sorted_positions::<T>(s, p) && r == Seq::new(p.len(), |i: int| s[p[i]])
}

proof fn lemma_before_transitive<T: Ranked>(s: Seq<T::V>, i: int, j: int, k: int)
    requires
        comes_before::<T>(s, i, j),
        comes_before::<T>(s, j, k),
    ensures
        comes_before::<T>(s, i, k),
{
    let (a, b, c) = (s[i], s[j], s[k]);
    if T::below(a, b) && T::below(b, c) {
        T::transitive(a, b, c);
    } else if T::below(a, b) {
        // b and c rank the same
        if !T::below(a, c) {
            T::same_rank(a, c, b);
        }
    } else if T::below(b, c) {
        if !T::below(a, c) {
            T::same_rank(b, a, c);
        }
    } else {
        T::same_rank(c, b, a);
    }
}

/// Any two positions are ordered one way, and one way only.
proof fn lemma_before_total<T: Ranked>(s: Seq<T::V>, i: int, j: int)
    requires
        i != j,
    ensures
        comes_before::<T>(s, i, j) == !comes_before::<T>(s, j, i),
{
    if T::below(s[i], s[j]) && T::below(s[j], s[i]) {
        T::transitive(s[i], s[j], s[i]);
        T::irreflexive(s[i]);
    }
}

proof fn lemma_not_before_itself<T: Ranked>(s: Seq<T::V>, i: int)
    ensures
        !comes_before::<T>(s, i, i),
{
    T::irreflexive(s[i]);
}

/// The positions `lo` to `hi` and no others, in sorted order.
spec fn run<T: Ranked>(s: Seq<T::V>, p: Seq<usize>, lo: int, hi: int) -> bool {
    &&& p.len() == hi - lo
    &&& forall|i: int| 0 <= i < p.len() ==> lo <= #[trigger] p[i] < hi
    &&& forall|i: int, j: int|
        0 <= i < j < p.len() ==> comes_before::<T>(s, #[trigger] p[i] as int, #[trigger] p[j] as int)
}

fn merge<T: Ranked>(
    s: &Vec<T>,
    a: &Vec<usize>,
    b: &Vec<usize>,
    lo: Ghost<int>,
    mid: Ghost<int>,
    hi: Ghost<int>,
) -> (r: Vec<usize>)
    requires
        0 <= lo@ <= mid@ <= hi@ <= s@.len(),
        run::<T>(views(s@), a@, lo@, mid@),
        run::<T>(views(s@), b@, mid@, hi@),
    ensures
        run::<T>(views(s@), r@, lo@, hi@),
{
    let ghost v = views(s@);
    let mut out: Vec<usize> = Vec::new();
    let mut i: usize = 0;
    let mut j: usize = 0;
    while i < a.len() || j < b.len()
        invariant
            0 <= lo@ <= mid@ <= hi@ <= s@.len(),
            v == views(s@),
            run::<T>(v, a@, lo@, mid@),
            run::<T>(v, b@, mid@, hi@),
            i <= a@.len(),
            j <= b@.len(),
            out@.len() == i + j,
            forall|k: int| 0 <= k < out@.len() ==> lo@ <= #[trigger] out@[k] < hi@,
            forall|k: int, l: int|
                0 <= k < l < out@.len() ==> comes_before::<T>(
                    v,
                    #[trigger] out@[k] as int,
                    #[trigger] out@[l] as int,
                ),
            forall|k: int, l: int|
                0 <= k < out@.len() && i <= l < a@.len() ==> comes_before::<T>(
                    v,
                    #[trigger] out@[k] as int,
                    #[trigger] a@[l] as int,
                ),
            forall|k: int, l: int|
                0 <= k < out@.len() && j <= l < b@.len() ==> comes_before::<T>(
                    v,
                    #[trigger] out@[k] as int,
                    #[trigger] b@[l] as int,
                ),
        decreases a@.len() - i + b@.len() - j,
    {
        let left = if i >= a.len() {
            false
        } else if j >= b.len() {
            true
        } else {
            assert(v[a@[i as int] as int] == s@[a@[i as int] as int]@);
            assert(v[b@[j as int] as int] == s@[b@[j as int] as int]@);
            !s[b[j]].is_below(&s[a[i]])
        };
        if left {
            let ghost x = a@[i as int] as int;
            proof {
                assert forall|l: int| j <= l < b@.len() implies comes_before::<T>(
                    v,
                    x,
                    #[trigger] b@[l] as int,
                ) by {
                    assert(comes_before::<T>(v, x, b@[j as int] as int));
                    if l > j {
                        lemma_before_transitive::<T>(v, x, b@[j as int] as int, b@[l] as int);
                    }
                }
            }
            out.push(a[i]);
            i += 1;
        } else {
            let ghost x = b@[j as int] as int;
            proof {
                assert forall|l: int| i <= l < a@.len() implies comes_before::<T>(
                    v,
                    x,
                    #[trigger] a@[l] as int,
                ) by {
                    assert(comes_before::<T>(v, x, a@[i as int] as int));
                    if l > i {
                        lemma_before_transitive::<T>(v, x, a@[i as int] as int, a@[l] as int);
                    }
                }
            }
            out.push(b[j]);
            j += 1;
        }
    }
    out
}

fn order<T: Ranked>(s: &Vec<T>, lo: usize, hi: usize) -> (r: Vec<usize>)
    requires
        lo <= hi <= s@.len(),
    ensures
        run::<T>(views(s@), r@, lo as int, hi as int),
    decreases hi - lo,
{
    if hi - lo == 0 {
        return Vec::new();
    }
    if hi - lo == 1 {
        let mut one: Vec<usize> = Vec::new();
        one.push(lo);
        return one;
    }
    let mid: usize = lo + (hi - lo) / 2;
    let a = order(s, lo, mid);
    let b = order(s, mid, hi);
    merge(s, &a, &b, Ghost(lo as int), Ghost(mid as int), Ghost(hi as int))
}

/// The values sorted by rank, values of the same rank in the order in which they stood.
pub fn sort<T: Ranked>(s: &Vec<T>) -> (r: Vec<T>)
    ensures
        stably_sorted::<T>(views(s@), views(r@)),
{
    let p = order(s, 0, s.len());
    let ghost v = views(s@);
    let ghost q = Seq::new(p@.len(), |i: int| p@[i] as int);
    let mut out: Vec<T> = Vec::new();
    let mut i: usize = 0;
    while i < p.len()
        invariant
            i <= p@.len(),
            v == views(s@),
            run::<T>(v, p@, 0, s@.len() as int),
            q == Seq::new(p@.len(), |i: int| p@[i] as int),
            out@.len() == i,
            forall|k: int| 0 <= k < i ==> (#[trigger] out@[k])@ == v[q[k]],
        decreases p@.len() - i,
    {
        assert(0 <= p@[i as int] < s@.len());
        out.push(s[p[i]].copy());
        i += 1;
    }
    proof {
        assert(sorted_positions::<T>(v, q));
        assert(views(out@) =~= Seq::new(q.len(), |i: int| v[q[i]]));
    }
    out
}

/// No position comes twice in a sorted list of positions.
pub proof fn lemma_positions_distinct<T: Ranked>(s: Seq<T::V>, p: Seq<int>)
    requires
        in_order::<T>(s, p),
    ensures
        p.no_duplicates(),
{
    assert forall|i: int, j: int| 0 <= i < p.len() && 0 <= j < p.len() && i != j implies p[i]
        != p[j] by {
        lemma_not_before_itself::<T>(s, p[i]);
        if i < j {
            assert(comes_before::<T>(s, p[i], p[j]));
        } else {
            assert(comes_before::<T>(s, p[j], p[i]));
        }
    }
}

/// Every position is in a sorted list of all positions.
proof fn lemma_positions_complete<T: Ranked>(s: Seq<T::V>, p: Seq<int>, x: int)
    requires
        sorted_positions::<T>(s, p),
        0 <= x < s.len(),
    ensures
        p.contains(x),
{
    lemma_positions_distinct::<T>(s, p);
    let all = vstd::set_lib::set_int_range(0, s.len() as int);
    vstd::set_lib::lemma_int_range(0, s.len() as int);
    p.unique_seq_to_set();
    assert(p.to_set().subset_of(all)) by {
        assert forall|y: int| p.to_set().contains(y) implies all.contains(y) by {
            let i = p.index_of(y);
            assert(p[i] == y);
        }
    }
    vstd::set_lib::lemma_subset_equality(p.to_set(), all);
    assert(p.to_set().contains(x));
}

/// There is one way to list all positions in sorted order.
proof fn lemma_positions_unique<T: Ranked>(s: Seq<T::V>, p: Seq<int>, q: Seq<int>, n: int)
    requires
        sorted_positions::<T>(s, p),
        sorted_positions::<T>(s, q),
        0 <= n <= s.len(),
    ensures
        forall|i: int| 0 <= i < n ==> #[trigger] p[i] == q[i],
    decreases n,
{
    if n > 0 {
        lemma_positions_unique::<T>(s, p, q, n - 1);
        let k = n - 1;
        if p[k] != q[k] {
            lemma_positions_distinct::<T>(s, p);
            lemma_positions_distinct::<T>(s, q);
            lemma_positions_complete::<T>(s, q, p[k]);
            lemma_positions_complete::<T>(s, p, q[k]);
            let a = q.index_of(p[k]);
            let b = p.index_of(q[k]);
            assert(q[a] == p[k] && p[b] == q[k]);
            if a < k {
                assert(p[a] == q[a]);
            }
            if b < k {
                assert(p[b] == q[b]);
            }
            assert(a > k && b > k);
            assert(comes_before::<T>(s, q[k], q[a]));
            assert(comes_before::<T>(s, p[k], p[b]));
            lemma_before_total::<T>(s, p[k], q[k]);
        }
    }
}

/// There is one stably sorted form of a sequence.
pub proof fn law_sorted_form_is_unique<T: Ranked>(s: Seq<T::V>, r: Seq<T::V>, t: Seq<T::V>)
    requires
        stably_sorted::<T>(s, r),
        stably_sorted::<T>(s, t),
    ensures
        r == t,
{
    let p = choose|p: Seq<int>| #[trigger]
        sorted_positions::<T>(s, p) && r == Seq::new(p.len(), |i: int| s[p[i]]);
    let q = choose|q: Seq<int>| #[trigger]
        sorted_positions::<T>(s, q) && t == Seq::new(q.len(), |i: int| s[q[i]]);
    lemma_positions_unique::<T>(s, p, q, s.len() as int);
    assert(r =~= t);
}

/// A sorted form is as long as the sequence, holds the same values, and ascends in rank.
pub proof fn law_sorted_form_keeps_the_values<T: Ranked>(s: Seq<T::V>, r: Seq<T::V>)
    requires
        stably_sorted::<T>(s, r),
    ensures
        r.len() == s.len(),
        forall|x: T::V| #[trigger] r.contains(x) <==> s.contains(x),
        forall|i: int, j: int|
            0 <= i < j < r.len() ==> !T::below(#[trigger] r[j], #[trigger] r[i]),
{
    let p = choose|p: Seq<int>| #[trigger]
        sorted_positions::<T>(s, p) && r == Seq::new(p.len(), |i: int| s[p[i]]);
    assert forall|x: T::V| #[trigger] r.contains(x) <==> s.contains(x) by {
        if r.contains(x) {
            let i = r.index_of(x);
            assert(s[p[i]] == x);
        }
        if s.contains(x) {
            let i = s.index_of(x);
            lemma_positions_complete::<T>(s, p, i);
            let k = p.index_of(i);
            assert(r[k] == x);
        }
    }
    assert forall|i: int, j: int| 0 <= i < j < r.len() implies !T::below(
        #[trigger] r[j],
        #[trigger] r[i],
    ) by {
        assert(comes_before::<T>(s, p[i], p[j]));
        if T::below(r[j], r[i]) {
            T::transitive(r[i], r[j], r[i]);
            T::irreflexive(r[i]);
        }
    }
}

} // verus!
