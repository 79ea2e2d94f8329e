//! Siblings ordered by size, largest first, and stably: entries of equal
//! size keep the order they had.

use vstd::prelude::*;
use crate::model::{Node, NodeView, views};
use std::cmp::Ordering;

verus! {

broadcast use vstd::seq_lib::group_seq_properties;

/// Sizes never increase along the sequence.
pub open spec fn sorted_by_size(s: Seq<NodeView>) -> bool {
    forall|i: int, j: int| 0 <= i <= j < s.len() ==> s[i].size >= s[j].size
}

/// The entries of `s` whose size is `k`, in their order in `s`.
pub open spec fn of_size(s: Seq<NodeView>, k: u64) -> Seq<NodeView> {
    s.filter(|v: NodeView| v.size == k)
}

/// `r` is `s` sorted by size, largest first, keeping the order of entries
/// of equal size.
pub open spec fn is_size_sort_of(r: Seq<NodeView>, s: Seq<NodeView>) -> bool {
    &&& sorted_by_size(r)
    &&& forall|k: u64| #[trigger] of_size(r, k) == of_size(s, k)
}

/// Puts `x` after every entry of `r` that is at least as large.
pub open spec fn insert_by_size(r: Seq<NodeView>, x: NodeView) -> Seq<NodeView>
    decreases r.len(),
{
    if r.len() == 0 || r.last().size >= x.size {
        r.push(x)
    } else {
        insert_by_size(r.drop_last(), x).push(r.last())
    }
}

/// `s` sorted by size, largest first, stably.
pub open spec fn sort_by_size(s: Seq<NodeView>) -> Seq<NodeView>
    decreases s.len(),
{
    if s.len() == 0 {
        s
    } else {
        insert_by_size(sort_by_size(s.drop_last()), s.last())
    }
}

/// The sum of the sizes of the entries.
pub open spec fn sum_sizes(s: Seq<NodeView>) -> int
    decreases s.len(),
{
    if s.len() == 0 {
        0
    } else {
        sum_sizes(s.drop_last()) + s.last().size
    }
}

/// A sum of sizes is never negative.
pub proof fn lemma_sum_sizes_nonneg(s: Seq<NodeView>)
    ensures
        sum_sizes(s) >= 0,
    decreases s.len(),
{
    if s.len() > 0 {
        lemma_sum_sizes_nonneg(s.drop_last());
    }
}

/// The same on exec nodes: sizes never increase along the sequence.
pub open spec fn nodes_sorted_by_size(s: Seq<Node>) -> bool {
    forall|i: int, j: int| 0 <= i <= j < s.len() ==> s[i].size >= s[j].size
}

/// The nodes of `s` whose size is `k`, in their order in `s`.
pub open spec fn nodes_of_size(s: Seq<Node>, k: u64) -> Seq<Node> {
    s.filter(|n: Node| n.size == k)
}

proof fn lemma_split_last<A>(s: Seq<A>)
    requires
        s.len() > 0,
    ensures
        s == s.drop_last().push(s.last()),
{
    assert(s =~= s.drop_last().push(s.last()));
}

proof fn lemma_of_size_push(s: Seq<NodeView>, x: NodeView, k: u64)
    ensures
        of_size(s.push(x), k) == if x.size == k {
            of_size(s, k).push(x)
        } else {
            of_size(s, k)
        },
{
    s.lemma_filter_push(x, |v: NodeView| v.size == k);
}

proof fn lemma_of_size_empty(k: u64)
    ensures
        of_size(Seq::<NodeView>::empty(), k) == Seq::<NodeView>::empty(),
{
    reveal(Seq::filter);
}

proof fn lemma_insert_len(r: Seq<NodeView>, x: NodeView)
    ensures
        insert_by_size(r, x).len() == r.len() + 1,
    decreases r.len(),
{
    if !(r.len() == 0 || r.last().size >= x.size) {
        lemma_insert_len(r.drop_last(), x);
    }
}

proof fn lemma_insert_bounded_below(r: Seq<NodeView>, x: NodeView, m: int)
    requires
        forall|i: int| 0 <= i < r.len() ==> r[i].size >= m,
        x.size >= m,
    ensures
        forall|i: int|
            0 <= i < insert_by_size(r, x).len() ==> #[trigger] insert_by_size(r, x)[i].size >= m,
    decreases r.len(),
{
    lemma_insert_len(r, x);
    if !(r.len() == 0 || r.last().size >= x.size) {
        lemma_insert_bounded_below(r.drop_last(), x, m);
        lemma_insert_len(r.drop_last(), x);
    }
}

proof fn lemma_insert_sorted(r: Seq<NodeView>, x: NodeView)
    requires
        sorted_by_size(r),
    ensures
        sorted_by_size(insert_by_size(r, x)),
    decreases r.len(),
{
    lemma_insert_len(r, x);
    if r.len() == 0 || r.last().size >= x.size {
    } else {
        let l = r.last();
        let rest = r.drop_last();
        lemma_insert_sorted(rest, x);
        lemma_insert_len(rest, x);
        lemma_insert_bounded_below(rest, x, l.size as int);
        let ins = insert_by_size(rest, x);
        assert(insert_by_size(r, x) == ins.push(l));
    }
}

proof fn lemma_insert_of_size(r: Seq<NodeView>, x: NodeView, k: u64)
    requires
        sorted_by_size(r),
    ensures
        of_size(insert_by_size(r, x), k) == if x.size == k {
            of_size(r, k).push(x)
        } else {
            of_size(r, k)
        },
    decreases r.len(),
{
    if r.len() == 0 || r.last().size >= x.size {
        lemma_of_size_push(r, x, k);
    } else {
        let l = r.last();
        let rest = r.drop_last();
        lemma_insert_of_size(rest, x, k);
        lemma_of_size_push(insert_by_size(rest, x), l, k);
        lemma_split_last(r);
        lemma_of_size_push(rest, l, k);
        lemma_of_size_push(rest, x, k);
    }
}

proof fn lemma_insert_sum(r: Seq<NodeView>, x: NodeView)
    ensures
        sum_sizes(insert_by_size(r, x)) == sum_sizes(r) + x.size,
    decreases r.len(),
{
    if r.len() == 0 || r.last().size >= x.size {
        assert(r.push(x).drop_last() =~= r);
    } else {
        let l = r.last();
        let rest = r.drop_last();
        lemma_insert_sum(rest, x);
        let ins = insert_by_size(rest, x);
        assert(ins.push(l).drop_last() =~= ins);
    }
}

/// The stable sort is sorted, keeps each size class in order, keeps the
/// length and keeps the total size.
pub proof fn lemma_sort_by_size(s: Seq<NodeView>)
    ensures
        is_size_sort_of(sort_by_size(s), s),
        sort_by_size(s).len() == s.len(),
        sum_sizes(sort_by_size(s)) == sum_sizes(s),
    decreases s.len(),
{
    if s.len() == 0 {
    } else {
        let rest = s.drop_last();
        let x = s.last();
        lemma_sort_by_size(rest);
        let r = sort_by_size(rest);
        lemma_insert_sorted(r, x);
        lemma_insert_len(r, x);
        lemma_insert_sum(r, x);
        assert forall|k: u64| #[trigger] of_size(sort_by_size(s), k) == of_size(s, k) by {
            lemma_insert_of_size(r, x, k);
            lemma_split_last(s);
            lemma_of_size_push(rest, x, k);
        }
    }
}

proof fn lemma_of_size_last(s: Seq<NodeView>)
    requires
        s.len() > 0,
    ensures
        of_size(s, s.last().size) == of_size(s.drop_last(), s.last().size).push(s.last()),
{
    lemma_split_last(s);
    lemma_of_size_push(s.drop_last(), s.last(), s.last().size);
}

proof fn lemma_of_size_members(s: Seq<NodeView>, k: u64)
    requires
        of_size(s, k).len() > 0,
    ensures
        exists|j: int| 0 <= j < s.len() && s[j].size == k,
{
    let f = of_size(s, k);
    let p = |v: NodeView| v.size == k;
    s.lemma_filter_pred(p, 0);
    assert(f.contains(f[0]));
    s.lemma_filter_contains_rev(p, f[0]);
}

proof fn lemma_last_size_not_smaller(a: Seq<NodeView>, b: Seq<NodeView>)
    requires
        a.len() > 0,
        sorted_by_size(b),
        forall|k: u64| #[trigger] of_size(a, k) == of_size(b, k),
    ensures
        b.len() > 0,
        b.last().size <= a.last().size,
{
    let k = a.last().size;
    lemma_of_size_last(a);
    assert(of_size(b, k).len() > 0);
    lemma_of_size_members(b, k);
    let j = choose|j: int| 0 <= j < b.len() && b[j].size == k;
}

/// Two stably size-sorted sequences with the same entries in each size
/// class are the same sequence.
pub proof fn lemma_size_sort_unique(a: Seq<NodeView>, b: Seq<NodeView>)
    requires
        sorted_by_size(a),
        sorted_by_size(b),
        forall|k: u64| #[trigger] of_size(a, k) == of_size(b, k),
    ensures
        a == b,
    decreases a.len(),
{
    if a.len() == 0 {
        if b.len() > 0 {
            lemma_last_size_not_smaller(b, a);
        }
        assert(a =~= b);
    } else {
        lemma_last_size_not_smaller(a, b);
        lemma_last_size_not_smaller(b, a);
        let x = a.last();
        let y = b.last();
        let kk = x.size;
        lemma_of_size_last(a);
        lemma_of_size_last(b);
        assert(of_size(a, kk).last() == x);
        assert(of_size(b, kk).last() == y);
        let a1 = a.drop_last();
        let b1 = b.drop_last();
        assert forall|k: u64| #[trigger] of_size(a1, k) == of_size(b1, k) by {
            lemma_split_last(a);
            lemma_split_last(b);
            lemma_of_size_push(a1, x, k);
            lemma_of_size_push(b1, y, k);
            if k == kk {
                assert(of_size(a1, k) =~= of_size(a, k).drop_last());
                assert(of_size(b1, k) =~= of_size(b, k).drop_last());
            }
        }
        lemma_size_sort_unique(a1, b1);
        lemma_split_last(a);
        lemma_split_last(b);
    }
}

/// Any stable size sort of `s` is `sort_by_size(s)`.
pub proof fn lemma_is_size_sort(r: Seq<NodeView>, s: Seq<NodeView>)
    requires
        is_size_sort_of(r, s),
    ensures
        r == sort_by_size(s),
{
    lemma_sort_by_size(s);
    let t = sort_by_size(s);
    assert forall|k: u64| #[trigger] of_size(r, k) == of_size(t, k) by {
        assert(of_size(r, k) == of_size(s, k));
        assert(of_size(t, k) == of_size(s, k));
    }
    lemma_size_sort_unique(r, t);
}

/// A sequence that is already sorted by size is its own stable sort.
pub proof fn lemma_sorted_is_fixed(s: Seq<NodeView>)
    requires
        sorted_by_size(s),
    ensures
        sort_by_size(s) == s,
{
    lemma_is_size_sort(s, s);
}

/// Every entry of a stable size sort of `s` is an entry of `s`.
pub proof fn lemma_size_sort_members(r: Seq<NodeView>, s: Seq<NodeView>)
    requires
        is_size_sort_of(r, s),
    ensures
        forall|i: int| 0 <= i < r.len() ==> s.contains(#[trigger] r[i]),
{
    assert forall|i: int| 0 <= i < r.len() implies s.contains(#[trigger] r[i]) by {
        let x = r[i];
        let p = |v: NodeView| v.size == x.size;
        r.lemma_filter_contains(p, i);
        assert(of_size(r, x.size) == of_size(s, x.size));
        s.lemma_filter_contains_rev(p, x);
    }
}

proof fn lemma_views_filter(s: Seq<Node>, pn: spec_fn(Node) -> bool, pv: spec_fn(NodeView) -> bool)
    requires
        forall|n: Node| #[trigger] pn(n) == pv(n@),
    ensures
        views(s.filter(pn)) == views(s).filter(pv),
    decreases s.len(),
{
    reveal(Seq::filter);
    if s.len() == 0 {
        assert(views(s.filter(pn)) =~= views(s).filter(pv));
    } else {
        let rest = s.drop_last();
        lemma_views_filter(rest, pn, pv);
        lemma_split_last(s);
        rest.lemma_filter_push(s.last(), pn);
        views(rest).lemma_filter_push(s.last()@, pv);
        assert(views(s) =~= views(rest).push(s.last()@));
        assert(views(rest.filter(pn).push(s.last())) =~= views(rest.filter(pn)).push(s.last()@));
    }
}

/// Compares two nodes by size so that the larger comes first.
pub fn larger_first(a: &Node, b: &Node) -> (r: Ordering)
    ensures
        r is Less <==> a.size > b.size,
        r is Equal <==> a.size == b.size,
        r is Greater <==> a.size < b.size,
{
    if a.size > b.size {
        Ordering::Less
    } else if a.size == b.size {
        Ordering::Equal
    } else {
        Ordering::Greater
    }
}

/// Sorts with `slice::sort_by`, comparing with `larger_first`.
///
/// Trusted: `sort_by` is a stable sort (documented: it "does not reorder
/// equal elements"), and `larger_first` is a total order on sizes with the
/// larger first (its contract), so the result is sorted by size, largest
/// first, and each size class keeps its order.
#[verifier::external_body]
fn sort_nodes_by_size(v: &mut Vec<Node>)
    ensures
        nodes_sorted_by_size(final(v)@),
        forall|k: u64| #[trigger] nodes_of_size(final(v)@, k) == nodes_of_size(old(v)@, k),
{
    v.sort_by(|a, b| larger_first(a, b));
}

/// Sorts sibling nodes by size, largest first, keeping the order of equal
/// sizes.
pub fn sort_by_size_desc(v: &mut Vec<Node>)
    ensures
        views(final(v)@) == sort_by_size(views(old(v)@)),
{
    let ghost before = v@;
    sort_nodes_by_size(v);
    proof {
        let after = v@;
        assert(sorted_by_size(views(after)));
        assert forall|k: u64| #[trigger] of_size(views(after), k) == of_size(views(before), k) by {
            let pn = |n: Node| n.size == k;
            let pv = |x: NodeView| x.size == k;
            lemma_views_filter(after, pn, pv);
            lemma_views_filter(before, pn, pv);
            assert(nodes_of_size(after, k) == nodes_of_size(before, k));
        }
        lemma_is_size_sort(views(after), views(before));
    }
}

} // verus!
