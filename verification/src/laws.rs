//! Properties of the library that span several calls.

use vstd::prelude::*;
use crate::app::{
    App, walk_lenient, walk_strict, walk_skipping, clamp_path, clamped_nav, tree_after_remove, tree_after_refresh,
};
use crate::model::{NodeView, removal_in, find_in, path_differs, lemma_filter_keeps_all};
use crate::path::{path_eq, path_file_name, entry_name};
use crate::order::{
    sorted_by_size, sort_by_size, sum_sizes, lemma_sort_by_size, lemma_sorted_is_fixed,
    lemma_size_sort_members, lemma_sum_sizes_nonneg, insert_by_size,
};

verus! {

broadcast use vstd::seq_lib::group_seq_properties;

/// Only directories have children.
pub open spec fn files_are_leaves(v: NodeView) -> bool
    decreases v,
{
    &&& !v.is_dir ==> v.children.len() == 0
    &&& forall|i: int|
        #![trigger v.children[i]]
        0 <= i < v.children.len() ==> files_are_leaves(v.children[i])
}

/// A consistent size tree: only directories have children, a directory's
/// size is the sum of its children's sizes, and children are sorted by
/// size, largest first — at every level.
pub open spec fn well_formed(v: NodeView) -> bool
    decreases v,
{
    &&& !v.is_dir ==> v.children.len() == 0
    &&& v.is_dir ==> v.size == sum_sizes(v.children)
    &&& sorted_by_size(v.children)
    &&& forall|i: int|
        #![trigger v.children[i]]
        0 <= i < v.children.len() ==> well_formed(v.children[i])
}

proof fn lemma_recomputed_keeps_kind(v: NodeView)
    ensures
        v.recomputed().is_dir == v.is_dir,
        v.recomputed().path == v.path,
        v.recomputed().name == v.name,
{
}

/// A recompute of a tree whose files are leaves yields a consistent tree:
/// every directory's size is the sum of its children's and every level is
/// sorted by size, largest first.
pub proof fn lemma_recompute_well_formed(v: NodeView)
    requires
        files_are_leaves(v),
        v.recompute_fits(),
    ensures
        well_formed(v.recomputed()),
    decreases v,
{
    let kids = v.recomputed_children();
    lemma_sort_by_size(kids);
    let sorted = sort_by_size(kids);
    assert forall|j: int| 0 <= j < kids.len() implies well_formed(#[trigger] kids[j]) by {
        let c = v.children[j];
        assert(files_are_leaves(c));
        if c.is_dir {
            assert(c.recompute_fits());
            lemma_recompute_well_formed(c);
        } else {
            assert(c.children.len() == 0);
        }
    }
    lemma_size_sort_members(sorted, kids);
    assert forall|i: int| 0 <= i < sorted.len() implies well_formed(#[trigger] sorted[i]) by {
        assert(kids.contains(sorted[i]));
        let j = choose|j: int| 0 <= j < kids.len() && kids[j] == sorted[i];
        assert(well_formed(kids[j]));
    }
    lemma_sum_sizes_nonneg(kids);
    if !v.is_dir {
        assert(v.children.len() == 0);
        assert(kids.len() == 0);
    }
}

/// Recomputing a consistent tree changes nothing (and cannot overflow).
pub proof fn lemma_well_formed_is_fixed(v: NodeView)
    requires
        well_formed(v),
    ensures
        v.recompute_fits(),
        v.recomputed() == v,
    decreases v,
{
    let kids = v.recomputed_children();
    assert forall|j: int| 0 <= j < v.children.len() && (#[trigger] v.children[j]).is_dir implies (
    v.children[j].recompute_fits() && v.children[j].recomputed() == v.children[j]) by {
        assert(well_formed(v.children[j]));
        lemma_well_formed_is_fixed(v.children[j]);
    }
    assert(kids =~= v.children);
    lemma_sorted_is_fixed(v.children);
    assert(v.recomputed() =~= v);
}

/// Recompute is idempotent on every tree whose sums fit: a second recompute
/// stays clear of overflow and changes nothing, child order included.
pub proof fn lemma_recompute_idempotent_everywhere(v: NodeView)
    requires
        v.recompute_fits(),
    ensures
        v.recomputed().recompute_fits(),
        v.recomputed().recomputed() == v.recomputed(),
    decreases v,
{
    let kids = v.recomputed_children();
    let r = v.recomputed();
    lemma_sort_by_size(kids);
    lemma_sum_sizes_nonneg(kids);
    lemma_size_sort_members(r.children, kids);
    assert forall|j: int| 0 <= j < kids.len() && (#[trigger] kids[j]).is_dir implies (
    kids[j].recompute_fits() && kids[j].recomputed() == kids[j]) by {
        let c = v.children[j];
        assert(c.is_dir);
        assert(c.recompute_fits());
        lemma_recompute_idempotent_everywhere(c);
    }
    assert forall|i: int| 0 <= i < r.children.len() && (#[trigger] r.children[i]).is_dir implies (
    r.children[i].recompute_fits() && r.children[i].recomputed() == r.children[i]) by {
        assert(kids.contains(r.children[i]));
        let j = choose|j: int| 0 <= j < kids.len() && kids[j] == r.children[i];
        assert(kids[j].is_dir);
    }
    assert(r.recomputed_children() =~= r.children);
    lemma_sorted_is_fixed(r.children);
    assert(r.recomputed() =~= r);
}

/// A directory made over consistent children is consistent.
pub proof fn lemma_new_dir_well_formed(name: Seq<char>, path: Seq<char>, kids: Seq<NodeView>)
    requires
        forall|i: int| 0 <= i < kids.len() ==> well_formed(#[trigger] kids[i]),
        sum_sizes(kids) <= u64::MAX,
    ensures
        well_formed(
            NodeView {
                name,
                path,
                is_dir: true,
                size: sum_sizes(kids) as u64,
                children: sort_by_size(kids),
            },
        ),
{
    lemma_sort_by_size(kids);
    let sorted = sort_by_size(kids);
    lemma_size_sort_members(sorted, kids);
    assert forall|i: int| 0 <= i < sorted.len() implies well_formed(#[trigger] sorted[i]) by {
        assert(kids.contains(sorted[i]));
        let j = choose|j: int| 0 <= j < kids.len() && kids[j] == sorted[i];
        assert(well_formed(kids[j]));
    }
    assert(sorted_by_size(sorted));
    assert(sum_sizes(sorted) == sum_sizes(kids));
    lemma_sum_sizes_nonneg(kids);
}

/// Some node of the tree has a direct child whose path equals `p`.
pub open spec fn has_child_within(v: NodeView, p: Seq<char>) -> bool
    decreases v,
{
    ||| v.has_child(p)
    ||| exists|i: int|
        #![trigger v.children[i]]
        0 <= i < v.children.len() && has_child_within(v.children[i], p)
}

proof fn lemma_removal_in_finds(s: Seq<NodeView>, p: Seq<char>, i: int)
    requires
        0 <= i <= s.len(),
    ensures
        removal_in(s, p, i) is Some <==> exists|j: int|
            #![trigger s[j]]
            i <= j < s.len() && has_child_within(s[j], p),
        removal_in(s, p, i) matches Some((j, c)) ==> i <= j < s.len() && s[j].removal(p).0 && c == s[j].removal(
            p,
        ).1,
    decreases s, s.len() - i,
{
    if i < s.len() {
        lemma_removal_finds(s[i], p);
        lemma_removal_in_finds(s, p, i + 1);
        if exists|j: int| #![trigger s[j]] i <= j < s.len() && has_child_within(s[j], p) {
            let j = choose|j: int| #![trigger s[j]] i <= j < s.len() && has_child_within(s[j], p);
            if j > i {
                assert(i + 1 <= j < s.len() && has_child_within(s[j], p));
            }
        }
    }
}

/// A removal happens exactly when some node of the tree has a direct child
/// with the path; otherwise the tree is left as it is.
pub proof fn lemma_removal_finds(v: NodeView, p: Seq<char>)
    ensures
        v.removal(p).0 == has_child_within(v, p),
        !v.removal(p).0 ==> v.removal(p).1 == v,
    decreases v, 1int,
{
    lemma_removal_in_finds(v.children, p, 0);
    if !v.has_child(p) && has_child_within(v, p) {
        let i = choose|i: int| #![trigger v.children[i]] 0 <= i < v.children.len() && has_child_within(v.children[i], p);
        assert(0 <= i < v.children.len() && has_child_within(v.children[i], p));
    }
}

/// After `remove_child`, no direct child has the removed path.
pub proof fn lemma_removed_children_gone(v: NodeView, p: Seq<char>)
    ensures
        !(NodeView { children: v.children_without(p), ..v }).has_child(p),
{
    let kept = v.children_without(p);
    assert forall|i: int| 0 <= i < kept.len() implies !path_eq(#[trigger] kept[i].path, p) by {
        v.children.lemma_filter_pred(path_differs(p), i);
    }
}

proof fn lemma_removal_in_keeps_leaves(s: Seq<NodeView>, p: Seq<char>, i: int)
    requires
        0 <= i,
        forall|j: int| 0 <= j < s.len() ==> files_are_leaves(#[trigger] s[j]),
    ensures
        removal_in(s, p, i) matches Some((j, c)) ==> i <= j < s.len() && files_are_leaves(c) && c.is_dir
            == s[j].is_dir,
    decreases s, s.len() - i,
{
    if 0 <= i < s.len() {
        lemma_removal_keeps_leaves(s[i], p);
        lemma_removal_in_keeps_leaves(s, p, i + 1);
    }
}

/// A removal keeps files as leaves (and keeps whether the node is a
/// directory).
pub proof fn lemma_removal_keeps_leaves(v: NodeView, p: Seq<char>)
    requires
        files_are_leaves(v),
    ensures
        files_are_leaves(v.removal(p).1),
        v.removal(p).1.is_dir == v.is_dir,
    decreases v, 1int,
{
    assert forall|j: int| 0 <= j < v.children.len() implies files_are_leaves(#[trigger] v.children[j]) by {}
    lemma_removal_in_keeps_leaves(v.children, p, 0);
    if v.has_child(p) {
        let kept = v.children_without(p);
        v.children.lemma_filter_len(path_differs(p));
        assert forall|i: int| 0 <= i < kept.len() implies files_are_leaves(#[trigger] kept[i]) by {
            assert(kept.contains(kept[i]));
            v.children.lemma_filter_contains_rev(path_differs(p), kept[i]);
            let j = choose|j: int| 0 <= j < v.children.len() && v.children[j] == kept[i];
            assert(files_are_leaves(v.children[j]));
        }
    } else {
        match removal_in(v.children, p, 0) {
            Some((j, c)) => {
                let w = v.removal(p).1;
                assert forall|i: int| 0 <= i < w.children.len() implies files_are_leaves(#[trigger] w.children[i]) by {
                    if i != j {
                        assert(files_are_leaves(v.children[i]));
                    }
                }
            },
            None => {},
        }
    }
}

/// Every index of `pos` names a child.
pub open spec fn pos_valid(v: NodeView, pos: Seq<int>) -> bool
    decreases pos.len(),
{
    pos.len() == 0 || (0 <= pos[0] < v.children.len() && pos_valid(v.children[pos[0]], pos.drop_first()))
}

proof fn lemma_find_in_valid(s: Seq<NodeView>, p: Seq<char>, i: int)
    ensures
        find_in(s, p, i) matches Some(pos) ==> pos.len() > 0 && 0 <= pos[0] < s.len() && pos_valid(
            s[pos[0]],
            pos.drop_first(),
        ),
    decreases s, s.len() - i,
{
    if 0 <= i < s.len() {
        lemma_find_pos_valid(s[i], p);
        lemma_find_in_valid(s, p, i + 1);
        if let Some(q) = s[i].find_pos(p) {
            assert((seq![i] + q).drop_first() =~= q);
        }
    }
}

/// The position `find_pos` reports names a node of the tree.
pub proof fn lemma_find_pos_valid(v: NodeView, p: Seq<char>)
    ensures
        v.find_pos(p) matches Some(pos) ==> pos_valid(v, pos),
    decreases v, 1int,
{
    lemma_find_in_valid(v.children, p, 0);
}

/// Replacing a subtree with one whose files are leaves keeps files as
/// leaves.
pub proof fn lemma_replace_keeps_leaves(v: NodeView, pos: Seq<int>, new: NodeView)
    requires
        files_are_leaves(v),
        files_are_leaves(new),
        pos_valid(v, pos),
    ensures
        files_are_leaves(v.replace_at(pos, new)),
    decreases pos.len(),
{
    if pos.len() > 0 {
        let i = pos[0];
        assert(files_are_leaves(v.children[i]));
        lemma_replace_keeps_leaves(v.children[i], pos.drop_first(), new);
        let w = v.replace_at(pos, new);
        assert forall|k: int| 0 <= k < w.children.len() implies files_are_leaves(#[trigger] w.children[k]) by {
            if k != i {
                assert(files_are_leaves(v.children[k]));
            }
        }
        if !v.is_dir {
            assert(v.children.len() == 0);
        }
    }
}

/// After removing an entry, the recomputed tree is consistent (sizes roll
/// up, every level sorted), for a tree whose files are leaves.
pub proof fn lemma_remove_leaves_consistent_tree(root: NodeView, p: Seq<char>)
    requires
        files_are_leaves(root),
        tree_after_remove(root, p).recompute_fits(),
    ensures
        well_formed(tree_after_remove(root, p).recomputed()),
{
    lemma_removal_keeps_leaves(root, p);
    lemma_recompute_well_formed(tree_after_remove(root, p));
}

/// After refreshing an entry with a rescanned subtree, the recomputed tree
/// is consistent, for trees whose files are leaves.
pub proof fn lemma_refresh_leaves_consistent_tree(root: NodeView, p: Seq<char>, fresh: NodeView)
    requires
        files_are_leaves(root),
        files_are_leaves(fresh),
        tree_after_refresh(root, p, fresh).recompute_fits(),
    ensures
        well_formed(tree_after_refresh(root, p, fresh).recomputed()),
{
    lemma_find_pos_valid(root, p);
    if let Some(pos) = root.find_pos(p) {
        lemma_replace_keeps_leaves(root, pos, fresh);
    }
    lemma_recompute_well_formed(tree_after_refresh(root, p, fresh));
}

/// The total size of the entries a removal takes out of the tree.
pub open spec fn removed_size(v: NodeView, p: Seq<char>) -> int
    decreases v,
{
    if v.has_child(p) {
        sum_sizes(v.children) - sum_sizes(v.children_without(p))
    } else {
        match removal_in(v.children, p, 0) {
            Some((j, _c)) => if 0 <= j < v.children.len() {
                removed_size(v.children[j], p)
            } else {
                0
            },
            None => 0,
        }
    }
}

proof fn lemma_sum_filter_le(s: Seq<NodeView>, pred: spec_fn(NodeView) -> bool)
    ensures
        sum_sizes(s.filter(pred)) <= sum_sizes(s),
    decreases s.len(),
{
    reveal(Seq::filter);
    if s.len() > 0 {
        let rest = s.drop_last();
        lemma_sum_filter_le(rest, pred);
        assert(s =~= rest.push(s.last()));
        rest.lemma_filter_push(s.last(), pred);
        let f = rest.filter(pred);
        assert(f.push(s.last()).drop_last() =~= f);
    }
}

proof fn lemma_sum_update(s: Seq<NodeView>, j: int, x: NodeView)
    requires
        0 <= j < s.len(),
    ensures
        sum_sizes(s.update(j, x)) == sum_sizes(s) - s[j].size + x.size,
    decreases s.len(),
{
    let t = s.update(j, x);
    if j == s.len() - 1 {
        assert(t.drop_last() =~= s.drop_last());
    } else {
        lemma_sum_update(s.drop_last(), j, x);
        assert(t.drop_last() =~= s.drop_last().update(j, x));
    }
}

proof fn lemma_file_has_no_removal(v: NodeView, p: Seq<char>)
    requires
        v.children.len() == 0,
    ensures
        !v.removal(p).0,
{
}

/// Only directories have children and every directory's size is the sum of
/// its children's sizes, at every level (in any order of children).
pub open spec fn sizes_add_up(v: NodeView) -> bool
    decreases v,
{
    &&& !v.is_dir ==> v.children.len() == 0
    &&& v.is_dir ==> v.size == sum_sizes(v.children)
    &&& forall|i: int|
        #![trigger v.children[i]]
        0 <= i < v.children.len() ==> sizes_add_up(v.children[i])
}

proof fn lemma_sum_same_sizes(a: Seq<NodeView>, b: Seq<NodeView>)
    requires
        a.len() == b.len(),
        forall|i: int| 0 <= i < a.len() ==> (#[trigger] a[i]).size == b[i].size,
    ensures
        sum_sizes(a) == sum_sizes(b),
    decreases a.len(),
{
    if a.len() > 0 {
        lemma_sum_same_sizes(a.drop_last(), b.drop_last());
    }
}

/// A tree whose sizes add up recomputes without overflow and keeps its
/// size; its files are leaves.
pub proof fn lemma_sizes_add_up_recompute(v: NodeView)
    requires
        sizes_add_up(v),
    ensures
        v.recompute_fits(),
        v.recomputed().size == v.size,
        files_are_leaves(v),
    decreases v,
{
    let kids = v.recomputed_children();
    assert forall|i: int| 0 <= i < v.children.len() implies (#[trigger] v.children[i]).recompute_fits()
        && kids[i].size == v.children[i].size && files_are_leaves(v.children[i]) by {
        assert(sizes_add_up(v.children[i]));
        lemma_sizes_add_up_recompute(v.children[i]);
    }
    lemma_sum_same_sizes(kids, v.children);
    lemma_sort_by_size(kids);
    lemma_sum_sizes_nonneg(kids);
}

/// Removing an entry from a tree whose sizes add up and recomputing stays
/// clear of overflow, gives a consistent tree (sizes add up, every level
/// sorted), and shrinks the root's size by exactly the size of what was
/// removed.
pub proof fn lemma_remove_shrinks_tree(v: NodeView, p: Seq<char>)
    requires
        sizes_add_up(v),
    ensures
        removed_size(v, p) >= 0,
        tree_after_remove(v, p).recompute_fits(),
        tree_after_remove(v, p).recomputed().size == v.size - removed_size(v, p),
        well_formed(tree_after_remove(v, p).recomputed()),
    decreases v,
{
    let w = tree_after_remove(v, p);
    lemma_sizes_add_up_recompute(v);
    lemma_removal_keeps_leaves(v, p);
    lemma_sum_sizes_nonneg(v.children);
    if v.has_child(p) {
        let kept = v.children_without(p);
        assert(w.children == kept);
        lemma_sum_filter_le(v.children, path_differs(p));
        lemma_sum_sizes_nonneg(kept);
        let kids = w.recomputed_children();
        assert forall|i: int| 0 <= i < kept.len() implies (#[trigger] kept[i]).recompute_fits()
            && kids[i].size == kept[i].size by {
            assert(kept.contains(kept[i]));
            v.children.lemma_filter_contains_rev(path_differs(p), kept[i]);
            let k = choose|k: int| 0 <= k < v.children.len() && v.children[k] == kept[i];
            assert(sizes_add_up(v.children[k]));
            lemma_sizes_add_up_recompute(v.children[k]);
        }
        assert(v.is_dir);
        lemma_sum_same_sizes(kids, kept);
        lemma_sort_by_size(kids);
    } else {
        lemma_removal_in_finds(v.children, p, 0);
        match removal_in(v.children, p, 0) {
            Some((j, c)) => {
                let child = v.children[j];
                assert(sizes_add_up(child));
                lemma_remove_shrinks_tree(child, p);
                lemma_removal_finds(child, p);
                if child.children.len() == 0 {
                    lemma_file_has_no_removal(child, p);
                }
                assert(child.is_dir);
                lemma_sizes_add_up_recompute(child);
                lemma_removal_keeps_leaves(child, p);
                assert(c.is_dir);
                assert(v.is_dir);
                assert(w.children == v.children.update(j, c));
                let kids = w.recomputed_children();
                let target = v.children.update(j, c.recomputed());
                assert forall|k: int| 0 <= k < w.children.len() implies (#[trigger] w.children[k]).recompute_fits()
                    && kids[k].size == target[k].size by {
                    if k != j {
                        assert(sizes_add_up(v.children[k]));
                        lemma_sizes_add_up_recompute(v.children[k]);
                    }
                }
                lemma_sum_same_sizes(kids, target);
                lemma_sum_update(v.children, j, c.recomputed());
                lemma_sort_by_size(kids);
                lemma_sum_sizes_nonneg(kids);
            },
            None => {
                assert(w == v);
            },
        }
    }
    lemma_recompute_well_formed(w);
}

/// How many nodes of the tree have a path equal to `p`.
pub open spec fn matches(v: NodeView, p: Seq<char>) -> int
    decreases v,
{
    (if path_eq(v.path, p) {
        1int
    } else {
        0int
    }) + matches_in(v.children, p)
}

/// How many nodes of the trees in `s` have a path equal to `p`.
pub open spec fn matches_in(s: Seq<NodeView>, p: Seq<char>) -> int
    decreases s,
{
    if s.len() == 0 {
        0
    } else {
        matches_in(s.drop_last(), p) + matches(s.last(), p)
    }
}

proof fn lemma_matches_nonneg(v: NodeView, p: Seq<char>)
    ensures
        matches(v, p) >= 0,
        path_eq(v.path, p) ==> matches(v, p) >= 1,
    decreases v,
{
    lemma_matches_in_nonneg(v.children, p);
}

proof fn lemma_matches_in_nonneg(s: Seq<NodeView>, p: Seq<char>)
    ensures
        matches_in(s, p) >= 0,
    decreases s,
{
    if s.len() > 0 {
        lemma_matches_in_nonneg(s.drop_last(), p);
        lemma_matches_nonneg(s.last(), p);
    }
}

proof fn lemma_matches_in_parts(s: Seq<NodeView>, p: Seq<char>, i: int, j: int)
    requires
        0 <= i < s.len(),
        0 <= j < s.len(),
    ensures
        matches_in(s, p) >= matches(s[i], p),
        i != j ==> matches_in(s, p) >= matches(s[i], p) + matches(s[j], p),
    decreases s.len(),
{
    let rest = s.drop_last();
    let last = s.len() - 1;
    lemma_matches_in_nonneg(rest, p);
    lemma_matches_nonneg(s.last(), p);
    lemma_matches_nonneg(s[i], p);
    lemma_matches_nonneg(s[j], p);
    if i < last && j < last {
        lemma_matches_in_parts(rest, p, i, j);
    } else if i < last {
        lemma_matches_in_parts(rest, p, i, i);
    } else if j < last {
        lemma_matches_in_parts(rest, p, j, j);
    }
}

proof fn lemma_matches_in_positive(s: Seq<NodeView>, p: Seq<char>)
    requires
        matches_in(s, p) > 0,
    ensures
        exists|i: int| 0 <= i < s.len() && matches(#[trigger] s[i], p) > 0,
    decreases s.len(),
{
    let rest = s.drop_last();
    if matches(s.last(), p) > 0 {
        assert(matches(s[s.len() - 1], p) > 0);
    } else {
        lemma_matches_in_positive(rest, p);
        let i = choose|i: int| 0 <= i < rest.len() && matches(#[trigger] rest[i], p) > 0;
        assert(s[i] == rest[i]);
    }
}

proof fn lemma_matches_in_zero(s: Seq<NodeView>, p: Seq<char>)
    requires
        forall|i: int| 0 <= i < s.len() ==> matches(#[trigger] s[i], p) == 0,
    ensures
        matches_in(s, p) == 0,
    decreases s.len(),
{
    if s.len() > 0 {
        let rest = s.drop_last();
        assert forall|i: int| 0 <= i < rest.len() implies matches(#[trigger] rest[i], p) == 0 by {
            assert(rest[i] == s[i]);
        }
        lemma_matches_in_zero(rest, p);
        assert(matches(s[s.len() - 1], p) == 0);
    }
}

proof fn lemma_matches_in_update(s: Seq<NodeView>, p: Seq<char>, j: int, x: NodeView)
    requires
        0 <= j < s.len(),
    ensures
        matches_in(s.update(j, x), p) == matches_in(s, p) - matches(s[j], p) + matches(x, p),
    decreases s.len(),
{
    let t = s.update(j, x);
    if j == s.len() - 1 {
        assert(t.drop_last() =~= s.drop_last());
    } else {
        lemma_matches_in_update(s.drop_last(), p, j, x);
        assert(t.drop_last() =~= s.drop_last().update(j, x));
    }
}

proof fn lemma_matches_in_same(a: Seq<NodeView>, b: Seq<NodeView>, p: Seq<char>)
    requires
        a.len() == b.len(),
        forall|i: int| 0 <= i < a.len() ==> matches(#[trigger] a[i], p) == matches(b[i], p),
    ensures
        matches_in(a, p) == matches_in(b, p),
    decreases a.len(),
{
    if a.len() > 0 {
        let (ra, rb) = (a.drop_last(), b.drop_last());
        assert forall|i: int| 0 <= i < ra.len() implies matches(#[trigger] ra[i], p) == matches(rb[i], p) by {
            assert(ra[i] == a[i] && rb[i] == b[i]);
        }
        lemma_matches_in_same(ra, rb, p);
        assert(matches(a[a.len() - 1], p) == matches(b[b.len() - 1], p));
    }
}

proof fn lemma_matches_in_insert(r: Seq<NodeView>, x: NodeView, p: Seq<char>)
    ensures
        matches_in(insert_by_size(r, x), p) == matches_in(r, p) + matches(x, p),
    decreases r.len(),
{
    if r.len() == 0 || r.last().size >= x.size {
        assert(r.push(x).drop_last() =~= r);
    } else {
        let l = r.last();
        let rest = r.drop_last();
        lemma_matches_in_insert(rest, x, p);
        let ins = insert_by_size(rest, x);
        assert(ins.push(l).drop_last() =~= ins);
    }
}

proof fn lemma_matches_in_sort(s: Seq<NodeView>, p: Seq<char>)
    ensures
        matches_in(sort_by_size(s), p) == matches_in(s, p),
    decreases s.len(),
{
    if s.len() > 0 {
        lemma_matches_in_sort(s.drop_last(), p);
        lemma_matches_in_insert(sort_by_size(s.drop_last()), s.last(), p);
    }
}

/// A recompute keeps the number of nodes with a given path.
pub proof fn lemma_recompute_keeps_matches(v: NodeView, p: Seq<char>)
    ensures
        matches(v.recomputed(), p) == matches(v, p),
    decreases v,
{
    let kids = v.recomputed_children();
    assert forall|i: int| 0 <= i < kids.len() implies matches(#[trigger] kids[i], p) == matches(
        v.children[i],
        p,
    ) by {
        if v.children[i].is_dir {
            lemma_recompute_keeps_matches(v.children[i], p);
        }
    }
    lemma_matches_in_same(kids, v.children, p);
    lemma_matches_in_sort(kids, p);
}

proof fn lemma_find_in_zero(s: Seq<NodeView>, p: Seq<char>, i: int)
    requires
        0 <= i,
        forall|k: int| i <= k < s.len() ==> matches(#[trigger] s[k], p) == 0,
    ensures
        find_in(s, p, i) is None,
    decreases s, s.len() - i,
{
    if i < s.len() {
        lemma_no_matches(s[i], p);
        lemma_find_in_zero(s, p, i + 1);
    }
}

/// A tree with no node of path `p` has no position for it and no direct
/// child with it anywhere.
pub proof fn lemma_no_matches(v: NodeView, p: Seq<char>)
    requires
        matches(v, p) == 0,
    ensures
        v.find_pos(p) is None,
        !has_child_within(v, p),
    decreases v, 1int,
{
    lemma_matches_in_nonneg(v.children, p);
    assert forall|k: int| 0 <= k < v.children.len() implies matches(#[trigger] v.children[k], p) == 0 by {
        lemma_matches_in_parts(v.children, p, k, k);
        lemma_matches_nonneg(v.children[k], p);
    }
    lemma_find_in_zero(v.children, p, 0);
    assert forall|k: int| 0 <= k < v.children.len() implies !has_child_within(#[trigger] v.children[k], p)
        && !path_eq(v.children[k].path, p) by {
        lemma_no_matches(v.children[k], p);
        lemma_matches_nonneg(v.children[k], p);
    }
}

proof fn lemma_find_in_skip(s: Seq<NodeView>, p: Seq<char>, i: int, j: int)
    requires
        0 <= i <= j <= s.len(),
        forall|k: int| i <= k < j ==> (#[trigger] s[k]).find_pos(p) is None,
    ensures
        find_in(s, p, i) == find_in(s, p, j),
    decreases j - i,
{
    if i < j {
        lemma_find_in_skip(s, p, i + 1, j);
    }
}

proof fn lemma_removal_in_skip(s: Seq<NodeView>, p: Seq<char>, i: int, j: int)
    requires
        0 <= i <= j <= s.len(),
        forall|k: int| i <= k < j ==> !(#[trigger] s[k]).removal(p).0,
    ensures
        removal_in(s, p, i) == removal_in(s, p, j),
    decreases j - i,
{
    if i < j {
        lemma_removal_in_skip(s, p, i + 1, j);
    }
}

proof fn lemma_filter_drops_one(s: Seq<NodeView>, pred: spec_fn(NodeView) -> bool, j: int)
    requires
        0 <= j < s.len(),
        !pred(s[j]),
        forall|k: int| 0 <= k < s.len() && k != j ==> #[trigger] pred(s[k]),
    ensures
        s.filter(pred) == s.remove(j),
    decreases s.len(),
{
    reveal(Seq::filter);
    let rest = s.drop_last();
    if j == s.len() - 1 {
        assert forall|k: int| 0 <= k < rest.len() implies #[trigger] pred(rest[k]) by {
            assert(pred(s[k]));
        }
        lemma_filter_keeps_all(rest, pred);
        assert(s.remove(j) =~= rest);
    } else {
        assert forall|k: int| 0 <= k < rest.len() && k != j implies #[trigger] pred(rest[k]) by {
            assert(pred(s[k]));
        }
        lemma_filter_drops_one(rest, pred, j);
        assert(pred(s[s.len() - 1]));
        assert(s.remove(j) =~= rest.remove(j).push(s.last()));
    }
}

proof fn lemma_sum_remove(s: Seq<NodeView>, j: int)
    requires
        0 <= j < s.len(),
    ensures
        sum_sizes(s.remove(j)) == sum_sizes(s) - s[j].size,
    decreases s.len(),
{
    let t = s.remove(j);
    if j == s.len() - 1 {
        assert(t =~= s.drop_last());
    } else {
        lemma_sum_remove(s.drop_last(), j);
        assert(t.drop_last() =~= s.drop_last().remove(j));
    }
}

proof fn lemma_unique_entry_removal(v: NodeView, p: Seq<char>)
    requires
        matches(v, p) == 1,
        !path_eq(v.path, p),
    ensures
        v.removal(p).0,
        v.find_pos(p) is Some,
        matches(v.removal(p).1, p) == 0,
        removed_size(v, p) == v.subtree_at(v.find_pos(p).unwrap()).size,
        forall|q: Seq<char>|
            #[trigger] matches(v.removal(p).1, q) == matches(v, q) - matches(
                v.subtree_at(v.find_pos(p).unwrap()),
                q,
            ),
    decreases v,
{
    let s = v.children;
    assert(matches_in(s, p) == 1);
    lemma_matches_in_positive(s, p);
    let j = choose|j: int| 0 <= j < s.len() && matches(#[trigger] s[j], p) > 0;
    lemma_matches_in_parts(s, p, j, j);
    assert forall|k: int| 0 <= k < s.len() && k != j implies matches(#[trigger] s[k], p) == 0
        && !path_eq(s[k].path, p) && s[k].find_pos(p) is None && !s[k].removal(p).0 by {
        lemma_matches_in_parts(s, p, j, k);
        lemma_matches_nonneg(s[k], p);
        lemma_no_matches(s[k], p);
        lemma_removal_finds(s[k], p);
    }
    lemma_find_in_skip(s, p, 0, j);
    let child = s[j];
    if path_eq(child.path, p) {
        lemma_matches_in_nonneg(child.children, p);
        assert(child.find_pos(p) == Some(Seq::<int>::empty()));
        assert(seq![j] + Seq::<int>::empty() =~= seq![j]);
        assert(seq![j].drop_first() =~= Seq::<int>::empty());
        assert(v.find_pos(p) == Some(seq![j]));
        assert(v.subtree_at(seq![j]) == child.subtree_at(Seq::<int>::empty()));
        assert(v.has_child(p));
        let pred = path_differs(p);
        lemma_filter_drops_one(s, pred, j);
        lemma_sum_remove(s, j);
        let kept = s.remove(j);
        assert forall|k: int| 0 <= k < kept.len() implies matches(#[trigger] kept[k], p) == 0 by {
            if k < j {
                assert(kept[k] == s[k]);
            } else {
                assert(kept[k] == s[k + 1]);
            }
        }
        lemma_matches_in_zero(kept, p);
        assert forall|q: Seq<char>| #[trigger] matches(v.removal(p).1, q) == matches(v, q) - matches(
            v.subtree_at(v.find_pos(p).unwrap()),
            q,
        ) by {
            lemma_matches_in_remove(s, q, j);
        }
    } else {
        assert(!v.has_child(p)) by {
            if v.has_child(p) {
                let k = choose|k: int| 0 <= k < s.len() && path_eq(#[trigger] s[k].path, p);
            }
        }
        lemma_matches_nonneg(child, p);
        lemma_unique_entry_removal(child, p);
        lemma_removal_in_skip(s, p, 0, j);
        let q = child.find_pos(p).unwrap();
        assert((seq![j] + q).drop_first() =~= q);
        lemma_matches_in_update(s, p, j, child.removal(p).1);
        assert(v.find_pos(p) == Some(seq![j] + q));
        assert(v.subtree_at(seq![j] + q) == child.subtree_at(q));
        assert(removal_in(s, p, j) == Some((j, child.removal(p).1)));
        assert(removed_size(v, p) == removed_size(child, p));
        assert forall|q2: Seq<char>| #[trigger] matches(v.removal(p).1, q2) == matches(v, q2) - matches(
            v.subtree_at(v.find_pos(p).unwrap()),
            q2,
        ) by {
            lemma_matches_in_update(s, q2, j, child.removal(p).1);
            assert(matches(child.removal(p).1, q2) == matches(child, q2) - matches(child.subtree_at(q), q2));
        }
    }
}

proof fn lemma_matches_in_remove(s: Seq<NodeView>, q: Seq<char>, j: int)
    requires
        0 <= j < s.len(),
    ensures
        matches_in(s.remove(j), q) == matches_in(s, q) - matches(s[j], q),
    decreases s.len(),
{
    let t = s.remove(j);
    if j == s.len() - 1 {
        assert(t =~= s.drop_last());
    } else {
        lemma_matches_in_remove(s.drop_last(), q, j);
        assert(t.drop_last() =~= s.drop_last().remove(j));
    }
}

/// Deleting an entry whose path no other node of the tree has, below the
/// root of a tree whose sizes add up: the recompute stays clear of
/// overflow, no node with that path remains, the root shrinks by exactly
/// the entry's size, the tree is consistent (sizes add up, every level
/// sorted), and every other node is kept: for each path, the tree holds as
/// many nodes with it as before, less those inside the deleted entry.
pub proof fn lemma_delete_unique_entry(root: NodeView, p: Seq<char>)
    requires
        sizes_add_up(root),
        matches(root, p) == 1,
        !path_eq(root.path, p),
    ensures
        root.find_pos(p) is Some,
        tree_after_remove(root, p).recompute_fits(),
        tree_after_remove(root, p).recomputed().find_pos(p) is None,
        tree_after_remove(root, p).recomputed().size == root.size - root.subtree_at(
            root.find_pos(p).unwrap(),
        ).size,
        well_formed(tree_after_remove(root, p).recomputed()),
        forall|q: Seq<char>|
            #[trigger] matches(tree_after_remove(root, p).recomputed(), q) == matches(root, q) - matches(
                root.subtree_at(root.find_pos(p).unwrap()),
                q,
            ),
{
    lemma_unique_entry_removal(root, p);
    lemma_remove_shrinks_tree(root, p);
    let w = tree_after_remove(root, p);
    lemma_recompute_keeps_matches(w, p);
    lemma_no_matches(w.recomputed(), p);
    assert forall|q: Seq<char>| #[trigger] matches(w.recomputed(), q) == matches(root, q) - matches(
        root.subtree_at(root.find_pos(p).unwrap()),
        q,
    ) by {
        lemma_recompute_keeps_matches(w, q);
    }
}

/// In a consistent tree, files are leaves.
pub proof fn lemma_well_formed_leaves(v: NodeView)
    requires
        well_formed(v),
    ensures
        files_are_leaves(v),
    decreases v,
{
    assert forall|i: int| 0 <= i < v.children.len() implies files_are_leaves(#[trigger] v.children[i]) by {
        assert(well_formed(v.children[i]));
        lemma_well_formed_leaves(v.children[i]);
    }
}

proof fn lemma_clamp_path_resolves(n: NodeView, sel: Seq<usize>)
    ensures
        walk_strict(n, clamp_path(n, sel)) is Some,
        clamp_path(n, sel).len() <= sel.len(),
        walk_strict(n, sel) is Some ==> clamp_path(n, sel) == sel,
    decreases sel.len(),
{
    if sel.len() == 0 || n.children.len() == 0 {
    } else {
        let c = if sel[0] < n.children.len() {
            sel[0]
        } else {
            (n.children.len() - 1) as usize
        };
        lemma_clamp_path_resolves(n.children[c as int], sel.drop_first());
        let rest = clamp_path(n.children[c as int], sel.drop_first());
        assert((seq![c] + rest).drop_first() =~= rest);
        if walk_strict(n, sel) is Some {
            assert(sel =~= seq![c] + sel.drop_first());
        }
    }
}

/// After a tree change, the clamped navigation always resolves: the zoom
/// path leads to a node, the selection leads to a node below it, and the
/// selection is no longer than before. A navigation that still resolves is
/// kept as it is.
pub proof fn lemma_clamped_nav_resolves(root: NodeView, zoom: Seq<usize>, sel: Seq<usize>)
    ensures
        ({
            let (z, s) = clamped_nav(root, zoom, sel);
            &&& walk_strict(root, z) matches Some(zn) && walk_strict(zn, s) is Some
            &&& s.len() <= sel.len()
            &&& (walk_strict(root, zoom) matches Some(zn) && walk_strict(zn, sel) is Some) ==> (z, s)
                == (zoom, sel)
        }),
{
    match walk_strict(root, zoom) {
        Some(zn) => {
            lemma_clamp_path_resolves(zn, sel);
        },
        None => {
            lemma_clamp_path_resolves(root, sel);
        },
    }
}

/// The zoom path leads to a node and the selection leads to a node below
/// it (an empty selection selects nothing and always resolves).
pub open spec fn navigation_resolves(a: App) -> bool {
    walk_strict(a.root@, a.zoom_path@) matches Some(z) && walk_strict(z, a.selection@) is Some
}

proof fn lemma_skipping_is_strict(n: NodeView, s: Seq<usize>)
    requires
        walk_strict(n, s) is Some,
    ensures
        walk_skipping(n, s) == walk_strict(n, s).unwrap(),
    decreases s.len(),
{
    if s.len() > 0 {
        lemma_skipping_is_strict(n.children[s[0] as int], s.drop_first());
    }
}

proof fn lemma_prefix_resolves(n: NodeView, z: Seq<usize>, s: Seq<usize>)
    requires
        walk_strict(n, z + s) is Some,
    ensures
        walk_strict(n, z) is Some,
{
    if walk_strict(n, z) is None {
        lemma_strict_none_extends(n, z, s);
    }
}

/// A fresh application state's navigation resolves.
pub proof fn lemma_new_navigation_resolves(a: App)
    requires
        a.zoom_path@.len() == 0,
        a.selection@.len() == 0,
    ensures
        navigation_resolves(a),
{
}

/// Selecting the first entry keeps the navigation resolving.
pub proof fn lemma_select_first_keeps_navigation(a: App, b: App)
    requires
        navigation_resolves(a),
        App::navigated(a, b, (a.zoom_path@, a.selection_with_first())),
    ensures
        navigation_resolves(b),
{
    lemma_strict_is_lenient(a.root@, a.zoom_path@);
    assert(seq![0usize].drop_first() =~= Seq::<usize>::empty());
    reveal_with_fuel(walk_strict, 2);
}

/// Moving to a sibling keeps the navigation resolving.
pub proof fn lemma_move_keeps_navigation(a: App, b: App, delta: i32)
    requires
        navigation_resolves(a),
        a.can_move_sibling(delta),
        App::navigated(a, b, (a.zoom_path@, a.moved_selection(delta))),
    ensures
        navigation_resolves(b),
{
    let zn = walk_strict(a.root@, a.zoom_path@).unwrap();
    lemma_strict_is_lenient(a.root@, a.zoom_path@);
    let sel = a.selection_with_first();
    assert(seq![0usize].drop_first() =~= Seq::<usize>::empty());
    reveal_with_fuel(walk_strict, 2);
    assert(walk_strict(zn, sel) is Some);
    let len = a.sibling_parent(sel).children.len();
    if sel.len() > 0 && len > 0 {
        let front = sel.drop_last();
        let tail = seq![sel.last()];
        assert(sel =~= front + tail);
        lemma_prefix_resolves(zn, front, tail);
        lemma_skipping_is_strict(zn, front);
        let pv = walk_strict(zn, front).unwrap();
        let x = (sel.last() as i32) + delta;
        let m = (x % ((len as i32) as int)) as usize;
        let moved = sel.update(sel.len() - 1, m);
        assert(moved =~= front + seq![m]);
        lemma_walks_agree(zn, front, seq![m]);
        assert(m < pv.children.len());
        assert(seq![m].drop_first() =~= Seq::<usize>::empty());
    }
}

/// Zooming in keeps the navigation resolving.
pub proof fn lemma_zoom_in_keeps_navigation(a: App, b: App)
    requires
        navigation_resolves(a),
        App::navigated(a, b, a.zoom_in_nav()),
    ensures
        navigation_resolves(b),
{
    lemma_walks_agree(a.root@, a.zoom_path@, a.selection@);
}

/// Zooming out keeps the navigation resolving.
pub proof fn lemma_zoom_out_keeps_navigation(a: App, b: App)
    requires
        navigation_resolves(a),
        App::navigated(a, b, a.zoom_out_nav()),
    ensures
        navigation_resolves(b),
{
    let z = a.zoom_path@;
    if z.len() > 0 {
        assert(z =~= z.drop_last() + seq![z.last()]);
        lemma_prefix_resolves(a.root@, z.drop_last(), seq![z.last()]);
    }
}

proof fn lemma_walks_agree(n: NodeView, z: Seq<usize>, s: Seq<usize>)
    requires
        walk_strict(n, z) is Some,
    ensures
        walk_lenient(n, z) == walk_strict(n, z).unwrap(),
        walk_lenient(n, z + s) == walk_lenient(walk_strict(n, z).unwrap(), s),
        walk_strict(n, z + s) == walk_strict(walk_strict(n, z).unwrap(), s),
    decreases z.len(),
{
    if z.len() > 0 {
        assert((z + s).drop_first() =~= z.drop_first() + s);
        assert((z + s)[0] == z[0]);
        lemma_walks_agree(n.children[z[0] as int], z.drop_first(), s);
    } else {
        assert(z + s =~= s);
    }
}

proof fn lemma_strict_is_lenient(n: NodeView, s: Seq<usize>)
    requires
        walk_strict(n, s) is Some,
    ensures
        walk_lenient(n, s) == walk_strict(n, s).unwrap(),
    decreases s.len(),
{
    if s.len() > 0 {
        lemma_strict_is_lenient(n.children[s[0] as int], s.drop_first());
    }
}

/// Zooming in makes the selected directory the center of the view, when
/// the zoom path leads to a node.
pub proof fn lemma_zoom_in_centers_selection(a: App, b: App)
    requires
        App::navigated(a, b, a.zoom_in_nav()),
        walk_strict(a.root@, a.zoom_path@) is Some,
        a.selected_view() matches Some(v) && v.is_dir && v.children.len() > 0,
    ensures
        b.zoom_view() == a.selected_view().unwrap(),
        b.selected_view() is None,
{
    let zn = walk_strict(a.root@, a.zoom_path@).unwrap();
    lemma_walks_agree(a.root@, a.zoom_path@, a.selection@);
    lemma_strict_is_lenient(zn, a.selection@);
}

/// Zooming out makes the parent of the zoom root the center, when the zoom
/// path leads to a node.
pub proof fn lemma_zoom_out_centers_parent(a: App, b: App)
    requires
        App::navigated(a, b, a.zoom_out_nav()),
        a.zoom_path@.len() > 0,
        walk_strict(a.root@, a.zoom_path@) is Some,
    ensures
        a.zoom_path@.last() < b.zoom_view().children.len(),
        b.zoom_view().children[a.zoom_path@.last() as int] == a.zoom_view(),
{
    let z = a.zoom_path@;
    let parent = z.drop_last();
    let tail = seq![z.last()];
    assert(z =~= parent + tail);
    if walk_strict(a.root@, parent) is None {
        lemma_strict_none_extends(a.root@, parent, tail);
    }
    lemma_walks_agree(a.root@, parent, tail);
    lemma_strict_is_lenient(a.root@, z);
    assert(tail.drop_first() =~= Seq::<usize>::empty());
    let pv = walk_strict(a.root@, parent).unwrap();
    assert(b.zoom_path@ == parent);
    assert(b.zoom_view() == pv);
    assert(walk_strict(a.root@, z) == walk_strict(pv, tail));
    assert(tail[0] == z.last());
    assert(walk_strict(pv, tail) is Some);
    assert(z.last() < pv.children.len());
    assert(walk_strict(pv, tail) == walk_strict(pv.children[z.last() as int], Seq::<usize>::empty()));
}

proof fn lemma_strict_none_extends(n: NodeView, z: Seq<usize>, s: Seq<usize>)
    requires
        walk_strict(n, z) is None,
    ensures
        walk_strict(n, z + s) is None,
    decreases z.len(),
{
    if z.len() > 0 {
        assert((z + s).drop_first() =~= z.drop_first() + s);
        assert((z + s)[0] == z[0]);
        if z[0] < n.children.len() {
            lemma_strict_none_extends(n.children[z[0] as int], z.drop_first(), s);
        }
    }
}

/// Zooming out right after zooming in on a one-level selection returns to
/// the zoom path from before.
pub proof fn lemma_zoom_out_undoes_zoom_in(a: App, b: App, c: App)
    requires
        App::navigated(a, b, a.zoom_in_nav()),
        App::navigated(b, c, b.zoom_out_nav()),
        a.selection@.len() == 1,
        a.selected_view() matches Some(v) && v.is_dir && v.children.len() > 0,
    ensures
        c.zoom_path@ == a.zoom_path@,
        c.selection@ == Seq::<usize>::empty(),
{
    assert((a.zoom_path@ + a.selection@).drop_last() =~= a.zoom_path@);
}

/// Moving the selection down one sibling and then up one returns to the
/// same selection, and each move keeps the last index among the siblings.
pub proof fn lemma_move_down_then_up(a: App, b: App)
    requires
        a.selection@.len() > 0,
        a.selection@.last() < a.sibling_parent(a.selection@).children.len(),
        a.sibling_parent(a.selection@).children.len() <= i32::MAX,
        App::navigated(a, b, (a.zoom_path@, a.moved_selection(1i32))),
    ensures
        a.can_move_sibling(1i32),
        b.can_move_sibling(-1i32),
        b.selection@.last() < b.sibling_parent(b.selection@).children.len(),
        b.moved_selection(-1i32) == a.selection@,
{
    let sel = a.selection@;
    let len = a.sibling_parent(sel).children.len();
    let last = sel.last();
    assert(a.selection_with_first() == sel);
    assert((last as i32) == last);
    assert((len as i32) == len);
    let x = last as int + 1;
    let m = (x % (len as int)) as usize;
    assert(b.selection@ == sel.update(sel.len() - 1, m));
    assert(b.selection@.drop_last() =~= sel.drop_last());
    assert(b.zoom_view() == a.zoom_view());
    assert(b.selection_with_first() == b.selection@);
    assert(b.sibling_parent(b.selection@) == a.sibling_parent(sel));
    assert(b.selection@.last() == m);
    assert((m as i32) == m);
    assert(((m as int - 1) % (len as int)) == last) by (nonlinear_arith)
        requires
            m == (last as int + 1) % (len as int),
            0 <= last < len,
    ;
    assert(b.moved_selection(-1i32) =~= sel);
}

proof fn lemma_mod_round_trip(l: int, d: int, n: int)
    requires
        0 <= l < n,
    ensures
        (((l + d) % n) - d) % n == l,
{
    let m = (l + d) % n;
    let q = (l + d) / n;
    vstd::arithmetic::div_mod::lemma_fundamental_div_mod(l + d, n);
    assert(m - d == n * (-q) + l) by (nonlinear_arith)
        requires
            l + d == n * q + m,
    ;
    vstd::arithmetic::div_mod::lemma_mod_multiples_vanish(-q, l, n);
    vstd::arithmetic::div_mod::lemma_small_mod(l as nat, n as nat);
}

/// Moving the selection `delta` siblings on and then `delta` back returns
/// to the same selection, for any step small enough that neither move
/// overflows `i32`.
pub proof fn lemma_move_there_and_back(a: App, b: App, delta: i32)
    requires
        a.selection@.len() > 0,
        a.selection@.last() < a.sibling_parent(a.selection@).children.len(),
        a.sibling_parent(a.selection@).children.len() <= i32::MAX,
        -(i32::MAX - a.sibling_parent(a.selection@).children.len()) <= delta <= i32::MAX - a.sibling_parent(
            a.selection@,
        ).children.len(),
        App::navigated(a, b, (a.zoom_path@, a.moved_selection(delta))),
    ensures
        a.can_move_sibling(delta),
        b.can_move_sibling(-delta as i32),
        b.selection@.last() < b.sibling_parent(b.selection@).children.len(),
        b.moved_selection(-delta as i32) == a.selection@,
{
    let sel = a.selection@;
    let len = a.sibling_parent(sel).children.len();
    let last = sel.last();
    assert(a.selection_with_first() == sel);
    assert((last as i32) == last);
    assert((len as i32) == len);
    let x = last as int + delta;
    let m = (x % (len as int)) as usize;
    assert(b.selection@ == sel.update(sel.len() - 1, m));
    assert(b.selection@.drop_last() =~= sel.drop_last());
    assert(b.zoom_view() == a.zoom_view());
    assert(b.selection_with_first() == b.selection@);
    assert(b.sibling_parent(b.selection@) == a.sibling_parent(sel));
    assert(b.selection@.last() == m);
    assert((m as i32) == m);
    assert((-delta as i32) == -delta);
    lemma_mod_round_trip(last as int, delta as int, len as int);
    assert(b.moved_selection(-delta as i32) =~= sel);
}

proof fn lemma_replace_then_subtree(v: NodeView, pos: Seq<int>, x: NodeView)
    requires
        pos_valid(v, pos),
    ensures
        pos_valid(v.replace_at(pos, x), pos),
        v.replace_at(pos, x).subtree_at(pos) == x,
    decreases pos.len(),
{
    if pos.len() > 0 {
        let i = pos[0];
        lemma_replace_then_subtree(v.children[i], pos.drop_first(), x);
        let w = v.replace_at(pos, x);
        assert(w.children[i] == v.children[i].replace_at(pos.drop_first(), x));
    }
}

/// A refresh puts the rescanned subtree exactly where the first node with
/// the refreshed path stood: when the root itself has that path, the whole
/// tree becomes the rescan; below the root, the node found for the path is
/// the rescan afterwards; and where no node has the path, nothing changes.
pub proof fn lemma_refresh_puts_fresh_in_place(root: NodeView, p: Seq<char>, fresh: NodeView)
    ensures
        path_eq(root.path, p) ==> tree_after_refresh(root, p, fresh) == fresh,
        root.find_pos(p) matches Some(pos) ==> pos_valid(tree_after_refresh(root, p, fresh), pos)
            && tree_after_refresh(root, p, fresh).subtree_at(pos) == fresh,
        root.find_pos(p) is None ==> tree_after_refresh(root, p, fresh) == root,
{
    lemma_find_pos_valid(root, p);
    if let Some(pos) = root.find_pos(p) {
        lemma_replace_then_subtree(root, pos, fresh);
    }
}

/// An entry is named by the final component of its path whenever the path
/// has one (a dot file such as `.bashrc` included), and by the whole path
/// otherwise.
pub proof fn lemma_entry_name_is_final_component(p: Seq<char>)
    ensures
        path_file_name(p) matches Some(n) ==> entry_name(p) == n,
        path_file_name(p) is None ==> entry_name(p) == p,
{
}

proof fn lemma_wrap_around(x: int, n: int)
    requires
        n > 0,
    ensures
        0 <= x % n < n,
        (x % n - x) % n == 0,
        0 <= x < n ==> x % n == x,
        x == n ==> x % n == 0,
        x == -1 ==> x % n == n - 1,
{
    vstd::arithmetic::div_mod::lemma_mod_bound(x, n);
    vstd::arithmetic::div_mod::lemma_fundamental_div_mod(x, n);
    let q = x / n;
    assert(x % n - x == (-q) * n) by (nonlinear_arith)
        requires
            x == n * q + x % n,
    ;
    vstd::arithmetic::div_mod::lemma_mod_multiples_basic(-q, n);
    if 0 <= x < n {
        vstd::arithmetic::div_mod::lemma_fundamental_div_mod_converse_mod(x, n, 0, x);
    }
    if x == n {
        vstd::arithmetic::div_mod::lemma_fundamental_div_mod_converse_mod(x, n, 1, 0);
    }
    if x == -1 {
        vstd::arithmetic::div_mod::lemma_fundamental_div_mod_converse_mod(x, n, -1, n - 1);
    }
}

/// A move goes `delta` places in the direction of its sign and wraps around
/// the siblings: only the last index of the selection changes; it stays
/// among the siblings and is congruent to the old index plus `delta`; a step
/// that stays in range lands exactly `delta` places on (down for a positive
/// `delta`, up for a negative one); stepping down past the last sibling
/// lands on the first, and stepping up past the first lands on the last.
pub proof fn lemma_move_steps_by_delta(a: App, b: App, delta: i32)
    requires
        a.selection@.len() > 0,
        a.selection@.last() < a.sibling_parent(a.selection@).children.len(),
        a.sibling_parent(a.selection@).children.len() <= i32::MAX,
        App::navigated(a, b, (a.zoom_path@, a.moved_selection(delta))),
    ensures
        b.selection@.len() == a.selection@.len(),
        b.selection@.drop_last() == a.selection@.drop_last(),
        b.selection@.last() < a.sibling_parent(a.selection@).children.len(),
        (b.selection@.last() - (a.selection@.last() + delta)) % (a.sibling_parent(
            a.selection@,
        ).children.len() as int) == 0,
        0 <= a.selection@.last() + delta < a.sibling_parent(a.selection@).children.len()
            ==> b.selection@.last() == a.selection@.last() + delta,
        a.selection@.last() + delta == a.sibling_parent(a.selection@).children.len()
            ==> b.selection@.last() == 0,
        a.selection@.last() + delta == -1 ==> b.selection@.last() == a.sibling_parent(
            a.selection@,
        ).children.len() - 1,
{
    let sel = a.selection@;
    let len = a.sibling_parent(sel).children.len();
    let last = sel.last();
    assert(a.selection_with_first() == sel);
    assert((last as i32) == last);
    assert((len as i32) == len);
    let x = last as int + delta;
    lemma_wrap_around(x, len as int);
    let m = (x % (len as int)) as usize;
    assert(b.selection@ == sel.update(sel.len() - 1, m));
    assert(b.selection@.drop_last() =~= sel.drop_last());
    assert(b.selection@.last() == m);
}

/// Zooming in changes nothing unless the selection is a directory with
/// entries: on a file, an empty directory or no selection, the zoom path
/// and the selection stay as they were.
pub proof fn lemma_zoom_in_needs_nonempty_dir(a: App, b: App)
    requires
        App::navigated(a, b, a.zoom_in_nav()),
        !(a.selected_view() matches Some(v) && v.is_dir && v.children.len() > 0),
    ensures
        b.zoom_path@ == a.zoom_path@,
        b.selection@ == a.selection@,
        b.zoom_view() == a.zoom_view(),
{
}

/// Zooming in from a zoom path that leads to a node either leaves the
/// navigation as it was or centers the view on a directory with entries:
/// the view never zooms into a file.
pub proof fn lemma_zoom_in_lands_on_folder(a: App, b: App)
    requires
        App::navigated(a, b, a.zoom_in_nav()),
        walk_strict(a.root@, a.zoom_path@) is Some,
    ensures
        (b.zoom_path@ == a.zoom_path@ && b.selection@ == a.selection@) || (b.zoom_view().is_dir
            && b.zoom_view().children.len() > 0),
{
    if a.selected_view() matches Some(v) && v.is_dir && v.children.len() > 0 {
        lemma_zoom_in_centers_selection(a, b);
    }
}


} // verus!
