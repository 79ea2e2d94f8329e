//! The `Node` tree: an in-memory picture of a scanned filesystem subtree,
//! with sizes rolled up from children to parents.

use vstd::prelude::*;
use crate::order::{sort_by_size, sort_by_size_desc, sum_sizes, lemma_sort_by_size};
use crate::path::{path_eq, path_file_name, entry_name, paths_equal, entry_name_of};

verus! {

broadcast use vstd::seq_lib::group_seq_properties;

/// A node of the size tree, as a mathematical value.
#[verifier::ext_equal]
pub struct NodeView {
    pub name: Seq<char>,
    pub path: Seq<char>,
    pub is_dir: bool,
    pub size: u64,
    pub children: Seq<NodeView>,
}

/// A childless, unnamed file of size 0.
pub open spec fn empty_view() -> NodeView {
    NodeView {
        name: Seq::empty(),
        path: Seq::empty(),
        is_dir: false,
        size: 0,
        children: Seq::empty(),
    }
}

/// A node in the filesystem size tree.
#[derive(Debug)]
pub struct Node {
    pub name: String,
    pub path: String,
    pub is_dir: bool,
    /// Total size in bytes (for directories: the sum of their children).
    pub size: u64,
    pub children: Vec<Node>,
}

impl Node {
    /// The node as a mathematical tree.
    pub open spec fn model(self) -> NodeView
        decreases self,
    {
        NodeView {
            name: self.name@,
            path: self.path@,
            is_dir: self.is_dir,
            size: self.size,
            children: Seq::new(
                self.children@.len(),
                |i: int|
                    if 0 <= i < self.children@.len() {
                        self.children@[i].model()
                    } else {
                        empty_view()
                    },
            ),
        }
    }
}

impl View for Node {
    type V = NodeView;

    open spec fn view(&self) -> NodeView {
        self.model()
    }
}

impl Clone for Node {
    /// A deep copy of the tree.
    fn clone(&self) -> (r: Node)
        ensures
            r@ == self@,
        decreases self@,
    {
        let n = self.children.len();
        let mut children: Vec<Node> = Vec::new();
        let mut i: usize = 0;
        while i < n
            invariant
                n == self.children@.len(),
                0 <= i <= n,
                children@.len() == i,
                forall|j: int| 0 <= j < i ==> #[trigger] children@[j]@ == self.children@[j]@,
            decreases n - i,
        {
            proof {
                lemma_children_views(*self);
                assert(decreases_to!(self@ => self@.children[i as int]));
            }
            children.push(self.children[i].clone());
            i = i + 1;
        }
        let r = Node {
            name: self.name.clone(),
            path: self.path.clone(),
            is_dir: self.is_dir,
            size: self.size,
            children,
        };
        proof {
            lemma_children_views(*self);
            lemma_children_views(r);
            assert(r@.children =~= self@.children);
        }
        r
    }
}

/// The views of a sequence of nodes.
pub open spec fn views(s: Seq<Node>) -> Seq<NodeView> {
    Seq::new(s.len(), |i: int| s[i]@)
}

/// A node's view holds the views of its children.
pub proof fn lemma_children_views(n: Node)
    ensures
        n@.children == views(n.children@),
{
    assert(n@.children =~= views(n.children@));
}

impl NodeView {
    /// The children after a recompute, before they are sorted: directories
    /// are recomputed, other entries are kept as they are.
    pub open spec fn recomputed_children(self) -> Seq<NodeView>
        decreases self, 0int,
    {
        Seq::new(
            self.children.len(),
            |i: int|
                if 0 <= i < self.children.len() {
                    if self.children[i].is_dir {
                        self.children[i].recomputed()
                    } else {
                        self.children[i]
                    }
                } else {
                    empty_view()
                },
        )
    }

    /// The tree after a recompute: every directory below is recomputed, the
    /// children are sorted by size, largest first, and a directory's size
    /// becomes the sum of its children's sizes.
    pub open spec fn recomputed(self) -> NodeView
        decreases self, 1int,
    {
        let kids = sort_by_size(self.recomputed_children());
        NodeView {
            size: if self.is_dir {
                sum_sizes(kids) as u64
            } else {
                self.size
            },
            children: kids,
            ..self
        }
    }

    /// A recompute of this tree has no sum that overflows `u64`.
    pub open spec fn recompute_fits(self) -> bool
        decreases self,
    {
        &&& self.is_dir ==> sum_sizes(self.recomputed_children()) <= u64::MAX
        &&& forall|i: int|
            #![trigger self.children[i]]
            0 <= i < self.children.len() && self.children[i].is_dir ==> self.children[i].recompute_fits()
    }

    /// The position of the first node (in pre-order) whose path equals `p`.
    pub open spec fn find_pos(self, p: Seq<char>) -> Option<Seq<int>>
        decreases self, 0int,
    {
        if path_eq(self.path, p) {
            Some(Seq::empty())
        } else {
            find_in(self.children, p, 0)
        }
    }

    /// The subtree at a position (a chain of child indices).
    pub open spec fn subtree_at(self, pos: Seq<int>) -> NodeView
        decreases pos.len(),
    {
        if pos.len() == 0 {
            self
        } else {
            self.children[pos[0]].subtree_at(pos.drop_first())
        }
    }

    /// The tree with the subtree at `pos` replaced by `new`.
    pub open spec fn replace_at(self, pos: Seq<int>, new: NodeView) -> NodeView
        decreases pos.len(),
    {
        if pos.len() == 0 {
            new
        } else {
            NodeView {
                children: self.children.update(
                    pos[0],
                    self.children[pos[0]].replace_at(pos.drop_first(), new),
                ),
                ..self
            }
        }
    }

    /// The children left after removing every child whose path equals `p`.
    pub open spec fn children_without(self, p: Seq<char>) -> Seq<NodeView> {
        self.children.filter(path_differs(p))
    }

    /// Some direct child has a path equal to `p`.
    pub open spec fn has_child(self, p: Seq<char>) -> bool {
        exists|i: int| 0 <= i < self.children.len() && path_eq(#[trigger] self.children[i].path, p)
    }

    /// The first node (in pre-order) that has a direct child with path `p`
    /// loses all such children; the flag says whether any node had one.
    pub open spec fn removal(self, p: Seq<char>) -> (bool, NodeView)
        decreases self, 0int,
    {
        if self.has_child(p) {
            (true, NodeView { children: self.children_without(p), ..self })
        } else {
            match removal_in(self.children, p, 0) {
                Some((j, c)) => (true, NodeView { children: self.children.update(j, c), ..self }),
                None => (false, self),
            }
        }
    }
}

/// Holds of a node whose path differs from `p`.
pub open spec fn path_differs(p: Seq<char>) -> spec_fn(NodeView) -> bool {
    |c: NodeView| !path_eq(c.path, p)
}

/// Filtering keeps the sequence exactly when every element passes, and
/// shortens it otherwise.
pub proof fn lemma_filter_keeps_all<A>(s: Seq<A>, pred: spec_fn(A) -> bool)
    ensures
        (forall|i: int| 0 <= i < s.len() ==> #[trigger] pred(s[i])) ==> s.filter(pred) == s,
        (exists|i: int| 0 <= i < s.len() && !#[trigger] pred(s[i])) ==> s.filter(pred).len() < s.len(),
    decreases s.len(),
{
    reveal(Seq::filter);
    if s.len() > 0 {
        let rest = s.drop_last();
        lemma_filter_keeps_all(rest, pred);
        rest.lemma_filter_len(pred);
        if forall|i: int| 0 <= i < s.len() ==> #[trigger] pred(s[i]) {
            assert forall|i: int| 0 <= i < rest.len() implies #[trigger] pred(rest[i]) by {
                assert(pred(s[i]));
            }
            assert(s =~= rest.push(s.last()));
        }
        if exists|i: int| 0 <= i < s.len() && !#[trigger] pred(s[i]) {
            let i = choose|i: int| 0 <= i < s.len() && !#[trigger] pred(s[i]);
            if i < s.len() - 1 {
                assert(!pred(rest[i]));
            }
        }
    }
}

/// The first match, in pre-order, among `s[i..]`, with its position.
pub open spec fn find_in(s: Seq<NodeView>, p: Seq<char>, i: int) -> Option<Seq<int>>
    decreases s, s.len() - i,
{
    if i < 0 || i >= s.len() {
        None
    } else {
        match s[i].find_pos(p) {
            Some(q) => Some(seq![i] + q),
            None => find_in(s, p, i + 1),
        }
    }
}

/// The first child among `s[i..]` in which a removal happens, with the
/// child after the removal.
pub open spec fn removal_in(s: Seq<NodeView>, p: Seq<char>, i: int) -> Option<(int, NodeView)>
    decreases s, s.len() - i,
{
    if i < 0 || i >= s.len() {
        None
    } else {
        let (b, c) = s[i].removal(p);
        if b {
            Some((i, c))
        } else {
            removal_in(s, p, i + 1)
        }
    }
}

/// `new` is `old` with the node at `pos` replaced by `x`, as exec values.
pub open spec fn replaced_at(old: Node, new: Node, pos: Seq<int>, x: Node) -> bool
    decreases pos.len(),
{
    if pos.len() == 0 {
        new == x
    } else {
        &&& new.name == old.name
        &&& new.path == old.path
        &&& new.is_dir == old.is_dir
        &&& new.size == old.size
        &&& 0 <= pos[0] < old.children@.len()
        &&& new.children@ == old.children@.update(pos[0], new.children@[pos[0]])
        &&& replaced_at(
            old.children@[pos[0]],
            new.children@[pos[0]],
            pos.drop_first(),
            x,
        )
    }
}

/// A replacement made on exec nodes is the same replacement on their views.
pub broadcast proof fn lemma_replaced_at_model(old: Node, new: Node, pos: Seq<int>, x: Node)
    requires
        #[trigger] replaced_at(old, new, pos, x),
    ensures
        new@ == old@.replace_at(pos, x@),
    decreases pos.len(),
{
    if pos.len() > 0 {
        let i = pos[0];
        lemma_replaced_at_model(old.children@[i], new.children@[i], pos.drop_first(), x);
        assert(new@.children =~= old@.children.update(
            i,
            old@.children[i].replace_at(pos.drop_first(), x@),
        ));
    }
}

proof fn lemma_sum_prefix(s: Seq<NodeView>, i: int)
    requires
        0 <= i <= s.len(),
    ensures
        sum_sizes(s.take(i)) <= sum_sizes(s),
        i < s.len() ==> sum_sizes(s.take(i + 1)) == sum_sizes(s.take(i)) + s[i].size,
    decreases s.len(),
{
    if i < s.len() {
        assert(s.take(i + 1).drop_last() =~= s.take(i));
    }
    if s.len() > 0 {
        if i == s.len() {
            assert(s.take(i) =~= s);
        } else {
            lemma_sum_prefix(s.drop_last(), i);
            assert(s.drop_last().take(i) =~= s.take(i));
        }
    }
}

/// The sum of the sizes of the nodes, computed without overflow.
fn total_size(nodes: &Vec<Node>) -> (r: u64)
    requires
        sum_sizes(views(nodes@)) <= u64::MAX,
    ensures
        r == sum_sizes(views(nodes@)),
{
    let ghost s = views(nodes@);
    let n = nodes.len();
    let mut total: u64 = 0;
    let mut i: usize = 0;
    while i < n
        invariant
            n == nodes@.len(),
            s == views(nodes@),
            sum_sizes(s) <= u64::MAX,
            0 <= i <= n,
            total == sum_sizes(s.take(i as int)),
        decreases n - i,
    {
        proof {
            lemma_sum_prefix(s, i as int);
            lemma_sum_prefix(s, i as int + 1);
        }
        total = total + nodes[i].size;
        i = i + 1;
    }
    proof {
        assert(s.take(n as int) =~= s);
    }
    total
}

impl Node {
    /// A file node of the given size.
    pub fn new_file(path: String, size: u64) -> (r: Node)
        ensures
            r@ == (NodeView {
                name: entry_name(path@),
                path: path@,
                is_dir: false,
                size,
                children: Seq::empty(),
            }),
            path_file_name(path@) matches Some(n) ==> r@.name == n,
    {
        let name = entry_name_of(&path);
        let r = Node { name, path, is_dir: false, size, children: Vec::new() };
        assert(r@.children =~= Seq::<NodeView>::empty());
        r
    }

    /// A directory node over the given children: its size is the sum of
    /// theirs and they are sorted by size, largest first (stably).
    pub fn new_dir(path: String, children: Vec<Node>) -> (r: Node)
        requires
            sum_sizes(views(children@)) <= u64::MAX,
        ensures
            r@ == (NodeView {
                name: entry_name(path@),
                path: path@,
                is_dir: true,
                size: sum_sizes(views(children@)) as u64,
                children: sort_by_size(views(children@)),
            }),
            path_file_name(path@) matches Some(n) ==> r@.name == n,
    {
        let size = total_size(&children);
        let name = entry_name_of(&path);
        let mut children = children;
        sort_by_size_desc(&mut children);
        let r = Node { name, path, is_dir: true, size, children };
        proof {
            lemma_children_views(r);
        }
        r
    }

    /// Recompute this node's size and re-sort children by size, largest
    /// first.
    pub fn recompute(&mut self)
        requires
            old(self)@.recompute_fits(),
        ensures
            final(self)@ == old(self)@.recomputed(),
        decreases old(self)@,
    {
        let ghost old_v = self@;
        let n = self.children.len();
        let mut i: usize = 0;
        while i < n
            invariant
                n == self.children@.len(),
                0 <= i <= n,
                old_v == old(self)@,
                old_v.children.len() == n,
                old_v.recompute_fits(),
                self.name@ == old_v.name,
                self.path@ == old_v.path,
                self.is_dir == old_v.is_dir,
                self.size == old_v.size,
                forall|j: int| 0 <= j < i ==> #[trigger] self.children@[j]@ == old_v.recomputed_children()[j],
                forall|j: int| i <= j < n ==> #[trigger] self.children@[j]@ == old_v.children[j],
            decreases n - i,
        {
            if self.children[i].is_dir {
                proof {
                    assert(self.children@[i as int]@ == old_v.children[i as int]);
                    assert(old_v.children[i as int].recompute_fits());
                    assert(decreases_to!(old_v => old_v.children[i as int]));
                }
                self.children[i].recompute();
            }
            i = i + 1;
        }
        proof {
            assert(views(self.children@) =~= old_v.recomputed_children());
            lemma_sort_by_size(old_v.recomputed_children());
        }
        sort_by_size_desc(&mut self.children);
        if self.is_dir {
            self.size = total_size(&self.children);
        }
        proof {
            lemma_children_views(*self);
        }
    }

    /// Remove every direct child whose path equals `path`; returns true if
    /// any was removed.
    pub fn remove_child(&mut self, path: &String) -> (r: bool)
        ensures
            r == old(self)@.has_child(path@),
            r == (final(self)@.children.len() < old(self)@.children.len()),
            final(self)@ == (NodeView { children: old(self)@.children_without(path@), ..old(self)@ }),
            !r ==> final(self)@ == old(self)@,
    {
        let ghost old_v = self@;
        let ghost pred = path_differs(path@);
        let mut kids: Vec<Node> = Vec::new();
        std::mem::swap(&mut kids, &mut self.children);
        let ghost all = views(kids@);
        proof {
            lemma_children_views(*old(self));
        }
        let mut kept: Vec<Node> = Vec::new();
        let mut removed = false;
        for c in it: kids.into_iter()
            invariant
                it.seq() == kids@,
                all == views(kids@),
                all == old_v.children,
                pred == path_differs(path@),
                self.name@ == old_v.name,
                self.path@ == old_v.path,
                self.is_dir == old_v.is_dir,
                self.size == old_v.size,
                views(kept@) == all.take(it.index()).filter(pred),
                removed == exists|j: int| 0 <= j < it.index() && path_eq(#[trigger] all[j].path, path@),
        {
            let ghost k = it.index();
            let ghost kept_before = kept@;
            proof {
                assert(c@ == all[k]);
                assert(all.take(k + 1) =~= all.take(k).push(all[k]));
                all.take(k).lemma_filter_push(all[k], pred);
            }
            if paths_equal(&c.path, path) {
                removed = true;
            } else {
                kept.push(c);
                assert(views(kept@) =~= views(kept_before).push(all[k]));
            }
        }
        self.children = kept;
        proof {
            lemma_filter_keeps_all(all, pred);
            if removed {
                let j = choose|j: int| 0 <= j < all.len() && path_eq(#[trigger] all[j].path, path@);
                assert(!pred(all[j]));
            } else {
                assert forall|j: int| 0 <= j < all.len() implies #[trigger] pred(all[j]) by {
                    assert(!path_eq(all[j].path, path@));
                }
            }
            assert(all.take(all.len() as int) =~= all);
            lemma_children_views(*self);
        }
        removed
    }


    /// Whether some node of this subtree has a path equal to `path`.
    fn contains_path(&self, path: &String) -> (r: bool)
        ensures
            r == self@.find_pos(path@) is Some,
        decreases self,
    {
        if paths_equal(&self.path, path) {
            return true;
        }
        let n = self.children.len();
        let mut i: usize = 0;
        while i < n
            invariant
                n == self.children@.len(),
                0 <= i <= n,
                !path_eq(self@.path, path@),
                find_in(self@.children, path@, 0) == find_in(self@.children, path@, i as int),
            decreases n - i,
        {
            if self.children[i].contains_path(path) {
                return true;
            }
            i = i + 1;
        }
        false
    }

    /// The first child whose subtree holds a node with path `path`.
    fn first_child_containing(&self, path: &String) -> (r: Option<usize>)
        ensures
            match r {
                None => find_in(self@.children, path@, 0) is None,
                Some(i) => {
                    &&& i < self.children@.len()
                    &&& self@.children[i as int].find_pos(path@) is Some
                    &&& find_in(self@.children, path@, 0) == Some(
                        seq![i as int] + self@.children[i as int].find_pos(path@).unwrap(),
                    )
                },
            },
    {
        let n = self.children.len();
        let mut i: usize = 0;
        while i < n
            invariant
                n == self.children@.len(),
                0 <= i <= n,
                find_in(self@.children, path@, 0) == find_in(self@.children, path@, i as int),
            decreases n - i,
        {
            if self.children[i].contains_path(path) {
                return Some(i);
            }
            i = i + 1;
        }
        None
    }

    /// Find the node whose path equals `path` in this subtree (the first one
    /// in pre-order), for changing it in place.
    pub fn find_mut(&mut self, path: &String) -> (r: Option<&mut Node>)
        ensures
            r is Some <==> old(self)@.find_pos(path@) is Some,
            r is None ==> final(self)@ == old(self)@,
            r is Some ==> (*r.unwrap())@ == old(self)@.subtree_at(old(self)@.find_pos(path@).unwrap()),
            r is Some ==> path_eq((*r.unwrap()).path@, path@),
            r is Some ==> replaced_at(
                *old(self),
                *final(self),
                old(self)@.find_pos(path@).unwrap(),
                *final(r.unwrap()),
            ),
            r is Some ==> final(self)@ == old(self)@.replace_at(
                old(self)@.find_pos(path@).unwrap(),
                (*final(r.unwrap()))@,
            ),
        decreases old(self)@,
    {
        broadcast use lemma_replaced_at_model;

        if paths_equal(&self.path, path) {
            return Some(self);
        }
        match self.first_child_containing(path) {
            None => None,
            Some(i) => {
                let ghost old_v = self@;
                let ghost q = old_v.children[i as int].find_pos(path@).unwrap();
                proof {
                    assert((seq![i as int] + q).drop_first() =~= q);
                }
                self.children[i].find_mut(path)
            },
        }
    }

    /// The size this node has after a recompute, or `None` where a
    /// recompute of this subtree would overflow a sum.
    fn recomputed_size(&self) -> (r: Option<u64>)
        ensures
            r is Some <==> self@.recompute_fits(),
            r matches Some(s) ==> s == self@.recomputed().size,
        decreases self@,
    {
        let ghost v = self@;
        let ghost kids = v.recomputed_children();
        proof {
            lemma_sort_by_size(kids);
        }
        let n = self.children.len();
        let mut total: u64 = 0;
        let mut i: usize = 0;
        while i < n
            invariant
                v == self@,
                kids == v.recomputed_children(),
                n == v.children.len(),
                0 <= i <= n,
                forall|j: int| 0 <= j < i && #[trigger] v.children[j].is_dir ==> v.children[j].recompute_fits(),
                v.is_dir ==> total == sum_sizes(kids.take(i as int)),
            decreases n - i,
        {
            proof {
                lemma_children_views(*self);
                assert(decreases_to!(v => v.children[i as int]));
                lemma_sum_prefix(kids, i as int);
            }
            let child = &self.children[i];
            let s = if child.is_dir {
                match child.recomputed_size() {
                    Some(s) => s,
                    None => {
                        return None;
                    },
                }
            } else {
                child.size
            };
            if self.is_dir {
                match total.checked_add(s) {
                    Some(t) => {
                        total = t;
                    },
                    None => {
                        proof {
                            lemma_sum_prefix(kids, i as int + 1);
                        }
                        return None;
                    },
                }
            }
            i = i + 1;
        }
        proof {
            assert(kids.take(n as int) =~= kids);
        }
        if self.is_dir {
            Some(total)
        } else {
            Some(self.size)
        }
    }

    /// Whether a recompute of this subtree stays clear of `u64` overflow.
    pub fn recompute_fits(&self) -> (r: bool)
        ensures
            r == self@.recompute_fits(),
    {
        self.recomputed_size().is_some()
    }
}

} // verus!
