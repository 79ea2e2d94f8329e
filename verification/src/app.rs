//! Application state: the scanned tree plus navigation (zoom and selection)
//! state, independent of any rendering.

use vstd::prelude::*;
use crate::model::{Node, NodeView, lemma_children_views};
use crate::scanner::{ScanProgress, ScanResult};
use crate::path::path_eq;

verus! {

broadcast use vstd::seq_lib::group_seq_properties;

/// What the user interface is doing.
pub enum Mode {
    Scanning,
    Browsing,
    ConfirmDelete,
    Error(String),
}

/// Total and available space of the filesystem that the scan root lives on.
#[derive(Debug, Clone, Copy, Default, PartialEq, Eq, Structural)]
pub struct DiskSpace {
    pub total: u64,
    pub available: u64,
}

impl DiskSpace {
    /// The used space: total minus available, or 0 where available exceeds
    /// total.
    pub fn used(&self) -> (r: u64)
        ensures
            r == (if self.total >= self.available {
                self.total - self.available
            } else {
                0
            }),
    {
        self.total.saturating_sub(self.available)
    }
}

/// Follows child indices from `n`, stopping at the first index that has no
/// child.
pub open spec fn walk_lenient(n: NodeView, path: Seq<usize>) -> NodeView
    decreases path.len(),
{
    if path.len() == 0 {
        n
    } else if path[0] < n.children.len() {
        walk_lenient(n.children[path[0] as int], path.drop_first())
    } else {
        n
    }
}

/// Follows child indices from `n`; `None` where an index has no child.
pub open spec fn walk_strict(n: NodeView, path: Seq<usize>) -> Option<NodeView>
    decreases path.len(),
{
    if path.len() == 0 {
        Some(n)
    } else if path[0] < n.children.len() {
        walk_strict(n.children[path[0] as int], path.drop_first())
    } else {
        None
    }
}

/// Follows child indices from `n`, passing over any index that has no child.
pub open spec fn walk_skipping(n: NodeView, path: Seq<usize>) -> NodeView
    decreases path.len(),
{
    if path.len() == 0 {
        n
    } else if path[0] < n.children.len() {
        walk_skipping(n.children[path[0] as int], path.drop_first())
    } else {
        walk_skipping(n, path.drop_first())
    }
}

/// The indices of `sel`, each lowered to the last child where it is past
/// it, cut off where a node has no children.
pub open spec fn clamp_path(n: NodeView, sel: Seq<usize>) -> Seq<usize>
    decreases sel.len(),
{
    if sel.len() == 0 || n.children.len() == 0 {
        Seq::empty()
    } else {
        let c = if sel[0] < n.children.len() {
            sel[0]
        } else {
            (n.children.len() - 1) as usize
        };
        seq![c] + clamp_path(n.children[c as int], sel.drop_first())
    }
}

/// The zoom path and selection that `clamp_selection` leaves for a tree:
/// a zoom path that leads nowhere is dropped, and the selection is clamped
/// below the zoom root.
pub open spec fn clamped_nav(root: NodeView, zoom: Seq<usize>, sel: Seq<usize>) -> (Seq<usize>, Seq<usize>) {
    match walk_strict(root, zoom) {
        Some(z) => (zoom, clamp_path(z, sel)),
        None => (Seq::empty(), clamp_path(root, sel)),
    }
}

/// The first removal of `path` below `root`, or `root` where there is none.
pub open spec fn tree_after_remove(root: NodeView, path: Seq<char>) -> NodeView {
    root.removal(path).1
}

/// The tree with the first node whose path equals `path` replaced by
/// `fresh`, or `root` where there is none.
pub open spec fn tree_after_refresh(root: NodeView, path: Seq<char>, fresh: NodeView) -> NodeView {
    match root.find_pos(path) {
        Some(pos) => root.replace_at(pos, fresh),
        None => root,
    }
}

/// The application state.
pub struct App {
    pub root: Node,
    /// Chain of child indices from `root` down to the current zoom root.
    pub zoom_path: Vec<usize>,
    /// Chain of child indices from the current zoom root down to the
    /// current selection.
    pub selection: Vec<usize>,
    pub mode: Mode,
    pub progress: ScanProgress,
    pub scan_errors: u64,
    pub status: Option<String>,
    pub disk_space: DiskSpace,
}

/// `new` differs from `old` at most in its zoom path and selection.
pub open spec fn same_but_navigation(old: App, new: App) -> bool {
    &&& new.root == old.root
    &&& new.mode == old.mode
    &&& new.progress == old.progress
    &&& new.scan_errors == old.scan_errors
    &&& new.status == old.status
    &&& new.disk_space == old.disk_space
}

impl App {
    /// The node at the center of the view (the zoom root).
    pub open spec fn zoom_view(self) -> NodeView {
        walk_lenient(self.root@, self.zoom_path@)
    }

    /// The selected node, where the selection is non-empty and leads to one.
    pub open spec fn selected_view(self) -> Option<NodeView> {
        if self.selection@.len() == 0 {
            None
        } else {
            walk_strict(self.zoom_view(), self.selection@)
        }
    }

    /// The selection after `select_first_if_none`.
    pub open spec fn selection_with_first(self) -> Seq<usize> {
        if self.selection@.len() == 0 && self.zoom_view().children.len() > 0 {
            seq![0usize]
        } else {
            self.selection@
        }
    }

    /// The node whose children the last selection index ranges over.
    pub open spec fn sibling_parent(self, sel: Seq<usize>) -> NodeView {
        walk_skipping(self.zoom_view(), sel.drop_last())
    }

    /// `move_sibling(delta)` does not overflow or divide by zero.
    pub open spec fn can_move_sibling(self, delta: i32) -> bool {
        let sel = self.selection_with_first();
        let len = self.sibling_parent(sel).children.len();
        sel.len() > 0 && len > 0 ==> {
            let x = (sel.last() as i32) + delta;
            &&& i32::MIN <= x <= i32::MAX
            &&& (len as i32) != 0
            &&& !(x == i32::MIN && (len as i32) == -1)
        }
    }

    /// The selection after `move_sibling(delta)`: the last index moves by
    /// `delta` and wraps around the number of siblings.
    pub open spec fn moved_selection(self, delta: i32) -> Seq<usize> {
        let sel = self.selection_with_first();
        let len = self.sibling_parent(sel).children.len();
        if sel.len() == 0 || len == 0 {
            sel
        } else {
            let x = (sel.last() as i32) + delta;
            sel.update(sel.len() - 1, (x % ((len as i32) as int)) as usize)
        }
    }

    /// The zoom path and selection after `zoom_in`.
    pub open spec fn zoom_in_nav(self) -> (Seq<usize>, Seq<usize>) {
        if self.selected_view() matches Some(v) && v.is_dir && v.children.len() > 0 {
            (self.zoom_path@ + self.selection@, Seq::empty())
        } else {
            (self.zoom_path@, self.selection@)
        }
    }

    /// The zoom path and selection after `zoom_out`.
    pub open spec fn zoom_out_nav(self) -> (Seq<usize>, Seq<usize>) {
        if self.zoom_path@.len() > 0 {
            (self.zoom_path@.drop_last(), Seq::empty())
        } else {
            (self.zoom_path@, self.selection@)
        }
    }

    /// The zoom path and selection are `nav`; nothing else changed.
    pub open spec fn navigated(old: App, new: App, nav: (Seq<usize>, Seq<usize>)) -> bool {
        &&& same_but_navigation(old, new)
        &&& (new.zoom_path@, new.selection@) == nav
    }

    /// A new application state over a scanned tree, browsing from its root.
    pub fn new(root: Node, disk_space: DiskSpace) -> (r: App)
        ensures
            r.root == root,
            r.zoom_path@ == Seq::<usize>::empty(),
            r.selection@ == Seq::<usize>::empty(),
            r.mode is Browsing,
            r.progress == (ScanProgress { scanned_entries: 0, errors: 0 }),
            r.scan_errors == 0,
            r.status is None,
            r.disk_space == disk_space,
    {
        App {
            root,
            zoom_path: Vec::new(),
            selection: Vec::new(),
            mode: Mode::Browsing,
            progress: ScanProgress { scanned_entries: 0, errors: 0 },
            scan_errors: 0,
            status: None,
            disk_space,
        }
    }

    /// The browsing state for a finished scan: its tree, with the number of
    /// entries it had to skip.
    pub fn from_scan(result: ScanResult, disk_space: DiskSpace) -> (r: App)
        ensures
            r.root == result.root,
            r.scan_errors == result.errors,
            r.zoom_path@ == Seq::<usize>::empty(),
            r.selection@ == Seq::<usize>::empty(),
            r.mode is Browsing,
            r.progress == (ScanProgress { scanned_entries: 0, errors: 0 }),
            r.status is None,
            r.disk_space == disk_space,
    {
        let mut app = App::new(result.root, disk_space);
        app.scan_errors = result.errors;
        app
    }

    /// The scan ended without a result: show the error screen.
    pub fn scan_lost(&mut self)
        ensures
            final(self).mode matches Mode::Error(m) && m@ == "Scan thread crashed"@,
            final(self).root == old(self).root,
            final(self).zoom_path == old(self).zoom_path,
            final(self).selection == old(self).selection,
            final(self).progress == old(self).progress,
            final(self).scan_errors == old(self).scan_errors,
            final(self).status == old(self).status,
            final(self).disk_space == old(self).disk_space,
    {
        self.mode = Mode::Error("Scan thread crashed".to_owned());
    }

    /// The node currently at the center of the view (the zoom root).
    pub fn zoom_root(&self) -> (r: &Node)
        ensures
            r@ == self.zoom_view(),
    {
        let zp = &self.zoom_path;
        let mut node = &self.root;
        let mut i: usize = 0;
        while i < zp.len()
            invariant
                0 <= i <= zp@.len(),
                zp@ == self.zoom_path@,
                walk_lenient(node@, zp@.skip(i as int)) == walk_lenient(self.root@, zp@),
            decreases zp@.len() - i,
        {
            let idx = zp[i];
            proof {
                assert(zp@.skip(i as int)[0] == idx);
                assert(zp@.skip(i as int).drop_first() =~= zp@.skip(i as int + 1));
                lemma_children_views(*node);
            }
            if idx < node.children.len() {
                node = &node.children[idx];
            } else {
                assert(walk_lenient(node@, zp@.skip(i as int)) == node@);
                return node;
            }
            i = i + 1;
        }
        proof {
            assert(zp@.skip(i as int) =~= Seq::<usize>::empty());
        }
        node
    }

    /// The zoom root if the zoom path leads to one.
    fn zoom_root_or_none(&self) -> (r: Option<&Node>)
        ensures
            match r {
                Some(n) => walk_strict(self.root@, self.zoom_path@) == Some(n@),
                None => walk_strict(self.root@, self.zoom_path@) is None,
            },
    {
        let zp = &self.zoom_path;
        let mut node = &self.root;
        let mut i: usize = 0;
        while i < zp.len()
            invariant
                0 <= i <= zp@.len(),
                zp@ == self.zoom_path@,
                walk_strict(node@, zp@.skip(i as int)) == walk_strict(self.root@, zp@),
            decreases zp@.len() - i,
        {
            let idx = zp[i];
            proof {
                assert(zp@.skip(i as int)[0] == idx);
                assert(zp@.skip(i as int).drop_first() =~= zp@.skip(i as int + 1));
                lemma_children_views(*node);
            }
            if idx < node.children.len() {
                node = &node.children[idx];
            } else {
                assert(walk_strict(node@, zp@.skip(i as int)) is None);
                return None;
            }
            i = i + 1;
        }
        proof {
            assert(zp@.skip(i as int) =~= Seq::<usize>::empty());
        }
        Some(node)
    }

    /// The path of the zoom root.
    pub fn zoom_root_path(&self) -> (r: String)
        ensures
            r@ == self.zoom_view().path,
    {
        self.zoom_root().path.clone()
    }

    /// The currently selected node (relative to the zoom root), if any.
    pub fn selected_node(&self) -> (r: Option<&Node>)
        ensures
            match r {
                Some(n) => self.selected_view() == Some(n@),
                None => self.selected_view() is None,
            },
    {
        if self.selection.len() == 0 {
            return None;
        }
        let sel = &self.selection;
        let mut node = self.zoom_root();
        let mut i: usize = 0;
        while i < sel.len()
            invariant
                0 <= i <= sel@.len(),
                sel@ == self.selection@,
                sel@.len() > 0,
                walk_strict(node@, sel@.skip(i as int)) == walk_strict(self.zoom_view(), sel@),
            decreases sel@.len() - i,
        {
            let idx = sel[i];
            proof {
                assert(sel@.skip(i as int)[0] == idx);
                assert(sel@.skip(i as int).drop_first() =~= sel@.skip(i as int + 1));
                lemma_children_views(*node);
            }
            if idx < node.children.len() {
                node = &node.children[idx];
            } else {
                assert(walk_strict(node@, sel@.skip(i as int)) is None);
                return None;
            }
            i = i + 1;
        }
        proof {
            assert(sel@.skip(i as int) =~= Seq::<usize>::empty());
        }
        Some(node)
    }

    /// The path of the selected node, if any.
    pub fn selected_path(&self) -> (r: Option<String>)
        ensures
            match r {
                Some(p) => self.selected_view() matches Some(v) && p@ == v.path,
                None => self.selected_view() is None,
            },
    {
        match self.selected_node() {
            Some(n) => Some(n.path.clone()),
            None => None,
        }
    }

    /// The breadcrumb shown above the list: the path of the zoom root.
    pub fn breadcrumb(&self) -> (r: String)
        ensures
            r@ == self.zoom_view().path,
    {
        self.zoom_root().path.clone()
    }

    /// Select the first child of the zoom root when nothing is selected.
    pub fn select_first_if_none(&mut self)
        ensures
            App::navigated(*old(self), *final(self), (old(self).zoom_path@, old(self).selection_with_first())),
    {
        if self.selection.len() == 0 && self.zoom_root().children.len() != 0 {
            self.selection.push(0);
        }
    }

    /// Move the selection to a sibling, `delta` places on, wrapping around.
    pub fn move_sibling(&mut self, delta: i32)
        requires
            old(self).can_move_sibling(delta),
        ensures
            App::navigated(*old(self), *final(self), (old(self).zoom_path@, old(self).moved_selection(delta))),
    {
        self.select_first_if_none();
        if self.selection.len() == 0 {
            return;
        }
        let len = self.parent_of_selection().children.len();
        if len == 0 {
            return;
        }
        let k = self.selection.len() - 1;
        let cur = self.selection[k] as i32;
        let m = len as i32;
        let x = cur + delta;
        let new_idx = x.checked_rem_euclid(m).unwrap() as usize;
        self.selection.set(k, new_idx);
    }

    /// The node whose children the last selection index ranges over.
    fn parent_of_selection(&self) -> (r: &Node)
        requires
            self.selection@.len() > 0,
        ensures
            r@ == self.sibling_parent(self.selection@),
    {
        let sel = &self.selection;
        let end = sel.len() - 1;
        let mut node = self.zoom_root();
        let mut i: usize = 0;
        while i < end
            invariant
                0 <= i <= end,
                end == sel@.len() - 1,
                walk_skipping(node@, sel@.drop_last().skip(i as int)) == walk_skipping(
                    self.zoom_view(),
                    sel@.drop_last(),
                ),
            decreases end - i,
        {
            let idx = sel[i];
            proof {
                assert(sel@.drop_last().skip(i as int)[0] == idx);
                assert(sel@.drop_last().skip(i as int).drop_first() =~= sel@.drop_last().skip(
                    i as int + 1,
                ));
                lemma_children_views(*node);
            }
            if idx < node.children.len() {
                node = &node.children[idx];
            }
            i = i + 1;
        }
        proof {
            assert(sel@.drop_last().skip(i as int) =~= Seq::<usize>::empty());
        }
        node
    }

    /// Whether `move_sibling(delta)` stays clear of overflow and division by
    /// zero (see `can_move_sibling`).
    pub fn move_sibling_fits(&self, delta: i32) -> (r: bool)
        ensures
            r == self.can_move_sibling(delta),
    {
        let (last, len) = if self.selection.len() == 0 {
            let len = self.zoom_root().children.len();
            if len == 0 {
                return true;
            }
            proof {
                assert(seq![0usize].drop_last() =~= Seq::<usize>::empty());
            }
            (0usize, len)
        } else {
            let k = self.selection.len() - 1;
            (self.selection[k], self.parent_of_selection().children.len())
        };
        if len == 0 {
            return true;
        }
        let x = (last as i32) as i64 + delta as i64;
        let m = len as i32;
        x >= i32::MIN as i64 && x <= i32::MAX as i64 && m != 0 && !(x == i32::MIN as i64 && m == -1)
    }

    /// Zoom into the selected directory, making it the new center.
    pub fn zoom_in(&mut self)
        ensures
            App::navigated(*old(self), *final(self), old(self).zoom_in_nav()),
    {
        let go = match self.selected_node() {
            Some(node) => node.is_dir && node.children.len() != 0,
            None => false,
        };
        if go {
            self.zoom_path.append(&mut self.selection);
        }
    }

    /// Zoom out one level: the parent of the zoom root becomes the center.
    pub fn zoom_out(&mut self)
        ensures
            App::navigated(*old(self), *final(self), old(self).zoom_out_nav()),
    {
        if self.zoom_path.pop().is_some() {
            self.selection.clear();
        }
    }

    /// Drop a zoom path that leads nowhere and clamp the selection to the
    /// tree as it is now.
    fn clamp_selection(&mut self)
        ensures
            App::navigated(
                *old(self),
                *final(self),
                clamped_nav(old(self).root@, old(self).zoom_path@, old(self).selection@),
            ),
    {
        if self.zoom_root_or_none().is_none() {
            self.zoom_path.clear();
        }
        let new_selection = {
            let base = match self.zoom_root_or_none() {
                Some(n) => n,
                None => &self.root,
            };
            clamp_indices(base, &self.selection)
        };
        self.selection = new_selection;
    }

    /// Replace the node at `path` with `fresh` (the result of a rescan),
    /// recompute sizes and order, and clamp the navigation to the new tree.
    pub fn refresh_path(&mut self, path: &String, fresh: Node)
        requires
            tree_after_refresh(old(self).root@, path@, fresh@).recompute_fits(),
        ensures
            final(self).root@ == tree_after_refresh(old(self).root@, path@, fresh@).recomputed(),
            path_eq(old(self).root@.path, path@) ==> final(self).root@ == fresh@.recomputed(),
            (final(self).zoom_path@, final(self).selection@) == clamped_nav(
                final(self).root@,
                old(self).zoom_path@,
                old(self).selection@,
            ),
            final(self).mode == old(self).mode,
            final(self).progress == old(self).progress,
            final(self).scan_errors == old(self).scan_errors,
            final(self).status == old(self).status,
            final(self).disk_space == old(self).disk_space,
    {
        match self.root.find_mut(path) {
            Some(node) => {
                *node = fresh;
            },
            None => {},
        }
        self.root.recompute();
        self.clamp_selection();
    }

    /// Remove the entry at `path` from the tree (after it was deleted on
    /// disk), recompute sizes and order, and clamp the navigation.
    pub fn remove_path(&mut self, path: &String)
        requires
            tree_after_remove(old(self).root@, path@).recompute_fits(),
        ensures
            final(self).root@ == tree_after_remove(old(self).root@, path@).recomputed(),
            (final(self).zoom_path@, final(self).selection@) == clamped_nav(
                final(self).root@,
                old(self).zoom_path@,
                old(self).selection@,
            ),
            final(self).mode == old(self).mode,
            final(self).progress == old(self).progress,
            final(self).scan_errors == old(self).scan_errors,
            final(self).status == old(self).status,
            final(self).disk_space == old(self).disk_space,
    {
        remove_from(&mut self.root, path);
        self.root.recompute();
        self.clamp_selection();
    }

    /// Whether `remove_path(path)` stays clear of `u64` overflow (see
    /// `tree_after_remove`).
    pub fn remove_path_fits(&self, path: &String) -> (r: bool)
        ensures
            r == tree_after_remove(self.root@, path@).recompute_fits(),
    {
        let mut probe = self.root.clone();
        remove_from(&mut probe, path);
        probe.recompute_fits()
    }

    /// Whether `refresh_path(path, fresh)` stays clear of `u64` overflow
    /// (see `tree_after_refresh`).
    pub fn refresh_path_fits(&self, path: &String, fresh: &Node) -> (r: bool)
        ensures
            r == tree_after_refresh(self.root@, path@, fresh@).recompute_fits(),
            path_eq(self.root@.path, path@) ==> r == fresh@.recompute_fits(),
    {
        let mut probe = self.root.clone();
        match probe.find_mut(path) {
            Some(node) => {
                *node = fresh.clone();
            },
            None => {},
        }
        probe.recompute_fits()
    }

    /// After `path` was deleted on disk: remove it from the tree, record the
    /// disk space queried afterwards, and report the delete.
    pub fn after_delete(&mut self, path: &String, disk_space: DiskSpace)
        requires
            tree_after_remove(old(self).root@, path@).recompute_fits(),
        ensures
            final(self).root@ == tree_after_remove(old(self).root@, path@).recomputed(),
            (final(self).zoom_path@, final(self).selection@) == clamped_nav(
                final(self).root@,
                old(self).zoom_path@,
                old(self).selection@,
            ),
            final(self).disk_space == disk_space,
            final(self).status matches Some(s) && s@ == "Deleted "@ + path@,
            final(self).mode == old(self).mode,
            final(self).progress == old(self).progress,
            final(self).scan_errors == old(self).scan_errors,
    {
        self.remove_path(path);
        self.refresh_disk_space(disk_space);
        self.status = Some("Deleted ".to_owned().concat(path.as_str()));
    }

    /// After a rescan of `path`: put the fresh subtree in place, record the
    /// disk space queried afterwards, and report the refresh.
    pub fn after_refresh(&mut self, path: &String, fresh: Node, disk_space: DiskSpace)
        requires
            tree_after_refresh(old(self).root@, path@, fresh@).recompute_fits(),
        ensures
            final(self).root@ == tree_after_refresh(old(self).root@, path@, fresh@).recomputed(),
            path_eq(old(self).root@.path, path@) ==> final(self).root@ == fresh@.recomputed(),
            (final(self).zoom_path@, final(self).selection@) == clamped_nav(
                final(self).root@,
                old(self).zoom_path@,
                old(self).selection@,
            ),
            final(self).disk_space == disk_space,
            final(self).status matches Some(s) && s@ == "Refreshed "@ + path@,
            final(self).mode == old(self).mode,
            final(self).progress == old(self).progress,
            final(self).scan_errors == old(self).scan_errors,
    {
        self.refresh_path(path, fresh);
        self.refresh_disk_space(disk_space);
        self.status = Some("Refreshed ".to_owned().concat(path.as_str()));
    }

    /// Record freshly queried total and available space.
    pub fn refresh_disk_space(&mut self, disk_space: DiskSpace)
        ensures
            final(self).disk_space == disk_space,
            final(self).root == old(self).root,
            final(self).zoom_path == old(self).zoom_path,
            final(self).selection == old(self).selection,
            final(self).mode == old(self).mode,
            final(self).progress == old(self).progress,
            final(self).scan_errors == old(self).scan_errors,
            final(self).status == old(self).status,
    {
        self.disk_space = disk_space;
    }
}

/// The selection indices clamped below `node` (see `clamp_path`).
fn clamp_indices(node: &Node, sel: &Vec<usize>) -> (r: Vec<usize>)
    ensures
        r@ == clamp_path(node@, sel@),
{
    let mut out: Vec<usize> = Vec::new();
    let mut cur = node;
    let mut i: usize = 0;
    while i < sel.len()
        invariant
            0 <= i <= sel@.len(),
            out@ + clamp_path(cur@, sel@.skip(i as int)) == clamp_path(node@, sel@),
        decreases sel@.len() - i,
    {
        proof {
            lemma_children_views(*cur);
            assert(sel@.skip(i as int)[0] == sel@[i as int]);
            assert(sel@.skip(i as int).drop_first() =~= sel@.skip(i as int + 1));
        }
        let len = cur.children.len();
        if len == 0 {
            proof {
                assert(out@ + Seq::<usize>::empty() =~= out@);
            }
            return out;
        }
        let idx = sel[i];
        let c = if idx < len {
            idx
        } else {
            len - 1
        };
        proof {
            assert(out@.push(c) + clamp_path(cur@.children[c as int], sel@.skip(i as int + 1))
                =~= out@ + clamp_path(cur@, sel@.skip(i as int)));
        }
        out.push(c);
        cur = &cur.children[c];
        i = i + 1;
    }
    proof {
        assert(sel@.skip(i as int) =~= Seq::<usize>::empty());
        assert(out@ + Seq::<usize>::empty() =~= out@);
    }
    out
}

/// Remove the entry at `path` from below `node`: at the first node (in
/// pre-order) that has a direct child with that path, every such child is
/// removed. Returns whether anything was removed.
pub fn remove_from(node: &mut Node, path: &String) -> (r: bool)
    ensures
        r == old(node)@.removal(path@).0,
        final(node)@ == old(node)@.removal(path@).1,
    decreases old(node)@,
{
    if node.remove_child(path) {
        return true;
    }
    let ghost old_v = node@;
    let n = node.children.len();
    let mut i: usize = 0;
    while i < n
        invariant
            n == node.children@.len(),
            0 <= i <= n,
            old_v == old(node)@,
            node@ == old_v,
            !old_v.has_child(path@),
            crate::model::removal_in(old_v.children, path@, 0) == crate::model::removal_in(
                old_v.children,
                path@,
                i as int,
            ),
        decreases n - i,
    {
        proof {
            lemma_children_views(*node);
            assert(decreases_to!(old_v => old_v.children[i as int]));
        }
        if remove_from(&mut node.children[i], path) {
            proof {
                lemma_children_views(*node);
                assert(node@.children =~= old_v.children.update(
                    i as int,
                    old_v.children[i as int].removal(path@).1,
                ));
            }
            return true;
        }
        proof {
            lemma_children_views(*node);
            assert(node@.children =~= old_v.children);
        }
        i = i + 1;
    }
    false
}

} // verus!
