//! The navigation state machine over a built tree.
use vstd::prelude::*;
use crate::order::{identity, lemma_sorted_perm, sort_indices, sorted_order, SortBy};
use crate::tree::DirEntryInfo;

verus! {

broadcast use vstd::seq_lib::group_to_multiset_ensures;

/// The node reached from `n` by following the child indices `idx`.
pub open spec fn node_at(n: DirEntryInfo, idx: Seq<usize>) -> DirEntryInfo
    decreases idx.len(),
{
    if idx.len() == 0 {
        n
    } else {
        let m = node_at(n, idx.drop_last());
        if idx.last() < m.children.len() {
            m.children[idx.last() as int]
        } else {
            m
        }
    }
}

/// The number of directories among `kids`.
pub open spec fn count_dirs(kids: Seq<DirEntryInfo>) -> int
    decreases kids.len(),
{
    if kids.len() == 0 {
        0
    } else {
        count_dirs(kids.drop_last()) + if kids.last().is_dir {
            1int
        } else {
            0
        }
    }
}

/// Each index of `idx` names a child of the node reached before it.
pub open spec fn valid_path(n: DirEntryInfo, idx: Seq<usize>) -> bool
    decreases idx.len(),
{
    idx.len() == 0 || (valid_path(n, idx.drop_last()) && idx.last() < node_at(
        n,
        idx.drop_last(),
    ).children.len())
}

/// The browsing state: the tree, the path from its root to the directory in
/// view (as child indices), the order in which that directory's children are
/// listed, the sort order, and the selected row.
pub struct App {
    pub root: DirEntryInfo,
    pub stack: Vec<usize>,
    pub order: Vec<usize>,
    pub sort_by: SortBy,
    pub selected: usize,
}

impl App {
    /// The directory in view.
    pub open spec fn current(&self) -> DirEntryInfo {
        node_at(self.root, self.stack@)
    }

    /// The number of children of the directory in view.
    pub open spec fn width(&self) -> nat {
        self.current().children.len() as nat
    }

    /// The listing of the directory in view, row by row.
    pub open spec fn rows(&self) -> Seq<DirEntryInfo> {
        self.order@.map_values(|k: usize| self.current().children[k as int])
    }

    pub open spec fn wf(&self) -> bool {
        &&& valid_path(self.root, self.stack@)
        &&& self.order@.to_multiset() == identity(self.width()).to_multiset()
        &&& if self.width() == 0 {
            self.selected == 0
        } else {
            self.selected < self.width()
        }
    }

    /// The number of directories on the navigation stack, the root included.
    pub open spec fn depth(&self) -> nat {
        (self.stack.len() + 1) as nat
    }

    /// Starts browsing at `root`, sorted by size, with the first row selected.
    pub fn new(root: DirEntryInfo) -> (r: App)
        ensures
            r.wf(),
            r.root == root,
            r.stack@.len() == 0,
            r.sort_by == SortBy::Size,
            r.selected == 0,
            r.order@ == sorted_order(SortBy::Size, root.children@, identity(root.children.len() as nat)),
    {
        let mut app = App { root, stack: Vec::new(), order: Vec::new(), sort_by: SortBy::Size, selected: 0 };
        app.order = first_listing(SortBy::Size, &app.root.children);
        app
    }

    /// The directory in view.
    pub fn current_node(&self) -> (r: &DirEntryInfo)
        requires
            self.wf(),
        ensures
            *r == self.current(),
    {
        node_ref(&self.root, &self.stack)
    }

    /// Re-sorts the listing of the directory in view under the active order,
    /// stably with respect to its present order. The selected row index stays.
    pub fn sort_children(&mut self)
        requires
            old(self).wf(),
        ensures
            final(self).wf(),
            final(self).order@ == sorted_order(old(self).sort_by, old(self).current().children@, old(self).order@),
            final(self).root == old(self).root,
            final(self).stack == old(self).stack,
            final(self).sort_by == old(self).sort_by,
            final(self).selected == old(self).selected,
    {
        let ghost kids = self.current().children@;
        let ghost old_order = self.order@;
        proof {
            assert forall|k: int| 0 <= k < self.order.len() implies self.order@[k] < kids.len() by {
                assert(self.order@.to_multiset().count(self.order@[k]) > 0);
                assert(identity(kids.len()).contains(self.order@[k]));
            }
            lemma_sorted_perm(self.sort_by, kids, old_order);
        }
        let cur = node_ref(&self.root, &self.stack);
        sort_indices(self.sort_by, &cur.children, &mut self.order);
    }

    /// Flips between name and size order and re-sorts the listing.
    pub fn toggle_sort(&mut self)
        requires
            old(self).wf(),
        ensures
            final(self).wf(),
            final(self).sort_by == match old(self).sort_by {
                SortBy::Name => SortBy::Size,
                SortBy::Size => SortBy::Name,
            },
            final(self).order@ == sorted_order(final(self).sort_by, old(self).current().children@, old(self).order@),
            final(self).root == old(self).root,
            final(self).stack == old(self).stack,
            final(self).selected == old(self).selected,
    {
        self.sort_by = match self.sort_by {
            SortBy::Name => SortBy::Size,
            SortBy::Size => SortBy::Name,
        };
        self.sort_children();
    }

    /// Opens the selected row when it is a directory with children: pushes it,
    /// lists its children under the active order and selects the first row.
    /// Files and empty directories are not entered; nothing changes then.
    pub fn navigate_into(&mut self) -> (r: bool)
        requires
            old(self).wf(),
        ensures
            final(self).wf(),
            r == (old(self).width() > 0 && old(self).rows()[old(self).selected as int].is_dir
                && old(self).rows()[old(self).selected as int].children.len() > 0),
            r ==> {
                &&& final(self).stack@ == old(self).stack@.push(old(self).order@[old(self).selected as int])
                &&& final(self).current() == old(self).rows()[old(self).selected as int]
                &&& final(self).selected == 0
                &&& final(self).order@ == sorted_order(
                    final(self).sort_by,
                    final(self).current().children@,
                    identity(final(self).width()),
                )
                &&& final(self).root == old(self).root
                &&& final(self).sort_by == old(self).sort_by
            },
            !r ==> *final(self) == *old(self),
    {
        proof {
            vstd::seq_lib::to_multiset_len(self.order@);
            vstd::seq_lib::to_multiset_len(identity(self.width()));
        }
        if self.order.len() == 0 {
            return false;
        }
        let k = self.order[self.selected];
        proof {
            assert(self.order@.to_multiset().count(k) > 0);
            assert(identity(self.width()).contains(k));
        }
        let cur = node_ref(&self.root, &self.stack);
        let c = &cur.children[k];
        if c.is_dir && c.children.len() > 0 {
            let order = first_listing(self.sort_by, &c.children);
            let ghost old_stack = self.stack@;
            self.stack.push(k);
            proof {
                assert(self.stack@.drop_last() =~= old_stack);
            }
            self.order = order;
            self.selected = 0;
            true
        } else {
            false
        }
    }

    /// Goes back to the parent directory, lists it under the active order and
    /// selects its first row. Does nothing at the root.
    pub fn navigate_out(&mut self) -> (r: bool)
        requires
            old(self).wf(),
        ensures
            final(self).wf(),
            r == (old(self).depth() > 1),
            r ==> {
                &&& final(self).stack@ == old(self).stack@.drop_last()
                &&& final(self).selected == 0
                &&& final(self).order@ == sorted_order(
                    final(self).sort_by,
                    final(self).current().children@,
                    identity(final(self).width()),
                )
                &&& final(self).root == old(self).root
                &&& final(self).sort_by == old(self).sort_by
            },
            !r ==> *final(self) == *old(self),
    {
        if self.stack.len() == 0 {
            return false;
        }
        self.stack.pop();
        let order = {
            let cur = node_ref(&self.root, &self.stack);
            first_listing(self.sort_by, &cur.children)
        };
        self.order = order;
        self.selected = 0;
        true
    }

    /// How many of the listed children are files and how many directories.
    pub fn child_counts(&self) -> (r: (usize, usize))
        requires
            self.wf(),
        ensures
            r.1 as int == count_dirs(self.current().children@),
            r.0 as int + r.1 as int == self.width(),
    {
        let cur = node_ref(&self.root, &self.stack);
        let mut files: usize = 0;
        let mut dirs: usize = 0;
        let mut i: usize = 0;
        while i < cur.children.len()
            invariant
                i <= cur.children.len(),
                dirs as int == count_dirs(cur.children@.subrange(0, i as int)),
                files as int + dirs as int == i,
            decreases cur.children.len() - i,
        {
            assert(cur.children@.subrange(0, i as int + 1).drop_last() =~= cur.children@.subrange(0, i as int));
            if cur.children[i].is_dir {
                dirs = dirs + 1;
            } else {
                files = files + 1;
            }
            i = i + 1;
        }
        assert(cur.children@.subrange(0, i as int) =~= cur.children@);
        (files, dirs)
    }

    /// Moves the selection by `delta` rows, wrapping around at both ends; does
    /// nothing in an empty directory.
    pub fn move_selection(&mut self, delta: isize)
        requires
            old(self).wf(),
        ensures
            final(self).wf(),
            old(self).width() == 0 ==> *final(self) == *old(self),
            old(self).width() > 0 ==> final(self).selected as int == (old(self).selected as int
                + delta as int) % (old(self).width() as int),
            final(self).root == old(self).root,
            final(self).stack == old(self).stack,
            final(self).order == old(self).order,
            final(self).sort_by == old(self).sort_by,
    {
        let len = self.order.len();
        proof {
            vstd::seq_lib::to_multiset_len(self.order@);
            vstd::seq_lib::to_multiset_len(identity(self.width()));
        }
        if len == 0 {
            return;
        }
        let n = len as u128;
        let sel = self.selected as u128;
        let s: u128 = if delta >= 0 {
            let d = (delta as u128) % n;
            proof {
                vstd::arithmetic::div_mod::lemma_add_mod_noop_right(sel as int, delta as int, n as int);
            }
            (sel + d) % n
        } else {
            let a = (-(delta as i128)) as u128;
            let d = a % n;
            proof {
                let q = a as int / n as int;
                let b = sel as int + n as int - d as int;
                vstd::arithmetic::div_mod::lemma_fundamental_div_mod(a as int, n as int);
                vstd::arithmetic::div_mod::lemma_mod_multiples_vanish(-q - 1, b, n as int);
                assert(n as int * (-q - 1) == -(n as int * q) - n as int) by (nonlinear_arith);
                assert(n as int * (-q - 1) + b == sel as int + delta as int);
            }
            (sel + n - d) % n
        };
        self.selected = s as usize;
    }
}

/// The node reached from `root` by following the child indices `stack`.
fn node_ref<'a>(root: &'a DirEntryInfo, stack: &Vec<usize>) -> (r: &'a DirEntryInfo)
    requires
        valid_path(*root, stack@),
    ensures
        *r == node_at(*root, stack@),
{
    let mut cur = root;
    let mut i: usize = 0;
    while i < stack.len()
        invariant
            i <= stack.len(),
            valid_path(*root, stack@),
            *cur == node_at(*root, stack@.subrange(0, i as int)),
        decreases stack.len() - i,
    {
        proof {
            let p = stack@.subrange(0, i as int + 1);
            assert(p.drop_last() =~= stack@.subrange(0, i as int));
            lemma_valid_prefix(*root, stack@, i as int + 1);
        }
        cur = &cur.children[stack[i]];
        i = i + 1;
    }
    assert(stack@.subrange(0, i as int) =~= stack@);
    cur
}

/// The listing of a directory just entered: its children sorted under `o`,
/// ties kept in tree order.
fn first_listing(o: SortBy, kids: &Vec<DirEntryInfo>) -> (r: Vec<usize>)
    ensures
        r@ == sorted_order(o, kids@, identity(kids.len() as nat)),
        r@.to_multiset() == identity(kids.len() as nat).to_multiset(),
{
    let mut v: Vec<usize> = Vec::new();
    let mut i: usize = 0;
    while i < kids.len()
        invariant
            i <= kids.len(),
            v@ == identity(i as nat),
        decreases kids.len() - i,
    {
        v.push(i);
        assert(v@ =~= identity(i as nat + 1));
        i = i + 1;
    }
    proof {
        lemma_sorted_perm(o, kids@, v@);
    }
    sort_indices(o, kids, &mut v);
    v
}

proof fn lemma_valid_prefix(n: DirEntryInfo, idx: Seq<usize>, k: int)
    requires
        valid_path(n, idx),
        0 <= k <= idx.len(),
    ensures
        valid_path(n, idx.subrange(0, k)),
    decreases idx.len(),
{
    if k < idx.len() {
        assert(idx.drop_last().subrange(0, k) =~= idx.subrange(0, k));
        lemma_valid_prefix(n, idx.drop_last(), k);
    } else {
        assert(idx.subrange(0, k) =~= idx);
    }
}

} // verus!
