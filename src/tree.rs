//! The sized directory tree built from a scan's records.
use vstd::prelude::*;
use crate::paths::{clone_path, is_child, is_child_path, is_prefix, path_le, path_lex_le, pview, PathBuf};
use crate::sizes::{aggregate_sizes, sum_sizes, total_under, Entry, SizeMap};

verus! {

broadcast use {vstd::std_specs::vec::group_vec_axioms, vstd::seq_lib::group_to_multiset_ensures};

/// A node of the tree: a file or directory with its inclusive size and, for a
/// directory, its immediate children.
pub struct DirEntryInfo {
    pub path: PathBuf,
    pub size: u64,
    pub is_dir: bool,
    pub children: Vec<DirEntryInfo>,
}

impl DirEntryInfo {
    pub open spec fn path_view(&self) -> Seq<Seq<u8>> {
        pview(self.path@)
    }
}

/// The records that are immediate children of `p`, in record order.
pub open spec fn children_of(es: Seq<Entry>, p: Seq<Seq<u8>>) -> Seq<Entry>
    decreases es.len(),
{
    if es.len() == 0 {
        Seq::empty()
    } else if is_child_path(es.last().path_view(), p) {
        children_of(es.drop_last(), p).push(es.last())
    } else {
        children_of(es.drop_last(), p)
    }
}

/// `n` is the node that the records `es` give for `n`'s path: its size is the
/// inclusive total of that path, and its children are the nodes of the records
/// one level below it, in record order.
pub open spec fn built_from(n: DirEntryInfo, es: Seq<Entry>) -> bool
    decreases n,
{
    &&& n.size == total_under(es, n.path_view())
    &&& n.children.len() == children_of(es, n.path_view()).len()
    &&& forall|i: int|
        0 <= i < n.children.len() ==> {
            &&& (#[trigger] n.children[i]).path_view() == children_of(es, n.path_view())[i].path_view()
            &&& n.children[i].is_dir == children_of(es, n.path_view())[i].is_dir
            &&& built_from(n.children[i], es)
        }
}

/// The length of the longest record path.
pub open spec fn max_depth(es: Seq<Entry>) -> int
    decreases es.len(),
{
    if es.len() == 0 {
        0
    } else {
        let d = max_depth(es.drop_last());
        if es.last().path.len() > d {
            es.last().path.len() as int
        } else {
            d
        }
    }
}

proof fn lemma_max_depth(es: Seq<Entry>, j: int)
    requires
        0 <= j < es.len(),
    ensures
        es[j].path.len() <= max_depth(es),
    decreases es.len(),
{
    if j < es.len() - 1 {
        lemma_max_depth(es.drop_last(), j);
    }
}

/// Builds the node for `path` and, recursively, every node below it.
fn build_node(path: &PathBuf, sizes: &SizeMap, is_dir: bool, entries: &Vec<Entry>) -> (r:
    DirEntryInfo)
    requires
        sizes.wf(),
        sizes.entries@ == entries@,
    ensures
        r.path_view() == pview(path@),
        r.is_dir == is_dir,
        built_from(r, entries@),
    decreases max_depth(entries@) + 1 - path.len(),
{
    let ghost es = entries@;
    let ghost p = pview(path@);
    let mut children: Vec<DirEntryInfo> = Vec::new();
    let mut i: usize = 0;
    while i < entries.len()
        invariant
            i <= entries.len(),
            es == entries@,
            p == pview(path@),
            sizes.wf(),
            sizes.entries@ == entries@,
            children.len() == children_of(es.subrange(0, i as int), p).len(),
            forall|k: int|
                0 <= k < children.len() ==> {
                    &&& (#[trigger] children@[k]).path_view() == children_of(
                        es.subrange(0, i as int),
                        p,
                    )[k].path_view()
                    &&& children@[k].is_dir == children_of(es.subrange(0, i as int), p)[k].is_dir
                    &&& built_from(children@[k], es)
                },
        decreases entries.len() - i,
    {
        let e = &entries[i];
        proof {
            assert(es.subrange(0, i as int + 1).drop_last() =~= es.subrange(0, i as int));
            assert(es.subrange(0, i as int + 1).last() == es[i as int]);
        }
        if is_child(&e.path, path) {
            proof {
                lemma_max_depth(es, i as int);
                assert(pview(e.path@).len() == e.path.len());
                assert(p.len() == path.len());
            }
            let c = build_node(&e.path, sizes, e.is_dir, entries);
            children.push(c);
        }
        i = i + 1;
    }
    assert(es.subrange(0, i as int) =~= es);
    let size = sizes.get(path);
    DirEntryInfo { path: clone_path(path), size, is_dir, children }
}

/// `t` with `x` placed after the last record whose path is at most `x`'s.
pub open spec fn insert_by_path(t: Seq<Entry>, x: Entry) -> Seq<Entry>
    decreases t.len(),
{
    if t.len() == 0 {
        seq![x]
    } else if path_lex_le(t.last().path_view(), x.path_view()) {
        t.push(x)
    } else {
        insert_by_path(t.drop_last(), x).push(t.last())
    }
}

/// The records in path order; records with equal paths keep their order.
pub open spec fn sorted_by_path(s: Seq<Entry>) -> Seq<Entry>
    decreases s.len(),
{
    if s.len() == 0 {
        s
    } else {
        insert_by_path(sorted_by_path(s.drop_last()), s.last())
    }
}

proof fn lemma_insert_by_path_sum(t: Seq<Entry>, x: Entry)
    ensures
        sum_sizes(insert_by_path(t, x)) == sum_sizes(t) + x.size,
    decreases t.len(),
{
    if t.len() == 0 {
        assert(seq![x].drop_last() =~= Seq::<Entry>::empty());
        assert(seq![x].last() == x);
        assert(sum_sizes(Seq::<Entry>::empty()) == 0);
    } else if path_lex_le(t.last().path_view(), x.path_view()) {
        assert(t.push(x).drop_last() =~= t);
        assert(t.push(x).last() == x);
    } else {
        lemma_insert_by_path_sum(t.drop_last(), x);
        let u = insert_by_path(t.drop_last(), x);
        assert(u.push(t.last()).drop_last() =~= u);
        assert(u.push(t.last()).last() == t.last());
    }
}

/// Sorting the records keeps the sum of their sizes.
pub proof fn lemma_sorted_by_path_sum(s: Seq<Entry>)
    ensures
        sum_sizes(sorted_by_path(s)) == sum_sizes(s),
    decreases s.len(),
{
    if s.len() > 0 {
        lemma_sorted_by_path_sum(s.drop_last());
        lemma_insert_by_path_sum(sorted_by_path(s.drop_last()), s.last());
    }
}

/// Stably sorts the records by path (insertion sort).
pub fn sort_entries(es: &mut Vec<Entry>)
    ensures
        final(es)@ == sorted_by_path(old(es)@),
{
    let ghost s = es@;
    let mut i: usize = 0;
    while i < es.len()
        invariant
            i <= es.len(),
            es.len() == s.len(),
            es@.subrange(0, i as int) == sorted_by_path(s.subrange(0, i as int)),
            es@.subrange(i as int, es.len() as int) == s.subrange(i as int, s.len() as int),
        decreases es.len() - i,
    {
        let ghost t = es@.subrange(0, i as int);
        let ghost x = es@[i as int];
        proof {
            assert(s.subrange(0, i as int + 1).drop_last() =~= s.subrange(0, i as int));
            assert(s[i as int] == es@.subrange(i as int, es.len() as int)[0]);
            assert(t.subrange(0, i as int) =~= t);
            assert(t.subrange(i as int, i as int) =~= Seq::<Entry>::empty());
        }
        let mut j: usize = i;
        while j > 0 && !path_le(&es[j - 1].path, &es[i].path)
            invariant
                j <= i,
                i < es.len(),
                x == es@[i as int],
                t == es@.subrange(0, i as int),
                insert_by_path(t, x) == insert_by_path(t.subrange(0, j as int), x) + t.subrange(
                    j as int,
                    i as int,
                ),
            decreases j,
        {
            proof {
                let tj = t.subrange(0, j as int);
                assert(tj.drop_last() =~= t.subrange(0, j as int - 1));
                assert(tj.last() == t[j as int - 1]);
                assert(t.subrange(j as int - 1, i as int) =~= seq![t[j as int - 1]] + t.subrange(
                    j as int,
                    i as int,
                ));
                assert(insert_by_path(t.subrange(0, j as int - 1), x).push(t[j as int - 1])
                    + t.subrange(j as int, i as int) =~= insert_by_path(
                    t.subrange(0, j as int - 1),
                    x,
                ) + t.subrange(j as int - 1, i as int));
            }
            j = j - 1;
        }
        proof {
            let tj = t.subrange(0, j as int);
            assert(insert_by_path(tj, x) == tj.push(x)) by {
                if j == 0 {
                    assert(seq![x] =~= tj.push(x));
                }
            }
        }
        let ghost before_remove = es@;
        let e = es.remove(i);
        es.insert(j, e);
        proof {
            let tj = t.subrange(0, j as int);
            assert(es@.subrange(0, i as int + 1) =~= tj.push(x) + t.subrange(j as int, i as int));
            assert(es@.subrange(i as int + 1, es.len() as int) =~= s.subrange(
                i as int + 1,
                s.len() as int,
            )) by {
                assert(before_remove.subrange(i as int, es.len() as int) == s.subrange(
                    i as int,
                    s.len() as int,
                ));
                assert forall|k: int| i + 1 <= k < es.len() implies es@[k] == s[k] by {
                    assert(es@[k] == before_remove[k]);
                    assert(before_remove[k] == before_remove.subrange(i as int, es.len() as int)[k
                        - i]);
                }
            }
        }
        i = i + 1;
    }
    assert(es@.subrange(0, i as int) =~= es@);
    assert(s.subrange(0, i as int) =~= s);
}

/// Builds the tree rooted at `root` from a scan's records, taken in path
/// order. The root is a directory node whether or not a record names it; every
/// node's size is the inclusive total of its path, and its children are the
/// records one level below it, in path order.
pub fn build_tree(root: &PathBuf, entries: Vec<Entry>) -> (r: DirEntryInfo)
    requires
        sum_sizes(entries@) <= u64::MAX,
    ensures
        r.path_view() == pview(root@),
        r.is_dir,
        built_from(r, sorted_by_path(entries@)),
{
    let mut entries = entries;
    proof {
        lemma_sorted_by_path_sum(entries@);
    }
    sort_entries(&mut entries);
    let sizes = aggregate_sizes(&entries);
    build_node(root, &sizes, true, &entries)
}

/// The records a scan can produce under `root`: paths are unique and lie at or
/// under `root`; directories have size 0; a record at `root` is a directory;
/// and every ancestor of a record strictly between `root` and it is a
/// directory record.
pub open spec fn records_valid(es: Seq<Entry>, root: Seq<Seq<u8>>) -> bool {
    &&& forall|i: int, j: int|
        0 <= i < es.len() && 0 <= j < es.len() && i != j ==> (#[trigger] es[i]).path_view()
            != (#[trigger] es[j]).path_view()
    &&& forall|i: int| 0 <= i < es.len() ==> is_prefix(root, (#[trigger] es[i]).path_view())
    &&& forall|i: int| 0 <= i < es.len() && (#[trigger] es[i]).is_dir ==> es[i].size == 0
    &&& forall|i: int| 0 <= i < es.len() && (#[trigger] es[i]).path_view() == root ==> es[i].is_dir
    &&& forall|i: int, m: int|
        0 <= i < es.len() && root.len() < m < es[i].path.len() ==> #[trigger] has_dir(
            es,
            es[i].path_view().subrange(0, m),
        )
}

/// Some record at `q` is a directory.
pub open spec fn has_dir(es: Seq<Entry>, q: Seq<Seq<u8>>) -> bool {
    exists|j: int| 0 <= j < es.len() && (#[trigger] es[j]).path_view() == q && es[j].is_dir
}

/// The sum of the sizes of the records at exactly `p`.
pub open spec fn own_size(es: Seq<Entry>, p: Seq<Seq<u8>>) -> int
    decreases es.len(),
{
    if es.len() == 0 {
        0
    } else {
        own_size(es.drop_last(), p) + if es.last().path_view() == p {
            es.last().size as int
        } else {
            0
        }
    }
}

/// The sum of the file sizes among the records.
pub open spec fn file_bytes(es: Seq<Entry>) -> int
    decreases es.len(),
{
    if es.len() == 0 {
        0
    } else {
        file_bytes(es.drop_last()) + if es.last().is_dir {
            0
        } else {
            es.last().size as int
        }
    }
}

/// The sum of the sizes of `kids`.
pub open spec fn sum_child_sizes(kids: Seq<DirEntryInfo>) -> int
    decreases kids.len(),
{
    if kids.len() == 0 {
        0
    } else {
        sum_child_sizes(kids.drop_last()) + kids.last().size as int
    }
}

/// Every directory node's size is the sum of its children's sizes, and every
/// file node's size is that of its record; so throughout the tree below `n`.
pub open spec fn sizes_consistent(n: DirEntryInfo, es: Seq<Entry>) -> bool
    decreases n,
{
    &&& n.is_dir ==> n.size == sum_child_sizes(n.children@)
    &&& !n.is_dir ==> n.size == own_size(es, n.path_view())
    &&& forall|i: int|
        0 <= i < n.children.len() ==> sizes_consistent(#[trigger] n.children[i], es)
}

/// The sum over `cs` of the inclusive totals of their paths within `es`.
pub open spec fn sum_totals(cs: Seq<Entry>, es: Seq<Entry>) -> int
    decreases cs.len(),
{
    if cs.len() == 0 {
        0
    } else {
        sum_totals(cs.drop_last(), es) + total_under(es, cs.last().path_view())
    }
}

/// How many of `cs` lie at or above `x`.
pub open spec fn count_prefixes(cs: Seq<Entry>, x: Seq<Seq<u8>>) -> int
    decreases cs.len(),
{
    if cs.len() == 0 {
        0
    } else {
        count_prefixes(cs.drop_last(), x) + if is_prefix(cs.last().path_view(), x) {
            1int
        } else {
            0
        }
    }
}

proof fn lemma_children_of_facts(es: Seq<Entry>, p: Seq<Seq<u8>>)
    ensures
        forall|i: int|
            0 <= i < children_of(es, p).len() ==> is_child_path(
                (#[trigger] children_of(es, p)[i]).path_view(),
                p,
            ) && es.contains(children_of(es, p)[i]),
        forall|j: int|
            0 <= j < es.len() && is_child_path((#[trigger] es[j]).path_view(), p) ==> children_of(
                es,
                p,
            ).contains(es[j]),
        (forall|i: int, j: int|
            0 <= i < es.len() && 0 <= j < es.len() && i != j ==> (#[trigger] es[i]).path_view()
                != (#[trigger] es[j]).path_view()) ==> forall|i: int, j: int|
            0 <= i < children_of(es, p).len() && 0 <= j < children_of(es, p).len() && i != j
                ==> (#[trigger] children_of(es, p)[i]).path_view() != (#[trigger] children_of(
                es,
                p,
            )[j]).path_view(),
    decreases es.len(),
{
    if es.len() > 0 {
        let e0 = es.drop_last();
        lemma_children_of_facts(e0, p);
        let c0 = children_of(e0, p);
        let c = children_of(es, p);
        assert forall|i: int| 0 <= i < c0.len() implies es.contains(#[trigger] c0[i]) by {
            let k = choose|k: int| 0 <= k < e0.len() && e0[k] == c0[i];
            assert(es[k] == c0[i]);
        }
        assert forall|j: int|
            0 <= j < es.len() && is_child_path((#[trigger] es[j]).path_view(), p) implies c.contains(
            es[j],
        ) by {
            if j < es.len() - 1 {
                assert(e0[j] == es[j]);
                let k = choose|k: int| 0 <= k < c0.len() && c0[k] == e0[j];
                assert(c[k] == es[j]);
            } else {
                assert(c[c.len() - 1] == es[j]);
            }
        }
        if forall|i: int, j: int|
            0 <= i < es.len() && 0 <= j < es.len() && i != j ==> (#[trigger] es[i]).path_view()
                != (#[trigger] es[j]).path_view() {
            assert forall|i: int, j: int|
                0 <= i < e0.len() && 0 <= j < e0.len() && i != j implies (#[trigger] e0[i]).path_view()
                != (#[trigger] e0[j]).path_view() by {
                assert(e0[i] == es[i] && e0[j] == es[j]);
            }
            if is_child_path(es.last().path_view(), p) {
                assert forall|i: int| 0 <= i < c0.len() implies (#[trigger] c0[i]).path_view()
                    != es.last().path_view() by {
                    let k = choose|k: int| 0 <= k < e0.len() && e0[k] == c0[i];
                    assert(es[k] == e0[k]);
                    assert(es[es.len() - 1] == es.last());
                }
            }
        }
    }
}

proof fn lemma_count_zero(cs: Seq<Entry>, x: Seq<Seq<u8>>)
    requires
        forall|i: int| 0 <= i < cs.len() ==> !is_prefix((#[trigger] cs[i]).path_view(), x),
    ensures
        count_prefixes(cs, x) == 0,
    decreases cs.len(),
{
    if cs.len() > 0 {
        lemma_count_zero(cs.drop_last(), x);
    }
}

proof fn lemma_count_one(cs: Seq<Entry>, x: Seq<Seq<u8>>, a: Seq<Seq<u8>>)
    requires
        forall|i: int| 0 <= i < cs.len() ==> (is_prefix((#[trigger] cs[i]).path_view(), x) <==> cs[i].path_view() == a),
        forall|i: int, j: int|
            0 <= i < cs.len() && 0 <= j < cs.len() && i != j ==> (#[trigger] cs[i]).path_view()
                != (#[trigger] cs[j]).path_view(),
        exists|i: int| 0 <= i < cs.len() && (#[trigger] cs[i]).path_view() == a,
    ensures
        count_prefixes(cs, x) == 1,
    decreases cs.len(),
{
    let c0 = cs.drop_last();
    assert forall|i: int| 0 <= i < c0.len() implies c0[i] == cs[i] by {}
    if cs.last().path_view() == a {
        assert forall|i: int| 0 <= i < c0.len() implies !is_prefix((#[trigger] c0[i]).path_view(), x) by {
            assert(cs[i] != cs[cs.len() - 1] || i == cs.len() - 1);
            assert(cs[i].path_view() != cs[cs.len() - 1].path_view());
        }
        lemma_count_zero(c0, x);
    } else {
        let k = choose|i: int| 0 <= i < cs.len() && (#[trigger] cs[i]).path_view() == a;
        assert(k < cs.len() - 1);
        assert(c0[k].path_view() == a);
        lemma_count_one(c0, x, a);
    }
}

proof fn lemma_sum_totals_step(cs: Seq<Entry>, es: Seq<Entry>, k: int)
    requires
        0 <= k < es.len(),
    ensures
        sum_totals(cs, es.subrange(0, k + 1)) == sum_totals(cs, es.subrange(0, k)) + es[k].size
            * count_prefixes(cs, es[k].path_view()),
    decreases cs.len(),
{
    assert(es.subrange(0, k + 1).drop_last() =~= es.subrange(0, k));
    if cs.len() > 0 {
        lemma_sum_totals_step(cs.drop_last(), es, k);
        assert(es[k].size * count_prefixes(cs, es[k].path_view()) == es[k].size * count_prefixes(
            cs.drop_last(),
            es[k].path_view(),
        ) + if is_prefix(cs.last().path_view(), es[k].path_view()) {
            es[k].size as int
        } else {
            0
        }) by (nonlinear_arith)
            requires
                count_prefixes(cs, es[k].path_view()) == count_prefixes(cs.drop_last(), es[k].path_view())
                    + if is_prefix(cs.last().path_view(), es[k].path_view()) {
                    1int
                } else {
                    0
                },
        ;
    }
}

proof fn lemma_prefix_trans(a: Seq<Seq<u8>>, b: Seq<Seq<u8>>, c: Seq<Seq<u8>>)
    requires
        is_prefix(a, b),
        is_prefix(b, c),
    ensures
        is_prefix(a, c),
{
    assert(c.subrange(0, a.len() as int) =~= b.subrange(0, a.len() as int));
}

/// Within valid records, the children of the node at `p` (the root, or a
/// directory record) split its inclusive total among themselves, counted over
/// the first `k` records.
proof fn lemma_children_split_upto(es: Seq<Entry>, root: Seq<Seq<u8>>, p: Seq<Seq<u8>>, k: int)
    requires
        records_valid(es, root),
        is_prefix(root, p),
        0 <= k <= es.len(),
    ensures
        sum_totals(children_of(es, p), es.subrange(0, k)) + own_size(es.subrange(0, k), p)
            == total_under(es.subrange(0, k), p),
    decreases k,
{
    let cs = children_of(es, p);
    lemma_children_of_facts(es, p);
    if k == 0 {
        assert(es.subrange(0, 0) =~= Seq::<Entry>::empty());
        lemma_sum_totals_zero(cs, es.subrange(0, 0));
    } else {
        let k = k - 1;
        lemma_children_split_upto(es, root, p, k);
        let x = es[k].path_view();
        lemma_sum_totals_step(cs, es, k);
        assert(es.subrange(0, k + 1).drop_last() =~= es.subrange(0, k));
        assert(es.subrange(0, k + 1).last() == es[k]);
        if es[k].size == 0 {
            assert(es[k].size * count_prefixes(cs, x) == 0);
        } else {
            if !is_prefix(p, x) {
                assert forall|i: int| 0 <= i < cs.len() implies !is_prefix((#[trigger] cs[i]).path_view(), x) by {
                    if is_prefix(cs[i].path_view(), x) {
                        lemma_prefix_trans(p, cs[i].path_view(), x);
                    }
                }
                lemma_count_zero(cs, x);
                assert(es[k].size * count_prefixes(cs, x) == 0);
                assert(p.subrange(0, p.len() as int) =~= p);
            } else if x.len() == p.len() {
                assert(x =~= p);
                assert forall|i: int| 0 <= i < cs.len() implies !is_prefix((#[trigger] cs[i]).path_view(), x) by {}
                lemma_count_zero(cs, x);
                assert(es[k].size * count_prefixes(cs, x) == 0);
            } else {
                let a = x.subrange(0, p.len() + 1int);
                assert(es[k].path.len() == x.len());
                assert forall|i: int| 0 <= i < cs.len() implies (is_prefix((#[trigger] cs[i]).path_view(), x)
                    <==> cs[i].path_view() == a) by {
                    let c = cs[i].path_view();
                    if is_prefix(c, x) {
                        assert(c =~= a);
                    }
                    if c == a {
                        assert(x.subrange(0, a.len() as int) =~= a);
                    }
                }
                if x.len() == p.len() + 1 {
                    assert(a =~= x);
                    assert(p.len() == x.len() - 1);
                    assert(x.subrange(0, p.len() as int) == p);
                    assert(is_child_path(es[k].path_view(), p));
                    let i = choose|i: int| 0 <= i < cs.len() && cs[i] == es[k];
                    assert(cs[i].path_view() == a);
                } else {
                    assert(has_dir(es, es[k].path_view().subrange(0, p.len() + 1int)));
                    let j = choose|j: int| 0 <= j < es.len() && (#[trigger] es[j]).path_view() == a && es[j].is_dir;
                    assert(a.subrange(0, p.len() as int) =~= x.subrange(0, p.len() as int));
                    assert(is_child_path(es[j].path_view(), p));
                    let i = choose|i: int| 0 <= i < cs.len() && cs[i] == es[j];
                    assert(cs[i].path_view() == a);
                }
                lemma_count_one(cs, x, a);
                assert(x != p);
                assert(es[k].size * count_prefixes(cs, x) == es[k].size);
            }
        }
        let e1 = es.subrange(0, k + 1);
        let sz = es[k].size as int;
        assert(own_size(e1, p) == own_size(es.subrange(0, k), p) + if x == p { sz } else { 0 });
        assert(total_under(e1, p) == total_under(es.subrange(0, k), p) + if is_prefix(p, x) { sz } else { 0 });
        assert(sum_totals(cs, e1) == sum_totals(cs, es.subrange(0, k)) + es[k].size * count_prefixes(cs, x));
    }
}

/// Within valid records, the children of the node at `p` (the root, or a
/// directory record) split its inclusive total among themselves.
proof fn lemma_children_split(es: Seq<Entry>, root: Seq<Seq<u8>>, p: Seq<Seq<u8>>)
    requires
        records_valid(es, root),
        is_prefix(root, p),
    ensures
        sum_totals(children_of(es, p), es) + own_size(es, p) == total_under(es, p),
{
    lemma_children_split_upto(es, root, p, es.len() as int);
    assert(es.subrange(0, es.len() as int) =~= es);
}

proof fn lemma_sum_totals_zero(cs: Seq<Entry>, es: Seq<Entry>)
    requires
        es.len() == 0,
    ensures
        sum_totals(cs, es) == 0,
    decreases cs.len(),
{
    if cs.len() > 0 {
        lemma_sum_totals_zero(cs.drop_last(), es);
    }
}

proof fn lemma_sum_children(kids: Seq<DirEntryInfo>, cs: Seq<Entry>, es: Seq<Entry>)
    requires
        kids.len() == cs.len(),
        forall|i: int| 0 <= i < kids.len() ==> (#[trigger] kids[i]).size == total_under(es, cs[i].path_view()),
    ensures
        sum_child_sizes(kids) == sum_totals(cs, es),
    decreases kids.len(),
{
    if kids.len() > 0 {
        let k0 = kids.drop_last();
        let c0 = cs.drop_last();
        assert forall|i: int| 0 <= i < k0.len() implies (#[trigger] k0[i]).size == total_under(es, c0[i].path_view()) by {
            assert(k0[i] == kids[i] && c0[i] == cs[i]);
        }
        lemma_sum_children(k0, c0, es);
        assert(kids[kids.len() - 1] == kids.last());
    }
}

proof fn lemma_own_zero(es: Seq<Entry>, p: Seq<Seq<u8>>)
    requires
        forall|j: int| 0 <= j < es.len() && (#[trigger] es[j]).path_view() == p ==> es[j].size == 0,
    ensures
        own_size(es, p) == 0,
    decreases es.len(),
{
    if es.len() > 0 {
        let e0 = es.drop_last();
        assert forall|j: int| 0 <= j < e0.len() && (#[trigger] e0[j]).path_view() == p implies e0[j].size == 0 by {
            assert(e0[j] == es[j]);
        }
        lemma_own_zero(e0, p);
        assert(es[es.len() - 1] == es.last());
    }
}

proof fn lemma_sum_totals_empty(cs: Seq<Entry>, es: Seq<Entry>)
    requires
        cs.len() == 0,
    ensures
        sum_totals(cs, es) == 0,
{
}

proof fn lemma_consistent_below(n: DirEntryInfo, es: Seq<Entry>, root: Seq<Seq<u8>>)
    requires
        records_valid(es, root),
        built_from(n, es),
        is_prefix(root, n.path_view()),
        n.is_dir ==> forall|j: int|
            0 <= j < es.len() && (#[trigger] es[j]).path_view() == n.path_view() ==> es[j].is_dir,
        !n.is_dir ==> exists|j: int|
            0 <= j < es.len() && (#[trigger] es[j]).path_view() == n.path_view() && !es[j].is_dir,
    ensures
        sizes_consistent(n, es),
    decreases n,
{
    let p = n.path_view();
    let cs = children_of(es, p);
    lemma_children_split(es, root, p);
    lemma_children_of_facts(es, p);
    assert forall|i: int| 0 <= i < n.children.len() implies (#[trigger] n.children@[i]).size
        == total_under(es, cs[i].path_view()) by {
        assert(n.children@[i] == n.children[i]);
        assert(built_from(n.children[i], es));
        assert(n.children[i].size == total_under(es, n.children[i].path_view()));
    }
    lemma_sum_children(n.children@, cs, es);
    if n.is_dir {
        lemma_own_zero(es, p);
    } else {
        let j = choose|j: int| 0 <= j < es.len() && (#[trigger] es[j]).path_view() == p && !es[j].is_dir;
        assert(p.len() > root.len()) by {
            if p.len() == root.len() {
                assert(p =~= root);
            }
        }
        if cs.len() > 0 {
            let c = cs[0];
            assert(is_child_path(c.path_view(), p));
            let k = choose|k: int| 0 <= k < es.len() && es[k] == c;
            assert(es[k].path.len() == es[k].path_view().len());
            assert(has_dir(es, es[k].path_view().subrange(0, p.len() as int)));
            let d = choose|d: int| 0 <= d < es.len() && (#[trigger] es[d]).path_view() == p && es[d].is_dir;
            assert(d != j);
        }
        lemma_sum_totals_empty(cs, es);
    }
    assert forall|i: int| 0 <= i < n.children.len() implies sizes_consistent(#[trigger] n.children[i], es) by {
        let c = n.children[i];
        let e = cs[i];
        let k = choose|k: int| 0 <= k < es.len() && es[k] == e;
        assert(es[k].path_view() == c.path_view());
        assert(is_prefix(root, es[k].path_view()));
        if c.is_dir {
            assert forall|j: int| 0 <= j < es.len() && (#[trigger] es[j]).path_view() == c.path_view() implies es[j].is_dir by {
                if j != k {
                    assert(es[j].path_view() != es[k].path_view());
                }
            }
        }
        lemma_consistent_below(c, es, root);
    }
}

/// A tree built from a scan's records is size-consistent: every directory's
/// size is the sum of its children's sizes, and every file's size is that of
/// its record.
proof fn lemma_tree_sizes_consistent(t: DirEntryInfo, es: Seq<Entry>)
    requires
        records_valid(es, t.path_view()),
        built_from(t, es),
        t.is_dir,
    ensures
        sizes_consistent(t, es),
{
    assert(t.path_view().subrange(0, t.path_view().len() as int) =~= t.path_view());
    lemma_consistent_below(t, es, t.path_view());
}

/// With unique paths, the size at a record's path is that record's size.
pub proof fn lemma_own_size_of_record(es: Seq<Entry>, j: int)
    requires
        0 <= j < es.len(),
        forall|a: int, b: int|
            0 <= a < es.len() && 0 <= b < es.len() && a != b ==> (#[trigger] es[a]).path_view()
                != (#[trigger] es[b]).path_view(),
    ensures
        own_size(es, es[j].path_view()) == es[j].size,
    decreases es.len(),
{
    let e0 = es.drop_last();
    assert forall|a: int, b: int|
        0 <= a < e0.len() && 0 <= b < e0.len() && a != b implies (#[trigger] e0[a]).path_view()
            != (#[trigger] e0[b]).path_view() by {
        assert(e0[a] == es[a] && e0[b] == es[b]);
    }
    if j < es.len() - 1 {
        assert(e0[j] == es[j]);
        lemma_own_size_of_record(e0, j);
        assert(es[es.len() - 1] == es.last());
    } else {
        assert forall|i: int| 0 <= i < e0.len() && (#[trigger] e0[i]).path_view() == es[j].path_view()
            implies e0[i].size == 0 by {
            assert(e0[i] == es[i]);
        }
        lemma_own_zero(e0, es[j].path_view());
    }
}

proof fn lemma_total_all(es: Seq<Entry>, root: Seq<Seq<u8>>)
    requires
        forall|i: int| 0 <= i < es.len() ==> is_prefix(root, (#[trigger] es[i]).path_view()),
        forall|i: int| 0 <= i < es.len() && (#[trigger] es[i]).is_dir ==> es[i].size == 0,
    ensures
        total_under(es, root) == file_bytes(es),
    decreases es.len(),
{
    if es.len() > 0 {
        let e0 = es.drop_last();
        assert forall|i: int| 0 <= i < e0.len() implies is_prefix(root, (#[trigger] e0[i]).path_view()) by {
            assert(e0[i] == es[i]);
        }
        assert forall|i: int| 0 <= i < e0.len() && (#[trigger] e0[i]).is_dir implies e0[i].size == 0 by {
            assert(e0[i] == es[i]);
        }
        lemma_total_all(e0, root);
        assert(es[es.len() - 1] == es.last());
    }
}

/// The root of a tree built from a scan's records has, as its size, the sum
/// of the sizes of all file records.
proof fn lemma_root_total(t: DirEntryInfo, es: Seq<Entry>)
    requires
        records_valid(es, t.path_view()),
        built_from(t, es),
    ensures
        t.size == file_bytes(es),
{
    lemma_total_all(es, t.path_view());
}

proof fn lemma_insert_by_path_perm(t: Seq<Entry>, x: Entry)
    ensures
        insert_by_path(t, x).to_multiset() == t.to_multiset().insert(x),
    decreases t.len(),
{
    if t.len() == 0 {
        assert(seq![x] =~= Seq::<Entry>::empty().push(x));
    } else if !path_lex_le(t.last().path_view(), x.path_view()) {
        lemma_insert_by_path_perm(t.drop_last(), x);
        assert(t.drop_last().push(t.last()) =~= t);
    }
}

/// Sorting the records by path permutes them.
pub proof fn lemma_sorted_by_path_perm(s: Seq<Entry>)
    ensures
        sorted_by_path(s).to_multiset() == s.to_multiset(),
    decreases s.len(),
{
    if s.len() > 0 {
        lemma_sorted_by_path_perm(s.drop_last());
        lemma_insert_by_path_perm(sorted_by_path(s.drop_last()), s.last());
        assert(s.drop_last().push(s.last()) =~= s);
    }
}

proof fn lemma_count_at_most_one(es: Seq<Entry>, a: Entry)
    requires
        forall|i: int, j: int|
            0 <= i < es.len() && 0 <= j < es.len() && i != j ==> (#[trigger] es[i]).path_view()
                != (#[trigger] es[j]).path_view(),
    ensures
        es.to_multiset().count(a) <= 1,
    decreases es.len(),
{
    if es.len() > 0 {
        let e0 = es.drop_last();
        assert forall|i: int, j: int|
            0 <= i < e0.len() && 0 <= j < e0.len() && i != j implies (#[trigger] e0[i]).path_view()
                != (#[trigger] e0[j]).path_view() by {
            assert(e0[i] == es[i] && e0[j] == es[j]);
        }
        lemma_count_at_most_one(e0, a);
        assert(e0.push(es.last()) =~= es);
        if es.last() == a {
            assert forall|i: int| 0 <= i < e0.len() implies e0[i] != a by {
                assert(e0[i] == es[i]);
                assert(es[es.len() - 1] == es.last());
            }
            assert(!e0.contains(a));
            assert(e0.to_multiset().count(a) == 0);
        }
    }
}

proof fn lemma_count_two(fs: Seq<Entry>, i: int, j: int)
    requires
        0 <= i < fs.len(),
        0 <= j < fs.len(),
        i != j,
        fs[i] == fs[j],
    ensures
        fs.to_multiset().count(fs[i]) >= 2,
    decreases fs.len(),
{
    let a = fs[i];
    let f0 = fs.drop_last();
    let n = fs.len() - 1;
    assert(f0.push(fs.last()) =~= fs);
    if i == n || j == n {
        let k = if i == n { j } else { i };
        assert(f0[k] == a);
        assert(f0.contains(a));
        assert(f0.to_multiset().count(a) >= 1);
    } else {
        assert(f0[i] == a && f0[j] == a);
        lemma_count_two(f0, i, j);
    }
}

/// Validity of records does not depend on their order.
pub proof fn lemma_records_valid_perm(es: Seq<Entry>, fs: Seq<Entry>, root: Seq<Seq<u8>>)
    requires
        records_valid(es, root),
        fs.to_multiset() == es.to_multiset(),
    ensures
        records_valid(fs, root),
{
    assert forall|i: int| 0 <= i < fs.len() implies es.contains(#[trigger] fs[i]) by {
        assert(fs.contains(fs[i]));
        assert(fs.to_multiset().count(fs[i]) > 0);
    }
    assert forall|q: Seq<Seq<u8>>| has_dir(es, q) implies #[trigger] has_dir(fs, q) by {
        let j = choose|j: int| 0 <= j < es.len() && (#[trigger] es[j]).path_view() == q && es[j].is_dir;
        assert(es.contains(es[j]));
        assert(es.to_multiset().count(es[j]) > 0);
        assert(fs.contains(es[j]));
    }
    assert forall|i: int, j: int|
        0 <= i < fs.len() && 0 <= j < fs.len() && i != j implies (#[trigger] fs[i]).path_view()
            != (#[trigger] fs[j]).path_view() by {
        if fs[i].path_view() == fs[j].path_view() {
            let a = choose|a: int| 0 <= a < es.len() && es[a] == fs[i];
            let b = choose|b: int| 0 <= b < es.len() && es[b] == fs[j];
            if a == b {
                lemma_count_two(fs, i, j);
                lemma_count_at_most_one(es, fs[i]);
            }
        }
    }
    assert forall|i: int, m: int|
        0 <= i < fs.len() && root.len() < m < fs[i].path.len() implies #[trigger] has_dir(
        fs,
        fs[i].path_view().subrange(0, m),
    ) by {
        let a = choose|a: int| 0 <= a < es.len() && es[a] == fs[i];
        assert(has_dir(es, es[a].path_view().subrange(0, m)));
    }
    assert forall|i: int| 0 <= i < fs.len() implies is_prefix(root, (#[trigger] fs[i]).path_view())
        && (fs[i].is_dir ==> fs[i].size == 0) && (fs[i].path_view() == root ==> fs[i].is_dir) by {
        let a = choose|a: int| 0 <= a < es.len() && es[a] == fs[i];
    }
}

proof fn lemma_file_bytes_sum(es: Seq<Entry>)
    requires
        forall|i: int| 0 <= i < es.len() && (#[trigger] es[i]).is_dir ==> es[i].size == 0,
    ensures
        file_bytes(es) == sum_sizes(es),
    decreases es.len(),
{
    if es.len() > 0 {
        let e0 = es.drop_last();
        assert forall|i: int| 0 <= i < e0.len() && (#[trigger] e0[i]).is_dir implies e0[i].size == 0 by {
            assert(e0[i] == es[i]);
        }
        lemma_file_bytes_sum(e0);
        assert(es[es.len() - 1] == es.last());
    }
}

/// A tree built from the records of a scan is size-consistent: every
/// directory's size is the sum of its children's sizes, and every file's size
/// is that of its record.
pub proof fn lemma_build_tree_consistent(t: DirEntryInfo, entries: Seq<Entry>)
    requires
        records_valid(entries, t.path_view()),
        built_from(t, sorted_by_path(entries)),
        t.is_dir,
    ensures
        sizes_consistent(t, sorted_by_path(entries)),
{
    lemma_sorted_by_path_perm(entries);
    lemma_records_valid_perm(entries, sorted_by_path(entries), t.path_view());
    lemma_tree_sizes_consistent(t, sorted_by_path(entries));
}

/// The root of a tree built from the records of a scan has, as its size, the
/// sum of the sizes of all file records.
pub proof fn lemma_build_tree_total(t: DirEntryInfo, entries: Seq<Entry>)
    requires
        records_valid(entries, t.path_view()),
        built_from(t, sorted_by_path(entries)),
    ensures
        t.size == file_bytes(entries),
{
    let fs = sorted_by_path(entries);
    lemma_sorted_by_path_perm(entries);
    lemma_records_valid_perm(entries, fs, t.path_view());
    lemma_root_total(t, fs);
    lemma_file_bytes_sum(fs);
    lemma_file_bytes_sum(entries);
    lemma_sorted_by_path_sum(entries);
}

} // verus!
