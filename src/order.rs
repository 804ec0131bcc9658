//! Display orders of a directory's children: stable sorts of child indices by
//! name or by size.
use vstd::prelude::*;
use crate::paths::{bytes_le, lemma_lex_total, lemma_lex_trans, lex_le};
use crate::tree::DirEntryInfo;

verus! {

broadcast use vstd::seq_lib::group_to_multiset_ensures;

/// How the children of the viewed directory are listed.
#[derive(Debug, Clone, Copy, PartialEq, Eq, Structural)]
pub enum SortBy {
    /// Ascending by the last path component, byte by byte.
    Name,
    /// Descending by inclusive size.
    Size,
}

impl Default for SortBy {
    fn default() -> (r: SortBy)
        ensures
            r == SortBy::Size,
    {
        SortBy::Size
    }
}

/// The name of a node: the last component of its path.
pub open spec fn name_of(n: DirEntryInfo) -> Seq<u8> {
    if n.path.len() > 0 {
        n.path@.last()@
    } else {
        Seq::empty()
    }
}

/// Under order `o`, child `a` may stand before child `b`.
pub open spec fn before(o: SortBy, kids: Seq<DirEntryInfo>, a: usize, b: usize) -> bool {
    match o {
        SortBy::Size => kids[a as int].size >= kids[b as int].size,
        SortBy::Name => lex_le(name_of(kids[a as int]), name_of(kids[b as int])),
    }
}

/// `t` with `x` placed after the last element that may stand before it.
pub open spec fn insert_sorted(o: SortBy, kids: Seq<DirEntryInfo>, t: Seq<usize>, x: usize) -> Seq<
    usize,
>
    decreases t.len(),
{
    if t.len() == 0 {
        seq![x]
    } else if before(o, kids, t.last(), x) {
        t.push(x)
    } else {
        insert_sorted(o, kids, t.drop_last(), x).push(t.last())
    }
}

/// The stable sort of the child indices `s` under order `o`.
pub open spec fn sorted_order(o: SortBy, kids: Seq<DirEntryInfo>, s: Seq<usize>) -> Seq<usize>
    decreases s.len(),
{
    if s.len() == 0 {
        s
    } else {
        insert_sorted(o, kids, sorted_order(o, kids, s.drop_last()), s.last())
    }
}

/// Each index stands before the next one under order `o`.
pub open spec fn is_sorted(o: SortBy, kids: Seq<DirEntryInfo>, s: Seq<usize>) -> bool {
    forall|i: int| 0 <= i < s.len() - 1 ==> before(o, kids, #[trigger] s[i], s[i + 1])
}

/// The indices `0 .. n` in turn.
pub open spec fn identity(n: nat) -> Seq<usize> {
    Seq::new(n, |i: int| i as usize)
}

/// Under either order, of any two children one may stand before the other.
pub proof fn lemma_before_total(o: SortBy, kids: Seq<DirEntryInfo>, a: usize, b: usize)
    ensures
        before(o, kids, a, b) || before(o, kids, b, a),
{
    lemma_lex_total(name_of(kids[a as int]), name_of(kids[b as int]));
}

proof fn lemma_insert_perm(o: SortBy, kids: Seq<DirEntryInfo>, t: Seq<usize>, x: usize)
    ensures
        insert_sorted(o, kids, t, x).to_multiset() == t.to_multiset().insert(x),
    decreases t.len(),
{
    if t.len() == 0 {
        assert(seq![x] =~= Seq::<usize>::empty().push(x));
    } else if !before(o, kids, t.last(), x) {
        lemma_insert_perm(o, kids, t.drop_last(), x);
        assert(t.drop_last().push(t.last()) =~= t);
    }
}

/// Sorting permutes the indices.
pub proof fn lemma_sorted_perm(o: SortBy, kids: Seq<DirEntryInfo>, s: Seq<usize>)
    ensures
        sorted_order(o, kids, s).to_multiset() == s.to_multiset(),
    decreases s.len(),
{
    if s.len() > 0 {
        lemma_sorted_perm(o, kids, s.drop_last());
        lemma_insert_perm(o, kids, sorted_order(o, kids, s.drop_last()), s.last());
        assert(s.drop_last().push(s.last()) =~= s);
    }
}

proof fn lemma_insert_sorted_is_sorted(o: SortBy, kids: Seq<DirEntryInfo>, t: Seq<usize>, x: usize)
    requires
        is_sorted(o, kids, t),
    ensures
        is_sorted(o, kids, insert_sorted(o, kids, t, x)),
        insert_sorted(o, kids, t, x).len() == t.len() + 1,
        t.len() > 0 ==> insert_sorted(o, kids, t, x).last() == t.last() || insert_sorted(
            o,
            kids,
            t,
            x,
        ).last() == x,
    decreases t.len(),
{
    if t.len() > 0 && !before(o, kids, t.last(), x) {
        let t0 = t.drop_last();
        lemma_insert_sorted_is_sorted(o, kids, t0, x);
        lemma_before_total(o, kids, t.last(), x);
        let u = insert_sorted(o, kids, t0, x);
        if t0.len() > 0 {
            assert(t0.last() == t[t.len() - 2]);
            assert(before(o, kids, t[t.len() - 2], t[t.len() - 1]));
        }
        assert forall|i: int| 0 <= i < u.push(t.last()).len() - 1 implies before(
            o,
            kids,
            #[trigger] u.push(t.last())[i],
            u.push(t.last())[i + 1],
        ) by {
            if i < u.len() - 1 {
                assert(u.push(t.last())[i] == u[i]);
            }
        }
    }
}

/// A stable sort lists each index before the next one.
pub proof fn lemma_sorted_is_sorted(o: SortBy, kids: Seq<DirEntryInfo>, s: Seq<usize>)
    ensures
        is_sorted(o, kids, sorted_order(o, kids, s)),
        sorted_order(o, kids, s).len() == s.len(),
    decreases s.len(),
{
    if s.len() > 0 {
        lemma_sorted_is_sorted(o, kids, s.drop_last());
        lemma_insert_sorted_is_sorted(o, kids, sorted_order(o, kids, s.drop_last()), s.last());
    }
}

/// Sorting a list that is already in order leaves it as it is.
pub proof fn lemma_sorted_fixed(o: SortBy, kids: Seq<DirEntryInfo>, s: Seq<usize>)
    requires
        is_sorted(o, kids, s),
    ensures
        sorted_order(o, kids, s) == s,
    decreases s.len(),
{
    if s.len() > 0 {
        let s0 = s.drop_last();
        assert(is_sorted(o, kids, s0)) by {
            assert forall|i: int| 0 <= i < s0.len() - 1 implies before(
                o,
                kids,
                #[trigger] s0[i],
                s0[i + 1],
            ) by {
                assert(s0[i] == s[i] && s0[i + 1] == s[i + 1]);
            }
        }
        lemma_sorted_fixed(o, kids, s0);
        if s0.len() > 0 {
            assert(before(o, kids, s[s.len() - 2], s[s.len() - 1]));
        }
        assert(s0.push(s.last()) =~= s);
    }
}

/// Sorting twice by the same order gives what sorting once gave.
pub proof fn lemma_sort_idempotent(o: SortBy, kids: Seq<DirEntryInfo>, s: Seq<usize>)
    ensures
        sorted_order(o, kids, sorted_order(o, kids, s)) == sorted_order(o, kids, s),
{
    lemma_sorted_is_sorted(o, kids, s);
    lemma_sorted_fixed(o, kids, sorted_order(o, kids, s));
}

/// Each index stands strictly before every later one: no two listed children
/// tie under order `o`.
pub open spec fn is_strictly_sorted(o: SortBy, kids: Seq<DirEntryInfo>, s: Seq<usize>) -> bool {
    forall|i: int, j: int|
        0 <= i < j < s.len() ==> before(o, kids, #[trigger] s[i], #[trigger] s[j]) && !before(
            o,
            kids,
            s[j],
            s[i],
        )
}

proof fn lemma_before_trans(o: SortBy, kids: Seq<DirEntryInfo>, a: usize, b: usize, c: usize)
    requires
        before(o, kids, a, b),
        before(o, kids, b, c),
    ensures
        before(o, kids, a, c),
{
    if o == SortBy::Name {
        lemma_lex_trans(name_of(kids[a as int]), name_of(kids[b as int]), name_of(kids[c as int]));
    }
}

proof fn lemma_sorted_pairwise(o: SortBy, kids: Seq<DirEntryInfo>, s: Seq<usize>)
    requires
        is_sorted(o, kids, s),
    ensures
        forall|i: int, j: int| 0 <= i < j < s.len() ==> before(o, kids, #[trigger] s[i], #[trigger] s[j]),
    decreases s.len(),
{
    if s.len() > 0 {
        let s0 = s.drop_last();
        assert forall|i: int| 0 <= i < s0.len() - 1 implies before(o, kids, #[trigger] s0[i], s0[i + 1]) by {
            assert(s0[i] == s[i] && s0[i + 1] == s[i + 1]);
        }
        lemma_sorted_pairwise(o, kids, s0);
        assert forall|i: int, j: int| 0 <= i < j < s.len() implies before(o, kids, #[trigger] s[i], #[trigger] s[j]) by {
            if j < s.len() - 1 {
                assert(s0[i] == s[i] && s0[j] == s[j]);
            } else if i < s.len() - 2 {
                assert(s0[i] == s[i] && s0[j - 1] == s[j - 1]);
                assert(before(o, kids, s[i], s[j - 1]));
                lemma_before_trans(o, kids, s[i], s[j - 1], s[j]);
            } else if i == s.len() - 2 {
            } else {
            }
        }
    }
}

proof fn lemma_sorted_unique(o: SortBy, kids: Seq<DirEntryInfo>, u: Seq<usize>, s: Seq<usize>)
    requires
        forall|i: int, j: int| 0 <= i < j < u.len() ==> before(o, kids, #[trigger] u[i], #[trigger] u[j]),
        is_strictly_sorted(o, kids, s),
        u.to_multiset() == s.to_multiset(),
    ensures
        u == s,
    decreases s.len(),
{
    vstd::seq_lib::to_multiset_len(u);
    vstd::seq_lib::to_multiset_len(s);
    if s.len() > 0 {
        let n = s.len() - 1;
        let x = s.last();
        assert(s.to_multiset().count(x) > 0) by {
            assert(s[n] == x);
            assert(s.contains(x));
        }
        assert(u.contains(x));
        let y = u.last();
        assert(u.to_multiset().count(y) > 0) by {
            assert(u[n] == y);
            assert(u.contains(y));
        }
        assert(s.contains(y));
        let k = choose|k: int| 0 <= k < u.len() && u[k] == x;
        let m = choose|m: int| 0 <= m < s.len() && s[m] == y;
        if m < n {
            assert(!before(o, kids, s[n], s[m]));
            if k < n {
                assert(before(o, kids, u[k], u[n]));
            }
        }
        assert(y == x);
        assert(u.remove(n) =~= u.drop_last());
        assert(s.remove(n) =~= s.drop_last());
        vstd::seq_lib::to_multiset_remove(u, n);
        vstd::seq_lib::to_multiset_remove(s, n);
        let u0 = u.drop_last();
        let s0 = s.drop_last();
        assert forall|i: int, j: int| 0 <= i < j < u0.len() implies before(o, kids, #[trigger] u0[i], #[trigger] u0[j]) by {
            assert(u0[i] == u[i] && u0[j] == u[j]);
        }
        assert forall|i: int, j: int| 0 <= i < j < s0.len() implies before(o, kids, #[trigger] s0[i], #[trigger] s0[j]) && !before(o, kids, s0[j], s0[i]) by {
            assert(s0[i] == s[i] && s0[j] == s[j]);
        }
        lemma_sorted_unique(o, kids, u0, s0);
        assert forall|i: int| 0 <= i < u.len() implies u[i] == s[i] by {
            if i < n {
                assert(u0[i] == u[i] && s0[i] == s[i]);
            }
        }
        assert(u =~= s);
    }
}

/// Re-sorting under `o` any reordering of a listing in strict `o` order gives
/// that listing back. So, where no two children tie under the order in force,
/// toggling the sort twice restores the listing it started from.
pub proof fn lemma_resort_restores(o: SortBy, kids: Seq<DirEntryInfo>, s: Seq<usize>, t: Seq<usize>)
    requires
        is_strictly_sorted(o, kids, s),
        t.to_multiset() == s.to_multiset(),
    ensures
        sorted_order(o, kids, t) == s,
{
    let u = sorted_order(o, kids, t);
    lemma_sorted_is_sorted(o, kids, t);
    lemma_sorted_perm(o, kids, t);
    lemma_sorted_pairwise(o, kids, u);
    lemma_sorted_unique(o, kids, u, s);
}

/// Child `a` may stand before child `b` under order `o`.
pub fn stands_before(o: SortBy, kids: &Vec<DirEntryInfo>, a: usize, b: usize) -> (r: bool)
    requires
        a < kids.len(),
        b < kids.len(),
    ensures
        r == before(o, kids@, a, b),
{
    match o {
        SortBy::Size => kids[a].size >= kids[b].size,
        SortBy::Name => {
            let ka = &kids[a];
            let kb = &kids[b];
            let empty: Vec<u8> = Vec::new();
            let na = if ka.path.len() > 0 {
                &ka.path[ka.path.len() - 1]
            } else {
                &empty
            };
            let nb = if kb.path.len() > 0 {
                &kb.path[kb.path.len() - 1]
            } else {
                &empty
            };
            assert(na@ == name_of(kids@[a as int]));
            assert(nb@ == name_of(kids@[b as int]));
            bytes_le(na, nb)
        },
    }
}

/// Stably sorts the child indices in `order` under order `o` (insertion sort).
pub fn sort_indices(o: SortBy, kids: &Vec<DirEntryInfo>, order: &mut Vec<usize>)
    requires
        forall|k: int| 0 <= k < old(order).len() ==> old(order)@[k] < kids.len(),
    ensures
        final(order)@ == sorted_order(o, kids@, old(order)@),
{
    let ghost s = order@;
    let mut i: usize = 0;
    while i < order.len()
        invariant
            i <= order.len(),
            order.len() == s.len(),
            forall|k: int| 0 <= k < order.len() ==> order@[k] < kids.len(),
            order@.subrange(0, i as int) == sorted_order(o, kids@, s.subrange(0, i as int)),
            order@.subrange(i as int, order.len() as int) == s.subrange(i as int, s.len() as int),
        decreases order.len() - i,
    {
        let ghost t = order@.subrange(0, i as int);
        let x = order[i];
        proof {
            assert(s.subrange(0, i as int + 1).drop_last() =~= s.subrange(0, i as int));
            assert(s[i as int] == order@.subrange(i as int, order.len() as int)[0]);
            assert(t.subrange(0, i as int) =~= t);
            assert(t.subrange(i as int, i as int) =~= Seq::<usize>::empty());
        }
        let mut j: usize = i;
        while j > 0 && !stands_before(o, kids, order[j - 1], x)
            invariant
                j <= i,
                i < order.len(),
                x == order@[i as int],
                t == order@.subrange(0, i as int),
                forall|k: int| 0 <= k < order.len() ==> order@[k] < kids.len(),
                insert_sorted(o, kids@, t, x) == insert_sorted(o, kids@, t.subrange(0, j as int), x)
                    + t.subrange(j as int, i as int),
            decreases j,
        {
            proof {
                let tj = t.subrange(0, j as int);
                assert(tj.drop_last() =~= t.subrange(0, j as int - 1));
                assert(tj.last() == t[j as int - 1]);
                assert(t.subrange(j as int - 1, i as int) =~= seq![t[j as int - 1]] + t.subrange(
                    j as int,
                    i as int,
                ));
                assert(insert_sorted(o, kids@, t.subrange(0, j as int - 1), x).push(t[j as int - 1])
                    + t.subrange(j as int, i as int) =~= insert_sorted(
                    o,
                    kids@,
                    t.subrange(0, j as int - 1),
                    x,
                ) + t.subrange(j as int - 1, i as int));
            }
            j = j - 1;
        }
        proof {
            let tj = t.subrange(0, j as int);
            assert(insert_sorted(o, kids@, tj, x) == tj.push(x)) by {
                if j == 0 {
                    assert(seq![x] =~= tj.push(x));
                }
            }
        }
        let ghost before_remove = order@;
        order.remove(i);
        order.insert(j, x);
        proof {
            let tj = t.subrange(0, j as int);
            assert(order@.subrange(0, i as int + 1) =~= tj.push(x) + t.subrange(j as int, i as int));
            assert(order@.subrange(i as int + 1, order.len() as int) =~= s.subrange(
                i as int + 1,
                s.len() as int,
            )) by {
                assert(before_remove.subrange(i as int, order.len() as int) == s.subrange(
                    i as int,
                    s.len() as int,
                ));
                assert forall|k: int| i + 1 <= k < order.len() implies order@[k] == s[k] by {
                    assert(order@[k] == before_remove[k]);
                    assert(before_remove[k] == before_remove.subrange(i as int, order.len() as int)[k - i]);
                }
            }
            assert forall|k: int| 0 <= k < order.len() implies order@[k] < kids.len() by {
                if k < j {
                    assert(order@[k] == before_remove[k]);
                } else if k > j && k <= i {
                    assert(order@[k] == before_remove[k - 1]);
                } else if k > i {
                    assert(order@[k] == before_remove[k]);
                }
            }
        }
        i = i + 1;
    }
    assert(order@.subrange(0, i as int) =~= order@);
    assert(s.subrange(0, i as int) =~= s);
}

} // verus!
