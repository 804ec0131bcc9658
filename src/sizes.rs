//! Flat scan records and the aggregation of their sizes into inclusive totals.
use vstd::prelude::*;
use crate::paths::{clone_bytes, clone_path, is_prefix, lemma_pview_push, path_eq, pview, PathBuf};

verus! {

/// One filesystem object found by a scan. `size` is the apparent byte length
/// of a file and 0 for a directory.
pub struct Entry {
    pub path: PathBuf,
    pub size: u64,
    pub is_dir: bool,
}

impl Entry {
    pub open spec fn path_view(&self) -> Seq<Seq<u8>> {
        pview(self.path@)
    }
}

/// The inclusive total of `p`: the sizes of all records at `p` or below it.
pub open spec fn total_under(es: Seq<Entry>, p: Seq<Seq<u8>>) -> int
    decreases es.len(),
{
    if es.len() == 0 {
        0
    } else {
        total_under(es.drop_last(), p) + if is_prefix(p, es.last().path_view()) {
            es.last().size as int
        } else {
            0
        }
    }
}

/// The sum of the sizes of all records.
pub open spec fn sum_sizes(es: Seq<Entry>) -> int
    decreases es.len(),
{
    if es.len() == 0 {
        0
    } else {
        sum_sizes(es.drop_last()) + es.last().size as int
    }
}

/// A path that prefixes no record has total 0.
pub proof fn lemma_total_absent(es: Seq<Entry>, p: Seq<Seq<u8>>)
    requires
        forall|j: int| 0 <= j < es.len() ==> !is_prefix(p, #[trigger] es[j].path_view()),
    ensures
        total_under(es, p) == 0,
    decreases es.len(),
{
    if es.len() > 0 {
        lemma_total_absent(es.drop_last(), p);
    }
}

/// No total exceeds the sum of all sizes.
pub proof fn lemma_total_bounded(es: Seq<Entry>, p: Seq<Seq<u8>>)
    ensures
        0 <= total_under(es, p) <= sum_sizes(es),
    decreases es.len(),
{
    if es.len() > 0 {
        lemma_total_bounded(es.drop_last(), p);
    }
}

/// The sum over a prefix of the records is at most the sum over all of them.
pub proof fn lemma_sum_prefix(es: Seq<Entry>, k: int)
    requires
        0 <= k <= es.len(),
    ensures
        0 <= sum_sizes(es.subrange(0, k)) <= sum_sizes(es),
    decreases es.len(),
{
    if k == es.len() {
        assert(es.subrange(0, k) =~= es);
        if es.len() > 0 {
            lemma_sum_prefix(es.drop_last(), 0);
        }
    } else {
        assert(es.drop_last().subrange(0, k) =~= es.subrange(0, k));
        lemma_sum_prefix(es.drop_last(), k);
    }
}

/// Inclusive totals by path, made from a set of records. Keys are unique, and
/// every ancestor of every record's path (the path itself included) is a key.
pub struct SizeMap {
    pub keys: Vec<PathBuf>,
    pub totals: Vec<u64>,
    pub entries: Ghost<Seq<Entry>>,
}

impl SizeMap {
    pub open spec fn key(&self, i: int) -> Seq<Seq<u8>> {
        pview(self.keys@[i]@)
    }

    /// The keys are unique, cover every prefix of every path of `es`, and carry
    /// the inclusive totals of `es`.
    pub open spec fn holds_totals(&self, es: Seq<Entry>) -> bool {
        &&& self.keys.len() == self.totals.len()
        &&& forall|i: int, j: int|
            0 <= i < self.keys.len() && 0 <= j < self.keys.len() && i != j ==> #[trigger] self.key(
                i,
            ) != #[trigger] self.key(j)
        &&& forall|i: int|
            0 <= i < self.keys.len() ==> self.totals@[i] as int == total_under(
                es,
                #[trigger] self.key(i),
            )
        &&& forall|j: int, m: int|
            0 <= j < es.len() && 0 <= m <= es[j].path.len() ==> #[trigger] self.has_key(
                es[j].path_view().subrange(0, m),
            )
    }

    pub open spec fn has_key(&self, p: Seq<Seq<u8>>) -> bool {
        exists|i: int| 0 <= i < self.keys.len() && #[trigger] self.key(i) == p
    }

    /// Midway through adding record `e` to the totals of `es`: the ancestors
    /// of `e` shorter than `l` components have been credited.
    pub open spec fn partly_added(&self, es: Seq<Entry>, e: Entry, l: int) -> bool {
        &&& self.keys.len() == self.totals.len()
        &&& forall|i: int, j: int|
            0 <= i < self.keys.len() && 0 <= j < self.keys.len() && i != j ==> #[trigger] self.key(
                i,
            ) != #[trigger] self.key(j)
        &&& forall|i: int|
            0 <= i < self.keys.len() ==> self.totals@[i] as int == total_under(
                es,
                #[trigger] self.key(i),
            ) + if is_prefix(self.key(i), e.path_view()) && self.key(i).len() < l {
                e.size as int
            } else {
                0
            }
        &&& forall|j: int, m: int|
            0 <= j < es.len() && 0 <= m <= es[j].path.len() ==> #[trigger] self.has_key(
                es[j].path_view().subrange(0, m),
            )
        &&& forall|m: int| 0 <= m < l ==> #[trigger] self.has_key(e.path_view().subrange(0, m))
    }

    /// Credits `e.size` to the key `p`, the first `l` components of `e`'s path,
    /// adding the key if it is new.
    fn credit(&mut self, p: &PathBuf, s: u64, Ghost(es): Ghost<Seq<Entry>>, Ghost(e): Ghost<Entry>, Ghost(l): Ghost<int>)
        requires
            old(self).partly_added(es, e, l),
            0 <= l <= e.path.len(),
            pview(p@) == e.path_view().subrange(0, l),
            s == e.size,
            sum_sizes(es) + s <= u64::MAX,
        ensures
            final(self).partly_added(es, e, l + 1),
            final(self).entries == old(self).entries,
    {
        proof {
            assert(e.path_view().len() == e.path.len());
        }
        match self.find(p) {
            Some(f) => {
                proof {
                    lemma_total_bounded(es, self.key(f as int));
                }
                let t = self.totals[f] + s;
                let ghost old_self = *self;
                self.totals.set(f, t);
                proof {
                    assert forall|i: int| 0 <= i < self.keys.len() implies #[trigger] self.key(i) == old_self.key(i) by {}
                    assert forall|i: int, j: int|
                        0 <= i < self.keys.len() && 0 <= j < self.keys.len() && i != j
                        implies #[trigger] self.key(i) != #[trigger] self.key(j) by {
                        assert(old_self.key(i) != old_self.key(j));
                    }
                    assert forall|q: Seq<Seq<u8>>| old_self.has_key(q) implies #[trigger] self.has_key(q) by {
                        let i = choose|i: int| 0 <= i < old_self.keys.len() && #[trigger] old_self.key(i) == q;
                        assert(self.key(i) == q);
                    }
                    assert forall|j: int, m: int|
                        0 <= j < es.len() && 0 <= m <= es[j].path.len() implies #[trigger] self.has_key(
                        es[j].path_view().subrange(0, m),
                    ) by {
                        assert(old_self.has_key(es[j].path_view().subrange(0, m)));
                    }
                    assert forall|i: int| 0 <= i < self.keys.len() implies self.totals@[i] as int
                        == total_under(es, #[trigger] self.key(i)) + if is_prefix(
                        self.key(i),
                        e.path_view(),
                    ) && self.key(i).len() < l + 1 {
                        e.size as int
                    } else {
                        0
                    } by {
                        assert(self.key(i) == old_self.key(i));
                        if i != f {
                            assert(self.totals@[i] == old_self.totals@[i]);
                            if is_prefix(self.key(i), e.path_view()) && self.key(i).len() == l {
                                assert(self.key(i) == self.key(f as int));
                            }
                        }
                    }
                    assert forall|m: int| 0 <= m < l + 1 implies #[trigger] self.has_key(
                        e.path_view().subrange(0, m),
                    ) by {
                        if m == l {
                            assert(self.key(f as int) == e.path_view().subrange(0, m));
                        } else {
                            assert(old_self.has_key(e.path_view().subrange(0, m)));
                        }
                    }
                }
            },
            None => {
                proof {
                    assert forall|j: int| 0 <= j < es.len() implies !is_prefix(
                        pview(p@),
                        #[trigger] es[j].path_view(),
                    ) by {
                        if is_prefix(pview(p@), es[j].path_view()) {
                            assert(es[j].path.len() == es[j].path_view().len());
                            assert(self.has_key(es[j].path_view().subrange(0, l)));
                        }
                    }
                    lemma_total_absent(es, pview(p@));
                }
                let ghost old_self = *self;
                self.keys.push(clone_path(p));
                self.totals.push(s);
                proof {
                    let n = old_self.keys.len() as int;
                    assert forall|i: int| 0 <= i < n implies #[trigger] self.key(i) == old_self.key(i) by {}
                    assert(self.key(n) == pview(p@));
                    assert forall|i: int, j: int|
                        0 <= i < self.keys.len() && 0 <= j < self.keys.len() && i != j
                        implies #[trigger] self.key(i) != #[trigger] self.key(j) by {
                        if i < n && j < n {
                            assert(old_self.key(i) != old_self.key(j));
                        }
                    }
                    assert forall|q: Seq<Seq<u8>>| old_self.has_key(q) implies #[trigger] self.has_key(q) by {
                        let i = choose|i: int| 0 <= i < n && #[trigger] old_self.key(i) == q;
                        assert(self.key(i) == q);
                    }
                    assert forall|i: int| 0 <= i < self.keys.len() implies self.totals@[i] as int
                        == total_under(es, #[trigger] self.key(i)) + if is_prefix(
                        self.key(i),
                        e.path_view(),
                    ) && self.key(i).len() < l + 1 {
                        e.size as int
                    } else {
                        0
                    } by {
                        if i < n {
                            assert(self.totals@[i] == old_self.totals@[i]);
                            if is_prefix(self.key(i), e.path_view()) && self.key(i).len() == l {
                                assert(self.key(i) == pview(p@));
                            }
                        } else {
                            assert(e.path_view().subrange(0, l).len() == l);
                        }
                    }
                    assert forall|m: int| 0 <= m < l + 1 implies #[trigger] self.has_key(
                        e.path_view().subrange(0, m),
                    ) by {
                        if m == l {
                            assert(self.key(n) == e.path_view().subrange(0, m));
                        } else {
                            assert(old_self.has_key(e.path_view().subrange(0, m)));
                        }
                    }
                    assert forall|j: int, m: int|
                        0 <= j < es.len() && 0 <= m <= es[j].path.len() implies #[trigger] self.has_key(
                        es[j].path_view().subrange(0, m),
                    ) by {
                        assert(old_self.has_key(es[j].path_view().subrange(0, m)));
                    }
                }
            },
        }
    }

    pub open spec fn wf(&self) -> bool {
        self.holds_totals(self.entries@)
    }

    /// The index of key `p`, if it is one.
    fn find(&self, p: &PathBuf) -> (r: Option<usize>)
        requires
            self.keys.len() == self.totals.len(),
        ensures
            match r {
                Some(i) => i < self.keys.len() && self.key(i as int) == pview(p@),
                None => forall|i: int| 0 <= i < self.keys.len() ==> self.key(i) != pview(p@),
            },
    {
        let mut i: usize = 0;
        while i < self.keys.len()
            invariant
                i <= self.keys.len(),
                forall|k: int| 0 <= k < i ==> self.key(k) != pview(p@),
            decreases self.keys.len() - i,
        {
            if path_eq(&self.keys[i], p) {
                return Some(i);
            }
            i = i + 1;
        }
        None
    }

    /// The inclusive total of `p`; 0 for a path that nothing lies under.
    pub fn get(&self, p: &PathBuf) -> (r: u64)
        requires
            self.wf(),
        ensures
            r as int == total_under(self.entries@, pview(p@)),
    {
        match self.find(p) {
            Some(i) => self.totals[i],
            None => {
                proof {
                    let es = self.entries@;
                    assert forall|j: int| 0 <= j < es.len() implies !is_prefix(
                        pview(p@),
                        #[trigger] es[j].path_view(),
                    ) by {
                        if is_prefix(pview(p@), es[j].path_view()) {
                            let m = pview(p@).len() as int;
                            assert(es[j].path.len() == es[j].path_view().len());
                            assert(self.has_key(es[j].path_view().subrange(0, m)));
                        }
                    }
                    lemma_total_absent(es, pview(p@));
                }
                0
            },
        }
    }
}

/// Inclusive totals for `entries`: each record's size is added to its own
/// path and to every ancestor of it, up to the filesystem root.
pub fn aggregate_sizes(entries: &Vec<Entry>) -> (r: SizeMap)
    requires
        sum_sizes(entries@) <= u64::MAX,
    ensures
        r.wf(),
        r.entries@ == entries@,
{
    let mut map = SizeMap { keys: Vec::new(), totals: Vec::new(), entries: Ghost(entries@) };
    let mut k: usize = 0;
    while k < entries.len()
        invariant
            k <= entries.len(),
            sum_sizes(entries@) <= u64::MAX,
            map.holds_totals(entries@.subrange(0, k as int)),
            map.entries@ == entries@,
        decreases entries.len() - k,
    {
        let e = &entries[k];
        let ghost es = entries@.subrange(0, k as int);
        let ghost es1 = entries@.subrange(0, k as int + 1);
        proof {
            assert(es1.drop_last() =~= es);
            lemma_sum_prefix(entries@, k + 1);
            assert forall|i: int| 0 <= i < map.keys.len() implies map.totals@[i] as int
                == total_under(es, #[trigger] map.key(i)) + if is_prefix(map.key(i), e.path_view())
                && map.key(i).len() < 0 {
                e.size as int
            } else {
                0
            } by {}
        }
        let mut prefix: PathBuf = Vec::new();
        let mut l: usize = 0;
        while l < e.path.len()
            invariant
                l <= e.path.len(),
                k < entries.len(),
                e == entries@[k as int],
                sum_sizes(es) + e.size <= u64::MAX,
                map.partly_added(es, *e, l as int),
                map.entries@ == entries@,
                pview(prefix@) == e.path_view().subrange(0, l as int),
            decreases e.path.len() - l,
        {
            map.credit(&prefix, e.size, Ghost(es), Ghost(*e), Ghost(l as int));
            let c = clone_bytes(&e.path[l]);
            proof {
                lemma_pview_push(prefix@, c);
                assert(e.path_view()[l as int] == e.path@[l as int]@);
            }
            prefix.push(c);
            assert(pview(prefix@) =~= e.path_view().subrange(0, l as int + 1));
            l = l + 1;
        }
        assert(e.path_view().subrange(0, l as int) =~= e.path_view());
        map.credit(&e.path, e.size, Ghost(es), Ghost(*e), Ghost(l as int));
        proof {
            assert forall|i: int| 0 <= i < map.keys.len() implies map.totals@[i] as int
                == total_under(es1, #[trigger] map.key(i)) by {
                if is_prefix(map.key(i), e.path_view()) {
                    assert(map.key(i).len() <= e.path_view().len());
                }
            }
            assert forall|j: int, m: int|
                0 <= j < es1.len() && 0 <= m <= es1[j].path.len() implies #[trigger] map.has_key(
                es1[j].path_view().subrange(0, m),
            ) by {
                if j < es.len() {
                    assert(es1[j] == es[j]);
                } else {
                    assert(es1[j] == *e);
                    if m == e.path.len() {
                        assert(e.path_view().subrange(0, m) =~= e.path_view());
                    }
                }
            }
        }
        k = k + 1;
    }
    assert(entries@.subrange(0, k as int) =~= entries@);
    map
}

} // verus!
