//! Paths as sequences of components, each component a byte string.
use vstd::prelude::*;

verus! {

/// A path: the components from the filesystem root down, each as raw bytes.
pub type PathBuf = Vec<Vec<u8>>;

/// The mathematical value of a path.
pub open spec fn pview(p: Seq<Vec<u8>>) -> Seq<Seq<u8>> {
    p.map_values(|c: Vec<u8>| c@)
}

/// Extending a path by a component extends its value by that component.
pub proof fn lemma_pview_push(p: Seq<Vec<u8>>, c: Vec<u8>)
    ensures
        pview(p.push(c)) == pview(p).push(c@),
        pview(p).len() == p.len(),
{
    let a = pview(p.push(c));
    let b = pview(p).push(c@);
    assert(a.len() == b.len());
    assert forall|i: int| 0 <= i < a.len() implies a[i] == b[i] by {
        if i < p.len() {
            assert(p.push(c)[i] == p[i]);
        }
    }
    assert(a =~= b);
}

/// `p` is `q` itself or one of its ancestors.
pub open spec fn is_prefix(p: Seq<Seq<u8>>, q: Seq<Seq<u8>>) -> bool {
    p.len() <= q.len() && q.subrange(0, p.len() as int) == p
}

/// `q` is an immediate child of `p`.
pub open spec fn is_child_path(q: Seq<Seq<u8>>, p: Seq<Seq<u8>>) -> bool {
    q.len() == p.len() + 1 && is_prefix(p, q)
}

/// Byte strings are equal.
pub fn bytes_eq(a: &Vec<u8>, b: &Vec<u8>) -> (r: bool)
    ensures
        r == (a@ == b@),
{
    if a.len() != b.len() {
        return false;
    }
    let mut i: usize = 0;
    while i < a.len()
        invariant
            a.len() == b.len(),
            i <= a.len(),
            a@.subrange(0, i as int) == b@.subrange(0, i as int),
        decreases a.len() - i,
    {
        if a[i] != b[i] {
            assert(a@[i as int] == a@.subrange(0, i as int + 1)[i as int]);
            assert(b@[i as int] == b@.subrange(0, i as int + 1)[i as int]);
            return false;
        }
        assert(a@.subrange(0, i as int + 1) =~= a@.subrange(0, i as int).push(a@[i as int]));
        assert(b@.subrange(0, i as int + 1) =~= b@.subrange(0, i as int).push(b@[i as int]));
        i = i + 1;
    }
    assert(a@ =~= a@.subrange(0, i as int));
    assert(b@ =~= b@.subrange(0, i as int));
    true
}

/// A copy of a byte string.
pub fn clone_bytes(a: &Vec<u8>) -> (r: Vec<u8>)
    ensures
        r@ == a@,
{
    let r = a.clone();
    assert(r@ =~= a@);
    r
}

/// A copy of a path.
pub fn clone_path(p: &PathBuf) -> (r: PathBuf)
    ensures
        pview(r@) == pview(p@),
{
    let mut r: PathBuf = Vec::new();
    let mut i: usize = 0;
    while i < p.len()
        invariant
            i <= p.len(),
            pview(r@) == pview(p@).subrange(0, i as int),
        decreases p.len() - i,
    {
        let c = clone_bytes(&p[i]);
        proof {
            lemma_pview_push(r@, c);
        }
        r.push(c);
        assert(pview(r@) =~= pview(p@).subrange(0, i as int + 1));
        i = i + 1;
    }
    assert(pview(p@) =~= pview(p@).subrange(0, i as int));
    r
}

/// `q` starts with the first `n` components of `p`, and both have at least `n`.
fn same_first(p: &PathBuf, q: &PathBuf, n: usize) -> (r: bool)
    requires
        n <= p.len(),
        n <= q.len(),
    ensures
        r == (pview(p@).subrange(0, n as int) == pview(q@).subrange(0, n as int)),
{
    let mut i: usize = 0;
    while i < n
        invariant
            n <= p.len(),
            n <= q.len(),
            i <= n,
            pview(p@).subrange(0, i as int) == pview(q@).subrange(0, i as int),
        decreases n - i,
    {
        if !bytes_eq(&p[i], &q[i]) {
            assert(pview(p@).subrange(0, n as int)[i as int] == p@[i as int]@);
            assert(pview(q@).subrange(0, n as int)[i as int] == q@[i as int]@);
            return false;
        }
        assert(pview(p@).subrange(0, i as int + 1) =~= pview(p@).subrange(0, i as int).push(
            p@[i as int]@,
        ));
        assert(pview(q@).subrange(0, i as int + 1) =~= pview(q@).subrange(0, i as int).push(
            q@[i as int]@,
        ));
        i = i + 1;
    }
    true
}

/// Paths are equal.
pub fn path_eq(p: &PathBuf, q: &PathBuf) -> (r: bool)
    ensures
        r == (pview(p@) == pview(q@)),
{
    if p.len() != q.len() {
        return false;
    }
    let r = same_first(p, q, p.len());
    assert(pview(p@) =~= pview(p@).subrange(0, p.len() as int));
    assert(pview(q@) =~= pview(q@).subrange(0, q.len() as int));
    r
}

/// `q` is an immediate child of `p`.
pub fn is_child(q: &PathBuf, p: &PathBuf) -> (r: bool)
    ensures
        r == is_child_path(pview(q@), pview(p@)),
{
    if q.len() == 0 || q.len() - 1 != p.len() {
        return false;
    }
    let r = same_first(p, q, p.len());
    assert(pview(p@) =~= pview(p@).subrange(0, p.len() as int));
    r
}

/// Lexicographic order on byte strings: `a` is at most `b`.
pub open spec fn lex_le(a: Seq<u8>, b: Seq<u8>) -> bool
    decreases a.len(),
{
    if a.len() == 0 {
        true
    } else if b.len() == 0 {
        false
    } else if a[0] != b[0] {
        a[0] < b[0]
    } else {
        lex_le(a.drop_first(), b.drop_first())
    }
}

/// Any two byte strings are ordered one way or the other.
pub proof fn lemma_lex_total(a: Seq<u8>, b: Seq<u8>)
    ensures
        lex_le(a, b) || lex_le(b, a),
    decreases a.len(),
{
    if a.len() > 0 && b.len() > 0 && a[0] == b[0] {
        lemma_lex_total(a.drop_first(), b.drop_first());
    }
}

/// The lexicographic order on byte strings is transitive.
pub proof fn lemma_lex_trans(a: Seq<u8>, b: Seq<u8>, c: Seq<u8>)
    requires
        lex_le(a, b),
        lex_le(b, c),
    ensures
        lex_le(a, c),
    decreases a.len(),
{
    if a.len() > 0 && b.len() > 0 && c.len() > 0 && a[0] == b[0] && b[0] == c[0] {
        lemma_lex_trans(a.drop_first(), b.drop_first(), c.drop_first());
    }
}

/// Byte-wise lexicographic comparison: `a` is at most `b`.
pub fn bytes_le(a: &Vec<u8>, b: &Vec<u8>) -> (r: bool)
    ensures
        r == lex_le(a@, b@),
{
    let mut i: usize = 0;
    assert(a@.subrange(0, a.len() as int) =~= a@);
    assert(b@.subrange(0, b.len() as int) =~= b@);
    while i < a.len() && i < b.len()
        invariant
            i <= a.len(),
            i <= b.len(),
            lex_le(a@, b@) == lex_le(a@.subrange(i as int, a.len() as int), b@.subrange(i as int, b.len() as int)),
        decreases a.len() - i,
    {
        let x = a[i];
        let y = b[i];
        proof {
            let sa = a@.subrange(i as int, a.len() as int);
            let sb = b@.subrange(i as int, b.len() as int);
            assert(sa[0] == x && sb[0] == y);
            assert(sa.drop_first() =~= a@.subrange(i as int + 1, a.len() as int));
            assert(sb.drop_first() =~= b@.subrange(i as int + 1, b.len() as int));
        }
        if x != y {
            return x < y;
        }
        i = i + 1;
    }
    i == a.len()
}

/// Lexicographic order on paths, component by component.
pub open spec fn path_lex_le(a: Seq<Seq<u8>>, b: Seq<Seq<u8>>) -> bool
    decreases a.len(),
{
    if a.len() == 0 {
        true
    } else if b.len() == 0 {
        false
    } else if a[0] != b[0] {
        lex_le(a[0], b[0])
    } else {
        path_lex_le(a.drop_first(), b.drop_first())
    }
}

/// Component-wise lexicographic comparison: `a` is at most `b`.
pub fn path_le(a: &PathBuf, b: &PathBuf) -> (r: bool)
    ensures
        r == path_lex_le(pview(a@), pview(b@)),
{
    let ghost pa = pview(a@);
    let ghost pb = pview(b@);
    let mut i: usize = 0;
    assert(pa.subrange(0, a.len() as int) =~= pa);
    assert(pb.subrange(0, b.len() as int) =~= pb);
    while i < a.len() && i < b.len()
        invariant
            i <= a.len(),
            i <= b.len(),
            pa == pview(a@),
            pb == pview(b@),
            path_lex_le(pa, pb) == path_lex_le(pa.subrange(i as int, a.len() as int), pb.subrange(i as int, b.len() as int)),
        decreases a.len() - i,
    {
        proof {
            let sa = pa.subrange(i as int, a.len() as int);
            let sb = pb.subrange(i as int, b.len() as int);
            assert(sa[0] == a@[i as int]@ && sb[0] == b@[i as int]@);
            assert(sa.drop_first() =~= pa.subrange(i as int + 1, a.len() as int));
            assert(sb.drop_first() =~= pb.subrange(i as int + 1, b.len() as int));
        }
        if !bytes_eq(&a[i], &b[i]) {
            return bytes_le(&a[i], &b[i]);
        }
        i = i + 1;
    }
    i == a.len()
}

} // verus!
