use vstd::prelude::*;

use crate::text::chars_of;

verus! {

/// Lexicographic order on character sequences, by code point; a proper prefix comes
/// first.
pub open spec fn str_lt(a: Seq<char>, b: Seq<char>) -> bool
    decreases a.len(),
{
    if a.len() == 0 {
        b.len() > 0
    } else if b.len() == 0 {
        false
    } else if a[0] != b[0] {
        a[0] < b[0]
    } else {
        str_lt(a.drop_first(), b.drop_first())
    }
}

pub proof fn lemma_str_lt_irreflexive(a: Seq<char>)
    ensures
        !str_lt(a, a),
    decreases a.len(),
{
    if a.len() > 0 {
        lemma_str_lt_irreflexive(a.drop_first());
    }
}

pub proof fn lemma_str_lt_transitive(a: Seq<char>, b: Seq<char>, c: Seq<char>)
    requires
        str_lt(a, b),
        str_lt(b, c),
    ensures
        str_lt(a, c),
    decreases a.len(),
{
    if a.len() > 0 && b.len() > 0 && c.len() > 0 && a[0] == b[0] && b[0] == c[0] {
        lemma_str_lt_transitive(a.drop_first(), b.drop_first(), c.drop_first());
    }
}

pub proof fn lemma_str_lt_total(a: Seq<char>, b: Seq<char>)
    requires
        a != b,
    ensures
        str_lt(a, b) || str_lt(b, a),
    decreases a.len(),
{
    if a.len() == 0 {
        if b.len() == 0 {
            assert(a =~= b);
        }
    } else if b.len() > 0 && a[0] == b[0] {
        if a.drop_first() == b.drop_first() {
            assert(a.len() == a.drop_first().len() + 1 && b.len() == b.drop_first().len() + 1);
            assert forall|i: int| 0 <= i < a.len() implies a[i] == b[i] by {
                if i > 0 {
                    assert(a[i] == a.drop_first()[i - 1]);
                    assert(b[i] == b.drop_first()[i - 1]);
                }
            }
            assert(a =~= b);
        }
        lemma_str_lt_total(a.drop_first(), b.drop_first());
    }
}

pub proof fn lemma_str_lt_asymmetric(a: Seq<char>, b: Seq<char>)
    requires
        str_lt(a, b),
    ensures
        !str_lt(b, a),
{
    if str_lt(b, a) {
        lemma_str_lt_transitive(a, b, a);
        lemma_str_lt_irreflexive(a);
    }
}

/// A proper prefix comes before the sequences it begins.
pub proof fn lemma_prefix_lt(p: Seq<char>, q: Seq<char>)
    requires
        p.len() < q.len(),
        q.subrange(0, p.len() as int) == p,
    ensures
        str_lt(p, q),
    decreases p.len(),
{
    if p.len() > 0 {
        assert(q[0] == q.subrange(0, p.len() as int)[0]);
        assert(q.drop_first().subrange(0, p.len() - 1) =~= p.drop_first());
        lemma_prefix_lt(p.drop_first(), q.drop_first());
    }
}

proof fn lemma_str_lt_skip(a: Seq<char>, b: Seq<char>, k: int)
    requires
        0 <= k <= a.len(),
        k <= b.len(),
        a.subrange(0, k) == b.subrange(0, k),
    ensures
        str_lt(a, b) == str_lt(a.skip(k), b.skip(k)),
    decreases k,
{
    if k == 0 {
        assert(a.skip(0) =~= a);
        assert(b.skip(0) =~= b);
    } else {
        assert(a[0] == a.subrange(0, k)[0]);
        assert(b[0] == b.subrange(0, k)[0]);
        assert(a.drop_first().subrange(0, k - 1) =~= a.subrange(0, k).drop_first());
        assert(b.drop_first().subrange(0, k - 1) =~= b.subrange(0, k).drop_first());
        assert(a.drop_first().skip(k - 1) =~= a.skip(k));
        assert(b.drop_first().skip(k - 1) =~= b.skip(k));
        lemma_str_lt_skip(a.drop_first(), b.drop_first(), k - 1);
    }
}

/// Decides `str_lt` on two strings.
pub fn str_less(a: &String, b: &String) -> (r: bool)
    ensures
        r == str_lt(a@, b@),
{
    let x = chars_of(a.as_str());
    let y = chars_of(b.as_str());
    let mut k: usize = 0;
    while k < x.len() && k < y.len() && x[k] == y[k]
        invariant
            k <= x.len(),
            k <= y.len(),
            x@.subrange(0, k as int) == y@.subrange(0, k as int),
        decreases x.len() - k,
    {
        assert(x@.subrange(0, k + 1) =~= x@.subrange(0, k as int).push(x@[k as int]));
        assert(y@.subrange(0, k + 1) =~= y@.subrange(0, k as int).push(y@[k as int]));
        k += 1;
    }
    proof {
        lemma_str_lt_skip(x@, y@, k as int);
    }
    let ghost xs = x@.skip(k as int);
    let ghost ys = y@.skip(k as int);
    if k == x.len() {
        assert(xs.len() == 0);
        k < y.len()
    } else if k == y.len() {
        false
    } else {
        assert(xs[0] == x@[k as int] && ys[0] == y@[k as int]);
        x[k] < y[k]
    }
}

/// The number of non-empty `/`-separated segments of a path.
pub open spec fn depth(p: Seq<char>) -> nat
    decreases p.len(),
{
    if p.len() == 0 {
        0
    } else {
        depth(p.drop_last()) + if p.last() != '/' && (p.len() == 1 || p[p.len() - 2] == '/') {
            1nat
        } else {
            0nat
        }
    }
}

/// `q` extends `p` and starts at least one more segment after it: `q` names an entry
/// inside `p`.
pub open spec fn below(q: Seq<char>, p: Seq<char>) -> bool {
    &&& p.len() < q.len()
    &&& q.subrange(0, p.len() as int) == p
    &&& exists|i: int| p.len() <= i < q.len() && 1 <= i && q[i - 1] == '/' && #[trigger] q[i] != '/'
}

proof fn lemma_depth_mono(s: Seq<char>, j: int, k: int)
    requires
        0 <= j <= k <= s.len(),
    ensures
        depth(s.subrange(0, j)) <= depth(s.subrange(0, k)),
    decreases k - j,
{
    if j < k {
        lemma_depth_mono(s, j, k - 1);
        assert(s.subrange(0, k).drop_last() == s.subrange(0, k - 1));
    }
}

/// An entry inside a directory is deeper than the directory.
pub proof fn lemma_below_deeper(q: Seq<char>, p: Seq<char>)
    requires
        below(q, p),
    ensures
        depth(p) < depth(q),
{
    let i = choose|i: int| p.len() <= i < q.len() && 1 <= i && q[i - 1] == '/' && #[trigger] q[i] != '/';
    lemma_depth_mono(q, p.len() as int, i);
    lemma_depth_mono(q, i + 1, q.len() as int);
    let t = q.subrange(0, i + 1);
    assert(t.drop_last() == q.subrange(0, i));
    assert(t.last() == q[i]);
    assert(t[t.len() - 2] == q[i - 1]);
    assert(q.subrange(0, q.len() as int) == q);
}

/// Computes `depth`.
pub fn path_depth(s: &String) -> (r: usize)
    ensures
        r == depth(s@),
{
    let x = chars_of(s.as_str());
    let mut n: usize = 0;
    let mut i: usize = 0;
    while i < x.len()
        invariant
            i <= x.len(),
            n <= i,
            n == depth(x@.subrange(0, i as int)),
        decreases x.len() - i,
    {
        let ghost t = x@.subrange(0, i as int + 1);
        assert(t.drop_last() == x@.subrange(0, i as int));
        if i > 0 {
            assert(t[t.len() - 2] == x@[i - 1]);
        }
        if x[i] != '/' && (i == 0 || x[i - 1] == '/') {
            n += 1;
        }
        i += 1;
    }
    assert(x@.subrange(0, x.len() as int) == x@);
    n
}

} // verus!
