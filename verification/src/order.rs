//! The order of names: byte by byte, a prefix before anything longer. It is
//! the order `str` compares in, since UTF-8 keeps the order of code points.

use vstd::prelude::*;

verus! {

/// The first index at which `a` and `b` differ or one of them ends, looking
/// from `i` on.
pub open spec fn first_diff_from(a: Seq<u8>, b: Seq<u8>, i: int) -> int
    decreases a.len() - i,
{
    if i < 0 || i >= a.len() || i >= b.len() || a[i] != b[i] {
        i
    } else {
        first_diff_from(a, b, i + 1)
    }
}

/// The length of the longest common prefix of `a` and `b`.
pub open spec fn first_diff(a: Seq<u8>, b: Seq<u8>) -> int {
    first_diff_from(a, b, 0)
}

/// Whether `a` comes strictly before `b`.
pub open spec fn bytes_lt(a: Seq<u8>, b: Seq<u8>) -> bool {
    let i = first_diff(a, b);
    if i >= a.len() {
        i < b.len()
    } else if i >= b.len() {
        false
    } else {
        a[i] < b[i]
    }
}

proof fn lemma_first_diff_from(a: Seq<u8>, b: Seq<u8>, i: int)
    requires
        0 <= i <= a.len(),
        i <= b.len(),
        forall|k: int| 0 <= k < i ==> a[k] == b[k],
    ensures
        ({
            let d = first_diff_from(a, b, i);
            &&& i <= d <= a.len()
            &&& d <= b.len()
            &&& forall|k: int| 0 <= k < d ==> a[k] == b[k]
            &&& (d == a.len() || d == b.len() || a[d] != b[d])
        }),
    decreases a.len() - i,
{
    if i < a.len() && i < b.len() && a[i] == b[i] {
        lemma_first_diff_from(a, b, i + 1);
    }
}

/// What the longest common prefix is: equal bytes up to it, and then an end
/// or a difference.
pub proof fn lemma_first_diff(a: Seq<u8>, b: Seq<u8>)
    ensures
        ({
            let d = first_diff(a, b);
            &&& 0 <= d <= a.len()
            &&& d <= b.len()
            &&& forall|k: int| 0 <= k < d ==> a[k] == b[k]
            &&& (d == a.len() || d == b.len() || a[d] != b[d])
        }),
{
    lemma_first_diff_from(a, b, 0);
}

/// The common prefix is determined by the properties [`lemma_first_diff`]
/// gives it.
proof fn lemma_first_diff_unique(a: Seq<u8>, b: Seq<u8>, d: int)
    requires
        0 <= d <= a.len(),
        d <= b.len(),
        forall|k: int| 0 <= k < d ==> a[k] == b[k],
        d == a.len() || d == b.len() || a[d] != b[d],
    ensures
        first_diff(a, b) == d,
{
    lemma_first_diff(a, b);
    let f = first_diff(a, b);
    if f < d {
        assert(a[f] == b[f]);
    } else if d < f {
        assert(a[d] == b[d]);
    }
}

/// Nothing comes before itself.
pub proof fn lemma_lt_irreflexive(a: Seq<u8>)
    ensures
        !bytes_lt(a, a),
{
    lemma_first_diff_unique(a, a, a.len() as int);
}

/// Two names are equal or one comes before the other.
pub proof fn lemma_lt_total(a: Seq<u8>, b: Seq<u8>)
    ensures
        a == b || bytes_lt(a, b) || bytes_lt(b, a),
{
    lemma_first_diff(a, b);
    let d = first_diff(a, b);
    lemma_first_diff_unique(b, a, d);
    if d == a.len() && d == b.len() {
        assert(a =~= b);
    }
}

/// Before is one-way.
pub proof fn lemma_lt_asymmetric(a: Seq<u8>, b: Seq<u8>)
    ensures
        !(bytes_lt(a, b) && bytes_lt(b, a)),
{
    lemma_first_diff(a, b);
    let d = first_diff(a, b);
    lemma_first_diff_unique(b, a, d);
}

/// Before is transitive.
pub proof fn lemma_lt_transitive(a: Seq<u8>, b: Seq<u8>, c: Seq<u8>)
    requires
        bytes_lt(a, b),
        bytes_lt(b, c),
    ensures
        bytes_lt(a, c),
{
    lemma_first_diff(a, b);
    lemma_first_diff(b, c);
    let i = first_diff(a, b);
    let j = first_diff(b, c);
    if i < j {
        lemma_first_diff_unique(a, c, i);
    } else if j < i {
        lemma_first_diff_unique(a, c, j);
    } else {
        lemma_first_diff_unique(a, c, i);
    }
}

/// Whether `a` comes before `b`, compared as `str` compares.
pub fn bytes_less(a: &[u8], b: &[u8]) -> (r: bool)
    ensures
        r == bytes_lt(a@, b@),
{
    let mut i: usize = 0;
    while i < a.len() && i < b.len() && a[i] == b[i]
        invariant
            i <= a@.len(),
            i <= b@.len(),
            forall|k: int| 0 <= k < i ==> a@[k] == b@[k],
        decreases a@.len() - i,
    {
        i = i + 1;
    }
    proof {
        lemma_first_diff_unique(a@, b@, i as int);
    }
    if i == a.len() {
        i < b.len()
    } else if i == b.len() {
        false
    } else {
        a[i] < b[i]
    }
}

} // verus!
