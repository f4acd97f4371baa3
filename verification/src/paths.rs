//! Unix paths as byte strings, read the way `std::path::Path` reads them:
//! separators collapse, a `.` component in the middle is no component at
//! all, and a name that ends in `..` has no file name.

use vstd::prelude::*;

verus! {

/// The path separator.
pub const SLASH: u8 = 0x2f;

/// The byte that starts an extension.
pub const DOT: u8 = 0x2e;

/// Where the component that ends at `end` begins: just past the last
/// separator before `end`, or the start of the path.
pub open spec fn segment_start(p: Seq<u8>, end: int) -> int
    decreases end,
{
    if end <= 0 {
        0
    } else if p[end - 1] == SLASH {
        end
    } else {
        segment_start(p, end - 1)
    }
}

/// The bounds of the last component of `p[..end]`: trailing separators and
/// `.` components are passed over, as `Path::components` does from the back.
/// `(0, 0)` when nothing is left.
pub open spec fn last_component(p: Seq<u8>, end: int) -> (int, int)
    decreases end,
{
    if end <= 0 {
        (0, 0)
    } else if p[end - 1] == SLASH {
        last_component(p, end - 1)
    } else {
        let start = segment_start(p, end);
        if end - start == 1 && p[start] == DOT {
            last_component(p, start)
        } else {
            (start, end)
        }
    }
}

/// The two dots of a parent directory.
pub open spec fn dot_dot() -> Seq<u8> {
    seq![DOT, DOT]
}

/// Whether a path has a file name: a last component that is not `..`.
pub open spec fn has_file_name(p: Seq<u8>) -> bool {
    let (s, e) = last_component(p, p.len() as int);
    s < e && p.subrange(s, e) != dot_dot()
}

/// `Path::file_name`: the last component, unless there is none or it is `..`.
pub open spec fn file_name(p: Seq<u8>) -> Option<Seq<u8>> {
    let (s, e) = last_component(p, p.len() as int);
    if has_file_name(p) {
        Some(p.subrange(s, e))
    } else {
        None
    }
}

/// The index of the last `.` in `n[..end]`, or -1.
pub open spec fn last_dot(n: Seq<u8>, end: int) -> int
    decreases end,
{
    if end <= 0 {
        -1
    } else if n[end - 1] == DOT {
        end - 1
    } else {
        last_dot(n, end - 1)
    }
}

/// `Path::extension`: what follows the last `.` of the file name, when that
/// dot is not the name's first byte.
pub open spec fn extension(p: Seq<u8>) -> Option<Seq<u8>> {
    match file_name(p) {
        None => None,
        Some(n) => {
            let d = last_dot(n, n.len() as int);
            if d <= 0 {
                None
            } else {
                Some(n.subrange(d + 1, n.len() as int))
            }
        },
    }
}

/// `Path::file_stem`, as a length: how much of the file name is not the
/// extension and the dot before it.
pub open spec fn stem_len(n: Seq<u8>) -> int {
    let d = last_dot(n, n.len() as int);
    if d <= 0 {
        n.len() as int
    } else {
        d
    }
}

/// `Path::join` for a relative or absolute `rel`: an absolute one replaces
/// the base, and a separator goes between the two unless the base already
/// ends in one or is empty.
pub open spec fn join(base: Seq<u8>, rel: Seq<u8>) -> Seq<u8> {
    if rel.len() > 0 && rel[0] == SLASH {
        rel
    } else if base.len() == 0 || base.last() == SLASH {
        base + rel
    } else {
        base + seq![SLASH] + rel
    }
}

/// A path without the separators it ends in, leaving a lone `/` alone.
pub open spec fn trim_end_slashes(p: Seq<u8>) -> Seq<u8>
    decreases p.len(),
{
    if p.len() > 1 && p.last() == SLASH {
        trim_end_slashes(p.drop_last())
    } else {
        p
    }
}

/// Whether `p` lies inside the folder `dir`: `dir`, a separator, and more.
pub open spec fn is_inside(p: Seq<u8>, dir: Seq<u8>) -> bool {
    &&& dir.len() < p.len()
    &&& p.subrange(0, dir.len() as int) == dir
    &&& p[dir.len() as int] == SLASH
}

/// Whether `p` lies somewhere below the folder `dir`, however many
/// separators `dir` is written with at its end: below `/` is every other
/// absolute path.
pub open spec fn is_below(p: Seq<u8>, dir: Seq<u8>) -> bool {
    let t = trim_end_slashes(dir);
    if t == seq![SLASH] {
        p.len() > 1 && p[0] == SLASH
    } else {
        is_inside(p, t)
    }
}

proof fn lemma_segment_start_bounds(p: Seq<u8>, end: int)
    requires
        0 <= end <= p.len(),
    ensures
        0 <= segment_start(p, end) <= end,
        forall|k: int| segment_start(p, end) <= k < end ==> p[k] != SLASH,
        segment_start(p, end) > 0 ==> p[segment_start(p, end) - 1] == SLASH,
    decreases end,
{
    if end > 0 && p[end - 1] != SLASH {
        lemma_segment_start_bounds(p, end - 1);
    }
}

pub proof fn lemma_last_component_bounds(p: Seq<u8>, end: int)
    requires
        0 <= end <= p.len(),
    ensures
        0 <= last_component(p, end).0 <= last_component(p, end).1 <= end,
        last_component(p, end).0 < last_component(p, end).1 ==> {
            let (s, e) = last_component(p, end);
            &&& s == segment_start(p, e)
            &&& p[e - 1] != SLASH
            &&& forall|k: int| s <= k < e ==> p[k] != SLASH
            &&& e < end ==> p[e] == SLASH
        },
    decreases end,
{
    if end > 0 {
        if p[end - 1] == SLASH {
            lemma_last_component_bounds(p, end - 1);
        } else {
            lemma_segment_start_bounds(p, end);
            let start = segment_start(p, end);
            if end - start == 1 && p[start] == DOT {
                lemma_last_component_bounds(p, start);
                if start > 0 {
                    lemma_last_component_bounds(p, start - 1);
                }
            }
        }
    }
}

pub proof fn lemma_last_dot_bounds(n: Seq<u8>, end: int)
    requires
        0 <= end <= n.len(),
    ensures
        -1 <= last_dot(n, end) < end,
        last_dot(n, end) >= 0 ==> n[last_dot(n, end)] == DOT,
        forall|k: int| last_dot(n, end) < k < end ==> n[k] != DOT,
    decreases end,
{
    if end > 0 && n[end - 1] != DOT {
        lemma_last_dot_bounds(n, end - 1);
    }
}

/// Where the component ending at `end` starts.
fn find_segment_start(p: &[u8], end: usize) -> (start: usize)
    requires
        end <= p@.len(),
    ensures
        start as int == segment_start(p@, end as int),
{
    let mut i = end;
    while i > 0 && p[i - 1] != SLASH
        invariant
            i <= end <= p@.len(),
            segment_start(p@, i as int) == segment_start(p@, end as int),
        decreases i,
    {
        i = i - 1;
    }
    i
}

/// The bounds of a path's last component, as [`last_component`] reads it.
pub fn last_component_of(p: &[u8]) -> (r: (usize, usize))
    ensures
        (r.0 as int, r.1 as int) == last_component(p@, p@.len() as int),
        r.0 <= r.1 <= p@.len(),
{
    proof {
        lemma_last_component_bounds(p@, p@.len() as int);
    }
    let mut end = p.len();
    loop
        invariant
            end <= p@.len(),
            last_component(p@, end as int) == last_component(p@, p@.len() as int),
        decreases end,
    {
        if end == 0 {
            return (0, 0);
        }
        if p[end - 1] == SLASH {
            end = end - 1;
        } else {
            let start = find_segment_start(p, end);
            proof {
                lemma_segment_start_bounds(p@, end as int);
            }
            if end - start == 1 && p[start] == DOT {
                end = start;
            } else {
                return (start, end);
            }
        }
    }
}

/// The bounds of a path's file name, when it has one.
pub fn file_name_of(p: &[u8]) -> (r: Option<(usize, usize)>)
    ensures
        r is Some <==> has_file_name(p@),
        r matches Some((s, e)) ==> {
            &&& (s as int, e as int) == last_component(p@, p@.len() as int)
            &&& s < e <= p@.len()
            &&& file_name(p@) == Some(p@.subrange(s as int, e as int))
        },
{
    let (s, e) = last_component_of(p);
    if s == e {
        return None;
    }
    if e - s == 2 && p[s] == DOT && p[s + 1] == DOT {
        assert(p@.subrange(s as int, e as int) =~= dot_dot());
        return None;
    }
    proof {
        let c = p@.subrange(s as int, e as int);
        if c == dot_dot() {
            assert(c.len() == 2);
            assert(c[0] == DOT);
            assert(c[1] == DOT);
            assert(false);
        }
        assert(has_file_name(p@));
    }
    Some((s, e))
}

/// The index of the last `.` in `p[s..e]`, counted from `s`, if any.
fn last_dot_in(p: &[u8], s: usize, e: usize) -> (r: Option<usize>)
    requires
        s <= e <= p@.len(),
    ensures
        r is None ==> last_dot(p@.subrange(s as int, e as int), (e - s) as int) == -1,
        r matches Some(d) ==> d as int == last_dot(p@.subrange(s as int, e as int), (e - s) as int)
            && d < e - s,
{
    let ghost n = p@.subrange(s as int, e as int);
    let mut i = e - s;
    while i > 0 && p[s + i - 1] != DOT
        invariant
            s <= e <= p@.len(),
            i <= e - s,
            n == p@.subrange(s as int, e as int),
            last_dot(n, i as int) == last_dot(n, (e - s) as int),
        decreases i,
    {
        assert(n[i - 1] == p@[s + i - 1]);
        i = i - 1;
    }
    if i == 0 {
        None
    } else {
        assert(n[i - 1] == p@[s + i - 1]);
        Some(i - 1)
    }
}

/// The bounds of a path's extension, when it has one.
pub fn extension_of(p: &[u8]) -> (r: Option<(usize, usize)>)
    ensures
        r is None <==> extension(p@) is None,
        r matches Some((a, b)) ==> a <= b <= p@.len() && extension(p@) == Some(
            p@.subrange(a as int, b as int),
        ),
{
    match file_name_of(p) {
        None => None,
        Some((s, e)) => {
            let ghost n = p@.subrange(s as int, e as int);
            match last_dot_in(p, s, e) {
                None => None,
                Some(d) => {
                    if d == 0 {
                        None
                    } else {
                        assert(n.subrange(d + 1, n.len() as int) =~= p@.subrange(
                            s + d + 1,
                            e as int,
                        ));
                        Some((s + d + 1, e))
                    }
                },
            }
        },
    }
}

/// The length of the file name's stem: the name without its extension and
/// the dot before it.
pub fn stem_len_of(p: &[u8], s: usize, e: usize) -> (r: usize)
    requires
        s <= e <= p@.len(),
    ensures
        r as int == stem_len(p@.subrange(s as int, e as int)),
        r <= e - s,
{
    proof {
        lemma_last_dot_bounds(p@.subrange(s as int, e as int), (e - s) as int);
    }
    match last_dot_in(p, s, e) {
        None => e - s,
        Some(d) => {
            if d == 0 {
                e - s
            } else {
                d
            }
        },
    }
}

/// `base` joined with `rel`, as [`join`] says.
pub fn join_paths(base: &[u8], rel: &[u8]) -> (r: Vec<u8>)
    ensures
        r@ == join(base@, rel@),
{
    let mut out: Vec<u8> = Vec::new();
    if rel.len() > 0 && rel[0] == SLASH {
        push_all(&mut out, rel);
        assert(out@ =~= rel@);
        return out;
    }
    push_all(&mut out, base);
    if base.len() > 0 && base[base.len() - 1] != SLASH {
        out.push(SLASH);
    }
    push_all(&mut out, rel);
    proof {
        if base@.len() == 0 || base@.last() == SLASH {
            assert(out@ =~= base@ + rel@);
        } else {
            assert(out@ =~= base@ + seq![SLASH] + rel@);
        }
    }
    out
}

/// Appends every byte of `src`.
pub fn push_all(out: &mut Vec<u8>, src: &[u8])
    ensures
        final(out)@ == old(out)@ + src@,
{
    let ghost start = out@;
    let mut i: usize = 0;
    while i < src.len()
        invariant
            i <= src@.len(),
            out@ == start + src@.subrange(0, i as int),
        decreases src@.len() - i,
    {
        out.push(src[i]);
        i = i + 1;
        assert(out@ =~= start + src@.subrange(0, i as int));
    }
    assert(src@.subrange(0, src@.len() as int) =~= src@);
}

/// A copy of `p[a..b]`.
pub fn copy_range(p: &[u8], a: usize, b: usize) -> (r: Vec<u8>)
    requires
        a <= b <= p@.len(),
    ensures
        r@ == p@.subrange(a as int, b as int),
{
    let mut out: Vec<u8> = Vec::new();
    push_all(&mut out, &p[a..b]);
    assert(out@ =~= p@.subrange(a as int, b as int));
    out
}

/// Whether two byte strings are the same.
pub fn bytes_equal(a: &[u8], b: &[u8]) -> (r: bool)
    ensures
        r == (a@ == b@),
{
    if a.len() != b.len() {
        return false;
    }
    let mut i: usize = 0;
    while i < a.len()
        invariant
            a@.len() == b@.len(),
            i <= a@.len(),
            forall|k: int| 0 <= k < i ==> a@[k] == b@[k],
        decreases a@.len() - i,
    {
        if a[i] != b[i] {
            return false;
        }
        i = i + 1;
    }
    assert(a@ =~= b@);
    true
}

/// Whether `p` lies inside the folder `dir`.
pub fn path_is_inside(p: &[u8], dir: &[u8]) -> (r: bool)
    ensures
        r == is_inside(p@, dir@),
{
    if dir.len() >= p.len() {
        return false;
    }
    if p[dir.len()] != SLASH {
        return false;
    }
    let r = bytes_equal(&p[0..dir.len()], dir);
    r
}

/// Whether `p` lies somewhere below the folder `dir`.
pub fn path_is_below(p: &[u8], dir: &[u8]) -> (r: bool)
    ensures
        r == is_below(p@, dir@),
{
    let n = trim_end_slashes_of(dir);
    if n == 1 && dir[0] == SLASH {
        assert(dir@.subrange(0, 1) =~= seq![SLASH]);
        return p.len() > 1 && p[0] == SLASH;
    }
    let ghost t = dir@.subrange(0, n as int);
    assert(t != seq![SLASH]) by {
        if t.len() == 1 {
            assert(t[0] == dir@[0]);
            assert(t[0] != seq![SLASH][0]);
        }
    }
    path_is_inside(p, &dir[0..n])
}

/// `p` without the separators it ends in.
pub fn trim_end_slashes_of(p: &[u8]) -> (r: usize)
    ensures
        r <= p@.len(),
        p@.subrange(0, r as int) == trim_end_slashes(p@),
{
    let mut n = p.len();
    assert(p@.subrange(0, n as int) =~= p@);
    while n > 1 && p[n - 1] == SLASH
        invariant
            n <= p@.len(),
            trim_end_slashes(p@.subrange(0, n as int)) == trim_end_slashes(p@),
        decreases n,
    {
        assert(p@.subrange(0, n as int).drop_last() =~= p@.subrange(0, n - 1));
        n = n - 1;
    }
    n
}

/// A run of non-separators that starts the path or follows a separator is
/// where the component ending anywhere in it begins.
pub proof fn lemma_segment_start_run(p: Seq<u8>, a: int, end: int)
    requires
        0 <= a <= end <= p.len(),
        a == 0 || p[a - 1] == SLASH,
        forall|k: int| a <= k < end ==> p[k] != SLASH,
    ensures
        segment_start(p, end) == a,
    decreases end,
{
    if end > a {
        lemma_segment_start_run(p, a, end - 1);
    }
}

/// The last dot is the one with no dot after it.
pub proof fn lemma_last_dot_at(n: Seq<u8>, d: int, end: int)
    requires
        0 <= d < end <= n.len(),
        n[d] == DOT,
        forall|k: int| d < k < end ==> n[k] != DOT,
    ensures
        last_dot(n, end) == d,
    decreases end,
{
    if end - 1 > d {
        lemma_last_dot_at(n, d, end - 1);
    }
}

} // verus!
