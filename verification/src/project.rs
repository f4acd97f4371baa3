//! A folder of documents, and what git says about them.
//!
//! The tree is flat, for the same reason the document's blocks are: a nested
//! model turns every question about the row the user is pointing at into a
//! walk. Expanding a folder splices its children in below it; collapsing
//! removes them.
//!
//! What git says comes from `git status --porcelain -z`, read here from the
//! bytes it printed; a folder that is not a repository, or a machine without
//! git, simply has nothing to say.

use vstd::prelude::*;
use vstd::utf8::*;
use vstd::string::StringExecFns;

use crate::document::{lower, lower_equals};
use crate::order::{bytes_less, bytes_lt, lemma_lt_asymmetric, lemma_lt_total, lemma_lt_transitive};
use crate::paths::{
    bytes_equal, copy_range, dot_dot, extension, extension_of, file_name, file_name_of, is_below,
    is_inside, join, join_paths, path_is_below, path_is_inside, trim_end_slashes, trim_end_slashes_of,
    DOT, SLASH,
};
use crate::text::{leading_whitespace, str_bytes, str_from_utf8, trim_start};

verus! {

/// What git says about a file.
#[derive(Debug, Clone, Copy, PartialEq, Eq, Structural)]
pub enum Status {
    /// Changed since the last commit, and not staged.
    Modified,
    /// Staged.
    Staged,
    /// Not tracked at all.
    Untracked,
    /// Tracked, unmodified. Never stored: the absence of an entry means this.
    Clean,
}

/// The symbol shown beside a name for each status; a clean file has none.
pub open spec fn marker_chars(s: Status) -> Seq<char> {
    match s {
        Status::Modified => seq!['\u{25cf}'],
        Status::Staged => seq!['\u{25c6}'],
        Status::Untracked => seq!['\u{25cb}'],
        Status::Clean => Seq::empty(),
    }
}

impl Status {
    /// The symbol shown beside the name: a filled circle for a change, a
    /// diamond for a staged one, a ring for a file git does not know, and
    /// nothing for a clean one.
    pub fn marker(self) -> (m: &'static str)
        ensures
            m@ == marker_chars(self),
    {
        match self {
            Status::Modified => {
                proof {
                    reveal_strlit("\u{25cf}");
                }
                "\u{25cf}"
            },
            Status::Staged => {
                proof {
                    reveal_strlit("\u{25c6}");
                }
                "\u{25c6}"
            },
            Status::Untracked => {
                proof {
                    reveal_strlit("\u{25cb}");
                }
                "\u{25cb}"
            },
            Status::Clean => {
                proof {
                    reveal_strlit("");
                }
                ""
            },
        }
    }
}

/// What git says about a path: its own entry, or — for anything inside a
/// folder git reports as untracked as a whole — untracked, since git lists
/// such a folder once rather than every file in it.
pub open spec fn status_of(m: Map<Seq<u8>, Status>, p: Seq<u8>) -> Option<Status> {
    if m.contains_key(p) {
        Some(m[p])
    } else if exists|d: Seq<u8>|
        #![trigger m.contains_key(d)]
        m.contains_key(d) && m[d] == Status::Untracked && is_inside(p, d) {
        Some(Status::Untracked)
    } else {
        None
    }
}

/// Statuses by path: each path at most once.
#[derive(Debug)]
pub struct StatusMap {
    keys: Vec<Vec<u8>>,
    values: Vec<Status>,
}

impl StatusMap {
    #[verifier::type_invariant]
    spec fn well_formed(self) -> bool {
        &&& self.keys@.len() == self.values@.len()
        &&& forall|i: int, j: int|
            0 <= i < j < self.keys@.len() ==> #[trigger] self.keys@[i]@ != #[trigger] self.keys@[j]@
    }

    /// The map the statuses make.
    pub closed spec fn view(&self) -> Map<Seq<u8>, Status> {
        Map::new(
            |k: Seq<u8>| exists|i: int| 0 <= i < self.keys@.len() && #[trigger] self.keys@[i]@ == k,
            |k: Seq<u8>|
                self.values@[choose|i: int| 0 <= i < self.keys@.len() && #[trigger] self.keys@[i]@ == k],
        )
    }

    proof fn lemma_at(&self, i: int)
        requires
            self.well_formed(),
            0 <= i < self.keys@.len(),
        ensures
            self@.contains_key(self.keys@[i]@),
            self@[self.keys@[i]@] == self.values@[i],
    {
        let k = self.keys@[i]@;
        assert(self@.contains_key(k));
        let j = choose|j: int| 0 <= j < self.keys@.len() && #[trigger] self.keys@[j]@ == k;
        if j != i {
            if i < j {
                assert(self.keys@[i]@ != self.keys@[j]@);
            } else {
                assert(self.keys@[j]@ != self.keys@[i]@);
            }
        }
    }

    /// No statuses at all.
    pub fn new() -> (m: StatusMap)
        ensures
            m@ == Map::<Seq<u8>, Status>::empty(),
    {
        let m = StatusMap { keys: Vec::new(), values: Vec::new() };
        assert(m@ =~= Map::<Seq<u8>, Status>::empty());
        m
    }

    /// Where a path is stored, if it is.
    fn find(&self, path: &[u8]) -> (r: Option<usize>)
        ensures
            r is None ==> !self@.contains_key(path@),
            r matches Some(i) ==> i < self.keys@.len() && self.keys@[i as int]@ == path@,
    {
        proof {
            use_type_invariant(self);
        }
        let mut i: usize = 0;
        while i < self.keys.len()
            invariant
                i <= self.keys@.len(),
                forall|j: int| 0 <= j < i ==> self.keys@[j]@ != path@,
            decreases self.keys@.len() - i,
        {
            if bytes_equal(self.keys[i].as_slice(), path) {
                return Some(i);
            }
            i = i + 1;
        }
        None
    }

    /// The status stored for exactly this path.
    pub fn get(&self, path: &[u8]) -> (r: Option<Status>)
        ensures
            r == (if self@.contains_key(path@) {
                Some(self@[path@])
            } else {
                None::<Status>
            }),
    {
        match self.find(path) {
            None => None,
            Some(i) => {
                proof {
                    use_type_invariant(self);
                    self.lemma_at(i as int);
                }
                Some(self.values[i])
            },
        }
    }

    /// The map is what the pairs say it is.
    proof fn lemma_view_is(&self, m: Map<Seq<u8>, Status>)
        requires
            self.well_formed(),
            forall|j: int|
                0 <= j < self.keys@.len() ==> #[trigger] m.contains_key(self.keys@[j]@) && m[self.keys@[j]@]
                    == self.values@[j],
            forall|k: Seq<u8>|
                #[trigger] m.contains_key(k) ==> exists|j: int|
                    0 <= j < self.keys@.len() && #[trigger] self.keys@[j]@ == k,
        ensures
            self@ == m,
    {
        assert forall|k: Seq<u8>| #[trigger] self@.contains_key(k) == m.contains_key(k) by {
            if self@.contains_key(k) {
                let j = choose|j: int| 0 <= j < self.keys@.len() && #[trigger] self.keys@[j]@ == k;
                assert(m.contains_key(self.keys@[j]@));
            }
        }
        assert forall|k: Seq<u8>| #[trigger] self@.contains_key(k) implies self@[k] == m[k] by {
            let j = choose|j: int| 0 <= j < self.keys@.len() && #[trigger] self.keys@[j]@ == k;
            self.lemma_at(j);
            assert(m.contains_key(self.keys@[j]@));
        }
        assert(self@ =~= m);
    }

    /// Every stored pair is in the map, and the map holds nothing else.
    proof fn lemma_pairs(&self)
        requires
            self.well_formed(),
        ensures
            forall|j: int|
                0 <= j < self.keys@.len() ==> #[trigger] self@.contains_key(self.keys@[j]@)
                    && self@[self.keys@[j]@] == self.values@[j],
            forall|k: Seq<u8>|
                #[trigger] self@.contains_key(k) ==> exists|j: int|
                    0 <= j < self.keys@.len() && #[trigger] self.keys@[j]@ == k,
    {
        assert forall|j: int| 0 <= j < self.keys@.len() implies #[trigger] self@.contains_key(
            self.keys@[j]@,
        ) && self@[self.keys@[j]@] == self.values@[j] by {
            self.lemma_at(j);
        }
    }

    /// Sets a path's status, replacing what was there.
    pub fn insert(&mut self, path: Vec<u8>, status: Status)
        ensures
            final(self)@ == old(self)@.insert(path@, status),
    {
        proof {
            use_type_invariant(&*self);
            self.lemma_pairs();
        }
        let ghost before = self@;
        let ghost target = before.insert(path@, status);
        let found = self.find(path.as_slice());
        let mut taken = StatusMap::new();
        std::mem::swap(self, &mut taken);
        proof {
            use_type_invariant(&taken);
        }
        let StatusMap { mut keys, mut values } = taken;
        let ghost old_keys = keys@;
        match found {
            Some(i) => {
                values.set(i, status);
            },
            None => {
                proof {
                    assert forall|j: int| 0 <= j < old_keys.len() implies old_keys[j]@ != path@ by {
                        assert(before.contains_key(old_keys[j]@));
                    }
                }
                keys.push(path);
                values.push(status);
            },
        }
        proof {
            assert forall|a: int, b: int|
                0 <= a < b < keys@.len() implies #[trigger] keys@[a]@ != #[trigger] keys@[b]@ by {
                if b < old_keys.len() {
                    assert(keys@[a] == old_keys[a]);
                    assert(keys@[b] == old_keys[b]);
                }
            }
        }
        let m = StatusMap { keys, values };
        proof {
            let n = old_keys.len() as int;
            assert forall|j: int| 0 <= j < m.keys@.len() implies #[trigger] target.contains_key(
                m.keys@[j]@,
            ) && target[m.keys@[j]@] == m.values@[j] by {
                if j < n {
                    assert(m.keys@[j] == old_keys[j]);
                }
            }
            assert forall|k: Seq<u8>| #[trigger] target.contains_key(k) implies exists|j: int|
                0 <= j < m.keys@.len() && #[trigger] m.keys@[j]@ == k by {
                if k == path@ {
                    match found {
                        Some(i) => assert(m.keys@[i as int]@ == k),
                        None => assert(m.keys@[n]@ == k),
                    }
                } else {
                    let j = choose|j: int| 0 <= j < old_keys.len() && #[trigger] old_keys[j]@ == k;
                    assert(m.keys@[j]@ == k);
                }
            }
            m.lemma_view_is(target);
        }
        *self = m;
    }

    /// Sets a path's status unless it already has one.
    pub fn insert_if_absent(&mut self, path: Vec<u8>, status: Status)
        ensures
            final(self)@ == (if old(self)@.contains_key(path@) {
                old(self)@
            } else {
                old(self)@.insert(path@, status)
            }),
    {
        match self.find(path.as_slice()) {
            Some(i) => {
                proof {
                    use_type_invariant(&*self);
                    self.lemma_at(i as int);
                }
            },
            None => {
                self.insert(path, status);
            },
        }
    }

    /// What git says about a path, by [`status_of`].
    pub fn lookup(&self, path: &[u8]) -> (r: Option<Status>)
        ensures
            r == status_of(self@, path@),
    {
        proof {
            use_type_invariant(self);
            self.lemma_pairs();
        }
        match self.get(path) {
            Some(s) => return Some(s),
            None => {},
        }
        let mut i: usize = 0;
        while i < self.keys.len()
            invariant
                i <= self.keys@.len(),
                self.well_formed(),
                !self@.contains_key(path@),
                self.keys@.len() == self.values@.len(),
                forall|j: int|
                    0 <= j < i ==> !(self.values@[j] == Status::Untracked && is_inside(
                        path@,
                        self.keys@[j]@,
                    )),
            decreases self.keys@.len() - i,
        {
            if self.values[i] == Status::Untracked && path_is_inside(path, self.keys[i].as_slice()) {
                proof {
                    self.lemma_at(i as int);
                    assert(self@.contains_key(self.keys@[i as int]@));
                }
                return Some(Status::Untracked);
            }
            i = i + 1;
        }
        proof {
            assert forall|d: Seq<u8>| #[trigger] self@.contains_key(d) implies !(self@[d] == Status::Untracked
                && is_inside(path@, d)) by {
                let j = choose|j: int| 0 <= j < self.keys@.len() && #[trigger] self.keys@[j]@ == d;
                self.lemma_at(j);
            }
        }
        None
    }
}

} // verus!

verus! {

/// The records of `git status -z`, as splitting its output at every NUL
/// yields them: one more record than there are NULs.
pub open spec fn records(out: Seq<u8>) -> Seq<Seq<u8>>
    decreases out.len(),
{
    if out.len() == 0 {
        seq![Seq::empty()]
    } else {
        let before = records(out.drop_last());
        if out.last() == 0 {
            before.push(Seq::empty())
        } else {
            before.update(before.len() - 1, before.last().push(out.last()))
        }
    }
}

/// Whether `out[a..b]` is one whole record: it starts at the start or just
/// past a NUL, ends at the end or at a NUL, and holds no NUL.
pub open spec fn is_record(out: Seq<u8>, a: int, b: int) -> bool {
    &&& 0 <= a <= b <= out.len()
    &&& (a == 0 || out[a - 1] == 0)
    &&& (b == out.len() || out[b] == 0)
    &&& forall|k: int| a <= k < b ==> out[k] != 0
}

/// Whether every record that is read as text can be cut after its two
/// status letters: git's status letters are ASCII, so its own output always
/// can.
pub open spec fn git_output_splits(out: Seq<u8>) -> bool {
    forall|a: int, b: int|
        #![trigger is_record(out, a, b)]
        is_record(out, a, b) && b - a >= 4 && valid_utf8(out.subrange(a, b)) ==> is_char_boundary(
            out.subrange(a, b),
            2,
        )
}

/// The status two porcelain letters stand for.
pub open spec fn flags_status(x: u8, y: u8) -> Status {
    if x == '?' as u8 && y == '?' as u8 {
        Status::Untracked
    } else if x == ' ' as u8 {
        Status::Modified
    } else {
        Status::Staged
    }
}

/// The path a record names, relative to the working tree: everything after
/// the two status letters, without the whitespace it starts with.
pub open spec fn record_path(rec: Seq<u8>) -> Seq<u8> {
    let rest = decode_utf8(rec.subrange(2, rec.len() as int));
    encode_utf8(rest.skip(leading_whitespace(rest) as int))
}

/// The folders a path relative to the repository's top level passes
/// through that lie below the opened folder: the top level joined with each
/// prefix of the path that ends before one of its separators, kept when it
/// is below `root`.
pub open spec fn folders_above(top: Seq<u8>, root: Seq<u8>, rel: Seq<u8>, upto: int) -> Set<
    Seq<u8>,
> {
    Set::new(
        |d: Seq<u8>|
            exists|j: int|
                0 < j < upto && j < rel.len() && rel[j] == SLASH && rel[0] != SLASH && d == join(
                    top,
                    rel.subrange(0, j),
                ) && is_below(d, root),
    )
}

/// A map with every path of `folders` that it lacks marked as modified.
pub open spec fn mark_folders(m: Map<Seq<u8>, Status>, folders: Set<Seq<u8>>) -> Map<
    Seq<u8>,
    Status,
> {
    Map::new(
        |k: Seq<u8>| m.contains_key(k) || folders.contains(k),
        |k: Seq<u8>|
            if m.contains_key(k) {
                m[k]
            } else {
                Status::Modified
            },
    )
}

/// What one record adds: its path's status, keyed by the absolute path —
/// the repository's top level `top` joined with the path git printed, which
/// is relative to it — and a mark on every folder above it that lies below
/// the opened folder `root` and has none yet, so a collapsed tree still says
/// where to look. A record too short to hold letters and a path, or that is
/// not UTF-8, adds nothing.
pub open spec fn apply_record(top: Seq<u8>, root: Seq<u8>, m: Map<Seq<u8>, Status>, rec: Seq<u8>) -> Map<
    Seq<u8>,
    Status,
> {
    if rec.len() < 4 || !valid_utf8(rec) {
        m
    } else {
        let rel = record_path(rec);
        let key = trim_end_slashes(join(top, rel));
        let folder_rel = trim_end_slashes(rel);
        mark_folders(
            m.insert(key, flags_status(rec[0], rec[1])),
            folders_above(top, root, folder_rel, folder_rel.len() as int),
        )
    }
}

/// The statuses a sequence of records leaves, applied in order.
pub open spec fn apply_records(top: Seq<u8>, root: Seq<u8>, recs: Seq<Seq<u8>>) -> Map<Seq<u8>, Status>
    decreases recs.len(),
{
    if recs.len() == 0 {
        Map::empty()
    } else {
        apply_record(top, root, apply_records(top, root, recs.drop_last()), recs.last())
    }
}

/// What `git status --porcelain -z` says about the working tree whose top
/// level is `top`, for the folder `root` opened in it, by absolute path.
pub open spec fn git_statuses(top: Seq<u8>, root: Seq<u8>, out: Seq<u8>) -> Map<Seq<u8>, Status> {
    apply_records(top, root, records(out))
}

proof fn lemma_records_nonempty(out: Seq<u8>)
    ensures
        records(out).len() >= 1,
    decreases out.len(),
{
    if out.len() > 0 {
        lemma_records_nonempty(out.drop_last());
    }
}

/// Adds one record's statuses to the map.
fn apply_record_to(m: &mut StatusMap, top: &[u8], root: &[u8], rec: &[u8])
    requires
        rec@.len() >= 4 && valid_utf8(rec@) ==> is_char_boundary(rec@, 2),
    ensures
        final(m)@ == apply_record(top@, root@, old(m)@, rec@),
{
    if rec.len() < 4 {
        return;
    }
    let text = match str_from_utf8(rec) {
        Ok(text) => text,
        Err(_) => {
            return;
        },
    };
    proof {
        decode_utf8_encode_utf8(rec@);
    }
    let (_, rest) = text.split_at(2);
    proof {
        encode_utf8_decode_utf8(rest@);
    }
    let trimmed = trim_start(rest);
    let rel = str_bytes(trimmed);
    assert(rel@ == record_path(rec@));
    let status = if rec[0] == '?' as u8 && rec[1] == '?' as u8 {
        Status::Untracked
    } else if rec[0] == ' ' as u8 {
        Status::Modified
    } else {
        Status::Staged
    };
    let joined = join_paths(top, rel.as_slice());
    let key_len = trim_end_slashes_of(joined.as_slice());
    let key = copy_range(joined.as_slice(), 0, key_len);
    m.insert(key, status);
    let ghost m1 = m@;
    let rn = trim_end_slashes_of(rel.as_slice());
    let ghost fr = rel@.subrange(0, rn as int);
    if rn > 0 && rel[0] != SLASH {
        let mut j: usize = 1;
        assert(mark_folders(m1, folders_above(top@, root@, fr, 1)) =~= m1);
        while j < rn
            invariant
                1 <= j <= rn <= rel@.len(),
                fr == rel@.subrange(0, rn as int),
                rel@[0] != SLASH,
                m@ == mark_folders(m1, folders_above(top@, root@, fr, j as int)),
            decreases rn - j,
        {
            let ghost before = m@;
            if rel[j] == SLASH {
                let folder = join_paths(top, &rel[0..j]);
                proof {
                    assert(rel@.subrange(0, j as int) =~= fr.subrange(0, j as int));
                }
                if path_is_below(folder.as_slice(), root) {
                    m.insert_if_absent(folder, Status::Modified);
                    proof {
                        assert(folders_above(top@, root@, fr, j + 1) =~= folders_above(
                            top@,
                            root@,
                            fr,
                            j as int,
                        ).insert(folder@));
                        assert(m@ =~= mark_folders(m1, folders_above(top@, root@, fr, j + 1)));
                    }
                } else {
                    proof {
                        assert(folders_above(top@, root@, fr, j + 1) =~= folders_above(
                            top@,
                            root@,
                            fr,
                            j as int,
                        ));
                    }
                }
            } else {
                proof {
                    assert(folders_above(top@, root@, fr, j + 1) =~= folders_above(top@, root@, fr, j as int));
                }
            }
            j = j + 1;
        }
        proof {
            assert(folders_above(top@, root@, fr, rn as int) =~= folders_above(top@, root@, fr, fr.len() as int));
        }
    } else {
        proof {
            assert(folders_above(top@, root@, fr, fr.len() as int) =~= Set::empty());
            assert(mark_folders(m1, Set::empty()) =~= m1);
        }
    }
}

/// What `git status --porcelain -z` says about the folder `root`, read from
/// what it printed there: each path's status, keyed by the repository's top
/// level `top` joined with the path git printed relative to it, and every
/// folder above a change, below `root`, marked as modified.
pub fn git_status(top: &[u8], root: &[u8], out: &[u8]) -> (m: StatusMap)
    requires
        git_output_splits(out@),
    ensures
        m@ == git_statuses(top@, root@, out@),
{
    let mut m = StatusMap::new();
    let mut start: usize = 0;
    let mut i: usize = 0;
    let ghost mut done: Seq<Seq<u8>> = Seq::empty();
    assert(out@.subrange(0, 0) =~= Seq::<u8>::empty());
    assert(records(out@.subrange(0, 0)) =~~= done.push(out@.subrange(0, 0)));
    while i < out.len()
        invariant
            start <= i <= out@.len(),
            git_output_splits(out@),
            start == 0 || out@[start - 1] == 0,
            forall|k: int| start <= k < i ==> out@[k] != 0,
            records(out@.subrange(0, i as int)) == done.push(out@.subrange(start as int, i as int)),
            m@ == apply_records(top@, root@, done),
        decreases out@.len() - i,
    {
        let ghost prefix = out@.subrange(0, i + 1);
        assert(prefix.drop_last() =~= out@.subrange(0, i as int));
        if out[i] == 0 {
            assert(is_record(out@, start as int, i as int));
            apply_record_to(&mut m, top, root, &out[start..i]);
            proof {
                assert(done.push(out@.subrange(start as int, i as int)).drop_last() =~= done);
                done = done.push(out@.subrange(start as int, i as int));
                assert(prefix.last() == 0);
                assert(records(prefix) == records(prefix.drop_last()).push(Seq::empty()));
                assert(out@.subrange(i + 1, i + 1) =~= Seq::<u8>::empty());
                assert(records(prefix) =~~= done.push(out@.subrange(i + 1, i + 1)));
            }
            start = i + 1;
        } else {
            proof {
                let before = done.push(out@.subrange(start as int, i as int));
                assert(prefix.last() == out@[i as int]);
                assert(records(prefix) == before.update(
                    before.len() - 1,
                    before.last().push(out@[i as int]),
                ));
                assert(out@.subrange(start as int, i as int).push(out@[i as int]) =~= out@.subrange(
                    start as int,
                    i + 1,
                ));
                assert(records(prefix) =~~= done.push(out@.subrange(start as int, i + 1)));
            }
        }
        i = i + 1;
    }
    assert(is_record(out@, start as int, out@.len() as int));
    apply_record_to(&mut m, top, root, &out[start..out.len()]);
    proof {
        assert(out@.subrange(0, out@.len() as int) =~= out@);
        let all = done.push(out@.subrange(start as int, out@.len() as int));
        assert(all.drop_last() =~= done);
    }
    m
}

} // verus!

verus! {

/// One row of the tree, as the specification reads it.
pub struct Row {
    pub path: Seq<u8>,
    pub depth: nat,
    pub is_dir: bool,
    pub expanded: bool,
    pub status: Option<Status>,
}

/// One row of the tree.
#[derive(Debug)]
pub struct Entry {
    pub path: Vec<u8>,
    /// How far in, for the indent.
    pub depth: usize,
    pub is_dir: bool,
    /// Whether a folder's children are spliced in below it.
    pub expanded: bool,
    pub status: Option<Status>,
}

impl View for Entry {
    type V = Row;

    open spec fn view(&self) -> Row {
        Row {
            path: self.path@,
            depth: self.depth as nat,
            is_dir: self.is_dir,
            expanded: self.expanded,
            status: self.status,
        }
    }
}

/// One thing in a folder, as the filesystem lists it: its name, and whether
/// it is a folder.
#[derive(Debug)]
pub struct DirItem {
    pub name: Vec<u8>,
    pub is_dir: bool,
}

impl View for DirItem {
    type V = (Seq<u8>, bool);

    open spec fn view(&self) -> (Seq<u8>, bool) {
        (self.name@, self.is_dir)
    }
}

/// The name shown for a row: its file name, or `?` when it has none that is
/// UTF-8.
pub open spec fn entry_name(path: Seq<u8>) -> Seq<char> {
    match file_name(path) {
        Some(n) => if valid_utf8(n) {
            decode_utf8(n)
        } else {
            seq!['?']
        },
        None => seq!['?'],
    }
}

/// The bytes rows are ordered by: those of the name shown for them.
pub open spec fn name_key(path: Seq<u8>) -> Seq<u8> {
    match file_name(path) {
        Some(n) => if valid_utf8(n) {
            n
        } else {
            seq!['?' as u8]
        },
        None => seq!['?' as u8],
    }
}

impl Entry {
    /// The name shown for the row.
    pub fn name(&self) -> (n: String)
        ensures
            n@ == entry_name(self.path@),
    {
        match file_name_of(self.path.as_slice()) {
            Some((s, e)) => match str_from_utf8(&self.path.as_slice()[s..e]) {
                Ok(name) => {
                    return name.to_owned();
                },
                Err(_) => {},
            },
            None => {},
        }
        proof {
            reveal_strlit("?");
        }
        "?".to_owned()
    }
}

/// The ordering key of a path, as bytes.
fn name_key_of(path: &[u8]) -> (k: Vec<u8>)
    ensures
        k@ == name_key(path@),
{
    match file_name_of(path) {
        Some((s, e)) => match str_from_utf8(&path[s..e]) {
            Ok(_) => {
                return copy_range(path, s, e);
            },
            Err(_) => {},
        },
        None => {},
    }
    let k = vec!['?' as u8];
    assert(k@ =~= seq!['?' as u8]);
    k
}

/// Folders that are never worth walking into.
pub open spec fn is_skipped(name: Seq<u8>) -> bool {
    ||| name == seq!['.' as u8, 'g' as u8, 'i' as u8, 't' as u8]
    ||| name == seq!['t' as u8, 'a' as u8, 'r' as u8, 'g' as u8, 'e' as u8, 't' as u8]
    ||| name == seq![
        'n' as u8,
        'o' as u8,
        'd' as u8,
        'e' as u8,
        '_' as u8,
        'm' as u8,
        'o' as u8,
        'd' as u8,
        'u' as u8,
        'l' as u8,
        'e' as u8,
        's' as u8,
    ]
    ||| name == seq!['.' as u8, 'v' as u8, 'e' as u8, 'n' as u8, 'v' as u8]
    ||| name == seq![
        '_' as u8,
        '_' as u8,
        'p' as u8,
        'y' as u8,
        'c' as u8,
        'a' as u8,
        'c' as u8,
        'h' as u8,
        'e' as u8,
        '_' as u8,
        '_' as u8,
    ]
}

/// Whether a folder's listing shows a name: not a hidden one, and not one of
/// the noisy folders.
pub open spec fn is_shown(name: Seq<u8>) -> bool {
    &&& is_entry_name(name)
    &&& !((name.len() > 0 && name[0] == DOT && name != dot_dot()) || is_skipped(name))
}

/// Whether a name is one a folder can hold: a single component, not empty
/// and without a separator. A folder's listing never holds anything else,
/// and anything else is not shown.
pub open spec fn is_entry_name(name: Seq<u8>) -> bool {
    &&& name.len() > 0
    &&& forall|k: int| 0 <= k < name.len() ==> name[k] != SLASH
}

/// The extensions of the files Pencil can open, lower-cased. A rich text
/// editor that offered to open a binary would be offering to mangle it.
pub open spec fn is_openable_extension(e: Seq<u8>) -> bool {
    ||| e == seq!['m' as u8, 'd' as u8]
    ||| e == seq![
        'm' as u8,
        'a' as u8,
        'r' as u8,
        'k' as u8,
        'd' as u8,
        'o' as u8,
        'w' as u8,
        'n' as u8,
    ]
    ||| e == seq!['m' as u8, 'd' as u8, 'c' as u8]
    ||| e == seq!['m' as u8, 'd' as u8, 'x' as u8]
    ||| e == seq!['h' as u8, 't' as u8, 'm' as u8, 'l' as u8]
    ||| e == seq!['h' as u8, 't' as u8, 'm' as u8]
    ||| e == seq!['x' as u8, 'h' as u8, 't' as u8, 'm' as u8, 'l' as u8]
    ||| e == seq!['t' as u8, 'x' as u8, 't' as u8]
    ||| e == seq!['t' as u8, 'e' as u8, 'x' as u8, 't' as u8]
}

/// Whether Pencil can open a file, by its extension in any case.
pub open spec fn is_openable(path: Seq<u8>) -> bool {
    match extension(path) {
        Some(e) => is_openable_extension(lower(e)),
        None => false,
    }
}

/// Whether a listed item is a folder the tree shows.
pub open spec fn shown_folder(item: (Seq<u8>, bool)) -> bool {
    is_shown(item.0) && item.1
}

/// Whether a listed item is a file the tree shows.
pub open spec fn shown_file(dir: Seq<u8>, item: (Seq<u8>, bool)) -> bool {
    is_shown(item.0) && !item.1 && is_openable(join(dir, item.0))
}

/// The row a listed item becomes: collapsed, with what git says about it.
pub open spec fn row_for(m: Map<Seq<u8>, Status>, dir: Seq<u8>, depth: nat, item: (Seq<u8>, bool)) -> Row {
    Row {
        path: join(dir, item.0),
        depth,
        is_dir: item.1,
        expanded: false,
        status: status_of(m, join(dir, item.0)),
    }
}

/// The rows for a listing's folders, in the order it listed them.
pub open spec fn folder_rows(
    m: Map<Seq<u8>, Status>,
    dir: Seq<u8>,
    depth: nat,
    listing: Seq<(Seq<u8>, bool)>,
) -> Seq<Row> {
    listing.filter(|item: (Seq<u8>, bool)| shown_folder(item)).map_values(
        |item: (Seq<u8>, bool)| row_for(m, dir, depth, item),
    )
}

/// The rows for a listing's files, in the order it listed them.
pub open spec fn file_rows(
    m: Map<Seq<u8>, Status>,
    dir: Seq<u8>,
    depth: nat,
    listing: Seq<(Seq<u8>, bool)>,
) -> Seq<Row> {
    listing.filter(|item: (Seq<u8>, bool)| shown_file(dir, item)).map_values(
        |item: (Seq<u8>, bool)| row_for(m, dir, depth, item),
    )
}

/// Whether row `a` of a sequence goes before row `b`: by name, and by
/// position among equal names, which is what a stable sort by name does.
pub open spec fn name_before(keys: Seq<Seq<u8>>, a: int, b: int) -> bool {
    bytes_lt(keys[a], keys[b]) || (keys[a] == keys[b] && a < b)
}

/// Whether `order` lists every position of `keys` once, by name.
pub open spec fn is_name_order(keys: Seq<Seq<u8>>, order: Seq<int>) -> bool {
    &&& order.len() == keys.len()
    &&& forall|i: int| 0 <= i < order.len() ==> 0 <= #[trigger] order[i] < keys.len()
    &&& forall|i: int, j: int|
        0 <= i < j < order.len() ==> name_before(keys, #[trigger] order[i], #[trigger] order[j])
}

/// The ordering keys of some rows.
pub open spec fn keys_of(rows: Seq<Row>) -> Seq<Seq<u8>> {
    rows.map_values(|r: Row| name_key(r.path))
}

/// Whether `sorted` is `rows` sorted by name, stably.
pub open spec fn sorted_by_name(sorted: Seq<Row>, rows: Seq<Row>) -> bool {
    exists|order: Seq<int>|
        is_name_order(keys_of(rows), order) && sorted == order.map_values(|k: int| rows[k])
}

/// Whether `rows` is what a folder's listing shows: its folders, then its
/// files, each in name order, and nothing Pencil could not open.
pub open spec fn listing_rows(
    rows: Seq<Row>,
    m: Map<Seq<u8>, Status>,
    dir: Seq<u8>,
    depth: nat,
    listing: Seq<(Seq<u8>, bool)>,
) -> bool {
    let folders = folder_rows(m, dir, depth, listing);
    let files = file_rows(m, dir, depth, listing);
    &&& rows.len() == folders.len() + files.len()
    &&& sorted_by_name(rows.subrange(0, folders.len() as int), folders)
    &&& sorted_by_name(rows.subrange(folders.len() as int, rows.len() as int), files)
}

/// Where a key goes among sorted keys: after every key not above it.
fn insertion_point(keys: &Vec<Vec<u8>>, key: &[u8]) -> (p: usize)
    ensures
        p <= keys@.len(),
        forall|q: int| 0 <= q < p ==> !bytes_lt(key@, #[trigger] keys@[q]@),
        p < keys@.len() ==> bytes_lt(key@, keys@[p as int]@),
{
    let mut p: usize = 0;
    while p < keys.len() && !bytes_less(key, keys[p].as_slice())
        invariant
            p <= keys@.len(),
            forall|q: int| 0 <= q < p ==> !bytes_lt(key@, #[trigger] keys@[q]@),
        decreases keys@.len() - p,
    {
        p = p + 1;
    }
    p
}

/// Putting the newest row at its insertion point keeps the order.
proof fn lemma_insert_order(keys: Seq<Seq<u8>>, order: Seq<int>, p: int)
    requires
        keys.len() >= 1,
        is_name_order(keys.drop_last(), order),
        0 <= p <= order.len(),
        forall|q: int| 0 <= q < p ==> !bytes_lt(keys.last(), #[trigger] keys[order[q]]),
        p < order.len() ==> bytes_lt(keys.last(), keys[order[p]]),
    ensures
        is_name_order(keys, order.insert(p, keys.len() - 1)),
{
    let n = keys.len() - 1;
    let o2 = order.insert(p, n);
    let k0 = keys.drop_last();
    assert forall|i: int| 0 <= i < o2.len() implies 0 <= #[trigger] o2[i] < keys.len() by {
        if i < p {
            assert(o2[i] == order[i]);
        } else if i > p {
            assert(o2[i] == order[i - 1]);
        }
    }
    assert forall|i: int, j: int|
        0 <= i < j < o2.len() implies name_before(keys, #[trigger] o2[i], #[trigger] o2[j]) by {
        if i != p && j != p {
            let a = if i < p { i } else { i - 1 };
            let b = if j < p { j } else { j - 1 };
            assert(o2[i] == order[a]);
            assert(o2[j] == order[b]);
            assert(name_before(k0, order[a], order[b]));
            assert(k0[order[a]] == keys[order[a]]);
            assert(k0[order[b]] == keys[order[b]]);
        } else if i == p {
            // The new row goes before every later one.
            let b = j - 1;
            assert(o2[j] == order[b]);
            if b == p {
            } else {
                assert(name_before(k0, order[p], order[b]));
                assert(k0[order[p]] == keys[order[p]]);
                assert(k0[order[b]] == keys[order[b]]);
                if bytes_lt(keys[order[p]], keys[order[b]]) {
                    lemma_lt_transitive(keys[n], keys[order[p]], keys[order[b]]);
                }
            }
        } else {
            // Every earlier row goes before the new one.
            assert(o2[i] == order[i]);
            assert(!bytes_lt(keys[n], keys[order[i]]));
            lemma_lt_total(keys[n], keys[order[i]]);
        }
    }
}

} // verus!

verus! {

/// The views of some rows.
pub open spec fn views(entries: Seq<Entry>) -> Seq<Row> {
    entries.map_values(|e: Entry| e@)
}

/// The views of a listing.
pub open spec fn items(listing: Seq<DirItem>) -> Seq<(Seq<u8>, bool)> {
    listing.map_values(|it: DirItem| it@)
}

proof fn lemma_filter_step<A>(s: Seq<A>, i: int, pred: spec_fn(A) -> bool)
    requires
        0 <= i < s.len(),
    ensures
        s.take(i + 1).filter(pred) == (if pred(s[i]) {
            s.take(i).filter(pred).push(s[i])
        } else {
            s.take(i).filter(pred)
        }),
{
    reveal_with_fuel(Seq::filter, 1);
    assert(s.take(i + 1).drop_last() =~= s.take(i));
}

/// Puts a new row where its name goes among rows already in name order.
fn insert_row(
    rows: &mut Vec<Entry>,
    keys: &mut Vec<Vec<u8>>,
    entry: Entry,
    Ghost(src): Ghost<Seq<Row>>,
    Ghost(order): Ghost<Seq<int>>,
) -> (new_order: Ghost<Seq<int>>)
    requires
        src.len() >= 1,
        src.last() == entry@,
        is_name_order(keys_of(src.drop_last()), order),
        views(old(rows)@) == order.map_values(|k: int| src[k]),
        old(keys)@.len() == order.len(),
        forall|q: int|
            0 <= q < order.len() ==> #[trigger] old(keys)@[q]@ == name_key(src[order[q]].path),
    ensures
        is_name_order(keys_of(src), new_order@),
        views(final(rows)@) == new_order@.map_values(|k: int| src[k]),
        final(keys)@.len() == new_order@.len(),
        forall|q: int|
            0 <= q < new_order@.len() ==> #[trigger] final(keys)@[q]@ == name_key(
                src[new_order@[q]].path,
            ),
{
    let ghost n = src.len() - 1;
    let key = name_key_of(entry.path.as_slice());
    let p = insertion_point(keys, key.as_slice());
    let ghost ks = keys_of(src);
    proof {
        assert(ks.drop_last() =~= keys_of(src.drop_last()));
        assert forall|q: int| 0 <= q < p implies !bytes_lt(ks.last(), #[trigger] ks[order[q]]) by {
            assert(keys@[q]@ == name_key(src[order[q]].path));
        }
        if p < order.len() {
            assert(keys@[p as int]@ == name_key(src[order[p as int]].path));
        }
        lemma_insert_order(ks, order, p as int);
    }
    let ghost o2 = order.insert(p as int, n);
    let ghost before = views(rows@);
    assert(rows@.len() == before.len());
    let ghost ev = entry@;
    rows.insert(p, entry);
    assert(views(rows@) =~= before.insert(p as int, ev));
    keys.insert(p, key);
    proof {
        assert forall|q: int| 0 <= q < o2.len() implies #[trigger] keys@[q]@ == name_key(
            src[o2[q]].path,
        ) by {
            if q < p {
                assert(o2[q] == order[q]);
            } else if q > p {
                assert(o2[q] == order[q - 1]);
            }
        }
        assert(views(rows@) =~= o2.map_values(|k: int| src[k])) by {
            assert forall|q: int| 0 <= q < o2.len() implies views(rows@)[q] == src[o2[q]] by {
                if q < p {
                    assert(o2[q] == order[q]);
                    assert(before[q] == src[order[q]]);
                } else if q == p {
                    assert(o2[q] == n);
                } else {
                    assert(o2[q] == order[q - 1]);
                    assert(before[q - 1] == src[order[q - 1]]);
                }
            }
        }
    }
    Ghost(o2)
}

/// Whether a listing shows a name.
fn is_shown_name(name: &[u8]) -> (r: bool)
    ensures
        r == is_shown(name@),
{
    if name.len() == 0 {
        return false;
    }
    let mut k: usize = 0;
    while k < name.len()
        invariant
            k <= name@.len(),
            forall|j: int| 0 <= j < k ==> name@[j] != SLASH,
        decreases name@.len() - k,
    {
        if name[k] == SLASH {
            return false;
        }
        k = k + 1;
    }
    let hidden = name.len() > 0 && name[0] == DOT && !(name.len() == 2 && name[1] == DOT);
    proof {
        if name@.len() == 2 && name@[0] == DOT && name@[1] == DOT {
            assert(name@ =~= dot_dot());
        }
    }
    let skipped = bytes_equal(name, &['.' as u8, 'g' as u8, 'i' as u8, 't' as u8]) || bytes_equal(
        name,
        &['t' as u8, 'a' as u8, 'r' as u8, 'g' as u8, 'e' as u8, 't' as u8],
    ) || bytes_equal(
        name,
        &[
            'n' as u8,
            'o' as u8,
            'd' as u8,
            'e' as u8,
            '_' as u8,
            'm' as u8,
            'o' as u8,
            'd' as u8,
            'u' as u8,
            'l' as u8,
            'e' as u8,
            's' as u8,
        ],
    ) || bytes_equal(name, &['.' as u8, 'v' as u8, 'e' as u8, 'n' as u8, 'v' as u8])
        || bytes_equal(
        name,
        &[
            '_' as u8,
            '_' as u8,
            'p' as u8,
            'y' as u8,
            'c' as u8,
            'a' as u8,
            'c' as u8,
            'h' as u8,
            'e' as u8,
            '_' as u8,
            '_' as u8,
        ],
    );
    !(hidden || skipped)
}

/// Whether Pencil can open a file.
fn is_openable_path(path: &[u8]) -> (r: bool)
    ensures
        r == is_openable(path@),
{
    match extension_of(path) {
        None => false,
        Some((a, b)) => {
            lower_equals(path, a, b, &['m' as u8, 'd' as u8]) || lower_equals(
                path,
                a,
                b,
                &['m' as u8, 'a' as u8, 'r' as u8, 'k' as u8, 'd' as u8, 'o' as u8, 'w' as u8, 'n' as u8],
            ) || lower_equals(path, a, b, &['m' as u8, 'd' as u8, 'c' as u8]) || lower_equals(
                path,
                a,
                b,
                &['m' as u8, 'd' as u8, 'x' as u8],
            ) || lower_equals(path, a, b, &['h' as u8, 't' as u8, 'm' as u8, 'l' as u8])
                || lower_equals(path, a, b, &['h' as u8, 't' as u8, 'm' as u8]) || lower_equals(
                path,
                a,
                b,
                &['x' as u8, 'h' as u8, 't' as u8, 'm' as u8, 'l' as u8],
            ) || lower_equals(path, a, b, &['t' as u8, 'x' as u8, 't' as u8]) || lower_equals(
                path,
                a,
                b,
                &['t' as u8, 'e' as u8, 'x' as u8, 't' as u8],
            )
        },
    }
}

/// One folder's worth of rows: folders first, then files, each in name
/// order, and nothing this editor could not open.
fn rows_for_listing(m: &StatusMap, dir: &[u8], depth: usize, listing: &[DirItem]) -> (rows: Vec<Entry>)
    ensures
        listing_rows(views(rows@), m@, dir@, depth as nat, items(listing@)),
{
    let ghost lv = items(listing@);
    let ghost fpred = |item: (Seq<u8>, bool)| shown_folder(item);
    let ghost gpred = |item: (Seq<u8>, bool)| shown_file(dir@, item);
    let ghost rowf = |item: (Seq<u8>, bool)| row_for(m@, dir@, depth as nat, item);
    let mut folders: Vec<Entry> = Vec::new();
    let mut fkeys: Vec<Vec<u8>> = Vec::new();
    let mut files: Vec<Entry> = Vec::new();
    let mut gkeys: Vec<Vec<u8>> = Vec::new();
    let ghost mut ford: Seq<int> = Seq::empty();
    let ghost mut gord: Seq<int> = Seq::empty();
    let mut i: usize = 0;
    proof {
        reveal_with_fuel(Seq::filter, 1);
        assert(lv.take(0) =~= Seq::<(Seq<u8>, bool)>::empty());
        assert(views(folders@) =~= ford.map_values(|k: int| lv.take(0).filter(fpred).map_values(rowf)[k]));
        assert(views(files@) =~= gord.map_values(|k: int| lv.take(0).filter(gpred).map_values(rowf)[k]));
    }
    while i < listing.len()
        invariant
            i <= listing@.len(),
            lv == items(listing@),
            fpred == (|item: (Seq<u8>, bool)| shown_folder(item)),
            gpred == (|item: (Seq<u8>, bool)| shown_file(dir@, item)),
            rowf == (|item: (Seq<u8>, bool)| row_for(m@, dir@, depth as nat, item)),
            is_name_order(keys_of(lv.take(i as int).filter(fpred).map_values(rowf)), ford),
            views(folders@) == ford.map_values(
                |k: int| lv.take(i as int).filter(fpred).map_values(rowf)[k],
            ),
            fkeys@.len() == ford.len(),
            forall|q: int|
                0 <= q < ford.len() ==> #[trigger] fkeys@[q]@ == name_key(
                    lv.take(i as int).filter(fpred).map_values(rowf)[ford[q]].path,
                ),
            is_name_order(keys_of(lv.take(i as int).filter(gpred).map_values(rowf)), gord),
            views(files@) == gord.map_values(
                |k: int| lv.take(i as int).filter(gpred).map_values(rowf)[k],
            ),
            gkeys@.len() == gord.len(),
            forall|q: int|
                0 <= q < gord.len() ==> #[trigger] gkeys@[q]@ == name_key(
                    lv.take(i as int).filter(gpred).map_values(rowf)[gord[q]].path,
                ),
        decreases listing@.len() - i,
    {
        let item = &listing[i];
        let ghost it = lv[i as int];
        assert(it == item@);
        proof {
            lemma_filter_step(lv, i as int, fpred);
            lemma_filter_step(lv, i as int, gpred);
        }
        let ghost fs0 = lv.take(i as int).filter(fpred).map_values(rowf);
        let ghost gs0 = lv.take(i as int).filter(gpred).map_values(rowf);
        let ghost fs1 = lv.take(i + 1).filter(fpred).map_values(rowf);
        let ghost gs1 = lv.take(i + 1).filter(gpred).map_values(rowf);
        let shown = is_shown_name(item.name.as_slice());
        let path = join_paths(dir, item.name.as_slice());
        if shown && item.is_dir {
            let status = m.lookup(path.as_slice());
            let entry = Entry { path, depth, is_dir: true, expanded: false, status };
            proof {
                assert(fs1 =~= fs0.push(entry@));
                assert(fs1.drop_last() =~= fs0);
                assert(ford.map_values(|k: int| fs0[k]) =~= ford.map_values(|k: int| fs1[k]));
                assert(!gpred(it));
                assert(gs1 =~= gs0);
            }
            let Ghost(o) = insert_row(&mut folders, &mut fkeys, entry, Ghost(fs1), Ghost(ford));
            proof {
                ford = o;
            }
        } else if shown && !item.is_dir && is_openable_path(path.as_slice()) {
            let status = m.lookup(path.as_slice());
            let entry = Entry { path, depth, is_dir: false, expanded: false, status };
            proof {
                assert(gs1 =~= gs0.push(entry@));
                assert(gs1.drop_last() =~= gs0);
                assert(gord.map_values(|k: int| gs0[k]) =~= gord.map_values(|k: int| gs1[k]));
                assert(!fpred(it));
                assert(fs1 =~= fs0);
            }
            let Ghost(o) = insert_row(&mut files, &mut gkeys, entry, Ghost(gs1), Ghost(gord));
            proof {
                gord = o;
            }
        } else {
            proof {
                assert(!fpred(it));
                assert(!gpred(it));
                assert(fs1 =~= fs0);
                assert(gs1 =~= gs0);
            }
        }
        i = i + 1;
    }
    let ghost fs = lv.take(i as int).filter(fpred).map_values(rowf);
    let ghost gs = lv.take(i as int).filter(gpred).map_values(rowf);
    proof {
        assert(lv.take(i as int) =~= lv);
    }
    let ghost fview = views(folders@);
    let ghost gview = views(files@);
    folders.append(&mut files);
    proof {
        let all = views(folders@);
        assert(all =~= fview + gview);
        assert(all.subrange(0, fview.len() as int) =~= fview);
        assert(all.subrange(fview.len() as int, all.len() as int) =~= gview);
        assert(fs == folder_rows(m@, dir@, depth as nat, lv));
        assert(gs == file_rows(m@, dir@, depth as nat, lv));
        assert(fview.len() == fs.len());
    }
    folders
}

} // verus!

verus! {

/// Whether `p` is an entry of the folder `dir`: the folder's path joined
/// with a single component, so that `dir` is its parent.
pub open spec fn is_child_of(p: Seq<u8>, dir: Seq<u8>) -> bool {
    exists|name: Seq<u8>| is_entry_name(name) && p == #[trigger] join(dir, name)
}

/// Whether row `j` is, if it goes a level deeper than the row above it, an
/// entry of that row's folder.
pub open spec fn child_step(rows: Seq<Row>, j: int) -> bool {
    rows[j].depth == rows[j - 1].depth + 1 ==> is_child_of(rows[j].path, rows[j - 1].path)
}

/// Whether rows make a tree read top to bottom: it starts at the top level,
/// a row goes at most one level deeper than the row above it, only below an
/// expanded folder, and then as an entry of that folder; and only folders
/// are expanded.
pub open spec fn tree_shaped(rows: Seq<Row>) -> bool {
    &&& rows.len() > 0 ==> rows[0].depth == 0
    &&& forall|j: int|
        0 < j < rows.len() ==> #[trigger] rows[j].depth <= rows[j - 1].depth + (if rows[j
            - 1].expanded {
            1nat
        } else {
            0nat
        })
    &&& forall|j: int| 0 < j < rows.len() ==> #[trigger] child_step(rows, j)
    &&& forall|i: int| 0 <= i < rows.len() && #[trigger] rows[i].expanded ==> rows[i].is_dir
}

/// Whether every row carries what git says about its path.
pub open spec fn statuses_current(rows: Seq<Row>, m: Map<Seq<u8>, Status>) -> bool {
    forall|i: int| 0 <= i < rows.len() ==> #[trigger] rows[i].status == status_of(m, rows[i].path)
}

/// Where the rows below row `i` that belong to it end: at the first later
/// row no deeper than it, or at the end.
pub open spec fn end_from(rows: Seq<Row>, depth: nat, k: int) -> int
    decreases rows.len() - k,
{
    if k < 0 || k >= rows.len() {
        rows.len() as int
    } else if rows[k].depth <= depth {
        k
    } else {
        end_from(rows, depth, k + 1)
    }
}

/// The end of the rows that belong to row `i`.
pub open spec fn subtree_end(rows: Seq<Row>, i: int) -> int {
    end_from(rows, rows[i].depth, i + 1)
}

/// A row with its folder expanded or collapsed the other way.
pub open spec fn flipped(r: Row) -> Row {
    Row { path: r.path, depth: r.depth, is_dir: r.is_dir, expanded: !r.expanded, status: r.status }
}

/// What toggling row `index` does: a file, or an index past the end, changes
/// nothing. A folder's rows below it are removed and it is marked the other
/// way; if it was collapsed, its listing's rows, one level deeper, are
/// spliced in below it.
pub open spec fn toggled(
    before: Seq<Row>,
    index: int,
    after: Seq<Row>,
    m: Map<Seq<u8>, Status>,
    listing: Seq<(Seq<u8>, bool)>,
) -> bool {
    if !(0 <= index < before.len() && before[index].is_dir) {
        after == before
    } else {
        let r = before[index];
        let head = before.subrange(0, index).push(flipped(r));
        let tail = before.subrange(subtree_end(before, index), before.len() as int);
        if r.expanded {
            after == head + tail
        } else {
            exists|children: Seq<Row>|
                listing_rows(children, m, r.path, r.depth + 1, listing) && after == head + children
                    + tail
        }
    }
}

/// The rows with their statuses read again from `m`.
pub open spec fn restatused(rows: Seq<Row>, m: Map<Seq<u8>, Status>) -> Seq<Row> {
    rows.map_values(
        |r: Row|
            Row {
                path: r.path,
                depth: r.depth,
                is_dir: r.is_dir,
                expanded: r.expanded,
                status: status_of(m, r.path),
            },
    )
}

/// What git said about the folder `root`, when it could say anything: `git`
/// holds the repository's top level and what git printed.
pub open spec fn statuses_from(root: Seq<u8>, git: Option<(Seq<u8>, Seq<u8>)>) -> Map<Seq<u8>, Status> {
    match git {
        Some((top, out)) => git_statuses(top, root, out),
        None => Map::empty(),
    }
}

/// The repository's top level and the bytes git printed, when it ran.
pub open spec fn output_of(git: Option<(&[u8], &[u8])>) -> Option<(Seq<u8>, Seq<u8>)> {
    match git {
        Some((top, out)) => Some((top@, out@)),
        None => None,
    }
}

/// Whether what git printed, if anything, can be read.
pub open spec fn readable_output(git: Option<(&[u8], &[u8])>) -> bool {
    match git {
        Some((_, out)) => git_output_splits(out@),
        None => true,
    }
}

proof fn lemma_end_from(rows: Seq<Row>, depth: nat, k: int)
    requires
        0 <= k <= rows.len(),
    ensures
        k <= end_from(rows, depth, k) <= rows.len(),
        forall|q: int| k <= q < end_from(rows, depth, k) ==> #[trigger] rows[q].depth > depth,
        end_from(rows, depth, k) < rows.len() ==> rows[end_from(rows, depth, k)].depth <= depth,
    decreases rows.len() - k,
{
    if k < rows.len() && rows[k].depth > depth {
        lemma_end_from(rows, depth, k + 1);
    }
}

proof fn lemma_depth_bound(rows: Seq<Row>, i: int)
    requires
        tree_shaped(rows),
        0 <= i < rows.len(),
    ensures
        rows[i].depth <= i,
    decreases i,
{
    if i > 0 {
        lemma_depth_bound(rows, i - 1);
        assert(rows[i].depth <= rows[i - 1].depth + 1);
    }
}

/// Every row of a listing is a collapsed row, one level in, that carries what
/// git says about it.
proof fn lemma_listing_rows(
    rows: Seq<Row>,
    m: Map<Seq<u8>, Status>,
    dir: Seq<u8>,
    depth: nat,
    listing: Seq<(Seq<u8>, bool)>,
)
    requires
        listing_rows(rows, m, dir, depth, listing),
    ensures
        forall|q: int|
            0 <= q < rows.len() ==> (#[trigger] rows[q]).depth == depth && !rows[q].expanded
                && rows[q].status == status_of(m, rows[q].path) && is_child_of(rows[q].path, dir),
{
    let folders = folder_rows(m, dir, depth, listing);
    let files = file_rows(m, dir, depth, listing);
    let a = rows.subrange(0, folders.len() as int);
    let b = rows.subrange(folders.len() as int, rows.len() as int);
    let oa = choose|o: Seq<int>| is_name_order(keys_of(folders), o) && a == o.map_values(|k: int| folders[k]);
    let ob = choose|o: Seq<int>| is_name_order(keys_of(files), o) && b == o.map_values(|k: int| files[k]);
    let fp = |item: (Seq<u8>, bool)| shown_folder(item);
    let ip = |item: (Seq<u8>, bool)| shown_file(dir, item);
    let fl = listing.filter(fp);
    let fi = listing.filter(ip);
    listing.filter_lemma(fp);
    listing.filter_lemma(ip);
    assert forall|q: int| 0 <= q < rows.len() implies (#[trigger] rows[q]).depth == depth
        && !rows[q].expanded && rows[q].status == status_of(m, rows[q].path) && is_child_of(
        rows[q].path,
        dir,
    ) by {
        if q < folders.len() {
            assert(rows[q] == a[q]);
            assert(a[q] == folders[oa[q]]);
            assert(keys_of(folders).len() == folders.len());
            assert(folders[oa[q]] == row_for(m, dir, depth, fl[oa[q]]));
            assert(rows[q].path == join(dir, fl[oa[q]].0));
            assert(fp(fl[oa[q]]));
            assert(is_entry_name(fl[oa[q]].0));
        } else {
            let r = q - folders.len();
            assert(rows[q] == b[r]);
            assert(b[r] == files[ob[r]]);
            assert(keys_of(files).len() == files.len());
            assert(files[ob[r]] == row_for(m, dir, depth, fi[ob[r]]));
            assert(rows[q].path == join(dir, fi[ob[r]].0));
            assert(ip(fi[ob[r]]));
            assert(is_entry_name(fi[ob[r]].0));
        }
    }
}

/// The rows a toggle splices in below a folder: none when it collapses, and
/// the folder's listing when it expands.
proof fn lemma_toggled_parts(
    before: Seq<Row>,
    index: int,
    after: Seq<Row>,
    m: Map<Seq<u8>, Status>,
    listing: Seq<(Seq<u8>, bool)>,
) -> (children: Seq<Row>)
    requires
        tree_shaped(before),
        toggled(before, index, after, m, listing),
        0 <= index < before.len(),
        before[index].is_dir,
    ensures
        index + 1 <= subtree_end(before, index) <= before.len(),
        subtree_end(before, index) < before.len() ==> before[subtree_end(before, index)].depth
            <= before[index].depth,
        after == before.subrange(0, index).push(flipped(before[index])) + children
            + before.subrange(subtree_end(before, index), before.len() as int),
        before[index].expanded ==> children.len() == 0,
        forall|q: int|
            0 <= q < children.len() ==> (#[trigger] children[q]).depth == before[index].depth + 1
                && !children[q].expanded && children[q].status == status_of(m, children[q].path)
                && is_child_of(children[q].path, before[index].path),
{
    let r = before[index];
    let e = subtree_end(before, index);
    lemma_end_from(before, r.depth, index + 1);
    let head = before.subrange(0, index).push(flipped(r));
    let tail = before.subrange(e, before.len() as int);
    if r.expanded {
        assert(after =~= head + Seq::<Row>::empty() + tail);
        Seq::empty()
    } else {
        let children = choose|c: Seq<Row>|
            listing_rows(c, m, r.path, r.depth + 1, listing) && after == head + c + tail;
        lemma_listing_rows(children, m, r.path, r.depth + 1, listing);
        children
    }
}

/// Toggling keeps every row's status current.
#[verifier::rlimit(30)]
proof fn lemma_toggled_statuses(
    before: Seq<Row>,
    index: int,
    after: Seq<Row>,
    m: Map<Seq<u8>, Status>,
    listing: Seq<(Seq<u8>, bool)>,
)
    requires
        tree_shaped(before),
        statuses_current(before, m),
        toggled(before, index, after, m, listing),
    ensures
        statuses_current(after, m),
        forall|i: int| 0 <= i < after.len() && #[trigger] after[i].expanded ==> after[i].is_dir,
{
    if 0 <= index < before.len() && before[index].is_dir {
        let children = lemma_toggled_parts(before, index, after, m, listing);
        let e = subtree_end(before, index);
        let h = index + 1;
        let c = children.len() as int;
        assert forall|q: int| 0 <= q < after.len() implies (#[trigger] after[q]).status == status_of(
            m,
            after[q].path,
        ) && (after[q].expanded ==> after[q].is_dir) by {
            if q < index {
                assert(after[q] == before[q]);
            } else if q == index {
            } else if q < h + c {
                assert(after[q] == children[q - h]);
            } else {
                assert(after[q] == before[q - h - c + e]);
            }
        }
    }
}

/// Toggling keeps the tree a tree.
#[verifier::rlimit(30)]
proof fn lemma_toggled_depths(
    before: Seq<Row>,
    index: int,
    after: Seq<Row>,
    m: Map<Seq<u8>, Status>,
    listing: Seq<(Seq<u8>, bool)>,
)
    requires
        tree_shaped(before),
        toggled(before, index, after, m, listing),
    ensures
        after.len() > 0 ==> after[0].depth == 0,
        forall|j: int|
            0 < j < after.len() ==> #[trigger] after[j].depth <= after[j - 1].depth + (if after[j
                - 1].expanded {
                1nat
            } else {
                0nat
            }),
{
    if 0 <= index < before.len() && before[index].is_dir {
        let r = before[index];
        let children = lemma_toggled_parts(before, index, after, m, listing);
        let e = subtree_end(before, index);
        let h = index + 1;
        let c = children.len() as int;
        assert forall|j: int| 0 < j < after.len() implies #[trigger] after[j].depth <= after[j
            - 1].depth + (if after[j - 1].expanded {
            1nat
        } else {
            0nat
        }) by {
            if j < index {
                assert(after[j] == before[j]);
                assert(after[j - 1] == before[j - 1]);
            } else if j == index {
                assert(after[j - 1] == before[j - 1]);
                assert(before[j].depth <= before[j - 1].depth + (if before[j - 1].expanded {
                    1nat
                } else {
                    0nat
                }));
            } else if j < h + c {
                assert(after[j] == children[j - h]);
                if j > h {
                    assert(after[j - 1] == children[j - 1 - h]);
                }
            } else {
                assert(after[j] == before[j - h - c + e]);
                if j - 1 >= h + c {
                    assert(after[j - 1] == before[j - 1 - h - c + e]);
                } else if c > 0 {
                    assert(after[j - 1] == children[c - 1]);
                }
            }
        }
        if after.len() > 0 && index > 0 {
            assert(after[0] == before[0]);
        }
    }
}

/// Toggling keeps every row that goes a level deeper an entry of the folder
/// above it.
#[verifier::rlimit(30)]
proof fn lemma_toggled_children(
    before: Seq<Row>,
    index: int,
    after: Seq<Row>,
    m: Map<Seq<u8>, Status>,
    listing: Seq<(Seq<u8>, bool)>,
)
    requires
        tree_shaped(before),
        toggled(before, index, after, m, listing),
    ensures
        forall|j: int| 0 < j < after.len() ==> #[trigger] child_step(after, j),
{
    if 0 <= index < before.len() && before[index].is_dir {
        let children = lemma_toggled_parts(before, index, after, m, listing);
        let e = subtree_end(before, index);
        let h = index + 1;
        let c = children.len() as int;
        assert forall|j: int| 0 < j < after.len() implies #[trigger] child_step(after, j) by {
            if j < index {
                assert(after[j] == before[j]);
                assert(after[j - 1] == before[j - 1]);
                assert(child_step(before, j));
            } else if j == index {
                assert(after[j - 1] == before[j - 1]);
                assert(child_step(before, j));
            } else if j < h + c {
                assert(after[j] == children[j - h]);
                if j > h {
                    assert(after[j - 1] == children[j - 1 - h]);
                }
            } else {
                assert(after[j] == before[j - h - c + e]);
                if j - 1 >= h + c {
                    assert(after[j - 1] == before[j - 1 - h - c + e]);
                    assert(child_step(before, j - h - c + e));
                } else if c > 0 {
                    assert(after[j - 1] == children[c - 1]);
                }
            }
        }
    }
}

/// Toggling keeps the tree a tree, and every row's status current.
proof fn lemma_toggled_shape(
    before: Seq<Row>,
    index: int,
    after: Seq<Row>,
    m: Map<Seq<u8>, Status>,
    listing: Seq<(Seq<u8>, bool)>,
)
    requires
        tree_shaped(before),
        statuses_current(before, m),
        toggled(before, index, after, m, listing),
    ensures
        tree_shaped(after),
        statuses_current(after, m),
{
    lemma_toggled_statuses(before, index, after, m, listing);
    lemma_toggled_depths(before, index, after, m, listing);
    lemma_toggled_children(before, index, after, m, listing);
}

/// Where the rows that belong to row `index` end.
fn subtree_end_of(entries: &Vec<Entry>, index: usize) -> (e: usize)
    requires
        index < entries.len(),
    ensures
        e as int == subtree_end(views(entries@), index as int),
{
    let ghost rows = views(entries@);
    let depth = entries[index].depth;
    let mut k = index + 1;
    while k < entries.len() && entries[k].depth > depth
        invariant
            index < k <= entries@.len(),
            rows == views(entries@),
            depth == rows[index as int].depth,
            end_from(rows, depth as nat, k as int) == subtree_end(rows, index as int),
        decreases entries@.len() - k,
    {
        assert(rows[k as int].depth == entries@[k as int].depth);
        k = k + 1;
    }
    proof {
        if k < entries@.len() {
            assert(rows[k as int].depth == entries@[k as int].depth);
        }
    }
    k
}

/// An open folder: its rows, and what git says about what is in it.
#[derive(Debug)]
pub struct Project {
    root: Vec<u8>,
    entries: Vec<Entry>,
    status: StatusMap,
}

impl Project {
    #[verifier::type_invariant]
    spec fn well_formed(self) -> bool {
        &&& tree_shaped(views(self.entries@))
        &&& statuses_current(views(self.entries@), self.status@)
    }

    /// The rows, top to bottom.
    pub closed spec fn rows(&self) -> Seq<Row> {
        views(self.entries@)
    }

    /// The folder that was opened.
    pub closed spec fn root_path(&self) -> Seq<u8> {
        self.root@
    }

    /// What git says, by path.
    pub closed spec fn statuses(&self) -> Map<Seq<u8>, Status> {
        self.status@
    }

    /// Opens a folder: `git`, when git ran there and succeeded, is the
    /// repository's top level and what `git status --porcelain -z` printed,
    /// and `listing` what the folder holds. The rows are the folder's
    /// listing at the top level.
    pub fn open(root: Vec<u8>, git: Option<(&[u8], &[u8])>, listing: &[DirItem]) -> (p: Project)
        requires
            readable_output(git),
        ensures
            p.root_path() == root@,
            p.statuses() == statuses_from(root@, output_of(git)),
            listing_rows(p.rows(), p.statuses(), root@, 0, items(listing@)),
            tree_shaped(p.rows()),
            statuses_current(p.rows(), p.statuses()),
    {
        let status = match git {
            Some((top, out)) => git_status(top, root.as_slice(), out),
            None => StatusMap::new(),
        };
        let entries = rows_for_listing(&status, root.as_slice(), 0, listing);
        proof {
            let rows = views(entries@);
            lemma_listing_rows(rows, status@, root@, 0, items(listing@));
        }
        Project { root, entries, status }
    }

    /// The folder that was opened.
    pub fn root(&self) -> (r: &[u8])
        ensures
            r@ == self.root_path(),
    {
        self.root.as_slice()
    }

    /// The rows, top to bottom.
    pub fn entries(&self) -> (r: &[Entry])
        ensures
            views(r@) == self.rows(),
            tree_shaped(self.rows()),
            statuses_current(self.rows(), self.statuses()),
    {
        proof {
            use_type_invariant(self);
        }
        self.entries.as_slice()
    }

    /// Re-reads git's opinion, leaving the tree's shape alone: `git` is the
    /// repository's top level and what git printed this time, if it ran.
    pub fn refresh_status(&mut self, git: Option<(&[u8], &[u8])>)
        requires
            readable_output(git),
        ensures
            final(self).root_path() == old(self).root_path(),
            final(self).statuses() == statuses_from(old(self).root_path(), output_of(git)),
            final(self).rows() == restatused(old(self).rows(), final(self).statuses()),
    {
        let status = match git {
            Some((top, out)) => git_status(top, self.root.as_slice(), out),
            None => StatusMap::new(),
        };
        let ghost rows = views(self.entries@);
        proof {
            use_type_invariant(&*self);
        }
        let mut fresh: Vec<Entry> = Vec::new();
        let mut i: usize = 0;
        while i < self.entries.len()
            invariant
                i <= self.entries@.len(),
                rows == views(self.entries@),
                views(fresh@) == restatused(rows, status@).subrange(0, i as int),
            decreases self.entries@.len() - i,
        {
            let e = &self.entries[i];
            let path = copy_range(e.path.as_slice(), 0, e.path.len());
            assert(path@ =~= e.path@);
            let st = status.lookup(e.path.as_slice());
            let ghost before = views(fresh@);
            fresh.push(Entry { path, depth: e.depth, is_dir: e.is_dir, expanded: e.expanded, status: st });
            i = i + 1;
            assert(views(fresh@) =~= restatused(rows, status@).subrange(0, i as int)) by {
                assert(views(fresh@) =~= before.push(fresh@.last()@));
            }
        }
        let ghost after = restatused(rows, status@);
        proof {
            assert(after.subrange(0, rows.len() as int) =~= after);
            assert forall|j: int| 0 < j < after.len() implies #[trigger] after[j].depth <= after[j
                - 1].depth + (if after[j - 1].expanded {
                1nat
            } else {
                0nat
            }) by {
                assert(rows[j].depth <= rows[j - 1].depth + (if rows[j - 1].expanded {
                    1nat
                } else {
                    0nat
                }));
            }
            assert forall|i: int| 0 <= i < after.len() && #[trigger] after[i].expanded implies after[i].is_dir by {
                assert(rows[i].expanded);
            }
            assert forall|j: int| 0 < j < after.len() implies #[trigger] child_step(after, j) by {
                assert(child_step(rows, j));
            }
        }
        let mut taken = Project { root: Vec::new(), entries: Vec::new(), status: StatusMap::new() };
        std::mem::swap(self, &mut taken);
        let Project { root, entries: _, status: _ } = taken;
        *self = Project { root, entries: fresh, status };
    }

    /// Expands or collapses the folder at `index`: `listing` is what that
    /// folder holds, which only matters when it is being expanded.
    pub fn toggle(&mut self, index: usize, listing: &[DirItem])
        ensures
            final(self).root_path() == old(self).root_path(),
            final(self).statuses() == old(self).statuses(),
            tree_shaped(old(self).rows()),
            toggled(old(self).rows(), index as int, final(self).rows(), old(self).statuses(), items(listing@)),
    {
        proof {
            use_type_invariant(&*self);
        }
        let ghost before = views(self.entries@);
        let ghost m = self.status@;
        if index >= self.entries.len() || !self.entries[index].is_dir {
            return;
        }
        let depth = self.entries[index].depth;
        let expanded = self.entries[index].expanded;
        let end = subtree_end_of(&self.entries, index);
        proof {
            lemma_depth_bound(before, index as int);
            lemma_end_from(before, depth as nat, index + 1);
        }
        let mut children = if expanded {
            Vec::new()
        } else {
            rows_for_listing(&self.status, self.entries[index].path.as_slice(), depth + 1, listing)
        };
        let ghost kids = views(children@);
        let mut taken = Project { root: Vec::new(), entries: Vec::new(), status: StatusMap::new() };
        std::mem::swap(self, &mut taken);
        let Project { root, mut entries, status } = taken;
        assert(views(entries@) == before);
        let mut tail = entries.split_off(end);
        entries.truncate(index + 1);
        let mut last = entries.pop().unwrap();
        last.expanded = !expanded;
        entries.push(last);
        entries.append(&mut children);
        entries.append(&mut tail);
        let ghost r = before[index as int];
        let ghost head = before.subrange(0, index as int).push(flipped(r));
        let ghost tl = before.subrange(end as int, before.len() as int);
        proof {
            assert(views(entries@) =~= head + kids + tl);
            if !expanded {
                assert(listing_rows(kids, m, r.path, r.depth + 1, items(listing@)));
            } else {
                assert(kids =~= Seq::<Row>::empty());
                assert(views(entries@) =~= head + tl);
            }
            lemma_toggled_shape(before, index as int, views(entries@), m, items(listing@));
        }
        *self = Project { root, entries, status };
    }
}

} // verus!

verus! {

/// Expanding a collapsed folder and collapsing it again gives back the rows
/// the tree had before, whatever the folder held in between.
pub proof fn law_toggle_twice_restores(
    before: Seq<Row>,
    index: int,
    middle: Seq<Row>,
    after: Seq<Row>,
    m: Map<Seq<u8>, Status>,
    listing: Seq<(Seq<u8>, bool)>,
    later_listing: Seq<(Seq<u8>, bool)>,
)
    requires
        tree_shaped(before),
        0 <= index < before.len(),
        before[index].is_dir,
        !before[index].expanded,
        toggled(before, index, middle, m, listing),
        toggled(middle, index, after, m, later_listing),
    ensures
        after == before,
{
    let r = before[index];
    let e = subtree_end(before, index);
    lemma_end_from(before, r.depth, index + 1);
    if index + 1 < before.len() {
        assert(before[index + 1].depth <= r.depth);
    }
    assert(e == index + 1);
    let head = before.subrange(0, index).push(flipped(r));
    let tail = before.subrange(e, before.len() as int);
    let children = choose|c: Seq<Row>|
        listing_rows(c, m, r.path, r.depth + 1, listing) && middle == head + c + tail;
    lemma_listing_rows(children, m, r.path, r.depth + 1, listing);
    let c = children.len() as int;
    assert(middle[index] == flipped(r));
    let e2 = subtree_end(middle, index);
    lemma_end_from(middle, r.depth, index + 1);
    assert forall|q: int| index + 1 <= q < index + 1 + c implies #[trigger] middle[q].depth > r.depth by {
        assert(middle[q] == children[q - index - 1]);
    }
    if e2 < index + 1 + c {
        assert(middle[e2].depth > r.depth);
    }
    if index + 1 + c < middle.len() {
        assert(middle[index + 1 + c] == before[index + 1]);
    }
    assert(e2 == index + 1 + c);
    assert(flipped(flipped(r)) == r);
    assert(after =~= before);
}

/// The name shown for a row is, byte for byte, the key rows are ordered by:
/// the tree is in the order of the names it shows.
pub proof fn law_rows_ordered_by_shown_name(path: Seq<u8>)
    ensures
        encode_utf8(entry_name(path)) == name_key(path),
{
    match file_name(path) {
        Some(n) => {
            if valid_utf8(n) {
                decode_utf8_encode_utf8(n);
            } else {
                lemma_question_mark();
            }
        },
        None => {
            lemma_question_mark();
        },
    }
}

proof fn lemma_question_mark()
    ensures
        encode_utf8(seq!['?']) == seq!['?' as u8],
{
    assert(is_ascii_chars(seq!['?']));
    is_ascii_chars_encode_utf8(seq!['?']);
    assert(encode_utf8(seq!['?']) =~= seq!['?' as u8]);
}

} // verus!

verus! {

/// The arrow before a folder's name: pointing down when it is expanded.
pub open spec fn arrow_chars(is_dir: bool, expanded: bool) -> Seq<char> {
    if !is_dir {
        Seq::empty()
    } else if expanded {
        seq!['\u{25be}', ' ']
    } else {
        seq!['\u{25b8}', ' ']
    }
}

/// The sidebar's label for a row: two spaces a level, the folder arrow, the
/// name, and the status marker two spaces after it when there is one.
pub open spec fn row_label(r: Row) -> Seq<char> {
    let marker = match r.status {
        Some(s) => marker_chars(s),
        None => Seq::empty(),
    };
    crate::chrome::repeated(seq![' ', ' '], r.depth) + arrow_chars(r.is_dir, r.expanded) + entry_name(
        r.path,
    ) + (if marker.len() == 0 {
        Seq::empty()
    } else {
        seq![' ', ' '] + marker
    })
}

impl Entry {
    /// The sidebar's label for the row.
    pub fn label(&self) -> (label: String)
        ensures
            label@ == row_label(self@),
    {
        let mut label = String::new();
        proof {
            reveal_strlit("  ");
            reveal_strlit("\u{25be} ");
            reveal_strlit("\u{25b8} ");
        }
        crate::chrome::push_repeated(&mut label, "  ", self.depth);
        assert("  "@ =~= seq![' ', ' ']);
        let ghost rep = label@;
        assert(rep =~= crate::chrome::repeated(seq![' ', ' '], self.depth as nat));
        if self.is_dir {
            if self.expanded {
                label.append("\u{25be} ");
            } else {
                label.append("\u{25b8} ");
            }
        }
        assert(label@ =~= rep + arrow_chars(self.is_dir, self.expanded));
        let name = self.name();
        label.append(name.as_str());
        let ghost stem = label@;
        assert(stem =~= rep + arrow_chars(self.is_dir, self.expanded) + entry_name(self.path@));
        let marker = match self.status {
            Some(s) => s.marker(),
            None => {
                proof {
                    reveal_strlit("");
                }
                ""
            },
        };
        if !marker.is_empty() {
            label.append("  ");
            label.append(marker);
        }
        proof {
            let m = match self.status {
                Some(s) => marker_chars(s),
                None => Seq::<char>::empty(),
            };
            assert(marker@ == m);
            if m.len() == 0 {
                assert(label@ =~= row_label(self@));
            } else {
                assert(label@ =~= row_label(self@));
            }
        }
        label
    }
}

} // verus!

verus! {

/// Whether the record `out[a..b]` can be cut after its status letters.
fn record_splits(out: &[u8], a: usize, b: usize) -> (r: bool)
    requires
        a <= b <= out@.len(),
    ensures
        r == (b - a >= 4 && valid_utf8(out@.subrange(a as int, b as int)) ==> is_char_boundary(
            out@.subrange(a as int, b as int),
            2,
        )),
{
    if b - a < 4 {
        return true;
    }
    match str_from_utf8(&out[a..b]) {
        Ok(text) => {
            proof {
                decode_utf8_encode_utf8(out@.subrange(a as int, b as int));
            }
            text.is_char_boundary(2)
        },
        Err(_) => true,
    }
}

/// Whether what git printed can be read: every record that is text can be
/// cut after its two status letters. Git's own output always can; the window
/// checks before it hands anything else to [`git_status`].
pub fn git_output_readable(out: &[u8]) -> (r: bool)
    ensures
        r == git_output_splits(out@),
{
    let mut start: usize = 0;
    let mut i: usize = 0;
    while i < out.len()
        invariant
            start <= i <= out@.len(),
            start == 0 || out@[start - 1] == 0,
            forall|k: int| start <= k < i ==> out@[k] != 0,
            forall|a: int, b: int|
                #![trigger is_record(out@, a, b)]
                is_record(out@, a, b) && b < start && b - a >= 4 && valid_utf8(out@.subrange(a, b))
                    ==> is_char_boundary(out@.subrange(a, b), 2),
        decreases out@.len() - i,
    {
        if out[i] == 0 {
            if !record_splits(out, start, i) {
                assert(is_record(out@, start as int, i as int));
                return false;
            }
            proof {
                assert forall|a: int, b: int|
                    #![trigger is_record(out@, a, b)]
                    is_record(out@, a, b) && b < i + 1 && b - a >= 4 && valid_utf8(
                        out@.subrange(a, b),
                    ) implies is_char_boundary(out@.subrange(a, b), 2) by {
                    if b >= start {
                        if b < i {
                            assert(out@[b] != 0);
                        }
                        if a < start {
                            assert(out@[start - 1] == 0);
                        }
                        if a > start {
                            assert(out@[a - 1] == 0);
                        }
                    }
                }
            }
            start = i + 1;
        }
        i = i + 1;
    }
    let last = record_splits(out, start, out.len());
    proof {
        if !last {
            assert(is_record(out@, start as int, out@.len() as int));
        } else {
            assert forall|a: int, b: int|
                #![trigger is_record(out@, a, b)]
                is_record(out@, a, b) && b - a >= 4 && valid_utf8(out@.subrange(a, b))
                    implies is_char_boundary(out@.subrange(a, b), 2) by {
                if b >= start {
                    if b < out@.len() {
                        assert(out@[b] != 0);
                    }
                    if a < start {
                        assert(out@[start - 1] == 0);
                    }
                    if a > start {
                        assert(out@[a - 1] == 0);
                    }
                }
            }
        }
    }
    last
}

} // verus!

verus! {

/// How many NULs a byte string holds.
pub open spec fn nuls(s: Seq<u8>) -> nat
    decreases s.len(),
{
    if s.len() == 0 {
        0
    } else {
        nuls(s.drop_last()) + (if s.last() == 0 {
            1nat
        } else {
            0nat
        })
    }
}

proof fn lemma_nuls_split(s: Seq<u8>, a: int)
    requires
        0 <= a <= s.len(),
    ensures
        nuls(s) == nuls(s.subrange(0, a)) + nuls(s.subrange(a, s.len() as int)),
    decreases s.len(),
{
    if s.len() == a {
        assert(s.subrange(0, a) =~= s);
        assert(s.subrange(a, s.len() as int).len() == 0);
    } else {
        lemma_nuls_split(s.drop_last(), a);
        assert(s.drop_last().subrange(0, a) =~= s.subrange(0, a));
        let t = s.subrange(a, s.len() as int);
        assert(t.drop_last() =~= s.drop_last().subrange(a, s.drop_last().len() as int));
    }
}

proof fn lemma_nuls_none(s: Seq<u8>)
    requires
        forall|k: int| 0 <= k < s.len() ==> s[k] != 0,
    ensures
        nuls(s) == 0,
    decreases s.len(),
{
    if s.len() > 0 {
        lemma_nuls_none(s.drop_last());
    }
}

proof fn lemma_nuls_some(s: Seq<u8>, k: int)
    requires
        0 <= k < s.len(),
        s[k] == 0,
    ensures
        nuls(s) >= 1,
    decreases s.len(),
{
    if k < s.len() - 1 {
        lemma_nuls_some(s.drop_last(), k);
    }
}

proof fn lemma_records_len(out: Seq<u8>)
    ensures
        records(out).len() == nuls(out) + 1,
    decreases out.len(),
{
    if out.len() > 0 {
        lemma_records_len(out.drop_last());
    }
}

/// A whole record is the record splitting finds at the position the NULs
/// before it give.
proof fn lemma_record_index(out: Seq<u8>, a: int, b: int)
    requires
        is_record(out, a, b),
    ensures
        nuls(out.subrange(0, a)) < records(out).len(),
        records(out)[nuls(out.subrange(0, a)) as int] == out.subrange(a, b),
    decreases out.len(),
{
    lemma_records_len(out);
    let n = out.len() as int;
    if n == 0 {
        assert(out.subrange(a, b) =~= Seq::<u8>::empty());
        assert(out.subrange(0, a) =~= Seq::<u8>::empty());
    } else {
        let o = out.drop_last();
        let x = out.last();
        lemma_records_len(o);
        if x == 0 {
            if b == n {
                if a < n {
                    assert(out[n - 1] == 0);
                }
                assert(a == n);
                assert(out.subrange(0, a) =~= out);
                assert(out.subrange(a, b) =~= Seq::<u8>::empty());
            } else {
                assert(is_record(o, a, b));
                lemma_record_index(o, a, b);
                assert(o.subrange(0, a) =~= out.subrange(0, a));
                assert(o.subrange(a, b) =~= out.subrange(a, b));
            }
        } else {
            if b == n {
                if a == n {
                    assert(out[a - 1] == 0);
                }
                assert(is_record(o, a, n - 1));
                lemma_record_index(o, a, n - 1);
                assert(o.subrange(0, a) =~= out.subrange(0, a));
                lemma_nuls_split(o, a);
                lemma_nuls_none(o.subrange(a, n - 1));
                assert(o.subrange(a, n - 1).push(x) =~= out.subrange(a, b));
            } else {
                assert(b < n - 1);
                assert(is_record(o, a, b));
                lemma_record_index(o, a, b);
                assert(o.subrange(0, a) =~= out.subrange(0, a));
                assert(o.subrange(a, b) =~= out.subrange(a, b));
                lemma_nuls_split(o, a);
                lemma_nuls_some(o.subrange(a, n - 1), b - a);
            }
        }
    }
}

/// The paths a record gives a status to: its own, and every folder above it
/// that lies below the opened folder.
pub open spec fn record_keys(top: Seq<u8>, root: Seq<u8>, rec: Seq<u8>) -> Set<Seq<u8>> {
    let rel = record_path(rec);
    let folder_rel = trim_end_slashes(rel);
    folders_above(top, root, folder_rel, folder_rel.len() as int).insert(
        trim_end_slashes(join(top, rel)),
    )
}

proof fn lemma_apply_record_keys(top: Seq<u8>, root: Seq<u8>, m: Map<Seq<u8>, Status>, rec: Seq<u8>)
    ensures
        forall|k: Seq<u8>|
            m.contains_key(k) ==> #[trigger] apply_record(top, root, m, rec).contains_key(k),
        rec.len() >= 4 && valid_utf8(rec) ==> forall|k: Seq<u8>|
            #[trigger] record_keys(top, root, rec).contains(k) ==> apply_record(
                top,
                root,
                m,
                rec,
            ).contains_key(k),
{
}

proof fn lemma_apply_records_keys(top: Seq<u8>, root: Seq<u8>, recs: Seq<Seq<u8>>, i: int)
    requires
        0 <= i < recs.len(),
        recs[i].len() >= 4,
        valid_utf8(recs[i]),
    ensures
        forall|k: Seq<u8>|
            #[trigger] record_keys(top, root, recs[i]).contains(k) ==> apply_records(
                top,
                root,
                recs,
            ).contains_key(k),
    decreases recs.len(),
{
    let before = apply_records(top, root, recs.drop_last());
    lemma_apply_record_keys(top, root, before, recs.last());
    if i < recs.len() - 1 {
        lemma_apply_records_keys(top, root, recs.drop_last(), i);
        assert(recs.drop_last()[i] == recs[i]);
    }
}

/// A change anywhere marks every folder above it, so a collapsed tree still
/// says where to look: whatever else git printed, every record that names a
/// path leaves that path — the repository's top level joined with it — and
/// each folder above it that lies below the opened folder, with a status.
pub proof fn law_a_change_marks_every_folder_above_it(
    top: Seq<u8>,
    root: Seq<u8>,
    out: Seq<u8>,
    a: int,
    b: int,
)
    requires
        is_record(out, a, b),
        b - a >= 4,
        valid_utf8(out.subrange(a, b)),
    ensures
        ({
            let rec = out.subrange(a, b);
            let rel = record_path(rec);
            let folder_rel = trim_end_slashes(rel);
            &&& git_statuses(top, root, out).contains_key(trim_end_slashes(join(top, rel)))
            &&& forall|j: int|
                0 < j < folder_rel.len() && folder_rel[j] == SLASH && folder_rel[0] != SLASH
                    && is_below(join(top, folder_rel.subrange(0, j)), root)
                    ==> #[trigger] git_statuses(top, root, out).contains_key(
                    join(top, folder_rel.subrange(0, j)),
                )
        }),
{
    lemma_record_index(out, a, b);
    let i = nuls(out.subrange(0, a)) as int;
    let recs = records(out);
    lemma_apply_records_keys(top, root, recs, i);
    let rec = out.subrange(a, b);
    assert(recs[i] == rec);
    assert(record_keys(top, root, rec).contains(trim_end_slashes(join(top, record_path(rec)))));
    let folder_rel = trim_end_slashes(record_path(rec));
    assert forall|j: int|
        0 < j < folder_rel.len() && folder_rel[j] == SLASH && folder_rel[0] != SLASH
            && is_below(join(top, folder_rel.subrange(0, j)), root)
            implies #[trigger] git_statuses(top, root, out).contains_key(
            join(top, folder_rel.subrange(0, j)),
        ) by {
        let d = join(top, folder_rel.subrange(0, j));
        assert(folders_above(top, root, folder_rel, folder_rel.len() as int).contains(d));
        assert(record_keys(top, root, rec).contains(d));
    }
}

} // verus!

verus! {

/// Ordering by name, with ties broken by position, is a strict total order
/// on the positions of a sequence.
proof fn lemma_name_before_order(keys: Seq<Seq<u8>>, a: int, b: int, c: int)
    ensures
        !name_before(keys, a, a),
        name_before(keys, a, b) ==> !name_before(keys, b, a),
        name_before(keys, a, b) && name_before(keys, b, c) ==> name_before(keys, a, c),
        a != b ==> name_before(keys, a, b) || name_before(keys, b, a),
{
    crate::order::lemma_lt_irreflexive(keys[a]);
    lemma_lt_asymmetric(keys[a], keys[b]);
    lemma_lt_total(keys[a], keys[b]);
    if bytes_lt(keys[a], keys[b]) && bytes_lt(keys[b], keys[c]) {
        lemma_lt_transitive(keys[a], keys[b], keys[c]);
    }
}

/// A name order lists every position: it has as many entries as there are
/// positions, and none twice.
proof fn lemma_name_order_covers(keys: Seq<Seq<u8>>, order: Seq<int>, x: int)
    requires
        is_name_order(keys, order),
        0 <= x < keys.len(),
    ensures
        exists|i: int| 0 <= i < order.len() && order[i] == x,
{
    assert(order.no_duplicates()) by {
        assert forall|i: int, j: int| 0 <= i < order.len() && 0 <= j < order.len() && i != j implies order[i]
            != order[j] by {
            lemma_name_before_order(keys, order[i], order[j], order[j]);
            if i < j {
                assert(name_before(keys, order[i], order[j]));
            } else {
                assert(name_before(keys, order[j], order[i]));
            }
        }
    }
    order.unique_seq_to_set();
    let range = vstd::set_lib::set_int_range(0, keys.len() as int);
    vstd::set_lib::lemma_int_range(0, keys.len() as int);
    assert(order.to_set().subset_of(range)) by {
        assert forall|y: int| order.to_set().contains(y) implies range.contains(y) by {
            let i = choose|i: int| 0 <= i < order.len() && order[i] == y;
            assert(0 <= order[i] < keys.len());
        }
    }
    if !order.to_set().contains(x) {
        order.to_set().lemma_subset_not_in_lt(range, x);
        assert(false);
    }
    assert(order.to_set().contains(x));
    assert(order.contains(x));
}

/// Two name orders of the same keys agree on their first `n` entries.
proof fn lemma_name_orders_agree(keys: Seq<Seq<u8>>, o1: Seq<int>, o2: Seq<int>, n: int)
    requires
        is_name_order(keys, o1),
        is_name_order(keys, o2),
        0 <= n <= keys.len(),
    ensures
        forall|j: int| 0 <= j < n ==> o1[j] == o2[j],
    decreases n,
{
    if n > 0 {
        lemma_name_orders_agree(keys, o1, o2, n - 1);
        let k = n - 1;
        let a = o1[k];
        let b = o2[k];
        if a != b {
            lemma_name_before_order(keys, a, b, a);
            if name_before(keys, a, b) {
                lemma_name_order_covers(keys, o2, a);
                let j = choose|j: int| 0 <= j < o2.len() && o2[j] == a;
                if j < k {
                    assert(o1[j] == a);
                    assert(name_before(keys, o1[j], o1[k]));
                } else {
                    assert(name_before(keys, o2[k], o2[j]));
                }
            } else {
                lemma_name_order_covers(keys, o1, b);
                let j = choose|j: int| 0 <= j < o1.len() && o1[j] == b;
                if j < k {
                    assert(o2[j] == b);
                    assert(name_before(keys, o2[j], o2[k]));
                } else {
                    assert(name_before(keys, o1[k], o1[j]));
                }
            }
        }
    }
}

/// Sorting by name, stably, has one outcome.
proof fn lemma_sorted_by_name_unique(s1: Seq<Row>, s2: Seq<Row>, rows: Seq<Row>)
    requires
        sorted_by_name(s1, rows),
        sorted_by_name(s2, rows),
    ensures
        s1 == s2,
{
    let keys = keys_of(rows);
    let o1 = choose|order: Seq<int>|
        is_name_order(keys, order) && s1 == order.map_values(|k: int| rows[k]);
    let o2 = choose|order: Seq<int>|
        is_name_order(keys, order) && s2 == order.map_values(|k: int| rows[k]);
    lemma_name_orders_agree(keys, o1, o2, keys.len() as int);
    assert(o1 =~= o2);
}

/// A folder shows one way: the same listing, with the same statuses, always
/// gives the same rows in the same order, whatever order the filesystem
/// listed them in between names that tie.
pub proof fn law_listing_shows_one_way(
    rows1: Seq<Row>,
    rows2: Seq<Row>,
    m: Map<Seq<u8>, Status>,
    dir: Seq<u8>,
    depth: nat,
    listing: Seq<(Seq<u8>, bool)>,
)
    requires
        listing_rows(rows1, m, dir, depth, listing),
        listing_rows(rows2, m, dir, depth, listing),
    ensures
        rows1 == rows2,
{
    let folders = folder_rows(m, dir, depth, listing);
    let files = file_rows(m, dir, depth, listing);
    let f = folders.len() as int;
    lemma_sorted_by_name_unique(rows1.subrange(0, f), rows2.subrange(0, f), folders);
    lemma_sorted_by_name_unique(
        rows1.subrange(f, rows1.len() as int),
        rows2.subrange(f, rows2.len() as int),
        files,
    );
    assert(rows1 =~= rows1.subrange(0, f) + rows1.subrange(f, rows1.len() as int));
    assert(rows2 =~= rows2.subrange(0, f) + rows2.subrange(f, rows2.len() as int));
}

} // verus!

verus! {

/// A row one level deeper than the row above it is an entry of that row's
/// folder, which is expanded: the tree is flat, but every row still sits
/// under its own folder.
pub proof fn law_deeper_rows_are_children(rows: Seq<Row>, j: int)
    requires
        tree_shaped(rows),
        0 < j < rows.len(),
        rows[j].depth == rows[j - 1].depth + 1,
    ensures
        rows[j - 1].is_dir,
        rows[j - 1].expanded,
        is_child_of(rows[j].path, rows[j - 1].path),
{
    assert(child_step(rows, j));
    assert(rows[j].depth <= rows[j - 1].depth + (if rows[j - 1].expanded {
        1nat
    } else {
        0nat
    }));
}

} // verus!

verus! {

/// Whether a record is long enough to hold its letters and a path, and is
/// text: the records a status is read from.
pub open spec fn is_read_record(rec: Seq<u8>) -> bool {
    rec.len() >= 4 && valid_utf8(rec)
}

/// The absolute path a record gives its status to.
pub open spec fn record_key(top: Seq<u8>, rec: Seq<u8>) -> Seq<u8> {
    trim_end_slashes(join(top, record_path(rec)))
}

/// A record leaves every path it does not name as it was.
proof fn lemma_apply_record_keeps(
    top: Seq<u8>,
    root: Seq<u8>,
    m: Map<Seq<u8>, Status>,
    rec: Seq<u8>,
    k: Seq<u8>,
)
    requires
        m.contains_key(k),
        !(is_read_record(rec) && record_key(top, rec) == k),
    ensures
        apply_record(top, root, m, rec).contains_key(k),
        apply_record(top, root, m, rec)[k] == m[k],
{
}

/// The statuses the records leave: the last record that names a path gives
/// it its status, a path no record names is a folder marked as modified, and
/// nothing is clean.
proof fn lemma_apply_records_values(top: Seq<u8>, root: Seq<u8>, recs: Seq<Seq<u8>>)
    ensures
        forall|i: int|
            0 <= i < recs.len() && is_read_record(#[trigger] recs[i]) && (forall|j: int|
                i < j < recs.len() && is_read_record(recs[j]) ==> record_key(top, recs[j])
                    != record_key(top, recs[i])) ==> apply_records(top, root, recs).contains_key(
                record_key(top, recs[i]),
            ) && apply_records(top, root, recs)[record_key(top, recs[i])] == flags_status(
                recs[i][0],
                recs[i][1],
            ),
        forall|k: Seq<u8>| #[trigger]
            apply_records(top, root, recs).contains_key(k) ==> apply_records(top, root, recs)[k]
                != Status::Clean,
        forall|k: Seq<u8>|
            #[trigger] apply_records(top, root, recs).contains_key(k) && (forall|j: int|
                0 <= j < recs.len() && is_read_record(recs[j]) ==> record_key(top, recs[j]) != k)
                ==> apply_records(top, root, recs)[k] == Status::Modified,
    decreases recs.len(),
{
    if recs.len() > 0 {
        let before = recs.drop_last();
        let last = recs.last();
        let n = recs.len() - 1;
        lemma_apply_records_values(top, root, before);
        let pm = apply_records(top, root, before);
        let am = apply_records(top, root, recs);
        assert(am == apply_record(top, root, pm, last));
        assert forall|i: int|
            0 <= i < recs.len() && is_read_record(#[trigger] recs[i]) && (forall|j: int|
                i < j < recs.len() && is_read_record(recs[j]) ==> record_key(top, recs[j])
                    != record_key(top, recs[i])) implies am.contains_key(record_key(top, recs[i]))
            && am[record_key(top, recs[i])] == flags_status(recs[i][0], recs[i][1]) by {
            if i < n {
                assert(before[i] == recs[i]);
                assert forall|j: int|
                    i < j < before.len() && is_read_record(before[j]) implies record_key(
                    top,
                    before[j],
                ) != record_key(top, before[i]) by {
                    assert(before[j] == recs[j]);
                }
                assert(is_read_record(before[i]));
                if is_read_record(last) {
                    assert(record_key(top, recs[n]) != record_key(top, recs[i]));
                }
                lemma_apply_record_keeps(top, root, pm, last, record_key(top, recs[i]));
            }
        }
        assert forall|k: Seq<u8>| #[trigger] am.contains_key(k) implies am[k] != Status::Clean by {
            if pm.contains_key(k) && !(is_read_record(last) && record_key(top, last) == k) {
                lemma_apply_record_keeps(top, root, pm, last, k);
            }
        }
        assert forall|k: Seq<u8>|
            #[trigger] am.contains_key(k) && (forall|j: int|
                0 <= j < recs.len() && is_read_record(recs[j]) ==> record_key(top, recs[j]) != k)
            implies am[k] == Status::Modified by {
            assert forall|j: int| 0 <= j < before.len() && is_read_record(before[j]) implies record_key(
                top,
                before[j],
            ) != k by {
                assert(before[j] == recs[j]);
            }
            if is_read_record(last) {
                assert(record_key(top, recs[n]) != k);
            }
            if pm.contains_key(k) {
                lemma_apply_record_keeps(top, root, pm, last, k);
            }
        }
    }
}

/// What git printed gives each path the status of the last record that
/// names it: `??` untracked, a space first modified, anything else staged.
pub proof fn law_a_record_gives_its_path_its_status(
    top: Seq<u8>,
    root: Seq<u8>,
    out: Seq<u8>,
    i: int,
)
    requires
        0 <= i < records(out).len(),
        is_read_record(records(out)[i]),
        forall|j: int|
            i < j < records(out).len() && is_read_record(#[trigger] records(out)[j]) ==> record_key(
                top,
                records(out)[j],
            ) != record_key(top, records(out)[i]),
    ensures
        git_statuses(top, root, out).contains_key(record_key(top, records(out)[i])),
        git_statuses(top, root, out)[record_key(top, records(out)[i])] == flags_status(
            records(out)[i][0],
            records(out)[i][1],
        ),
{
    lemma_apply_records_values(top, root, records(out));
}

/// No path is ever said to be clean, and a path that no record names — a
/// folder above a change — is said to be modified.
pub proof fn law_no_path_is_clean(top: Seq<u8>, root: Seq<u8>, out: Seq<u8>, k: Seq<u8>)
    requires
        git_statuses(top, root, out).contains_key(k),
    ensures
        git_statuses(top, root, out)[k] != Status::Clean,
        (forall|j: int|
            0 <= j < records(out).len() && is_read_record(#[trigger] records(out)[j]) ==> record_key(
                top,
                records(out)[j],
            ) != k) ==> git_statuses(top, root, out)[k] == Status::Modified,
{
    lemma_apply_records_values(top, root, records(out));
}

} // verus!

verus! {

/// What each of git's porcelain letter pairs means, by the letters: `??` is
/// untracked; a space first — changed in the working tree, nothing staged —
/// is modified; and anything else has something staged, whatever its second
/// letter says about the working tree. The path keeps the status of the last
/// record that names it.
pub proof fn law_porcelain_letters(top: Seq<u8>, root: Seq<u8>, out: Seq<u8>, i: int)
    requires
        0 <= i < records(out).len(),
        is_read_record(records(out)[i]),
        forall|j: int|
            i < j < records(out).len() && is_read_record(#[trigger] records(out)[j]) ==> record_key(
                top,
                records(out)[j],
            ) != record_key(top, records(out)[i]),
    ensures
        ({
            let rec = records(out)[i];
            let s = git_statuses(top, root, out)[record_key(top, rec)];
            &&& rec[0] == 0x3f && rec[1] == 0x3f ==> s == Status::Untracked
            &&& rec[0] == 0x20 ==> s == Status::Modified
            &&& rec[0] != 0x20 && !(rec[0] == 0x3f && rec[1] == 0x3f) ==> s == Status::Staged
        }),
{
    law_a_record_gives_its_path_its_status(top, root, out, i);
}

/// The marker beside each status, by its character: a filled circle for a
/// change in the working tree, a diamond for one staged, a ring for an
/// untracked file, and nothing for a clean one — three different marks.
pub proof fn law_status_markers()
    ensures
        marker_chars(Status::Modified) == seq!['\u{25cf}'],
        marker_chars(Status::Staged) == seq!['\u{25c6}'],
        marker_chars(Status::Untracked) == seq!['\u{25cb}'],
        marker_chars(Status::Clean) == Seq::<char>::empty(),
        marker_chars(Status::Modified) != marker_chars(Status::Staged),
        marker_chars(Status::Modified) != marker_chars(Status::Untracked),
        marker_chars(Status::Staged) != marker_chars(Status::Untracked),
{
    assert(seq!['\u{25cf}'][0] != seq!['\u{25c6}'][0]);
    assert(seq!['\u{25cf}'][0] != seq!['\u{25cb}'][0]);
    assert(seq!['\u{25c6}'][0] != seq!['\u{25cb}'][0]);
}

/// Whether `l` is one of the extensions of the files Pencil can open, as
/// the tree lists them: `md`, `markdown`, `mdc`, `mdx`, `html`, `htm`,
/// `xhtml`, `txt` and `text`.
pub open spec fn is_listed_extension(l: Seq<u8>) -> bool {
    ||| l == seq!['m' as u8, 'd' as u8]
    ||| l == seq!['m' as u8, 'a' as u8, 'r' as u8, 'k' as u8, 'd' as u8, 'o' as u8, 'w' as u8, 'n' as u8]
    ||| l == seq!['m' as u8, 'd' as u8, 'c' as u8]
    ||| l == seq!['m' as u8, 'd' as u8, 'x' as u8]
    ||| l == seq!['h' as u8, 't' as u8, 'm' as u8, 'l' as u8]
    ||| l == seq!['h' as u8, 't' as u8, 'm' as u8]
    ||| l == seq!['x' as u8, 'h' as u8, 't' as u8, 'm' as u8, 'l' as u8]
    ||| l == seq!['t' as u8, 'x' as u8, 't' as u8]
    ||| l == seq!['t' as u8, 'e' as u8, 'x' as u8, 't' as u8]
}

/// A name with a dot after its first byte, which is not a dot itself, is
/// none of the folders the tree skips.
proof fn lemma_dotted_name_not_skipped(name: Seq<u8>, d: int)
    requires
        0 < d < name.len(),
        name[d] == DOT,
        name[0] != DOT,
    ensures
        !is_skipped(name),
{
    let target = seq!['t' as u8, 'a' as u8, 'r' as u8, 'g' as u8, 'e' as u8, 't' as u8];
    let node = seq![
        'n' as u8,
        'o' as u8,
        'd' as u8,
        'e' as u8,
        '_' as u8,
        'm' as u8,
        'o' as u8,
        'd' as u8,
        'u' as u8,
        'l' as u8,
        'e' as u8,
        's' as u8,
    ];
    let py = seq![
        '_' as u8,
        '_' as u8,
        'p' as u8,
        'y' as u8,
        'c' as u8,
        'a' as u8,
        'c' as u8,
        'h' as u8,
        'e' as u8,
        '_' as u8,
        '_' as u8,
    ];
    if name == target {
        assert(target[d] != DOT);
    }
    if name == node {
        assert(node[d] != DOT);
    }
    if name == py {
        assert(py[d] != DOT);
    }
}

/// Every file Pencil can open is listed in the tree: a file named
/// `stem.ext`, whose stem is a plain name that does not start with a dot
/// and whose extension is, in any case of its letters, one Pencil opens —
/// the extension of any of its formats among them — is shown, in any
/// folder.
pub proof fn law_openable_files_are_listed(dir: Seq<u8>, stem: Seq<u8>, ext: Seq<u8>)
    requires
        stem.len() > 0,
        stem[0] != DOT,
        forall|k: int| 0 <= k < stem.len() ==> stem[k] != SLASH,
        is_listed_extension(lower(ext)),
    ensures
        shown_file(dir, (stem + seq![DOT] + ext, false)),
{
    let l = lower(ext);
    let name = stem + seq![DOT] + ext;
    assert(ext.len() == l.len());
    assert forall|k: int| 0 <= k < ext.len() implies ext[k] != SLASH && ext[k] != DOT by {
        assert(l[k] == crate::document::ascii_lower(ext[k]));
    }
    assert forall|k: int| 0 <= k < name.len() implies name[k] != SLASH by {
        if k < stem.len() {
            assert(name[k] == stem[k]);
        } else if k > stem.len() {
            assert(name[k] == ext[k - stem.len() - 1]);
        }
    }
    assert(name[stem.len() as int] == DOT);
    assert(name[0] == stem[0]);
    lemma_dotted_name_not_skipped(name, stem.len() as int);
    let folder = if dir.len() == 0 || dir.last() == SLASH {
        dir
    } else {
        dir + seq![SLASH]
    };
    assert(join(dir, name) =~= folder + stem + seq![DOT] + ext);
    crate::document::lemma_extension_of_name(folder, stem, ext);
}

/// Every format's own extension opens in the tree: a file saved as
/// `stem.md`, `stem.mdc`, `stem.mdx`, `stem.html` or `stem.txt` is listed.
pub proof fn law_every_format_is_listed(dir: Seq<u8>, stem: Seq<u8>, f: crate::document::Format)
    requires
        stem.len() > 0,
        stem[0] != DOT,
        forall|k: int| 0 <= k < stem.len() ==> stem[k] != SLASH,
    ensures
        shown_file(dir, (stem + seq![DOT] + crate::document::extension_bytes(f), false)),
{
    crate::document::lemma_extension_is_lower(f);
    law_openable_files_are_listed(dir, stem, crate::document::extension_bytes(f));
}

} // verus!
