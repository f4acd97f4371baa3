//! The words and counts of a printed page that do not depend on a font: the
//! marker a list item starts with, what an image prints as, and how many
//! columns a table is cut into. Where things land on the page is the
//! shaper's business and the window's.

use vstd::prelude::*;
use vstd::string::StringExecFns;

use crate::chrome::is_blank;
use crate::text::{leading_whitespace, trim_start};

verus! {

/// How a list item is marked.
#[derive(Clone, Copy, Debug, PartialEq, Eq, Structural)]
pub enum Marker {
    Bullet,
    Number(u64),
    Check(bool),
}

/// The decimal digits of a number, most significant first.
pub open spec fn decimal(n: nat) -> Seq<char>
    decreases n,
{
    if n < 10 {
        seq![digit(n)]
    } else {
        decimal(n / 10) + seq![digit(n % 10)]
    }
}

/// The character for a digit.
pub open spec fn digit(d: nat) -> char {
    if d == 0 {
        '0'
    } else if d == 1 {
        '1'
    } else if d == 2 {
        '2'
    } else if d == 3 {
        '3'
    } else if d == 4 {
        '4'
    } else if d == 5 {
        '5'
    } else if d == 6 {
        '6'
    } else if d == 7 {
        '7'
    } else if d == 8 {
        '8'
    } else {
        '9'
    }
}

fn digit_str(d: u64) -> (s: &'static str)
    requires
        d < 10,
    ensures
        s@ == seq![digit(d as nat)],
{
    proof {
        reveal_strlit("0");
        reveal_strlit("1");
        reveal_strlit("2");
        reveal_strlit("3");
        reveal_strlit("4");
        reveal_strlit("5");
        reveal_strlit("6");
        reveal_strlit("7");
        reveal_strlit("8");
        reveal_strlit("9");
    }
    if d == 0 {
        "0"
    } else if d == 1 {
        "1"
    } else if d == 2 {
        "2"
    } else if d == 3 {
        "3"
    } else if d == 4 {
        "4"
    } else if d == 5 {
        "5"
    } else if d == 6 {
        "6"
    } else if d == 7 {
        "7"
    } else if d == 8 {
        "8"
    } else {
        "9"
    }
}

/// Writes a number in decimal at the end of `out`.
pub fn push_decimal(out: &mut String, n: u64)
    ensures
        final(out)@ == old(out)@ + decimal(n as nat),
    decreases n,
{
    if n >= 10 {
        push_decimal(out, n / 10);
    }
    out.append(digit_str(n % 10));
    assert(out@ =~= old(out)@ + decimal(n as nat));
}

/// What a list item's first line starts with: a bullet, its number and a
/// dot, or a ballot box — each followed by two spaces.
pub open spec fn marker_text(m: Marker) -> Seq<char> {
    match m {
        Marker::Bullet => seq!['\u{2022}', ' ', ' '],
        Marker::Number(n) => decimal(n as nat) + seq!['.', ' ', ' '],
        Marker::Check(true) => seq!['\u{2611}', ' ', ' '],
        Marker::Check(false) => seq!['\u{2610}', ' ', ' '],
    }
}

/// What a list item's first line starts with.
pub fn marker_prefix(marker: Marker) -> (prefix: String)
    ensures
        prefix@ == marker_text(marker),
{
    let mut prefix = String::new();
    match marker {
        Marker::Bullet => {
            proof {
                reveal_strlit("\u{2022}  ");
            }
            prefix.append("\u{2022}  ");
        },
        Marker::Number(n) => {
            push_decimal(&mut prefix, n);
            proof {
                reveal_strlit(".  ");
            }
            prefix.append(".  ");
        },
        Marker::Check(true) => {
            proof {
                reveal_strlit("\u{2611}  ");
            }
            prefix.append("\u{2611}  ");
        },
        Marker::Check(false) => {
            proof {
                reveal_strlit("\u{2610}  ");
            }
            prefix.append("\u{2610}  ");
        },
    }
    prefix
}

/// A stretch of a block's text that is set in one style.
pub struct Run {
    pub text: String,
    pub bold: bool,
    pub italic: bool,
    pub mono: bool,
}

/// A piece of a block's inline content: its text, and the marks on it.
pub struct Piece {
    pub text: String,
    pub strong: bool,
    pub em: bool,
    pub code: bool,
}

/// A run by its text and its three styles.
pub open spec fn run_view(r: Run) -> (Seq<char>, bool, bool, bool) {
    (r.text@, r.bold, r.italic, r.mono)
}

/// The run a piece is set in: bold in a heading or where it is strong, and
/// monospaced in a code block or where it is code.
pub open spec fn piece_run(p: Piece, heading: bool, code: bool) -> (Seq<char>, bool, bool, bool) {
    (p.text@, heading || p.strong, p.em, code || p.code)
}

/// The runs of a block's pieces, in order, leaving out the empty ones.
pub open spec fn piece_runs(pieces: Seq<Piece>, heading: bool, code: bool) -> Seq<
    (Seq<char>, bool, bool, bool),
>
    decreases pieces.len(),
{
    if pieces.len() == 0 {
        Seq::empty()
    } else {
        let rest = piece_runs(pieces.drop_last(), heading, code);
        if pieces.last().text@.len() == 0 {
            rest
        } else {
            rest.push(piece_run(pieces.last(), heading, code))
        }
    }
}

/// The runs a block is shaped from: its list marker first, in the block's
/// weight, then its pieces.
pub open spec fn block_runs(
    marker: Option<Marker>,
    heading: bool,
    code: bool,
    pieces: Seq<Piece>,
) -> Seq<(Seq<char>, bool, bool, bool)> {
    let first = match marker {
        Some(m) => seq![(marker_text(m), heading, false, false)],
        None => Seq::empty(),
    };
    first + piece_runs(pieces, heading, code)
}

/// The runs a block is shaped from. A block with none still takes a line's
/// worth of paper; that is the shaper's side.
pub fn style_runs(marker: Option<Marker>, heading: bool, code: bool, pieces: &[Piece]) -> (runs: Vec<
    Run,
>)
    ensures
        runs@.map_values(|r: Run| run_view(r)) == block_runs(marker, heading, code, pieces@),
{
    let mut runs: Vec<Run> = Vec::new();
    match marker {
        Some(m) => {
            let prefix = marker_prefix(m);
            runs.push(Run { text: prefix, bold: heading, italic: false, mono: false });
        },
        None => {},
    }
    let ghost first = runs@.map_values(|r: Run| run_view(r));
    assert(first =~= block_runs(marker, heading, code, Seq::empty())) by {
        assert(pieces@.take(0) =~= Seq::<Piece>::empty());
    }
    let mut i: usize = 0;
    while i < pieces.len()
        invariant
            i <= pieces@.len(),
            first == (match marker {
                Some(m) => seq![(marker_text(m), heading, false, false)],
                None => Seq::<(Seq<char>, bool, bool, bool)>::empty(),
            }),
            runs@.map_values(|r: Run| run_view(r)) == first + piece_runs(
                pieces@.take(i as int),
                heading,
                code,
            ),
        decreases pieces@.len() - i,
    {
        let piece = &pieces[i];
        let ghost before = runs@;
        let ghost upto = pieces@.take(i as int + 1);
        assert(upto.drop_last() =~= pieces@.take(i as int));
        assert(upto.last() == pieces@[i as int]);
        if !piece.text.as_str().is_empty() {
            let text = piece.text.clone();
            runs.push(
                Run {
                    text,
                    bold: heading || piece.strong,
                    italic: piece.em,
                    mono: code || piece.code,
                },
            );
            assert(runs@ =~= before.push(runs@.last()));
            assert(run_view(runs@.last()) == piece_run(pieces@[i as int], heading, code));
            assert(runs@.map_values(|r: Run| run_view(r)) =~= before.map_values(
                |r: Run| run_view(r),
            ).push(run_view(runs@.last())));
        } else {
            assert(pieces@[i as int].text@.len() == 0);
        }
        assert(runs@.map_values(|r: Run| run_view(r)) =~= first + piece_runs(upto, heading, code));
        i = i + 1;
    }
    assert(pieces@.take(pieces@.len() as int) =~= pieces@);
    runs
}

/// What an image prints as until images are embedded: its alt text, which is
/// what alt text is for — `[image: a cat]`, or `[image]` with none.
pub open spec fn atom_text(name: Seq<char>, text: Seq<char>) -> Seq<char> {
    if is_blank(text) {
        seq!['['] + name + seq![']']
    } else {
        seq!['['] + name + seq![':', ' '] + text + seq![']']
    }
}

/// What an image prints as.
pub fn atom_label(name: &str, text: &str) -> (label: String)
    ensures
        label@ == atom_text(name@, text@),
{
    let rest = trim_start(text);
    proof {
        crate::chrome::lemma_blank(text@);
        reveal_strlit("[");
        reveal_strlit("]");
        reveal_strlit(": ");
    }
    let mut label = "[".to_owned();
    label.append(name);
    if !rest.is_empty() {
        label.append(": ");
        label.append(text);
    }
    label.append("]");
    label
}

/// A table cell, by the plain numbers a page's layout reads from it.
#[derive(Clone, Copy, Debug, PartialEq, Eq, Structural)]
pub struct Cell {
    pub table: usize,
    pub column: usize,
    pub span: usize,
}

/// How far right a cell reaches: the column after its last.
pub open spec fn reach(c: Cell) -> int {
    c.column + c.span
}

/// Whether `count` is how many columns a table is cut into: as many as its
/// widest row reaches, and at least one.
pub open spec fn is_column_count(cells: Seq<Cell>, table: usize, count: int) -> bool {
    &&& count >= 1
    &&& forall|i: int| 0 <= i < cells.len() && cells[i].table == table ==> #[trigger] reach(cells[i]) <= count
    &&& (count == 1 || exists|i: int|
        0 <= i < cells.len() && cells[i].table == table && #[trigger] reach(cells[i]) == count)
}

/// How many columns a table is cut into: as many as its widest row reaches,
/// and at least one. Columns get equal widths: a printed table that is
/// readable is enough.
pub fn column_count(cells: &[Cell], table: usize) -> (count: usize)
    requires
        forall|i: int| 0 <= i < cells@.len() ==> #[trigger] reach(cells@[i]) <= usize::MAX,
    ensures
        is_column_count(cells@, table, count as int),
{
    let mut count: usize = 1;
    let mut i: usize = 0;
    while i < cells.len()
        invariant
            i <= cells@.len(),
            forall|k: int| 0 <= k < cells@.len() ==> #[trigger] reach(cells@[k]) <= usize::MAX,
            count >= 1,
            forall|k: int| 0 <= k < i && cells@[k].table == table ==> #[trigger] reach(cells@[k]) <= count,
            count == 1 || exists|k: int|
                0 <= k < i && cells@[k].table == table && #[trigger] reach(cells@[k]) == count,
        decreases cells@.len() - i,
    {
        let c = cells[i];
        if c.table == table {
            assert(reach(cells@[i as int]) <= usize::MAX);
            let r = c.column + c.span;
            if r > count {
                count = r;
            }
        }
        i = i + 1;
    }
    count
}

} // verus!

verus! {

/// The text of some runs, one after another.
pub open spec fn run_texts(runs: Seq<(Seq<char>, bool, bool, bool)>) -> Seq<char>
    decreases runs.len(),
{
    if runs.len() == 0 {
        Seq::empty()
    } else {
        run_texts(runs.drop_last()) + runs.last().0
    }
}

/// The text of some pieces, one after another.
pub open spec fn piece_texts(pieces: Seq<Piece>) -> Seq<char>
    decreases pieces.len(),
{
    if pieces.len() == 0 {
        Seq::empty()
    } else {
        piece_texts(pieces.drop_last()) + pieces.last().text@
    }
}

proof fn lemma_run_texts_append(a: Seq<(Seq<char>, bool, bool, bool)>, b: Seq<(Seq<char>, bool, bool, bool)>)
    ensures
        run_texts(a + b) == run_texts(a) + run_texts(b),
    decreases b.len(),
{
    if b.len() == 0 {
        assert(a + b =~= a);
        assert(run_texts(a) + Seq::<char>::empty() =~= run_texts(a));
    } else {
        lemma_run_texts_append(a, b.drop_last());
        assert((a + b).drop_last() =~= a + b.drop_last());
        assert(run_texts(a) + run_texts(b.drop_last()) + b.last().0 =~= run_texts(a) + (run_texts(
            b.drop_last(),
        ) + b.last().0));
    }
}

proof fn lemma_piece_runs_text(pieces: Seq<Piece>, heading: bool, code: bool)
    ensures
        run_texts(piece_runs(pieces, heading, code)) == piece_texts(pieces),
        forall|i: int|
            0 <= i < piece_runs(pieces, heading, code).len() ==> #[trigger] piece_runs(
                pieces,
                heading,
                code,
            )[i].0.len() > 0,
    decreases pieces.len(),
{
    if pieces.len() > 0 {
        lemma_piece_runs_text(pieces.drop_last(), heading, code);
        let rest = piece_runs(pieces.drop_last(), heading, code);
        if pieces.last().text@.len() == 0 {
            assert(piece_texts(pieces) =~= piece_texts(pieces.drop_last()));
        } else {
            let r = rest.push(piece_run(pieces.last(), heading, code));
            assert(r.drop_last() =~= rest);
            assert forall|i: int| 0 <= i < r.len() implies #[trigger] r[i].0.len() > 0 by {
                if i < rest.len() {
                    assert(r[i] == rest[i]);
                }
            }
        }
    }
}

/// A block prints every word it holds: the runs it is shaped from spell,
/// one after another, its list marker and then every one of its pieces'
/// text — nothing dropped, nothing added — and no run is empty.
pub proof fn law_runs_keep_every_word(
    marker: Option<Marker>,
    heading: bool,
    code: bool,
    pieces: Seq<Piece>,
)
    ensures
        run_texts(block_runs(marker, heading, code, pieces)) == (match marker {
            Some(m) => marker_text(m),
            None => Seq::empty(),
        }) + piece_texts(pieces),
        forall|i: int|
            0 <= i < block_runs(marker, heading, code, pieces).len() ==> #[trigger] block_runs(
                marker,
                heading,
                code,
                pieces,
            )[i].0.len() > 0,
{
    let first: Seq<(Seq<char>, bool, bool, bool)> = match marker {
        Some(m) => seq![(marker_text(m), heading, false, false)],
        None => Seq::empty(),
    };
    let rest = piece_runs(pieces, heading, code);
    lemma_piece_runs_text(pieces, heading, code);
    lemma_run_texts_append(first, rest);
    assert(block_runs(marker, heading, code, pieces) == first + rest);
    match marker {
        Some(m) => {
            assert(first.drop_last() =~= Seq::<(Seq<char>, bool, bool, bool)>::empty());
            assert(run_texts(first.drop_last()) == Seq::<char>::empty());
            assert(first.last().0 == marker_text(m));
            assert(run_texts(first) == run_texts(first.drop_last()) + first.last().0);
            assert(Seq::<char>::empty() + marker_text(m) =~= marker_text(m));
            assert(marker_text(m).len() > 0) by {
                match m {
                    Marker::Number(n) => {
                        assert(marker_text(m).len() >= 3);
                    },
                    _ => {},
                }
            }
        },
        None => {
            assert(run_texts(first) =~= Seq::<char>::empty());
        },
    }
    assert forall|i: int| 0 <= i < (first + rest).len() implies #[trigger] (first + rest)[i].0.len() > 0 by {
        if i >= first.len() {
            assert((first + rest)[i] == rest[i - first.len()]);
        }
    }
}

} // verus!
