//! The words around the document: the labels of the status bar, the Save As
//! dialog, the outline, the find bar and the shortcuts pane, and which tab a
//! closed one hands over to.

use vstd::prelude::*;
use vstd::string::StringExecFns;

use crate::document::{extension_bytes, extension_chars, format_name, Format};
use crate::paths::{file_name, file_name_of, stem_len, stem_len_of, DOT, SLASH};
use crate::text::{is_unicode_whitespace, leading_whitespace, str_from_utf8, trim_start};
use vstd::utf8::{decode_utf8, valid_utf8};

verus! {

/// `n` copies of a string, one after another.
pub open spec fn repeated(s: Seq<char>, n: nat) -> Seq<char>
    decreases n,
{
    if n == 0 {
        Seq::empty()
    } else {
        repeated(s, (n - 1) as nat) + s
    }
}

/// Appends `piece` to `out` `n` times.
pub(crate) fn push_repeated(out: &mut String, piece: &str, n: usize)
    ensures
        final(out)@ == old(out)@ + repeated(piece@, n as nat),
{
    let ghost start = out@;
    let mut i: usize = 0;
    assert(start + repeated(piece@, 0) =~= start);
    while i < n
        invariant
            i <= n,
            out@ == start + repeated(piece@, i as nat),
        decreases n - i,
    {
        out.append(piece);
        i = i + 1;
        assert(out@ =~= start + repeated(piece@, i as nat));
    }
}

/// What the status bar names the format as: a format that cannot hold
/// everything the document does carries a mark, once, where the format is
/// already named — rather than a dialog on every save that nobody reads.
pub open spec fn status_label(f: Format) -> Seq<char> {
    if f == Format::Html {
        format_name(f)
    } else {
        format_name(f) + seq![' ', '\u{2022}']
    }
}

/// The status bar marks a format exactly when it is one that loses
/// something on saving: every format but HTML, the one that
/// [`Format::lossless`] says keeps everything.
pub proof fn law_status_marks_what_loses(f: Format)
    ensures
        (status_label(f) == format_name(f)) <==> (f == Format::Html),
{
    if f != Format::Html {
        assert(status_label(f).len() == format_name(f).len() + 2);
    }
}

/// A document's name as its tab and the status bar show it: marked with a
/// bullet while it has unsaved changes.
pub open spec fn dirty_text(name: Seq<char>, dirty: bool) -> Seq<char> {
    if dirty {
        seq!['\u{2022}', ' '] + name
    } else {
        name
    }
}

/// A document's name, marked when it has unsaved changes.
pub fn dirty_label(name: &str, dirty: bool) -> (label: String)
    ensures
        label@ == dirty_text(name@, dirty),
{
    if dirty {
        proof {
            reveal_strlit("\u{2022} ");
        }
        let mut label = "\u{2022} ".to_owned();
        label.append(name);
        label
    } else {
        name.to_owned()
    }
}

/// A Save As filter's label: `HTML (*.html)`.
pub open spec fn filter_label(f: Format) -> Seq<char> {
    format_name(f) + seq![' ', '(', '*', '.'] + extension_chars(f) + seq![')']
}

/// What Save As suggests calling a document: its file's stem when it has a
/// file whose name is UTF-8, `document` otherwise, with the format's
/// extension.
pub open spec fn suggested_name(path: Option<Seq<u8>>, f: Format) -> Seq<u8> {
    suggested_stem(path) + seq![DOT] + extension_bytes(f)
}

/// The stem Save As suggests.
pub open spec fn suggested_stem(path: Option<Seq<u8>>) -> Seq<u8> {
    let fallback = seq![
        'd' as u8,
        'o' as u8,
        'c' as u8,
        'u' as u8,
        'm' as u8,
        'e' as u8,
        'n' as u8,
        't' as u8,
    ];
    match path {
        Some(p) => match file_name(p) {
            Some(n) => {
                let stem = n.subrange(0, stem_len(n));
                if valid_utf8(stem) {
                    stem
                } else {
                    fallback
                }
            },
            None => fallback,
        },
        None => fallback,
    }
}

impl Format {
    /// What the status bar names the format as.
    pub fn status_label(self) -> (label: String)
        ensures
            label@ == status_label(self),
    {
        let mut label = self.name().to_owned();
        if !self.lossless() {
            proof {
                reveal_strlit(" \u{2022}");
            }
            label.append(" \u{2022}");
        }
        label
    }

    /// The label of this format's Save As filter.
    pub fn filter_label(self) -> (label: String)
        ensures
            label@ == filter_label(self),
    {
        let mut label = self.name().to_owned();
        proof {
            reveal_strlit(" (*.");
            reveal_strlit(")");
        }
        label.append(" (*.");
        label.append(self.extension());
        label.append(")");
        label
    }
}

/// The bytes of an optional path.
pub open spec fn path_bytes(path: Option<&[u8]>) -> Option<Seq<u8>> {
    match path {
        Some(p) => Some(p@),
        None => None,
    }
}

/// What Save As suggests calling a document saved in `format`, as bytes.
pub fn suggest_name(path: Option<&[u8]>, format: Format) -> (name: Vec<u8>)
    ensures
        name@ == suggested_name(path_bytes(path), format),
{
    let mut name: Vec<u8> = Vec::new();
    let mut stemmed = false;
    match path {
        Some(p) => match file_name_of(p) {
            Some((s, e)) => {
                let k = stem_len_of(p, s, e);
                match str_from_utf8(&p[s..s + k]) {
                    Ok(_) => {
                        crate::paths::push_all(&mut name, &p[s..s + k]);
                        stemmed = true;
                        proof {
                            let n = p@.subrange(s as int, e as int);
                            assert(n.subrange(0, k as int) =~= p@.subrange(s as int, s + k));
                        }
                    },
                    Err(_) => {
                        proof {
                            let n = p@.subrange(s as int, e as int);
                            assert(n.subrange(0, k as int) =~= p@.subrange(s as int, s + k));
                        }
                    },
                }
            },
            None => {},
        },
        None => {},
    }
    if !stemmed {
        crate::paths::push_all(
            &mut name,
            &[
                'd' as u8,
                'o' as u8,
                'c' as u8,
                'u' as u8,
                'm' as u8,
                'e' as u8,
                'n' as u8,
                't' as u8,
            ],
        );
    }
    let ghost stem = name@;
    assert(stem =~= suggested_stem(path_bytes(path)));
    name.push(DOT);
    let ext = format.extension().as_bytes();
    proof {
        vstd::utf8::is_ascii_chars_encode_utf8(extension_chars(format));
        assert(ext@ =~= extension_bytes(format));
    }
    crate::paths::push_all(&mut name, ext);
    assert(name@ =~= suggested_name(path_bytes(path), format));
    name
}

/// The name Save As suggests reopens in the format it was saved in.
pub proof fn law_suggested_name_keeps_format(path: Option<Seq<u8>>, f: Format)
    ensures
        crate::document::format_of(suggested_name(path, f)) == f,
{
    let stem = suggested_stem(path);
    assert forall|k: int| 0 <= k < stem.len() implies stem[k] != SLASH by {
        match path {
            Some(p) => match file_name(p) {
                Some(n) => {
                    let (s, e) = crate::paths::last_component(p, p.len() as int);
                    crate::paths::lemma_last_component_bounds(p, p.len() as int);
                    crate::paths::lemma_last_dot_bounds(n, n.len() as int);
                    if valid_utf8(n.subrange(0, stem_len(n))) {
                        assert(stem[k] == n[k]);
                        assert(n[k] == p[s + k]);
                    }
                },
                None => {},
            },
            None => {},
        }
    }
    assert(stem.len() > 0) by {
        match path {
            Some(p) => match file_name(p) {
                Some(n) => {
                    crate::paths::lemma_last_component_bounds(p, p.len() as int);
                    crate::paths::lemma_last_dot_bounds(n, n.len() as int);
                },
                None => {},
            },
            None => {},
        }
    }
    crate::document::lemma_extension_is_lower(f);
    crate::document::law_extension_names_format(Seq::empty(), stem, extension_bytes(f), f);
    assert(Seq::<u8>::empty() + stem + seq![DOT] + extension_bytes(f) =~= suggested_name(path, f));
}

/// Whether a heading's text is nothing but whitespace.
pub open spec fn is_blank(text: Seq<char>) -> bool {
    forall|i: int| 0 <= i < text.len() ==> is_unicode_whitespace(#[trigger] text[i])
}

pub(crate) proof fn lemma_blank(text: Seq<char>)
    ensures
        is_blank(text) <==> leading_whitespace(text) == text.len(),
        leading_whitespace(text) <= text.len(),
    decreases text.len(),
{
    if text.len() > 0 {
        lemma_blank(text.drop_first());
        if is_unicode_whitespace(text[0]) {
            if is_blank(text.drop_first()) {
                assert forall|i: int| 0 <= i < text.len() implies is_unicode_whitespace(#[trigger] text[i]) by {
                    if i > 0 {
                        assert(text[i] == text.drop_first()[i - 1]);
                    }
                }
            } else {
                let j = choose|j: int| 0 <= j < text.drop_first().len() && !is_unicode_whitespace(
                    #[trigger] text.drop_first()[j],
                );
                assert(!is_unicode_whitespace(text[j + 1]));
            }
        } else {
            assert(!is_unicode_whitespace(text[0]));
        }
    }
}

/// How many levels an outline row is indented: one less than the heading's
/// level, at least none — and none at all if that does not fit a `usize`.
pub open spec fn outline_depth(level: i64) -> int {
    let k = if level < 1 {
        0
    } else {
        level - 1
    };
    if k <= usize::MAX {
        k
    } else {
        0
    }
}

/// An outline row: four spaces a level, then the heading's text, or
/// `untitled` for a heading with no words in it.
pub open spec fn outline_label(level: i64, text: Seq<char>, untitled: Seq<char>) -> Seq<char> {
    repeated(seq![' ', ' ', ' ', ' '], outline_depth(level) as nat) + (if is_blank(text) {
        untitled
    } else {
        text
    })
}

/// The label of an outline row for a heading; `untitled` is what a heading
/// with no words in it is called, in the desktop's language. Nesting is
/// spelled with indentation rather than a tree: an outline the reader has to
/// expand is one they stop using.
pub fn outline_row(level: i64, text: &str, untitled: &str) -> (label: String)
    ensures
        label@ == outline_label(level, text@, untitled@),
{
    let k: i64 = if level < 1 {
        0
    } else {
        level - 1
    };
    let depth: usize = if (k as u64) <= (usize::MAX as u64) {
        k as usize
    } else {
        0
    };
    assert(depth == outline_depth(level));
    let mut label = String::new();
    proof {
        reveal_strlit("    ");
        assert("    "@ == seq![' ', ' ', ' ', ' ']);
    }
    push_repeated(&mut label, "    ", depth);
    let rest = trim_start(text);
    proof {
        lemma_blank(text@);
    }
    assert(rest@.len() == 0 <==> is_blank(text@));
    if rest.is_empty() {
        label.append(untitled);
    } else {
        label.append(text);
    }
    label
}

/// The find bar's way of matching.
#[derive(Clone, Copy, Debug, PartialEq, Eq, Structural)]
pub enum Matching {
    Loose,
    CaseSensitive,
    WholeWord,
    Regex,
}

/// The next way of matching, round in a circle.
pub open spec fn next_matching(m: Matching) -> Matching {
    match m {
        Matching::Loose => Matching::CaseSensitive,
        Matching::CaseSensitive => Matching::WholeWord,
        Matching::WholeWord => Matching::Regex,
        Matching::Regex => Matching::Loose,
    }
}

impl Matching {
    /// The way of matching the find bar's button moves on to.
    pub fn next(self) -> (m: Matching)
        ensures
            m == next_matching(self),
    {
        match self {
            Matching::Loose => Matching::CaseSensitive,
            Matching::CaseSensitive => Matching::WholeWord,
            Matching::WholeWord => Matching::Regex,
            Matching::Regex => Matching::Loose,
        }
    }
}

/// Pressing the matching button four times comes back to where it started,
/// passing every way of matching on the way.
pub proof fn law_matching_cycles(m: Matching)
    ensures
        next_matching(next_matching(next_matching(next_matching(m)))) == m,
        next_matching(m) != m,
{
}

/// What the find bar's count says.
#[derive(Clone, Copy, Debug, PartialEq, Eq, Structural)]
pub enum MatchCount {
    /// Nothing to say: there is no query.
    Nothing,
    NoMatches,
    /// Match `at` of `total`, counting from one; zero when none is current.
    At(usize, usize),
}

/// The find bar's count for a query, its number of hits and the current one.
pub open spec fn match_count_of(query_empty: bool, hits: usize, current: Option<usize>) -> MatchCount {
    if query_empty {
        MatchCount::Nothing
    } else if hits == 0 {
        MatchCount::NoMatches
    } else {
        MatchCount::At(
            match current {
                Some(i) => (i + 1) as usize,
                None => 0,
            },
            hits,
        )
    }
}

/// The find bar's count.
pub fn match_count(query_empty: bool, hits: usize, current: Option<usize>) -> (c: MatchCount)
    requires
        current matches Some(i) ==> i < usize::MAX,
    ensures
        c == match_count_of(query_empty, hits, current),
{
    if query_empty {
        MatchCount::Nothing
    } else if hits == 0 {
        MatchCount::NoMatches
    } else {
        let at = match current {
            Some(i) => i + 1,
            None => 0,
        };
        MatchCount::At(at, hits)
    }
}

/// What closing a tab does.
#[derive(Clone, Copy, Debug, PartialEq, Eq, Structural)]
pub enum CloseAction {
    /// The tab's document is replaced by an empty one and the tab stays: the
    /// last tab is never removed, since a window with no document in it is a
    /// window with nothing to do.
    Empty,
    /// The tab has unsaved changes: ask first.
    Ask,
    /// The tab is removed.
    Close,
}

/// What asking to close a tab does, given how many tabs there are and
/// whether the one being closed has unsaved changes: unsaved changes are
/// asked about first, wherever the tab is; otherwise the last tab is
/// emptied and any other removed.
pub open spec fn close_action_of(tabs: usize, dirty: bool) -> CloseAction {
    if dirty {
        CloseAction::Ask
    } else if tabs <= 1 {
        CloseAction::Empty
    } else {
        CloseAction::Close
    }
}

/// What asking to close a tab does.
pub fn close_action(tabs: usize, dirty: bool) -> (a: CloseAction)
    ensures
        a == close_action_of(tabs, dirty),
{
    if dirty {
        CloseAction::Ask
    } else if tabs <= 1 {
        CloseAction::Empty
    } else {
        CloseAction::Close
    }
}

/// What closing a tab does once its unsaved changes have been saved or let
/// go of: the last tab is emptied, any other removed.
pub open spec fn confirmed_close_of(tabs: usize) -> CloseAction {
    if tabs <= 1 {
        CloseAction::Empty
    } else {
        CloseAction::Close
    }
}

/// What closing a tab does once the question about it has been answered.
pub fn confirmed_close(tabs: usize) -> (a: CloseAction)
    ensures
        a == confirmed_close_of(tabs),
{
    if tabs <= 1 {
        CloseAction::Empty
    } else {
        CloseAction::Close
    }
}

/// How many tabs are left after an action on one of `tabs`.
pub open spec fn tabs_left(tabs: usize, a: CloseAction) -> int {
    if a == CloseAction::Close {
        tabs - 1
    } else {
        tabs as int
    }
}

/// A tab with unsaved changes is never closed or emptied without asking,
/// the last one included.
pub proof fn law_dirty_tab_asks(tabs: usize)
    ensures
        close_action_of(tabs, true) == CloseAction::Ask,
{
}

/// The window always keeps a tab: neither closing one nor carrying out a
/// confirmed close ever removes the last.
pub proof fn law_last_tab_stays(tabs: usize, dirty: bool)
    requires
        tabs >= 1,
    ensures
        tabs_left(tabs, close_action_of(tabs, dirty)) >= 1,
        tabs_left(tabs, confirmed_close_of(tabs)) >= 1,
{
}

/// Whether a file being opened takes over the tab showing rather than
/// opening a new one: the tab holds a document with no file, no unsaved
/// changes and no words — a new window should not leave a blank tab behind.
pub open spec fn replaceable(has_path: bool, dirty: bool, text: Seq<char>) -> bool {
    !has_path && !dirty && is_blank(text)
}

/// Whether a file being opened takes over the tab showing: `text` is the
/// document's text.
pub fn can_replace(has_path: bool, dirty: bool, text: &str) -> (r: bool)
    ensures
        r == replaceable(has_path, dirty, text@),
{
    if has_path || dirty {
        return false;
    }
    proof {
        lemma_blank(text@);
    }
    trim_start(text).is_empty()
}

/// Which tab becomes active after one is closed: the one to its left, or the
/// first — whichever still exists — given where the closed one was and how
/// many remain.
pub open spec fn neighbour_of(position: Option<usize>, remaining: usize) -> Option<usize> {
    match position {
        Some(p) if (if p == 0 {
            0
        } else {
            p - 1
        }) < remaining => Some(
            if p == 0 {
                0
            } else {
                (p - 1) as usize
            },
        ),
        _ => if remaining > 0 {
            Some(0usize)
        } else {
            None
        },
    }
}

/// Which tab becomes active after one is closed.
pub fn neighbour(position: Option<usize>, remaining: usize) -> (n: Option<usize>)
    ensures
        n == neighbour_of(position, remaining),
        n matches Some(i) ==> i < remaining,
{
    match position {
        Some(p) => {
            let left = p.saturating_sub(1);
            if left < remaining {
                return Some(left);
            }
        },
        None => {},
    }
    if remaining > 0 {
        Some(0)
    } else {
        None
    }
}

} // verus!

verus! {

/// A key, as the keymap names it.
#[derive(Clone, Debug, PartialEq, Eq)]
pub enum Key {
    Char(char),
    Enter,
    Tab,
    Backspace,
    Delete,
    Escape,
    Home,
    End,
    PageUp,
    PageDown,
    ArrowLeft,
    ArrowRight,
    ArrowUp,
    ArrowDown,
    /// A key the keymap knows by name.
    Named(String),
}

/// A key and the modifiers held with it.
#[derive(Clone, Debug, PartialEq, Eq)]
pub struct Binding {
    /// Control, or Command on a Mac keyboard.
    pub primary: bool,
    pub alt: bool,
    pub shift: bool,
    pub key: Key,
}

/// What `char::to_uppercase` makes of a character: one or more characters,
/// by Unicode's case mapping.
pub uninterp spec fn uppercase(c: char) -> Seq<char>;

/// `char::to_uppercase`, collected into a string.
#[verifier::external_body]
fn char_uppercase(c: char) -> (s: String)
    ensures
        s@ == uppercase(c),
{
    c.to_uppercase().to_string()
}

/// How the shortcuts pane spells a key.
pub open spec fn key_name(k: Key) -> Seq<char> {
    match k {
        Key::Char(c) => uppercase(c),
        Key::Enter => seq!['E', 'n', 't', 'e', 'r'],
        Key::Tab => seq!['T', 'a', 'b'],
        Key::Backspace => seq!['B', 'a', 'c', 'k', 's', 'p', 'a', 'c', 'e'],
        Key::Delete => seq!['D', 'e', 'l', 'e', 't', 'e'],
        Key::Escape => seq!['E', 's', 'c', 'a', 'p', 'e'],
        Key::Home => seq!['H', 'o', 'm', 'e'],
        Key::End => seq!['E', 'n', 'd'],
        Key::PageUp => seq!['P', 'a', 'g', 'e', ' ', 'U', 'p'],
        Key::PageDown => seq!['P', 'a', 'g', 'e', ' ', 'D', 'o', 'w', 'n'],
        Key::ArrowLeft => seq!['L', 'e', 'f', 't'],
        Key::ArrowRight => seq!['R', 'i', 'g', 'h', 't'],
        Key::ArrowUp => seq!['U', 'p'],
        Key::ArrowDown => seq!['D', 'o', 'w', 'n'],
        Key::Named(name) => name@,
    }
}

/// The modifiers held, Control first, each followed by `+`.
pub open spec fn modifiers_text(primary: bool, alt: bool, shift: bool) -> Seq<char> {
    (if primary {
        seq!['C', 't', 'r', 'l', '+']
    } else {
        Seq::empty()
    }) + (if alt {
        seq!['A', 'l', 't', '+']
    } else {
        Seq::empty()
    }) + (if shift {
        seq!['S', 'h', 'i', 'f', 't', '+']
    } else {
        Seq::empty()
    })
}

/// A binding in the spelling a user recognises: the modifiers held, Control
/// first, then the key, joined by `+`.
pub open spec fn binding_text(b: Binding) -> Seq<char> {
    modifiers_text(b.primary, b.alt, b.shift) + key_name(b.key)
}

/// How the shortcuts pane spells a key.
fn describe_key(k: &Key) -> (s: String)
    ensures
        s@ == key_name(*k),
{
    match k {
        Key::Char(c) => char_uppercase(*c),
        Key::Enter => {
            proof {
                reveal_strlit("Enter");
            }
            "Enter".to_owned()
        },
        Key::Tab => {
            proof {
                reveal_strlit("Tab");
            }
            "Tab".to_owned()
        },
        Key::Backspace => {
            proof {
                reveal_strlit("Backspace");
            }
            "Backspace".to_owned()
        },
        Key::Delete => {
            proof {
                reveal_strlit("Delete");
            }
            "Delete".to_owned()
        },
        Key::Escape => {
            proof {
                reveal_strlit("Escape");
            }
            "Escape".to_owned()
        },
        Key::Home => {
            proof {
                reveal_strlit("Home");
            }
            "Home".to_owned()
        },
        Key::End => {
            proof {
                reveal_strlit("End");
            }
            "End".to_owned()
        },
        Key::PageUp => {
            proof {
                reveal_strlit("Page Up");
            }
            "Page Up".to_owned()
        },
        Key::PageDown => {
            proof {
                reveal_strlit("Page Down");
            }
            "Page Down".to_owned()
        },
        Key::ArrowLeft => {
            proof {
                reveal_strlit("Left");
            }
            "Left".to_owned()
        },
        Key::ArrowRight => {
            proof {
                reveal_strlit("Right");
            }
            "Right".to_owned()
        },
        Key::ArrowUp => {
            proof {
                reveal_strlit("Up");
            }
            "Up".to_owned()
        },
        Key::ArrowDown => {
            proof {
                reveal_strlit("Down");
            }
            "Down".to_owned()
        },
        Key::Named(name) => name.as_str().to_owned(),
    }
}

/// A key's spelling with the modifiers held before it: `Ctrl+Shift+Z`.
pub fn join_binding(primary: bool, alt: bool, shift: bool, key: &str) -> (text: String)
    ensures
        text@ == modifiers_text(primary, alt, shift) + key@,
{
    let mut text = String::new();
    proof {
        reveal_strlit("Ctrl+");
        reveal_strlit("Alt+");
        reveal_strlit("Shift+");
    }
    if primary {
        text.append("Ctrl+");
    }
    if alt {
        text.append("Alt+");
    }
    if shift {
        text.append("Shift+");
    }
    text.append(key);
    assert(text@ =~= modifiers_text(primary, alt, shift) + key@);
    text
}

/// A binding, in the spelling a user recognises: `Ctrl+Shift+Z`.
pub fn describe_binding(binding: &Binding) -> (text: String)
    ensures
        text@ == binding_text(*binding),
{
    let key = describe_key(&binding.key);
    join_binding(binding.primary, binding.alt, binding.shift, key.as_str())
}

} // verus!
