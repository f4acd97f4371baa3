//! Reading and writing files.
//!
//! Pencil edits one document. Markdown, HTML and plain text are ways of
//! writing it down, not different kinds of document: opening a `.md` and
//! saving it as `.html` is the same document written differently. Every
//! format but HTML loses something — Markdown has no underline, plain text
//! keeps only the shape of the blocks — and the status bar says so by naming
//! the format.

use vstd::prelude::*;
use vstd::utf8::*;
use vstd::string::StringExecFns;

use crate::paths::{
    lemma_last_dot_at, lemma_segment_start_run, last_dot, segment_start,
    copy_range, extension, extension_of, file_name, file_name_of, has_file_name, last_component,
    last_component_of, lemma_last_component_bounds, push_all, stem_len, stem_len_of, DOT, SLASH,
};
use crate::text::{lossy_utf8, str_from_utf8, string_from_utf8, string_from_utf8_lossy};

verus! {

/// How a document is written down.
#[derive(Debug, Clone, Copy, PartialEq, Eq, Structural)]
pub enum Format {
    Markdown,
    /// Markdown with Nuxt's component syntax.
    Mdc,
    /// Markdown with JSX-shaped components.
    Mdx,
    Html,
    Text,
}

/// ASCII lower case for one byte; every other byte is left alone.
pub open spec fn ascii_lower(b: u8) -> u8 {
    if 0x41 <= b <= 0x5a {
        (b + 0x20) as u8
    } else {
        b
    }
}

/// ASCII lower case for a byte string, as `str::to_ascii_lowercase` does it.
pub open spec fn lower(s: Seq<u8>) -> Seq<u8> {
    s.map_values(|b: u8| ascii_lower(b))
}

/// The extension a new file of each format gets.
pub open spec fn extension_bytes(f: Format) -> Seq<u8> {
    match f {
        Format::Markdown => seq!['m' as u8, 'd' as u8],
        Format::Mdc => seq!['m' as u8, 'd' as u8, 'c' as u8],
        Format::Mdx => seq!['m' as u8, 'd' as u8, 'x' as u8],
        Format::Html => seq!['h' as u8, 't' as u8, 'm' as u8, 'l' as u8],
        Format::Text => seq!['t' as u8, 'x' as u8, 't' as u8],
    }
}

/// The format a lower-cased extension names, if any.
pub open spec fn format_named(e: Seq<u8>) -> Option<Format> {
    if e == seq!['h' as u8, 't' as u8, 'm' as u8, 'l' as u8] || e == seq!['h' as u8, 't' as u8, 'm' as u8] || e == seq![
        'x' as u8,
        'h' as u8,
        't' as u8,
        'm' as u8,
        'l' as u8,
    ] {
        Some(Format::Html)
    } else if e == seq!['t' as u8, 'x' as u8, 't' as u8] || e == seq!['t' as u8, 'e' as u8, 'x' as u8, 't' as u8] || e == seq![
        'l' as u8,
        'o' as u8,
        'g' as u8,
    ] {
        Some(Format::Text)
    } else if e == seq!['m' as u8, 'd' as u8, 'c' as u8] {
        Some(Format::Mdc)
    } else if e == seq!['m' as u8, 'd' as u8, 'x' as u8] {
        Some(Format::Mdx)
    } else {
        None
    }
}

/// The format a path's extension names, in any case, defaulting to Markdown.
pub open spec fn format_of(p: Seq<u8>) -> Format {
    match extension(p) {
        Some(e) => match format_named(lower(e)) {
            Some(f) => f,
            None => Format::Markdown,
        },
        None => Format::Markdown,
    }
}

/// The characters of the extension a new file of each format gets.
pub open spec fn extension_chars(f: Format) -> Seq<char> {
    match f {
        Format::Markdown => seq!['m', 'd'],
        Format::Mdc => seq!['m', 'd', 'c'],
        Format::Mdx => seq!['m', 'd', 'x'],
        Format::Html => seq!['h', 't', 'm', 'l'],
        Format::Text => seq!['t', 'x', 't'],
    }
}

/// Each format's name, as the status bar and the Save As filters show it.
pub open spec fn format_name(f: Format) -> Seq<char> {
    match f {
        Format::Markdown => seq!['M', 'a', 'r', 'k', 'd', 'o', 'w', 'n'],
        Format::Mdc => seq!['M', 'D', 'C'],
        Format::Mdx => seq!['M', 'D', 'X'],
        Format::Html => seq!['H', 'T', 'M', 'L'],
        Format::Text => seq!['P', 'l', 'a', 'i', 'n', ' ', 't', 'e', 'x', 't'],
    }
}

/// The dialects of Markdown the engine reads and writes.
#[derive(Debug, Clone, Copy, PartialEq, Eq, Structural)]
pub enum Dialect {
    /// GitHub-flavoured Markdown.
    Gfm,
    Mdc,
    Mdx,
}

/// Which of the engine's converters reads and writes a format.
#[derive(Debug, Clone, Copy, PartialEq, Eq, Structural)]
pub enum Converter {
    Html,
    Text,
    Markdown(Dialect),
}

/// The converter each format goes through.
pub open spec fn converter_of(f: Format) -> Converter {
    match f {
        Format::Html => Converter::Html,
        Format::Text => Converter::Text,
        Format::Mdc => Converter::Markdown(Dialect::Mdc),
        Format::Mdx => Converter::Markdown(Dialect::Mdx),
        Format::Markdown => Converter::Markdown(Dialect::Gfm),
    }
}

/// ASCII lower case for one byte.
fn lower_byte(b: u8) -> (r: u8)
    ensures
        r == ascii_lower(b),
{
    if 0x41 <= b && b <= 0x5a {
        b + 0x20
    } else {
        b
    }
}

/// Whether `p[a..b]`, lower-cased, is `word`.
pub(crate) fn lower_equals(p: &[u8], a: usize, b: usize, word: &[u8]) -> (r: bool)
    requires
        a <= b <= p@.len(),
    ensures
        r == (lower(p@.subrange(a as int, b as int)) == word@),
{
    let ghost l = lower(p@.subrange(a as int, b as int));
    if b - a != word.len() {
        assert(l.len() != word@.len());
        return false;
    }
    let mut i: usize = 0;
    while i < word.len()
        invariant
            a <= b <= p@.len(),
            b - a == word@.len(),
            i <= word@.len(),
            l == lower(p@.subrange(a as int, b as int)),
            forall|k: int| 0 <= k < i ==> l[k] == word@[k],
        decreases word@.len() - i,
    {
        assert(l[i as int] == ascii_lower(p@[a + i]));
        if lower_byte(p[a + i]) != word[i] {
            return false;
        }
        i = i + 1;
    }
    assert(l =~= word@);
    true
}

impl Format {
    /// The format a path's extension names, in any case, defaulting to
    /// Markdown: anything unrecognised is prose, the safe guess for an
    /// editor.
    pub fn of(path: &[u8]) -> (f: Format)
        ensures
            f == format_of(path@),
    {
        match extension_of(path) {
            None => Format::Markdown,
            Some((a, b)) => {
                let ghost e = lower(path@.subrange(a as int, b as int));
                let html = lower_equals(path, a, b, &['h' as u8, 't' as u8, 'm' as u8, 'l' as u8]);
                let htm = lower_equals(path, a, b, &['h' as u8, 't' as u8, 'm' as u8]);
                let xhtml = lower_equals(
                    path,
                    a,
                    b,
                    &['x' as u8, 'h' as u8, 't' as u8, 'm' as u8, 'l' as u8],
                );
                let txt = lower_equals(path, a, b, &['t' as u8, 'x' as u8, 't' as u8]);
                let text = lower_equals(path, a, b, &['t' as u8, 'e' as u8, 'x' as u8, 't' as u8]);
                let log = lower_equals(path, a, b, &['l' as u8, 'o' as u8, 'g' as u8]);
                let mdc = lower_equals(path, a, b, &['m' as u8, 'd' as u8, 'c' as u8]);
                let mdx = lower_equals(path, a, b, &['m' as u8, 'd' as u8, 'x' as u8]);
                if html || htm || xhtml {
                    Format::Html
                } else if txt || text || log {
                    Format::Text
                } else if mdc {
                    Format::Mdc
                } else if mdx {
                    Format::Mdx
                } else {
                    Format::Markdown
                }
            },
        }
    }

    /// The extension a new file of this format gets.
    pub fn extension(self) -> (e: &'static str)
        ensures
            e@ == extension_chars(self),
    {
        match self {
            Format::Markdown => {
                proof {
                    reveal_strlit("md");
                }
                "md"
            },
            Format::Mdc => {
                proof {
                    reveal_strlit("mdc");
                }
                "mdc"
            },
            Format::Mdx => {
                proof {
                    reveal_strlit("mdx");
                }
                "mdx"
            },
            Format::Html => {
                proof {
                    reveal_strlit("html");
                }
                "html"
            },
            Format::Text => {
                proof {
                    reveal_strlit("txt");
                }
                "txt"
            },
        }
    }

    /// Whether saving in this format keeps everything the schema holds:
    /// only HTML does.
    pub fn lossless(self) -> (r: bool)
        ensures
            r == (self == Format::Html),
    {
        match self {
            Format::Html => true,
            _ => false,
        }
    }

    /// Every format, for a Save As filter list, HTML first because it is the
    /// one that loses nothing.
    pub fn all() -> (formats: [Format; 5])
        ensures
            formats@ == seq![Format::Html, Format::Markdown, Format::Mdc, Format::Mdx, Format::Text],
    {
        [Format::Html, Format::Markdown, Format::Mdc, Format::Mdx, Format::Text]
    }

    /// The format's name, as the status bar shows it.
    pub fn name(self) -> (n: &'static str)
        ensures
            n@ == format_name(self),
    {
        match self {
            Format::Markdown => {
                proof {
                    reveal_strlit("Markdown");
                }
                "Markdown"
            },
            Format::Mdc => {
                proof {
                    reveal_strlit("MDC");
                }
                "MDC"
            },
            Format::Mdx => {
                proof {
                    reveal_strlit("MDX");
                }
                "MDX"
            },
            Format::Html => {
                proof {
                    reveal_strlit("HTML");
                }
                "HTML"
            },
            Format::Text => {
                proof {
                    reveal_strlit("Plain text");
                }
                "Plain text"
            },
        }
    }

    /// Which converter reads and writes this format.
    pub fn converter(self) -> (c: Converter)
        ensures
            c == converter_of(self),
    {
        match self {
            Format::Html => Converter::Html,
            Format::Text => Converter::Text,
            Format::Mdc => Converter::Markdown(Dialect::Mdc),
            Format::Mdx => Converter::Markdown(Dialect::Mdx),
            Format::Markdown => Converter::Markdown(Dialect::Gfm),
        }
    }
}

impl Default for Format {
    fn default() -> (f: Format)
        ensures
            f == Format::Markdown,
    {
        Format::Markdown
    }
}

} // verus!

verus! {

/// The name of the temporary file a save writes first, as bytes:
/// `.pencil-tmp`.
pub open spec fn temporary_suffix() -> Seq<u8> {
    seq![
        '.' as u8,
        'p' as u8,
        'e' as u8,
        'n' as u8,
        'c' as u8,
        'i' as u8,
        'l' as u8,
        '-' as u8,
        't' as u8,
        'm' as u8,
        'p' as u8,
    ]
}

/// Where a save writes before it renames over the target:
/// `path.with_extension(format!("{ext}.pencil-tmp"))`, with `ext` the
/// target's extension when it is UTF-8 and nothing otherwise. A path with no
/// file name is left as it is, as `with_extension` leaves it.
pub open spec fn temporary_path(p: Seq<u8>) -> Seq<u8> {
    if !has_file_name(p) {
        p
    } else {
        let (s, e) = last_component(p, p.len() as int);
        let stem_end = s + stem_len(p.subrange(s, e));
        let ext = match extension(p) {
            Some(x) => if valid_utf8(x) {
                x
            } else {
                Seq::empty()
            },
            None => Seq::empty(),
        };
        p.subrange(0, stem_end) + seq![DOT] + ext + temporary_suffix()
    }
}

/// The file beside `path` that a save writes first and then renames over
/// it, so an interrupted save leaves the previous version rather than half
/// of the new one.
///
/// For a path with a file name, the temporary file is in the same folder —
/// everything before the name is kept and the new name holds no separator —
/// and it is never the target itself.
pub fn temporary_path_of(path: &[u8]) -> (r: Vec<u8>)
    ensures
        r@ == temporary_path(path@),
        has_file_name(path@) ==> {
            let s = last_component(path@, path@.len() as int).0;
            &&& r@ != path@
            &&& s <= r@.len()
            &&& r@.subrange(0, s) == path@.subrange(0, s)
            &&& forall|k: int| s <= k < r@.len() ==> r@[k] != SLASH
        },
{
    proof {
        lemma_last_component_bounds(path@, path@.len() as int);
    }
    let (s, e) = match file_name_of(path) {
        None => {
            let mut same: Vec<u8> = Vec::new();
            push_all(&mut same, path);
            assert(same@ =~= path@);
            return same;
        },
        Some(bounds) => bounds,
    };
    let stem = stem_len_of(path, s, e);
    let mut out = copy_range(path, 0, s + stem);
    out.push(DOT);
    match extension_of(path) {
        None => {},
        Some((a, b)) => {
            match str_from_utf8(&path[a..b]) {
                Ok(_) => {
                    push_all(&mut out, &path[a..b]);
                },
                Err(_) => {},
            }
        },
    }
    let suffix: [u8; 11] = [
        '.' as u8,
        'p' as u8,
        'e' as u8,
        'n' as u8,
        'c' as u8,
        'i' as u8,
        'l' as u8,
        '-' as u8,
        't' as u8,
        'm' as u8,
        'p' as u8,
    ];
    push_all(&mut out, &suffix);
    proof {
        assert(suffix@ =~= temporary_suffix());
        let ghost ext = match extension(path@) {
            Some(x) => if valid_utf8(x) {
                x
            } else {
                Seq::<u8>::empty()
            },
            None => Seq::<u8>::empty(),
        };
        assert(out@ =~= path@.subrange(0, s + stem) + seq![DOT] + ext + temporary_suffix());
        // The byte just past the stem tells the two apart: a dot in the
        // temporary path, and in the target either the end or something
        // that is not the stem's dot.
        let n = path@.subrange(s as int, e as int);
        let q = s + stem;
        assert(forall|i: int| 0 <= i < n.len() ==> n[i] == path@[s + i]);
        assert(out@[q as int] == DOT);
        let j = q + 1 + ext.len();
        assert(out@[j] == DOT);
        crate::paths::lemma_last_dot_bounds(n, n.len() as int);
        if out@ == path@ {
            if extension(path@) is None {
                assert(path@[q as int] == DOT);
                assert(q == e);
                assert(path@[e as int] == SLASH);
            } else if ext.len() == 0 {
                let d = crate::paths::last_dot(n, n.len() as int);
                assert(q == s + d);
                if q + 1 < e {
                    assert(path@[q + 1] == n[d + 1]);
                    assert(path@[j] == DOT);
                } else {
                    assert(path@[e as int] == SLASH);
                }
            } else {
                assert(j == e);
                assert(path@[e as int] == SLASH);
            }
        }
        assert forall|i: int| 0 <= i < ext.len() implies ext[i] != SLASH by {
            let d = crate::paths::last_dot(n, n.len() as int);
            crate::paths::lemma_last_dot_bounds(n, n.len() as int);
            assert(file_name(path@) == Some(n));
            assert(extension(path@) is Some);
            assert(ext[i] == n[d + 1 + i]);
            assert(n[d + 1 + i] == path@[s + d + 1 + i]);
        }
        assert forall|k: int| s <= k < out@.len() implies out@[k] != SLASH by {
            if k < q {
                assert(out@[k] == path@[k]);
            } else if k == q {
            } else if k < q + 1 + ext.len() {
                assert(out@[k] == ext[k - q - 1]);
            } else {
                assert(out@[k] == temporary_suffix()[k - q - 1 - ext.len()]);
            }
        }
        assert(out@.subrange(0, s as int) =~= path@.subrange(0, s as int));
    }
    out
}

} // verus!

verus! {

/// Why a document could not be read or written.
#[derive(Debug, Clone)]
pub enum Error {
    /// The file could not be read or written; the path as the desktop shows
    /// it, and what the system said.
    Io { path: String, message: String },
    /// The file is not UTF-8; the path as the desktop shows it.
    Encoding(String),
}

/// What an error says, as the error bar shows it.
pub open spec fn error_text(e: Error) -> Seq<char> {
    match e {
        Error::Io { path, message } => path@ + seq![':', ' '] + message@,
        Error::Encoding(path) => path@ + seq![
            ' ',
            'i',
            's',
            ' ',
            'n',
            'o',
            't',
            ' ',
            'v',
            'a',
            'l',
            'i',
            'd',
            ' ',
            'U',
            'T',
            'F',
            '-',
            '8',
        ],
    }
}

impl Error {
    /// The error for a file the system would not read or write: the path as
    /// the desktop shows it, and the system's own words.
    pub fn io(path: &[u8], message: String) -> (e: Error)
        ensures
            e matches Error::Io { path: p, message: m } && p@ == lossy_utf8(path@) && m@
                == message@,
    {
        Error::Io { path: string_from_utf8_lossy(path), message }
    }

    /// What the error says: the file first, so the message names it.
    pub fn describe(&self) -> (text: String)
        ensures
            text@ == error_text(*self),
    {
        match self {
            Error::Io { path, message } => {
                let mut text = path.clone();
                proof {
                    reveal_strlit(": ");
                }
                text.append(": ");
                text.append(message.as_str());
                text
            },
            Error::Encoding(path) => {
                let mut text = path.clone();
                proof {
                    reveal_strlit(" is not valid UTF-8");
                }
                text.append(" is not valid UTF-8");
                text
            },
        }
    }
}

/// The name shown in the title bar: the file's name when it has one that is
/// UTF-8.
pub open spec fn title_of(path: Option<Seq<u8>>) -> Option<Seq<char>> {
    match path {
        None => None,
        Some(p) => match file_name(p) {
            Some(n) => if valid_utf8(n) {
                Some(decode_utf8(n))
            } else {
                None
            },
            None => None,
        },
    }
}

/// The bytes of an optional path.
pub open spec fn bytes_of(path: Option<&[u8]>) -> Option<Seq<u8>> {
    match path {
        Some(p) => Some(p@),
        None => None,
    }
}

/// The name shown in the title bar, or `None` for a document that has no
/// file, or whose file's name is not UTF-8: the window then says "Untitled"
/// in the desktop's language.
pub fn title(path: Option<&[u8]>) -> (t: Option<String>)
    ensures
        match t {
            Some(s) => title_of(bytes_of(path)) == Some(s@),
            None => title_of(bytes_of(path)) is None,
        },
{
    match path {
        None => None,
        Some(p) => match file_name_of(p) {
            None => None,
            Some((s, e)) => match str_from_utf8(&p[s..e]) {
                Ok(name) => Some(name.to_owned()),
                Err(_) => None,
            },
        },
    }
}

/// A file's contents, read: the path it came from, the format its extension
/// names, and its text — or why the bytes are not text.
pub fn read(path: Vec<u8>, bytes: Vec<u8>) -> (r: Result<(Vec<u8>, Format, String), Error>)
    ensures
        valid_utf8(bytes@) ==> (r matches Ok((p, f, text)) && p@ == path@ && f == format_of(path@)
            && text@ == decode_utf8(bytes@)),
        !valid_utf8(bytes@) ==> (r matches Err(Error::Encoding(shown)) && shown@ == lossy_utf8(
            path@,
        )),
{
    match string_from_utf8(bytes) {
        Ok(text) => {
            let format = Format::of(path.as_slice());
            Ok((path, format, text))
        },
        Err(_) => Err(Error::Encoding(string_from_utf8_lossy(path.as_slice()))),
    }
}

} // verus!

verus! {

/// The extension of `folder/stem.ext` is `ext`, when `ext` holds no dot and
/// no separator.
pub(crate) proof fn lemma_extension_of_name(folder: Seq<u8>, stem: Seq<u8>, ext: Seq<u8>)
    requires
        folder.len() == 0 || folder.last() == SLASH,
        stem.len() > 0,
        ext.len() > 0,
        forall|k: int| 0 <= k < stem.len() ==> stem[k] != SLASH,
        forall|k: int| 0 <= k < ext.len() ==> ext[k] != SLASH && ext[k] != DOT,
    ensures
        extension(folder + stem + seq![DOT] + ext) == Some(ext),
{
    let name = stem + seq![DOT] + ext;
    let p = folder + name;
    assert(folder + stem + seq![DOT] + ext =~= p);
    let a = folder.len() as int;
    let end = p.len() as int;
    assert forall|k: int| a <= k < end implies p[k] != SLASH by {
        let i = k - a;
        if i < stem.len() {
            assert(p[k] == stem[i]);
        } else if i == stem.len() {
            assert(p[k] == DOT);
        } else {
            assert(p[k] == ext[i - stem.len() - 1]);
        }
    }
    lemma_segment_start_run(p, a, end);
    assert(p[end - 1] == ext.last());
    assert(last_component(p, end) == (a, end));
    assert(p.subrange(a, end) =~= name);
    if name == crate::paths::dot_dot() {
        assert(name.len() == 2);
    }
    assert(file_name(p) == Some(name));
    let d = stem.len() as int;
    assert forall|k: int| d < k < name.len() implies name[k] != DOT by {
        assert(name[k] == ext[k - d - 1]);
    }
    lemma_last_dot_at(name, d, name.len() as int);
    assert(name.subrange(d + 1, name.len() as int) =~= ext);
}

/// The extension a format gets is already in lower case.
pub(crate) proof fn lemma_extension_is_lower(f: Format)
    ensures
        lower(extension_bytes(f)) == extension_bytes(f),
{
    assert(lower(extension_bytes(f)) =~= extension_bytes(f));
}

/// A file named with a format's own extension reopens in that format: what
/// Save As suggests, `stem.ext`, is read back as the format it was saved in,
/// in any folder — and so is `stem.EXT`, or any other mix of cases of the
/// extension's letters.
pub proof fn law_extension_names_format(folder: Seq<u8>, stem: Seq<u8>, ext: Seq<u8>, f: Format)
    requires
        folder.len() == 0 || folder.last() == SLASH,
        stem.len() > 0,
        forall|k: int| 0 <= k < stem.len() ==> stem[k] != SLASH,
        lower(ext) == extension_bytes(f),
    ensures
        format_of(folder + stem + seq![DOT] + ext) == f,
{
    let e = extension_bytes(f);
    assert(ext.len() == e.len());
    assert forall|k: int| 0 <= k < ext.len() implies ext[k] != SLASH && ext[k] != DOT by {
        assert(lower(ext)[k] == ascii_lower(ext[k]));
        assert(e[k] != SLASH && e[k] != DOT);
    }
    lemma_extension_of_name(folder, stem, ext);
}

} // verus!

verus! {

/// Which format a file name's extension reads as, in any case of its
/// letters: `html`, `htm` and `xhtml` are HTML; `txt`, `text` and `log` are
/// plain text; `mdc` is MDC and `mdx` MDX; and any other extension, or none,
/// is Markdown.
pub proof fn law_extension_decides_format(p: Seq<u8>)
    ensures
        ({
            let f = format_of(p);
            match extension(p) {
                Some(e) => {
                    let l = lower(e);
                    if l == seq!['h' as u8, 't' as u8, 'm' as u8, 'l' as u8] || l == seq![
                        'h' as u8,
                        't' as u8,
                        'm' as u8,
                    ] || l == seq!['x' as u8, 'h' as u8, 't' as u8, 'm' as u8, 'l' as u8] {
                        f == Format::Html
                    } else if l == seq!['t' as u8, 'x' as u8, 't' as u8] || l == seq![
                        't' as u8,
                        'e' as u8,
                        'x' as u8,
                        't' as u8,
                    ] || l == seq!['l' as u8, 'o' as u8, 'g' as u8] {
                        f == Format::Text
                    } else if l == seq!['m' as u8, 'd' as u8, 'c' as u8] {
                        f == Format::Mdc
                    } else if l == seq!['m' as u8, 'd' as u8, 'x' as u8] {
                        f == Format::Mdx
                    } else {
                        f == Format::Markdown
                    }
                },
                None => f == Format::Markdown,
            }
        }),
{
}

} // verus!
