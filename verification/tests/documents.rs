//! What a file's name says about how it is written, what a save writes
//! where, and what reading a file makes of its bytes.

use pencil::document::{read, temporary_path_of, title, Converter, Dialect, Error, Format};

#[test]
fn a_format_is_chosen_by_extension() {
    assert_eq!(Format::of(b"a.md"), Format::Markdown);
    assert_eq!(Format::of(b"a.markdown"), Format::Markdown);
    assert_eq!(Format::of(b"a.html"), Format::Html);
    assert_eq!(Format::of(b"a.HTM"), Format::Html);
    assert_eq!(Format::of(b"a.txt"), Format::Text);
    assert_eq!(Format::of(b"a.mdc"), Format::Mdc);
    assert_eq!(Format::of(b"a.mdx"), Format::Mdx);
    // Anything unrecognised is prose, which is the safe guess for an editor.
    assert_eq!(Format::of(b"notes"), Format::Markdown);
}

#[test]
fn only_html_claims_to_be_lossless() {
    assert!(Format::Html.lossless());
    for format in [Format::Markdown, Format::Mdc, Format::Mdx, Format::Text] {
        assert!(!format.lossless(), "{} should not claim to be lossless", format.name());
    }
}

#[test]
fn the_extension_is_read_as_the_path_reads_it() {
    assert_eq!(Format::of(b"/home/me/notes/Draft.XHTML"), Format::Html);
    assert_eq!(Format::of(b"chapters/one.log"), Format::Text);
    assert_eq!(Format::of(b"chapters/one.TEXT"), Format::Text);
    // A trailing separator and a `.` component are not part of the name.
    assert_eq!(Format::of(b"site/index.html/"), Format::Html);
    assert_eq!(Format::of(b"site/index.html/."), Format::Html);
    // A leading dot is a hidden name, not an extension.
    assert_eq!(Format::of(b".html"), Format::Markdown);
    // The extension of a folder is not the extension of a file in it.
    assert_eq!(Format::of(b"site.html/readme"), Format::Markdown);
    assert_eq!(Format::of(b".."), Format::Markdown);
    assert_eq!(Format::of(b""), Format::Markdown);
}

#[test]
fn every_format_has_an_extension_that_names_it() {
    for format in Format::all() {
        let name = format!("document.{}", format.extension());
        assert_eq!(Format::of(name.as_bytes()), format);
    }
    assert_eq!(Format::all()[0], Format::Html, "HTML first, since it loses nothing");
    assert_eq!(Format::Markdown.extension(), "md");
    assert_eq!(Format::Text.extension(), "txt");
    assert_eq!(Format::Text.name(), "Plain text");
    assert_eq!(Format::default(), Format::Markdown);
}

#[test]
fn each_format_goes_through_its_converter() {
    assert_eq!(Format::Html.converter(), Converter::Html);
    assert_eq!(Format::Text.converter(), Converter::Text);
    assert_eq!(Format::Markdown.converter(), Converter::Markdown(Dialect::Gfm));
    assert_eq!(Format::Mdc.converter(), Converter::Markdown(Dialect::Mdc));
    assert_eq!(Format::Mdx.converter(), Converter::Markdown(Dialect::Mdx));
}

#[test]
fn a_save_writes_beside_the_target_first() {
    assert_eq!(temporary_path_of(b"dir/document.md"), b"dir/document.md.pencil-tmp".to_vec());
    assert_eq!(temporary_path_of(b"dir/notes"), b"dir/notes..pencil-tmp".to_vec());
    assert_eq!(temporary_path_of(b"dir/doc.md/"), b"dir/doc.md.pencil-tmp".to_vec());
    // An extension that is not UTF-8 is left out of the temporary name.
    assert_eq!(temporary_path_of(b"a.\xff"), b"a..pencil-tmp".to_vec());
    // A path with no file name is left as it is.
    assert_eq!(temporary_path_of(b"/"), b"/".to_vec());
    assert_eq!(temporary_path_of(b"dir/.."), b"dir/..".to_vec());
}

#[test]
fn reading_decodes_utf8_and_names_the_format() {
    let (path, format, text) = match read(b"notes/a.HTML".to_vec(), "<p>hé</p>".as_bytes().to_vec()) {
        Ok(read) => read,
        Err(error) => panic!("{}", error.describe()),
    };
    assert_eq!(path, b"notes/a.HTML".to_vec());
    assert_eq!(format, Format::Html);
    assert_eq!(text, "<p>hé</p>");
}

#[test]
fn a_file_that_is_not_utf8_says_which() {
    let error = read(b"/nonesuch/document.md".to_vec(), vec![0x66, 0xff, 0x66])
        .expect_err("not UTF-8");
    match &error {
        Error::Encoding(path) => assert_eq!(path, "/nonesuch/document.md"),
        other => panic!("{other:?}"),
    }
    assert_eq!(error.describe(), "/nonesuch/document.md is not valid UTF-8");
}

#[test]
fn reading_a_file_that_is_not_there_says_which() {
    let error = Error::io(b"/nonesuch/document.md", "No such file or directory".to_owned());
    assert!(
        error.describe().contains("/nonesuch/document.md"),
        "the message should name the file: {}",
        error.describe()
    );
    assert_eq!(error.describe(), "/nonesuch/document.md: No such file or directory");
}

#[test]
fn a_path_that_is_not_utf8_is_shown_with_a_replacement() {
    let error = Error::io(b"/tmp/\xff.md", "denied".to_owned());
    assert_eq!(error.describe(), "/tmp/\u{fffd}.md: denied");
}

#[test]
fn the_title_is_the_file_name() {
    assert_eq!(title(Some(b"/home/me/notes.md")), Some("notes.md".to_owned()));
    assert_eq!(title(Some(b"/home/me/notes/")), Some("notes".to_owned()));
    assert_eq!(title(Some(b"/home/me/\xff.md")), None);
    assert_eq!(title(Some(b"/")), None);
    assert_eq!(title(None), None);
}

#[test]
fn an_extension_in_capitals_names_the_same_format() {
    for format in Format::all() {
        let upper = format!("notes.{}", format.extension().to_ascii_uppercase());
        assert_eq!(Format::of(upper.as_bytes()), format, "{upper}");
        let lower = format!("/a/notes.{}", format.extension());
        assert_eq!(Format::of(lower.as_bytes()), format, "{lower}");
    }
    assert_eq!(Format::of(b"notes.Md"), Format::Markdown);
    assert_eq!(Format::of(b"notes.hTmL"), Format::Html);
}
