//! The parts of a printed page that are words and counts: list markers, what
//! an image prints as, how many columns a table gets, which runs a block is
//! shaped from, and the compression of a page's stream.

use pencil::compress::{finished_or_raw, flate};
use pencil::print::{atom_label, column_count, marker_prefix, push_decimal, style_runs, Cell, Marker, Piece};

fn piece(text: &str, strong: bool, em: bool, code: bool) -> Piece {
    Piece { text: text.to_owned(), strong, em, code }
}

fn runs_of(marker: Option<Marker>, heading: bool, code: bool, pieces: &[Piece]) -> Vec<(String, bool, bool, bool)> {
    style_runs(marker, heading, code, pieces)
        .into_iter()
        .map(|r| (r.text, r.bold, r.italic, r.mono))
        .collect()
}

#[test]
fn a_list_marker_is_followed_by_two_spaces() {
    assert_eq!(marker_prefix(Marker::Bullet), "\u{2022}  ");
    assert_eq!(marker_prefix(Marker::Number(12)), "12.  ");
    assert_eq!(marker_prefix(Marker::Number(0)), "0.  ");
    assert_eq!(marker_prefix(Marker::Check(true)), "\u{2611}  ");
    assert_eq!(marker_prefix(Marker::Check(false)), "\u{2610}  ");
}

#[test]
fn numbers_are_written_in_decimal() {
    let mut out = String::from("No. ");
    push_decimal(&mut out, 1234);
    assert_eq!(out, "No. 1234");
    let mut max = String::new();
    push_decimal(&mut max, u64::MAX);
    assert_eq!(max, "18446744073709551615");
    let mut nine = String::new();
    push_decimal(&mut nine, 9);
    assert_eq!(nine, "9");
    let mut ten = String::new();
    push_decimal(&mut ten, 10);
    assert_eq!(ten, "10");
}

#[test]
fn an_image_prints_as_its_alt_text() {
    assert_eq!(atom_label("image", "a cat"), "[image: a cat]");
    assert_eq!(atom_label("image", ""), "[image]");
    assert_eq!(atom_label("image", " \t\n"), "[image]");
    assert_eq!(atom_label("image", "  a cat"), "[image:   a cat]");
}

#[test]
fn a_table_is_as_wide_as_its_widest_row() {
    let cells = [
        Cell { table: 0, column: 0, span: 1 },
        Cell { table: 0, column: 1, span: 2 },
        Cell { table: 1, column: 0, span: 5 },
        Cell { table: 0, column: 0, span: 1 },
    ];
    assert_eq!(column_count(&cells, 0), 3);
    assert_eq!(column_count(&cells, 1), 5);
    assert_eq!(column_count(&cells, 2), 1);
    assert_eq!(column_count(&[], 0), 1);
    assert_eq!(column_count(&[Cell { table: 0, column: 0, span: 0 }], 0), 1);
}

#[test]
fn a_block_is_shaped_from_its_marker_and_its_marked_pieces() {
    let pieces = [
        piece("plain ", false, false, false),
        piece("", true, false, false),
        piece("bold", true, false, false),
        piece(" and ", false, false, false),
        piece("code", false, true, true),
    ];
    assert_eq!(
        runs_of(Some(Marker::Number(3)), false, false, &pieces),
        vec![
            ("3.  ".to_owned(), false, false, false),
            ("plain ".to_owned(), false, false, false),
            ("bold".to_owned(), true, false, false),
            (" and ".to_owned(), false, false, false),
            ("code".to_owned(), false, true, true),
        ]
    );
}

#[test]
fn a_heading_is_bold_throughout_and_a_code_block_monospaced() {
    let pieces = [piece("Title", false, true, false)];
    assert_eq!(
        runs_of(Some(Marker::Bullet), true, false, &pieces),
        vec![("\u{2022}  ".to_owned(), true, false, false), ("Title".to_owned(), true, true, false)]
    );
    assert_eq!(runs_of(None, false, true, &pieces), vec![("Title".to_owned(), false, true, true)]);
}

#[test]
fn an_empty_block_has_no_runs() {
    assert!(runs_of(None, false, false, &[]).is_empty());
    assert!(runs_of(None, true, true, &[piece("", true, true, true)]).is_empty());
}

#[test]
fn a_page_stream_is_zlib_compressed() {
    let data = vec![b'a'; 4000];
    let compressed = flate(&data);
    assert_eq!(compressed[0], 0x78, "a zlib header");
    assert!(compressed.len() < data.len() / 10, "a run of one byte compresses");
    assert_ne!(compressed, data);
    let empty = flate(&[]);
    assert!(!empty.is_empty(), "even nothing has a header and a checksum");
}

#[test]
fn a_stream_the_encoder_could_not_finish_is_written_as_it_was() {
    let data = b"BT /F1 12 Tf ET".to_vec();
    assert_eq!(finished_or_raw(Ok(vec![0x78, 0x01, 0x03, 0x00]), &data), vec![0x78, 0x01, 0x03, 0x00]);
    assert_eq!(finished_or_raw(Err(std::io::Error::new(std::io::ErrorKind::Other, "full")), &data), data);
}
