//! What the window's furniture says: the status bar's format, Save As's
//! suggestion and filters, the outline's rows, the find bar's count, what
//! closing a tab does and which tab comes next, and how a shortcut is spelled.

use pencil::chrome::{
    can_replace, close_action, confirmed_close, describe_binding, dirty_label, join_binding, match_count, neighbour, outline_row, suggest_name, Binding,
    CloseAction, Key, MatchCount, Matching,
};
use pencil::document::Format;

fn binding(primary: bool, alt: bool, shift: bool, key: Key) -> Binding {
    Binding { primary, alt, shift, key }
}

#[test]
fn the_status_bar_marks_a_format_that_loses_something() {
    assert_eq!(Format::Html.status_label(), "HTML");
    assert_eq!(Format::Markdown.status_label(), "Markdown \u{2022}");
    assert_eq!(Format::Text.status_label(), "Plain text \u{2022}");
    assert_eq!(Format::Mdx.status_label(), "MDX \u{2022}");
}

#[test]
fn a_save_filter_names_the_format_and_its_extension() {
    assert_eq!(Format::Html.filter_label(), "HTML (*.html)");
    assert_eq!(Format::Markdown.filter_label(), "Markdown (*.md)");
    assert_eq!(Format::Text.filter_label(), "Plain text (*.txt)");
}

#[test]
fn save_as_suggests_the_name_with_the_new_extension() {
    assert_eq!(suggest_name(Some(b"/notes/draft.md"), Format::Html), b"draft.html");
    assert_eq!(suggest_name(Some(b"/notes/draft.tar.md"), Format::Text), b"draft.tar.txt");
    assert_eq!(suggest_name(Some(b"/notes/README"), Format::Markdown), b"README.md");
    assert_eq!(suggest_name(None, Format::Markdown), b"document.md");
    assert_eq!(suggest_name(Some(b"/"), Format::Mdx), b"document.mdx");
    assert_eq!(suggest_name(Some(b"/notes/\xff.md"), Format::Markdown), b"document.md");
    for format in Format::all() {
        let name = suggest_name(Some(b"/a/b.txt"), format);
        assert_eq!(Format::of(&name), format, "the suggestion reopens as what it was saved as");
    }
}

#[test]
fn an_outline_row_is_indented_by_its_level() {
    assert_eq!(outline_row(1, "Intro", "Untitled"), "Intro");
    assert_eq!(outline_row(3, "Detail", "Untitled"), "        Detail");
    assert_eq!(outline_row(0, "Zero", "Untitled"), "Zero");
    assert_eq!(outline_row(-4, "Less", "Untitled"), "Less");
    assert_eq!(outline_row(2, "  \t", "Untitled"), "    Untitled");
    assert_eq!(outline_row(2, "", "Sans titre"), "    Sans titre");
}

#[test]
fn matching_cycles_through_its_modes() {
    assert_eq!(Matching::Loose.next(), Matching::CaseSensitive);
    assert_eq!(Matching::CaseSensitive.next(), Matching::WholeWord);
    assert_eq!(Matching::WholeWord.next(), Matching::Regex);
    assert_eq!(Matching::Regex.next(), Matching::Loose);
}

#[test]
fn the_find_bar_counts_from_one() {
    assert_eq!(match_count(true, 5, Some(2)), MatchCount::Nothing);
    assert_eq!(match_count(false, 0, None), MatchCount::NoMatches);
    assert_eq!(match_count(false, 5, Some(0)), MatchCount::At(1, 5));
    assert_eq!(match_count(false, 5, Some(4)), MatchCount::At(5, 5));
    assert_eq!(match_count(false, 5, None), MatchCount::At(0, 5));
}

#[test]
fn closing_a_dirty_tab_asks_first() {
    assert_eq!(close_action(3, true), CloseAction::Ask);
    assert_eq!(close_action(3, false), CloseAction::Close);
    assert_eq!(close_action(1, false), CloseAction::Empty);
    assert_eq!(close_action(1, true), CloseAction::Ask, "the last tab asks too");
    assert_eq!(close_action(0, false), CloseAction::Empty);
}

#[test]
fn a_confirmed_close_of_the_last_tab_empties_it() {
    assert_eq!(confirmed_close(1), CloseAction::Empty);
    assert_eq!(confirmed_close(2), CloseAction::Close);
    assert_eq!(confirmed_close(0), CloseAction::Empty);
}

#[test]
fn the_tab_to_the_left_takes_over() {
    assert_eq!(neighbour(Some(2), 3), Some(1));
    assert_eq!(neighbour(Some(0), 3), Some(0));
    assert_eq!(neighbour(Some(5), 2), Some(0));
    assert_eq!(neighbour(None, 2), Some(0));
    assert_eq!(neighbour(Some(0), 0), None);
    assert_eq!(neighbour(None, 0), None);
}

#[test]
fn a_shortcut_is_spelled_with_its_modifiers_first() {
    assert_eq!(describe_binding(&binding(true, false, true, Key::Char('z'))), "Ctrl+Shift+Z");
    assert_eq!(describe_binding(&binding(true, true, true, Key::Char('s'))), "Ctrl+Alt+Shift+S");
    assert_eq!(describe_binding(&binding(false, false, false, Key::PageUp)), "Page Up");
    assert_eq!(describe_binding(&binding(false, true, false, Key::ArrowLeft)), "Alt+Left");
    assert_eq!(describe_binding(&binding(true, false, false, Key::Named("F5".to_owned()))), "Ctrl+F5");
    assert_eq!(describe_binding(&binding(false, false, false, Key::Escape)), "Escape");
    assert_eq!(join_binding(true, false, false, "Enter"), "Ctrl+Enter");
}

#[test]
fn a_letter_key_is_shown_in_capitals_by_unicode_case_mapping() {
    assert_eq!(describe_binding(&binding(false, false, false, Key::Char('\u{df}'))), "SS");
    assert_eq!(describe_binding(&binding(true, false, false, Key::Char('1'))), "Ctrl+1");
    assert_eq!(describe_binding(&binding(false, false, false, Key::Char('\u{e9}'))), "\u{c9}");
}

#[test]
fn an_unsaved_document_is_marked_with_a_bullet() {
    assert_eq!(dirty_label("notes.md", true), "\u{2022} notes.md");
    assert_eq!(dirty_label("notes.md", false), "notes.md");
    assert_eq!(dirty_label("", true), "\u{2022} ");
}

#[test]
fn an_untouched_blank_tab_is_taken_over_by_the_next_file_opened() {
    assert!(can_replace(false, false, ""));
    assert!(can_replace(false, false, " \n\t\u{3000}"));
    assert!(!can_replace(false, false, "  a"));
    assert!(!can_replace(true, false, ""));
    assert!(!can_replace(false, true, ""));
}
