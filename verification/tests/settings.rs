//! Settings and the window's session: what a change to a setting does, what
//! the unsaved-changes question holds back, and what each answer does.

use pencil::config::{clamp_text_size, CaretShape, Config, MAXIMUM_TEXT_SIZE, MINIMUM_TEXT_SIZE};
use pencil::session::{shortcut, ContextPage, Event, Pending, Session, Setting, Shortcut, Sidebar, APP_ID};

type Tab = u32;

fn session() -> Session<Tab> {
    Session::new(Config::default())
}

#[test]
fn a_new_window_opens_with_the_default_settings() {
    let c = Config::default();
    assert_eq!(c.text_size, 15);
    assert_eq!(c.caret, 0);
    assert!(c.caret_blinks);
    assert!(c.caret_glides);
    assert!(c.outline);
    assert_eq!(c.measure, 78);
    assert!(c.has_measure());
    assert_eq!(c.caret_shape(), CaretShape::Line);
    let s = session();
    assert_eq!(s.sidebar, Sidebar::Outline);
    assert!(s.context.is_none() && s.error.is_none() && s.pending.is_none() && s.after_save.is_none());
    assert_eq!(APP_ID, "com.magnetaros.Pencil");
}

#[test]
fn a_caret_shape_is_stored_as_its_index() {
    for (i, shape) in CaretShape::all().into_iter().enumerate() {
        let index = u16::try_from(i).unwrap();
        assert_eq!(u16::from(shape), index);
        assert_eq!(CaretShape::from(index), shape);
    }
    assert_eq!(CaretShape::from(4), CaretShape::Line);
    assert_eq!(CaretShape::from(u16::MAX), CaretShape::Line);
    assert_eq!(CaretShape::default(), CaretShape::Line);
}

#[test]
fn each_caret_shape_is_named_by_a_message() {
    let ids: Vec<String> = CaretShape::all().into_iter().map(CaretShape::label).collect();
    assert_eq!(ids, ["caret-line", "caret-bar", "caret-block", "caret-underline"]);
}

#[test]
fn the_text_size_is_held_within_bounds() {
    assert_eq!(clamp_text_size(0), MINIMUM_TEXT_SIZE);
    assert_eq!(clamp_text_size(9), 9);
    assert_eq!(clamp_text_size(20), 20);
    assert_eq!(clamp_text_size(32), 32);
    assert_eq!(clamp_text_size(100), MAXIMUM_TEXT_SIZE);
    let c = Config { text_size: 3, ..Config::default() };
    assert_eq!(c.text_size(), 9);
    let c = Config { text_size: 300, measure: 0, ..Config::default() };
    assert_eq!(c.text_size(), 32);
    assert!(!c.has_measure());
}

#[test]
fn zooming_steps_by_a_point_and_stops_at_the_ends() {
    let mut c = Config::default();
    c.apply(Setting::ZoomIn);
    assert_eq!(c.text_size, 16);
    c.apply(Setting::ZoomOut);
    assert_eq!(c.text_size, 15);
    c.apply(Setting::TextSize(32));
    c.apply(Setting::ZoomIn);
    assert_eq!(c.text_size, 32);
    c.apply(Setting::TextSize(2));
    assert_eq!(c.text_size, 9);
    c.apply(Setting::ZoomOut);
    assert_eq!(c.text_size, 9);
    c.apply(Setting::ZoomReset);
    assert_eq!(c.text_size, 15);
}

#[test]
fn the_other_settings_change_only_themselves() {
    let mut c = Config::default();
    c.apply(Setting::Caret(CaretShape::Block));
    assert_eq!(c.caret, 2);
    assert_eq!(c.caret_shape(), CaretShape::Block);
    c.apply(Setting::CaretBlinks(false));
    assert!(!c.caret_blinks);
    c.apply(Setting::CaretGlides(false));
    assert!(!c.caret_glides);
    c.apply(Setting::Measure(0));
    assert_eq!(c.measure, 0);
    c.apply(Setting::ToggleOutline);
    assert!(!c.outline);
    assert_eq!(c.text_size, 15);
}

#[test]
fn discarding_resumes_what_was_asked_about() {
    let mut s = session();
    let fx = s.update(Event::Confirm(Pending::CloseTab(7)));
    assert!(!fx.save && !fx.mark_clean && fx.resume.is_none());
    assert_eq!(s.pending, Some(Pending::CloseTab(7)));
    let fx = s.update(Event::ConfirmDiscard);
    assert!(fx.mark_clean);
    assert_eq!(fx.resume, Some(Pending::CloseTab(7)));
    assert!(s.pending.is_none());
}

#[test]
fn discarding_with_nothing_asked_does_nothing() {
    let mut s = session();
    let fx = s.update(Event::ConfirmDiscard);
    assert!(!fx.mark_clean && fx.resume.is_none() && !fx.save);
}

#[test]
fn saving_first_resumes_once_the_save_is_done() {
    let mut s = session();
    s.update(Event::Confirm(Pending::OpenPath(b"/a/b.md".to_vec())));
    let fx = s.update(Event::ConfirmSave);
    assert!(fx.save);
    assert!(fx.resume.is_none(), "nothing carries on before the save finishes");
    assert!(s.pending.is_none());
    assert_eq!(s.after_save, Some(Pending::OpenPath(b"/a/b.md".to_vec())));
    s.update(Event::Failed("disk full".to_owned()));
    assert_eq!(s.error.as_deref(), Some("disk full"));
    let fx = s.update(Event::Saved);
    assert_eq!(fx.resume, Some(Pending::OpenPath(b"/a/b.md".to_vec())));
    assert!(fx.rebuild_nav);
    assert!(s.after_save.is_none() && s.error.is_none());
}

#[test]
fn cancelling_forgets_the_question() {
    let mut s = session();
    s.update(Event::Confirm(Pending::New));
    let fx = s.update(Event::ConfirmCancel);
    assert!(s.pending.is_none());
    assert!(!fx.save && !fx.mark_clean && fx.resume.is_none() && !fx.write_config && !fx.rebuild_nav);
}

#[test]
fn a_setting_is_applied_and_written() {
    let mut s = session();
    let fx = s.update(Event::Setting(Setting::ZoomIn));
    assert_eq!(s.config.text_size, 16);
    assert!(fx.write_config);
    let other = Config { measure: 60, ..Config::default() };
    let fx = s.update(Event::ConfigChanged(other));
    assert_eq!(s.config, other);
    assert!(!fx.write_config);
}

#[test]
fn opening_a_folder_shows_the_project() {
    let mut s = session();
    s.config.outline = false;
    let fx = s.update(Event::FolderOpened);
    assert_eq!(s.sidebar, Sidebar::Project);
    assert!(s.config.outline);
    assert!(fx.write_config && fx.rebuild_nav);
    let fx = s.update(Event::CloseFolder);
    assert_eq!(s.sidebar, Sidebar::Outline);
    assert!(fx.rebuild_nav);
    s.update(Event::ShowSidebar(Sidebar::Project));
    assert_eq!(s.sidebar, Sidebar::Project);
    assert_eq!(Sidebar::Project.other(), Sidebar::Outline);
    assert_eq!(Sidebar::Outline.other(), Sidebar::Project);
    assert_eq!(Sidebar::default(), Sidebar::Outline);
}

#[test]
fn the_context_pane_opens_and_closes() {
    let mut s = session();
    s.update(Event::OpenContext(ContextPage::About));
    assert_eq!(s.context, Some(ContextPage::About));
    s.update(Event::CloseContext);
    assert!(s.context.is_none());
    s.update(Event::Failed("x".to_owned()));
    s.update(Event::DismissError);
    assert!(s.error.is_none());
}

#[test]
fn each_pane_is_titled_by_a_message() {
    assert_eq!(ContextPage::Settings.title(), "settings");
    assert_eq!(ContextPage::Shortcuts.title(), "shortcuts");
    assert_eq!(ContextPage::Statistics.title(), "statistics");
    assert_eq!(ContextPage::Recent.title(), "recent");
    assert_eq!(ContextPage::About.title(), "about");
}

#[test]
fn the_application_keys_need_the_command_modifier() {
    assert_eq!(shortcut(true, false, Some('=')), Some(Shortcut::ZoomIn));
    assert_eq!(shortcut(true, false, Some('+')), Some(Shortcut::ZoomIn));
    assert_eq!(shortcut(true, false, Some('-')), Some(Shortcut::ZoomOut));
    assert_eq!(shortcut(true, false, Some('0')), Some(Shortcut::ZoomReset));
    assert_eq!(shortcut(true, true, Some('s')), Some(Shortcut::SaveAs));
    assert_eq!(shortcut(true, false, Some('s')), Some(Shortcut::Save));
    assert_eq!(shortcut(true, false, Some('o')), Some(Shortcut::Open));
    assert_eq!(shortcut(true, false, Some('n')), Some(Shortcut::New));
    assert_eq!(shortcut(true, false, Some('f')), Some(Shortcut::Find));
    assert_eq!(shortcut(false, false, Some('s')), None);
    assert_eq!(shortcut(true, false, Some('x')), None);
    assert_eq!(shortcut(true, false, None), None);
}
