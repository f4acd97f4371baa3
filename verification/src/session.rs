//! The decisions the window makes that are not about the document's
//! contents: what the unsaved-changes question is waiting on, what a
//! settings change does to the settings, which pane is open, what the
//! sidebar shows.
//!
//! The window runs the loop: it hands each event to [`Session::update`] and
//! carries out the [`Effects`] that come back — saving, resuming what was
//! waiting, writing the settings, rebuilding the sidebar.

use vstd::prelude::*;

use crate::config::{clamped_text_size, caret_index, clamp_text_size, CaretShape, Config};

verus! {

/// The application's unique identifier.
pub const APP_ID: &'static str = "com.magnetaros.Pencil";

/// What the sidebar is showing.
#[derive(Clone, Copy, Debug, PartialEq, Eq, Structural)]
pub enum Sidebar {
    /// The active document's headings.
    Outline,
    /// The open folder.
    Project,
}

impl Sidebar {
    /// What the header's sidebar button switches to: the other one.
    pub fn other(self) -> (s: Sidebar)
        ensures
            s != self,
    {
        match self {
            Sidebar::Outline => Sidebar::Project,
            Sidebar::Project => Sidebar::Outline,
        }
    }
}

impl Default for Sidebar {
    fn default() -> (s: Sidebar)
        ensures
            s == Sidebar::Outline,
    {
        Sidebar::Outline
    }
}

/// The panes that open in the context drawer.
#[derive(Clone, Copy, Debug, PartialEq, Eq, Structural)]
pub enum ContextPage {
    Settings,
    Shortcuts,
    Statistics,
    Recent,
    About,
}

/// The identifier of the message that titles each pane.
pub open spec fn page_title_id(page: ContextPage) -> Seq<char> {
    match page {
        ContextPage::Settings => seq!['s', 'e', 't', 't', 'i', 'n', 'g', 's'],
        ContextPage::Shortcuts => seq!['s', 'h', 'o', 'r', 't', 'c', 'u', 't', 's'],
        ContextPage::Statistics => seq!['s', 't', 'a', 't', 'i', 's', 't', 'i', 'c', 's'],
        ContextPage::Recent => seq!['r', 'e', 'c', 'e', 'n', 't'],
        ContextPage::About => seq!['a', 'b', 'o', 'u', 't'],
    }
}

impl ContextPage {
    /// The identifier of the message that titles the pane; the words come
    /// from the desktop's language.
    pub fn title(self) -> (id: &'static str)
        ensures
            id@ == page_title_id(self),
    {
        match self {
            ContextPage::Settings => {
                proof {
                    reveal_strlit("settings");
                }
                "settings"
            },
            ContextPage::Shortcuts => {
                proof {
                    reveal_strlit("shortcuts");
                }
                "shortcuts"
            },
            ContextPage::Statistics => {
                proof {
                    reveal_strlit("statistics");
                }
                "statistics"
            },
            ContextPage::Recent => {
                proof {
                    reveal_strlit("recent");
                }
                "recent"
            },
            ContextPage::About => {
                proof {
                    reveal_strlit("about");
                }
                "about"
            },
        }
    }
}

/// What is waiting on the unsaved-changes question. A tab is named by the
/// window's own handle for it.
#[derive(Clone, Debug, PartialEq, Eq)]
pub enum Pending<Tab> {
    New,
    Open,
    OpenPath(Vec<u8>),
    CloseTab(Tab),
}

/// A change to the settings, from a button, a key or the settings pane.
#[derive(Clone, Copy, Debug, PartialEq, Eq, Structural)]
pub enum Setting {
    TextSize(u16),
    ZoomIn,
    ZoomOut,
    ZoomReset,
    Caret(CaretShape),
    CaretBlinks(bool),
    CaretGlides(bool),
    Measure(u16),
    ToggleOutline,
}

/// The settings after a change. Every size, whichever way it arrives, is
/// held within bounds; zooming steps by one point, and resetting goes back to
/// the size a new window opens with.
pub open spec fn configured(c: Config, s: Setting) -> Config {
    match s {
        Setting::TextSize(size) => Config { text_size: clamped_text_size(size), ..c },
        Setting::ZoomIn => Config {
            text_size: clamped_text_size(
                if c.text_size == u16::MAX {
                    u16::MAX
                } else {
                    (c.text_size + 1) as u16
                },
            ),
            ..c
        },
        Setting::ZoomOut => Config {
            text_size: clamped_text_size(
                if c.text_size == 0 {
                    0
                } else {
                    (c.text_size - 1) as u16
                },
            ),
            ..c
        },
        Setting::ZoomReset => Config { text_size: clamped_text_size(15), ..c },
        Setting::Caret(shape) => Config { caret: caret_index(shape), ..c },
        Setting::CaretBlinks(on) => Config { caret_blinks: on, ..c },
        Setting::CaretGlides(on) => Config { caret_glides: on, ..c },
        Setting::Measure(m) => Config { measure: m, ..c },
        Setting::ToggleOutline => Config { outline: !c.outline, ..c },
    }
}

impl Config {
    /// Applies a change to the settings.
    pub fn apply(&mut self, setting: Setting)
        ensures
            *final(self) == configured(*old(self), setting),
    {
        match setting {
            Setting::TextSize(size) => {
                self.text_size = clamp_text_size(size);
            },
            Setting::ZoomIn => {
                self.text_size = clamp_text_size(self.text_size.saturating_add(1));
            },
            Setting::ZoomOut => {
                self.text_size = clamp_text_size(self.text_size.saturating_sub(1));
            },
            Setting::ZoomReset => {
                self.text_size = clamp_text_size(15);
            },
            Setting::Caret(shape) => {
                self.caret = shape.into();
            },
            Setting::CaretBlinks(on) => {
                self.caret_blinks = on;
            },
            Setting::CaretGlides(on) => {
                self.caret_glides = on;
            },
            Setting::Measure(measure) => {
                self.measure = measure;
            },
            Setting::ToggleOutline => {
                self.outline = !self.outline;
            },
        }
    }
}

/// What the window is to do after an event, besides what the session now
/// holds.
#[derive(Debug)]
pub struct Effects<Tab> {
    /// Save the active document, asking for a name if it has none.
    pub save: bool,
    /// The active document's unsaved changes have been let go of.
    pub mark_clean: bool,
    /// Carry on with what the unsaved-changes question was holding back.
    pub resume: Option<Pending<Tab>>,
    /// Persist the settings.
    pub write_config: bool,
    /// Rebuild the sidebar.
    pub rebuild_nav: bool,
}

/// What happened, as far as the session is concerned.
#[derive(Debug)]
pub enum Event<Tab> {
    /// Something that would discard unsaved work was asked for.
    Confirm(Pending<Tab>),
    /// Save first, then do it.
    ConfirmSave,
    /// Do it anyway.
    ConfirmDiscard,
    /// Do nothing after all.
    ConfirmCancel,
    /// A save finished.
    Saved,
    /// Something failed; the message to show.
    Failed(String),
    DismissError,
    Setting(Setting),
    /// The settings changed elsewhere.
    ConfigChanged(Config),
    OpenContext(ContextPage),
    CloseContext,
    /// A folder was opened into the sidebar.
    FolderOpened,
    CloseFolder,
    ShowSidebar(Sidebar),
}

/// The window's state, apart from its documents and its folder.
#[derive(Debug)]
pub struct Session<Tab> {
    pub config: Config,
    pub sidebar: Sidebar,
    pub context: Option<ContextPage>,
    /// The message in the error bar.
    pub error: Option<String>,
    /// What the unsaved-changes dialog is asking about.
    pub pending: Option<Pending<Tab>>,
    /// What to carry on with once a save the user asked for completes.
    pub after_save: Option<Pending<Tab>>,
}

/// Effects that do nothing.
pub open spec fn no_effects<Tab>() -> Effects<Tab> {
    Effects { save: false, mark_clean: false, resume: None, write_config: false, rebuild_nav: false }
}

/// What an event does to the session, and what it asks of the window.
pub open spec fn step<Tab>(s: Session<Tab>, e: Event<Tab>) -> (Session<Tab>, Effects<Tab>) {
    match e {
        Event::Confirm(p) => (Session { pending: Some(p), ..s }, no_effects()),
        Event::ConfirmCancel => (Session { pending: None, ..s }, no_effects()),
        Event::ConfirmSave => (
            Session { pending: None, after_save: s.pending, ..s },
            Effects { save: true, ..no_effects() },
        ),
        Event::ConfirmDiscard => match s.pending {
            Some(p) => (
                Session { pending: None, ..s },
                Effects { mark_clean: true, resume: Some(p), ..no_effects() },
            ),
            None => (s, no_effects()),
        },
        Event::Saved => (
            Session { error: None, after_save: None, ..s },
            Effects { resume: s.after_save, rebuild_nav: true, ..no_effects() },
        ),
        Event::Failed(message) => (Session { error: Some(message), ..s }, no_effects()),
        Event::DismissError => (Session { error: None, ..s }, no_effects()),
        Event::Setting(setting) => (
            Session { config: configured(s.config, setting), ..s },
            Effects { write_config: true, ..no_effects() },
        ),
        Event::ConfigChanged(c) => (Session { config: c, ..s }, no_effects()),
        Event::OpenContext(page) => (Session { context: Some(page), ..s }, no_effects()),
        Event::CloseContext => (Session { context: None, ..s }, no_effects()),
        Event::FolderOpened => (
            Session {
                sidebar: Sidebar::Project,
                config: Config { outline: true, ..s.config },
                ..s
            },
            Effects { write_config: true, rebuild_nav: true, ..no_effects() },
        ),
        Event::CloseFolder => (
            Session { sidebar: Sidebar::Outline, ..s },
            Effects { rebuild_nav: true, ..no_effects() },
        ),
        Event::ShowSidebar(which) => (
            Session { sidebar: which, ..s },
            Effects { rebuild_nav: true, ..no_effects() },
        ),
    }
}

impl<Tab> Session<Tab> {
    /// A new window's session: its settings, the outline showing, nothing
    /// asked and nothing wrong.
    pub fn new(config: Config) -> (s: Session<Tab>)
        ensures
            s.config == config,
            s.sidebar == Sidebar::Outline,
            s.context is None,
            s.error is None,
            s.pending is None,
            s.after_save is None,
    {
        Session {
            config,
            sidebar: Sidebar::Outline,
            context: None,
            error: None,
            pending: None,
            after_save: None,
        }
    }

    fn nothing() -> (e: Effects<Tab>)
        ensures
            e == no_effects::<Tab>(),
    {
        Effects { save: false, mark_clean: false, resume: None, write_config: false, rebuild_nav: false }
    }

    /// Handles an event: the session changes as [`step`] says, and the
    /// effects that come back are the window's to carry out.
    pub fn update(&mut self, event: Event<Tab>) -> (effects: Effects<Tab>)
        ensures
            (*final(self), effects) == step(*old(self), event),
    {
        match event {
            Event::Confirm(p) => {
                self.pending = Some(p);
                Self::nothing()
            },
            Event::ConfirmCancel => {
                self.pending = None;
                Self::nothing()
            },
            Event::ConfirmSave => {
                let pending = self.pending.take();
                self.after_save = pending;
                let mut e = Self::nothing();
                e.save = true;
                e
            },
            Event::ConfirmDiscard => {
                match self.pending.take() {
                    Some(p) => {
                        let mut e = Self::nothing();
                        e.mark_clean = true;
                        e.resume = Some(p);
                        e
                    },
                    None => Self::nothing(),
                }
            },
            Event::Saved => {
                self.error = None;
                let mut e = Self::nothing();
                e.resume = self.after_save.take();
                e.rebuild_nav = true;
                e
            },
            Event::Failed(message) => {
                self.error = Some(message);
                Self::nothing()
            },
            Event::DismissError => {
                self.error = None;
                Self::nothing()
            },
            Event::Setting(setting) => {
                self.config.apply(setting);
                let mut e = Self::nothing();
                e.write_config = true;
                e
            },
            Event::ConfigChanged(c) => {
                self.config = c;
                Self::nothing()
            },
            Event::OpenContext(page) => {
                self.context = Some(page);
                Self::nothing()
            },
            Event::CloseContext => {
                self.context = None;
                Self::nothing()
            },
            Event::FolderOpened => {
                self.sidebar = Sidebar::Project;
                self.config.outline = true;
                let mut e = Self::nothing();
                e.write_config = true;
                e.rebuild_nav = true;
                e
            },
            Event::CloseFolder => {
                self.sidebar = Sidebar::Outline;
                let mut e = Self::nothing();
                e.rebuild_nav = true;
                e
            },
            Event::ShowSidebar(which) => {
                self.sidebar = which;
                let mut e = Self::nothing();
                e.rebuild_nav = true;
                e
            },
        }
    }
}

} // verus!

verus! {

/// Nothing that would lose work happens without asking: unsaved changes are
/// only let go of when the user answered "discard" to a question that was
/// asked, and what carries on afterwards is only ever what the question, or
/// a save the user chose, was holding back.
pub proof fn law_no_work_lost_unasked<Tab>(s: Session<Tab>, e: Event<Tab>)
    ensures
        ({
            let (next, fx) = step(s, e);
            &&& fx.mark_clean ==> (e is ConfirmDiscard && s.pending is Some && fx.resume == s.pending)
            &&& fx.resume is Some ==> ((e is ConfirmDiscard && fx.resume == s.pending) || (
            e is Saved && fx.resume == s.after_save))
        }),
{
}

/// A save that something was waiting on carries on with it: answering
/// "save" and then finishing the save resumes exactly what was asked about,
/// and leaves nothing waiting.
pub proof fn law_save_then_resume<Tab>(s: Session<Tab>)
    ensures
        ({
            let (asked, fx1) = step(s, Event::ConfirmSave);
            let (saved, fx2) = step(asked, Event::Saved);
            &&& fx1.save
            &&& fx2.resume == s.pending
            &&& saved.pending is None
            &&& saved.after_save is None
        }),
{
}

/// Cancelling the question does nothing and leaves nothing waiting on it.
pub proof fn law_cancel_does_nothing<Tab>(s: Session<Tab>)
    ensures
        ({
            let (next, fx) = step(s, Event::ConfirmCancel);
            &&& next.pending is None
            &&& next.after_save == s.after_save
            &&& next.config == s.config
            &&& fx == no_effects::<Tab>()
        }),
{
}

/// However the text size is changed, it ends up between the smallest size
/// that is still text and the largest that is still a document; every other
/// setting leaves it alone.
pub proof fn law_text_size_bounded(c: Config, setting: Setting)
    ensures
        ({
            let after = configured(c, setting);
            match setting {
                Setting::TextSize(_) | Setting::ZoomIn | Setting::ZoomOut | Setting::ZoomReset => {
                    crate::config::MINIMUM_TEXT_SIZE <= after.text_size
                        <= crate::config::MAXIMUM_TEXT_SIZE
                },
                _ => after.text_size == c.text_size,
            }
        }),
{
}

/// Zooming in and back out returns to the size it started at, anywhere below
/// the largest size; zooming out and back in does, anywhere above the
/// smallest.
pub proof fn law_zoom_round_trip(c: Config)
    ensures
        crate::config::MINIMUM_TEXT_SIZE <= c.text_size < crate::config::MAXIMUM_TEXT_SIZE
            ==> configured(configured(c, Setting::ZoomIn), Setting::ZoomOut).text_size == c.text_size,
        crate::config::MINIMUM_TEXT_SIZE < c.text_size <= crate::config::MAXIMUM_TEXT_SIZE
            ==> configured(configured(c, Setting::ZoomOut), Setting::ZoomIn).text_size == c.text_size,
{
}

} // verus!

verus! {

/// The application's own keys: zoom and the file shortcuts. None of them is
/// an edit, so the editor's keymap never sees them.
#[derive(Clone, Copy, Debug, PartialEq, Eq, Structural)]
pub enum Shortcut {
    ZoomIn,
    ZoomOut,
    ZoomReset,
    SaveAs,
    Save,
    Open,
    New,
    Find,
}

/// What a key pressed with the command modifier does, if anything: the
/// modifier is required, and Shift only tells Save As from Save.
pub open spec fn shortcut_of(command: bool, shift: bool, key: Option<char>) -> Option<Shortcut> {
    if !command {
        None
    } else {
        match key {
            Some('=') | Some('+') => Some(Shortcut::ZoomIn),
            Some('-') => Some(Shortcut::ZoomOut),
            Some('0') => Some(Shortcut::ZoomReset),
            Some('s') => if shift {
                Some(Shortcut::SaveAs)
            } else {
                Some(Shortcut::Save)
            },
            Some('o') => Some(Shortcut::Open),
            Some('n') => Some(Shortcut::New),
            Some('f') => Some(Shortcut::Find),
            _ => None,
        }
    }
}

/// The application shortcut for a key press: whether the command modifier
/// and Shift were held, and the character the key typed, if it typed one.
pub fn shortcut(command: bool, shift: bool, key: Option<char>) -> (s: Option<Shortcut>)
    ensures
        s == shortcut_of(command, shift, key),
{
    if !command {
        return None;
    }
    match key {
        Some('=') | Some('+') => Some(Shortcut::ZoomIn),
        Some('-') => Some(Shortcut::ZoomOut),
        Some('0') => Some(Shortcut::ZoomReset),
        Some('s') => if shift {
            Some(Shortcut::SaveAs)
        } else {
            Some(Shortcut::Save)
        },
        Some('o') => Some(Shortcut::Open),
        Some('n') => Some(Shortcut::New),
        Some('f') => Some(Shortcut::Find),
        _ => None,
    }
}

} // verus!
