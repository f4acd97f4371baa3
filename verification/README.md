# Pencil

A rich text editor for the COSMIC desktop, written as a verified library and
a thin window around it.

- `src/` is the library, verified with Verus. It holds the rules the editor
  follows: which format a file name means and where a save writes first
  (`document`), the project tree and what git's status output says about it
  (`project`), the settings and their bounds (`config`), the window's
  decisions about unsaved work, panes and the sidebar (`session`), what the
  status bar, Save As, the outline, the find bar and the shortcut list say
  (`chrome`), and the words and counts a printed page is made of (`print`,
  `compress`). Byte paths (`paths`), byte order (`order`) and UTF-8
  (`text`) support them.
- `app/` is the window: COSMIC widgets, the editing engine, file and
  process I/O, and the page layout and PDF writing, which are measured in
  floating point.
- `tests/` runs the library on concrete values.
