//! The project tree: what it shows, what it hides, and what it says about git.
//!
//! A folder's listing is handed over as the filesystem gives it, in no
//! particular order, and what `git status --porcelain -z` printed as bytes.

use pencil::project::{git_output_readable, git_status, DirItem, Entry, Project, Status};

const ROOT: &[u8] = b"/work/book";

fn file(name: &str) -> DirItem {
    DirItem { name: name.as_bytes().to_vec(), is_dir: false }
}

fn dir(name: &str) -> DirItem {
    DirItem { name: name.as_bytes().to_vec(), is_dir: true }
}

fn names(project: &Project) -> Vec<String> {
    project.entries().iter().map(Entry::name).collect()
}

#[test]
fn a_project_lists_folders_before_files_each_in_name_order() {
    let listing = [file("zebra.md"), file("apple.md"), dir("notes"), dir("archive")];
    let project = Project::open(ROOT.to_vec(), None, &listing);
    assert_eq!(names(&project), ["archive", "notes", "apple.md", "zebra.md"]);
}

#[test]
fn only_what_pencil_can_open_is_listed() {
    let listing = [
        file("notes.md"),
        file("page.html"),
        file("plain.txt"),
        file("photo.png"),
        file("program.rs"),
    ];
    let project = Project::open(ROOT.to_vec(), None, &listing);
    assert_eq!(
        names(&project),
        ["notes.md", "page.html", "plain.txt"],
        "offering to open a binary is offering to mangle it"
    );
}

#[test]
fn hidden_and_noisy_folders_are_skipped() {
    let listing = [dir(".git"), dir("target"), dir("node_modules"), dir("chapters"), file(".hidden.md")];
    let project = Project::open(ROOT.to_vec(), None, &listing);
    assert_eq!(names(&project), ["chapters"]);
}

#[test]
fn expanding_a_folder_splices_its_children_in_and_collapsing_removes_them() {
    let listing = [dir("chapters"), file("index.md")];
    let mut project = Project::open(ROOT.to_vec(), None, &listing);
    assert_eq!(project.entries().len(), 2, "the folder and the file");

    project.toggle(0, &[file("two.md"), file("one.md")]);
    assert_eq!(names(&project), ["chapters", "one.md", "two.md", "index.md"]);
    assert_eq!(project.entries()[1].depth, 1, "children are one level in");
    assert_eq!(project.entries()[1].path, b"/work/book/chapters/one.md".to_vec());
    assert!(project.entries()[0].expanded);

    project.toggle(0, &[]);
    assert_eq!(project.entries().len(), 2, "and back again");
    assert!(!project.entries()[0].expanded);
}

#[test]
fn toggling_a_file_or_past_the_end_changes_nothing() {
    let listing = [dir("chapters"), file("index.md")];
    let mut project = Project::open(ROOT.to_vec(), None, &listing);
    project.toggle(1, &[file("stray.md")]);
    project.toggle(7, &[file("stray.md")]);
    assert_eq!(names(&project), ["chapters", "index.md"]);
}

#[test]
fn collapsing_a_folder_removes_everything_below_it() {
    let mut project = Project::open(ROOT.to_vec(), None, &[dir("a"), file("z.md")]);
    project.toggle(0, &[dir("b"), file("x.md")]);
    project.toggle(1, &[file("deep.md")]);
    assert_eq!(names(&project), ["a", "b", "deep.md", "x.md", "z.md"]);
    assert_eq!(project.entries()[2].depth, 2);
    project.toggle(0, &[]);
    assert_eq!(names(&project), ["a", "z.md"]);
}

#[test]
fn a_folder_that_is_not_a_repository_has_nothing_to_say_about_git() {
    let project = Project::open(ROOT.to_vec(), None, &[file("notes.md")]);
    assert!(project.entries().iter().all(|e| e.status.is_none()));
}

#[test]
fn a_new_file_in_a_repository_is_untracked_and_marks_its_folder() {
    // What `git status --porcelain -z` prints for an untracked folder.
    let git = b"?? chapters/\0";
    let mut project = Project::open(ROOT.to_vec(), Some((ROOT, &git[..])), &[dir("chapters")]);
    project.toggle(0, &[file("one.md")]);

    let folder = project.entries().iter().find(|e| e.name() == "chapters").expect("the folder");
    let file = project.entries().iter().find(|e| e.name() == "one.md").expect("the file");

    assert_eq!(file.status, Some(Status::Untracked));
    assert!(
        folder.status.is_some(),
        "a change anywhere marks every folder above it, so a collapsed tree still says where to look"
    );
}

#[test]
fn a_change_marks_every_folder_above_it() {
    let git = b" M part/one/draft.md\0M  index.md\0";
    let statuses = git_status(ROOT, ROOT, git);
    assert_eq!(statuses.get(b"/work/book/part/one/draft.md"), Some(Status::Modified));
    assert_eq!(statuses.get(b"/work/book/part/one"), Some(Status::Modified));
    assert_eq!(statuses.get(b"/work/book/part"), Some(Status::Modified));
    assert_eq!(statuses.get(b"/work/book/index.md"), Some(Status::Staged));
    assert_eq!(statuses.get(b"/work/book"), None);
    assert_eq!(statuses.lookup(b"/work/book/other.md"), None);
}

#[test]
fn a_record_names_its_path_after_the_two_letters() {
    // Whitespace after the letters is not part of the path; a record too
    // short for letters and a path says nothing.
    let statuses = git_status(b"/r", b"/r", "??\u{3000}x\0A \0".as_bytes());
    assert_eq!(statuses.get(b"/r/x"), Some(Status::Untracked));
    assert_eq!(statuses.get(b"/r/"), None);
}

#[test]
fn refreshing_reads_git_again_and_keeps_the_shape() {
    let mut project = Project::open(ROOT.to_vec(), None, &[dir("a"), file("b.md")]);
    project.toggle(0, &[file("c.md")]);
    project.refresh_status(Some((ROOT, &b" M a/c.md\0"[..])));
    let statuses: Vec<Option<Status>> = project.entries().iter().map(|e| e.status).collect();
    assert_eq!(statuses, [Some(Status::Modified), Some(Status::Modified), None]);
    assert_eq!(names(&project), ["a", "c.md", "b.md"]);
    assert_eq!(project.root(), ROOT);
}

#[test]
fn each_status_has_a_marker_and_clean_has_none() {
    assert!(!Status::Modified.marker().is_empty());
    assert!(!Status::Staged.marker().is_empty());
    assert!(!Status::Untracked.marker().is_empty());
    assert!(Status::Clean.marker().is_empty());
}

#[test]
fn a_row_is_labelled_with_its_depth_arrow_name_and_marker() {
    let mut project = Project::open(ROOT.to_vec(), Some((ROOT, &b" M a/c.md\0"[..])), &[dir("a")]);
    assert_eq!(project.entries()[0].label(), "\u{25b8} a  \u{25cf}");
    project.toggle(0, &[file("c.md")]);
    assert_eq!(project.entries()[0].label(), "\u{25be} a  \u{25cf}");
    assert_eq!(project.entries()[1].label(), "  c.md  \u{25cf}");
}

#[test]
fn a_name_that_is_not_utf8_shows_as_a_question_mark_and_sorts_so() {
    let listing = [
        DirItem { name: b"\xff.md".to_vec(), is_dir: false },
        file("a.md"),
        file("z.md"),
    ];
    let project = Project::open(ROOT.to_vec(), None, &listing);
    assert_eq!(names(&project), ["?", "a.md", "z.md"]);
}

#[test]
fn output_whose_records_cannot_be_cut_after_two_letters_is_not_read() {
    assert!(git_output_readable(b" M a.md\0?? b.md\0A  c.md\0"));
    assert!(git_output_readable(b""));
    assert!(git_output_readable(b"\xff\xfe x\0"), "bytes that are not text are skipped, not cut");
    assert!(git_output_readable("?? \u{e9}t\u{e9}.md\0".as_bytes()));
    assert!(!git_output_readable("a\u{e9} x\0".as_bytes()), "the cut would fall inside a character");
}

#[test]
fn names_that_tie_keep_the_order_they_were_listed_in() {
    let paths = |listing: &[DirItem]| -> Vec<Vec<u8>> {
        Project::open(ROOT.to_vec(), None, listing).entries().iter().map(|e| e.path.clone()).collect()
    };
    let one = [
        DirItem { name: b"\xff.md".to_vec(), is_dir: false },
        file("b.md"),
        DirItem { name: b"\xfe.md".to_vec(), is_dir: false },
    ];
    assert_eq!(paths(&one), [b"/work/book/\xff.md".to_vec(), b"/work/book/\xfe.md".to_vec(), b"/work/book/b.md".to_vec()]);
    assert_eq!(paths(&one), paths(&one), "the same listing shows the same way every time");
    let other = [
        DirItem { name: b"\xfe.md".to_vec(), is_dir: false },
        file("b.md"),
        DirItem { name: b"\xff.md".to_vec(), is_dir: false },
    ];
    assert_eq!(paths(&other), [b"/work/book/\xfe.md".to_vec(), b"/work/book/\xff.md".to_vec(), b"/work/book/b.md".to_vec()]);
}

#[test]
fn paths_are_read_from_the_top_of_the_repository_and_folders_marked_below_the_opened_one() {
    // The folder opened is `book`, inside a repository whose top is `/work`:
    // git prints paths relative to `/work`.
    let git = b" M book/part/one/draft.md\0?? notes.md\0";
    let statuses = git_status(b"/work", ROOT, git);
    assert_eq!(statuses.get(b"/work/book/part/one/draft.md"), Some(Status::Modified));
    assert_eq!(statuses.get(b"/work/book/part/one"), Some(Status::Modified));
    assert_eq!(statuses.get(b"/work/book/part"), Some(Status::Modified));
    assert_eq!(statuses.get(b"/work/book"), None, "the opened folder itself is not marked");
    assert_eq!(statuses.get(b"/work/notes.md"), Some(Status::Untracked));

    let project = Project::open(ROOT.to_vec(), Some((&b"/work"[..], &git[..])), &[dir("part")]);
    assert_eq!(project.entries()[0].status, Some(Status::Modified));
    let with_slash = git_status(b"/work/", b"/work/book/", git);
    assert_eq!(with_slash.get(b"/work/book/part"), Some(Status::Modified));
    assert_eq!(with_slash.get(b"/work/book"), None);
}

#[test]
fn a_row_a_level_deeper_is_an_entry_of_the_folder_above_it() {
    let mut project = Project::open(ROOT.to_vec(), None, &[dir("a"), dir("b")]);
    project.toggle(1, &[dir("c"), file("d.md")]);
    project.toggle(2, &[file("e.md")]);
    let paths: Vec<&[u8]> = project.entries().iter().map(|e| e.path.as_slice()).collect();
    assert_eq!(
        paths,
        [&b"/work/book/a"[..], b"/work/book/b", b"/work/book/b/c", b"/work/book/b/c/e.md", b"/work/book/b/d.md"]
    );
    let depths: Vec<usize> = project.entries().iter().map(|e| e.depth).collect();
    assert_eq!(depths, [0, 0, 1, 2, 1]);
}

#[test]
fn a_name_that_is_not_one_component_is_not_listed() {
    let listing = [file("a/b.md"), file(""), dir("x/"), file("ok.md")];
    let project = Project::open(ROOT.to_vec(), None, &listing);
    assert_eq!(names(&project), ["ok.md"]);
}

#[test]
fn each_path_has_the_status_of_the_last_record_naming_it_and_none_is_clean() {
    let git = b" M a.md\0A  a.md\0?? b/\0";
    let statuses = git_status(ROOT, ROOT, git);
    assert_eq!(statuses.get(b"/work/book/a.md"), Some(Status::Staged));
    assert_eq!(statuses.get(b"/work/book/b"), Some(Status::Untracked));
    for path in [&b"/work/book/a.md"[..], b"/work/book/b"] {
        assert_ne!(statuses.get(path), Some(Status::Clean));
    }
}
