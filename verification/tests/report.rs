use dir_grouper::{build_report, DirEntry, EntryKind};

fn file(name: &str) -> DirEntry {
    DirEntry { name: name.to_string(), kind: EntryKind::File }
}

fn subdir(name: &str) -> DirEntry {
    DirEntry { name: name.to_string(), kind: EntryKind::Directory }
}

fn other(name: &str) -> DirEntry {
    DirEntry { name: name.to_string(), kind: EntryKind::Other }
}

#[test]
fn scenario_mixed_directory() {
    let entries = vec![
        file("a.txt"),
        file("B.TXT"),
        file("notes.MD"),
        file("script"),
        file(".hidden"),
        subdir("sub"),
    ];
    let report = build_report(&entries);
    assert_eq!(
        report.as_str(),
        ":\n- script\n\nmd:\n- notes.MD\n\ntxt:\n- B.TXT\n- a.txt\n\n"
    );
}

#[test]
fn empty_directory_gives_empty_report() {
    let entries: Vec<DirEntry> = Vec::new();
    assert_eq!(build_report(&entries).as_str(), "");
}

#[test]
fn report_is_idempotent() {
    let entries = vec![
        file("main.rs"),
        file("lib.RS"),
        subdir("target"),
        file("README"),
        file(".gitignore"),
        other("socket"),
    ];
    let first = build_report(&entries);
    let second = build_report(&entries);
    assert_eq!(first, second);
}

#[test]
fn hidden_files_never_reported() {
    let entries = vec![file(".hidden"), file(".env"), file(".bash.rc"), file("a.txt")];
    let report = build_report(&entries);
    assert_eq!(report.as_str(), "txt:\n- a.txt\n\n");
    assert!(!report.contains("hidden"));
    assert!(!report.contains("env"));
    assert!(!report.contains("bash"));
}

#[test]
fn directories_never_reported() {
    let entries = vec![subdir("docs.txt"), subdir("src"), file("a.txt"), other("pipe.txt")];
    let report = build_report(&entries);
    assert_eq!(report.as_str(), "txt:\n- a.txt\n\n");
}

#[test]
fn keys_ascend_in_output() {
    let entries = vec![file("z.txt"), file("b.md"), file("c")];
    let report = build_report(&entries);
    assert_eq!(report.as_str(), ":\n- c\n\nmd:\n- b.md\n\ntxt:\n- z.txt\n\n");
}

#[test]
fn names_ascend_within_group() {
    let entries = vec![file("z.txt"), file("a.txt"), file("M.txt")];
    let report = build_report(&entries);
    assert_eq!(report.as_str(), "txt:\n- M.txt\n- a.txt\n- z.txt\n\n");
}

#[test]
fn no_extension_files_share_placeholder_group() {
    let entries = vec![file("README"), file("Makefile"), file("a.txt")];
    let report = build_report(&entries);
    assert_eq!(report.as_str(), ":\n- Makefile\n- README\n\ntxt:\n- a.txt\n\n");
}
