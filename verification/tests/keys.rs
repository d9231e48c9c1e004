use dir_grouper::{extension_key, group_files, DirEntry, EntryKind};

fn file(name: &str) -> DirEntry {
    DirEntry { name: name.to_string(), kind: EntryKind::File }
}

#[test]
fn extension_key_lowercases() {
    assert_eq!(extension_key(&"X.TXT".to_string()).as_str(), "txt");
    assert_eq!(extension_key(&"notes.MD".to_string()).as_str(), "md");
    assert_eq!(extension_key(&"a.B".to_string()).as_str(), "b");
}

#[test]
fn extension_key_takes_last_dot() {
    assert_eq!(extension_key(&"archive.tar.gz".to_string()).as_str(), "gz");
    assert_eq!(extension_key(&"a.b.c.d".to_string()).as_str(), "d");
}

#[test]
fn extension_key_placeholder_for_no_dot() {
    assert_eq!(extension_key(&"README".to_string()).as_str(), "");
    assert_eq!(extension_key(&"script".to_string()).as_str(), "");
    assert_eq!(extension_key(&"".to_string()).as_str(), "");
}

#[test]
fn extension_key_placeholder_for_leading_dot_only() {
    assert_eq!(extension_key(&".bashrc".to_string()).as_str(), "");
    assert_eq!(extension_key(&".".to_string()).as_str(), "");
}

#[test]
fn extension_key_of_dotted_hidden_name() {
    assert_eq!(extension_key(&".config.yml".to_string()).as_str(), "yml");
}

#[test]
fn extension_key_empty_for_trailing_dot() {
    assert_eq!(extension_key(&"foo.".to_string()).as_str(), "");
}

#[test]
fn case_insensitive_extensions_share_a_group() {
    let entries = vec![file("A.TXT"), file("b.txt")];
    let groups = group_files(&entries);
    assert_eq!(groups.len(), 1);
    assert_eq!(groups[0].key.as_str(), "txt");
    assert_eq!(groups[0].names, vec!["A.TXT".to_string(), "b.txt".to_string()]);
}

#[test]
fn groups_collect_all_files_of_a_key() {
    let entries = vec![
        file("one.rs"),
        file("two.toml"),
        file("three.rs"),
        file("four.RS"),
    ];
    let groups = group_files(&entries);
    assert_eq!(groups.len(), 2);
    assert_eq!(groups[0].key.as_str(), "rs");
    assert_eq!(
        groups[0].names,
        vec!["four.RS".to_string(), "one.rs".to_string(), "three.rs".to_string()]
    );
    assert_eq!(groups[1].key.as_str(), "toml");
    assert_eq!(groups[1].names, vec!["two.toml".to_string()]);
}

#[test]
fn unicode_names_are_grouped() {
    let entries = vec![file("ärger.TXT"), file("笔记.txt")];
    let groups = group_files(&entries);
    assert_eq!(groups.len(), 1);
    assert_eq!(groups[0].key.as_str(), "txt");
    assert_eq!(
        groups[0].names,
        vec!["ärger.TXT".to_string(), "笔记.txt".to_string()]
    );
}
