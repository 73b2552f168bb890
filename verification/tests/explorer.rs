use hmm_utils::config::ConfigurationError;
use hmm_utils::entry::{Child, Metadata, Timestamp};
use hmm_utils::reader::{Reader, ViewFilesOptions};
use hmm_utils::tree::{Explorer, FileInfo};

fn file(root: &str, name: &str, size: u64) -> Child {
    Child {
        path: format!("{}/{}", root, name),
        name: name.to_string(),
        metadata: Some(Metadata {
            is_dir: false,
            size,
            modified: Some(Timestamp { secs: 1_700_000_000, nanos: 250 }),
        }),
    }
}

fn dir(root: &str, name: &str) -> Child {
    Child {
        path: format!("{}/{}", root, name),
        name: name.to_string(),
        metadata: Some(Metadata {
            is_dir: true,
            size: 4096,
            modified: Some(Timestamp { secs: 1_600_000_000, nanos: 0 }),
        }),
    }
}

fn unreadable(root: &str, name: &str) -> Child {
    Child { path: format!("{}/{}", root, name), name: name.to_string(), metadata: None }
}

fn names(files: &[FileInfo]) -> Vec<String> {
    files.iter().map(|f| f.name.clone()).collect()
}

fn explorer() -> Explorer {
    Explorer::with_home(Some("/home/user".to_string()))
}

fn sample() -> Vec<Child> {
    vec![file("/d", "notes.txt", 12), file("/d", ".env", 3), dir("/d", "Documents")]
}

#[test]
fn example_without_hidden_entries() {
    let files = explorer().explore(Some(false), sample());
    assert_eq!(names(&files), vec!["Documents", "notes.txt"]);
}

#[test]
fn example_with_hidden_entries() {
    let files = explorer().explore(Some(true), sample());
    assert_eq!(names(&files), vec!["Documents", ".env", "notes.txt"]);
}

#[test]
fn example_with_a_hidden_directory() {
    let children = vec![file("/d", "notes.txt", 12), dir("/d", ".env"), dir("/d", "Documents")];
    let files = explorer().explore(Some(true), children);
    assert_eq!(names(&files), vec![".env", "Documents", "notes.txt"]);
}

#[test]
fn hidden_entries_are_left_out_by_default() {
    let files = explorer().explore(None, sample());
    assert_eq!(names(&files), vec!["Documents", "notes.txt"]);
    assert!(!files.iter().any(|f| f.name.starts_with('.')));
}

#[test]
fn a_visible_child_makes_the_listing_non_empty() {
    let files = explorer().explore(Some(false), vec![file("/d", ".a", 1), file("/d", "b", 1)]);
    assert_eq!(files.len(), 1);
    assert_eq!(files[0].name, "b");
}

#[test]
fn only_hidden_children_give_an_empty_listing() {
    let files = explorer().explore(Some(false), vec![file("/d", ".a", 1), dir("/d", ".git")]);
    assert!(files.is_empty());
}

#[test]
fn listing_with_hidden_holds_the_listing_without() {
    let children = vec![
        file("/d", "b.txt", 1),
        dir("/d", ".git"),
        file("/d", ".env", 2),
        dir("/d", "src"),
        unreadable("/d", "gone"),
        file("/d", "a.txt", 3),
    ];
    let without = explorer().explore(Some(false), children.clone());
    let with = explorer().explore(Some(true), children);
    assert_eq!(names(&without), vec!["src", "a.txt", "b.txt"]);
    assert_eq!(names(&with), vec![".git", "src", ".env", "a.txt", "b.txt"]);
    for entry in &without {
        assert!(with.contains(entry));
    }
}

#[test]
fn no_children_give_an_empty_listing() {
    assert!(explorer().explore(None, vec![]).is_empty());
    assert!(explorer().explore(Some(true), vec![]).is_empty());
}

#[test]
fn directories_come_first_then_names_ascend() {
    let children = vec![
        file("/d", "zeta", 1),
        dir("/d", "beta"),
        file("/d", "Alpha", 1),
        dir("/d", "alpha"),
        file("/d", "alpha.txt", 1),
        dir("/d", "Zed"),
    ];
    let files = explorer().explore(Some(true), children);
    assert_eq!(names(&files), vec!["Zed", "alpha", "beta", "Alpha", "alpha.txt", "zeta"]);
    for pair in files.windows(2) {
        if pair[0].is_dir != pair[1].is_dir {
            assert!(pair[0].is_dir);
        } else {
            assert!(pair[0].name <= pair[1].name);
        }
    }
}

#[test]
fn entries_of_the_same_name_keep_their_order() {
    let children = vec![
        file("/second", "same", 2),
        dir("/d", "sub"),
        file("/first", "same", 1),
        file("/third", "same", 3),
    ];
    let files = explorer().explore(None, children);
    let paths: Vec<&str> = files.iter().map(|f| f.path.as_str()).collect();
    assert_eq!(paths, vec!["/d/sub", "/second/same", "/first/same", "/third/same"]);
}

#[test]
fn listing_twice_gives_the_same_result() {
    let children = vec![
        file("/d", "b", 1),
        dir("/d", "y"),
        file("/d", "a", 2),
        dir("/d", "x"),
        file("/d", ".h", 3),
    ];
    let first = explorer().explore(Some(true), children.clone());
    let second = explorer().explore(Some(true), children);
    assert_eq!(first, second);
}

#[test]
fn order_of_enumeration_does_not_matter() {
    let first = vec![
        file("/d", "b", 1),
        dir("/d", "y"),
        file("/d", ".h", 3),
        file("/d", "a", 2),
        dir("/d", "x"),
    ];
    let second = vec![
        dir("/d", "x"),
        file("/d", "a", 2),
        file("/d", "b", 1),
        file("/d", ".h", 3),
        dir("/d", "y"),
    ];
    let expected = vec!["x", "y", ".h", "a", "b"];
    assert_eq!(names(&explorer().explore(Some(true), first.clone())), expected);
    assert_eq!(
        explorer().explore(Some(true), first.clone()),
        explorer().explore(Some(true), second.clone())
    );
    assert_eq!(explorer().explore(None, first), explorer().explore(None, second));
}

#[test]
fn extension_rule_in_a_listing() {
    let children =
        vec![file("/d", "archive.tar.gz", 1), file("/d", ".gitignore", 1), dir("/d", "build.d")];
    let files = explorer().explore(Some(true), children.clone());
    assert_eq!(names(&files), vec!["build.d", ".gitignore", "archive.tar.gz"]);
    assert_eq!(files[0].file_ext, None);
    assert_eq!(files[1].file_ext, None);
    assert_eq!(files[2].file_ext, Some("gz".to_string()));
    let visible = explorer().explore(Some(false), children);
    assert_eq!(names(&visible), vec!["build.d", "archive.tar.gz"]);
}

#[test]
fn entry_carries_the_metadata_of_its_child() {
    let files = explorer().explore(None, vec![file("/d", "notes.txt", 12)]);
    assert_eq!(
        files,
        vec![FileInfo {
            path: "/d/notes.txt".to_string(),
            name: "notes.txt".to_string(),
            size: 12,
            file_ext: Some("txt".to_string()),
            is_dir: false,
            mod_time: Timestamp { secs: 1_700_000_000, nanos: 250 },
        }]
    );
}

#[test]
fn unknown_modification_time_becomes_the_epoch() {
    let child = Child {
        path: "/d/old".to_string(),
        name: "old".to_string(),
        metadata: Some(Metadata { is_dir: false, size: 7, modified: None }),
    };
    let files = explorer().explore(None, vec![child]);
    assert_eq!(files.len(), 1);
    assert_eq!(files[0].mod_time, Timestamp { secs: 0, nanos: 0 });
    assert_eq!(files[0].mod_time, Timestamp::epoch());
    assert_eq!(files[0].size, 7);
}

#[test]
fn child_without_metadata_is_skipped() {
    let children = vec![file("/d", "a", 1), unreadable("/d", "b"), file("/d", "c", 1)];
    let files = explorer().explore(Some(true), children);
    assert_eq!(names(&files), vec!["a", "c"]);
}

#[test]
fn root_is_the_given_path() {
    assert_eq!(explorer().root(Some("/srv".to_string())), Ok("/srv".to_string()));
}

#[test]
fn root_defaults_to_the_home_directory() {
    assert_eq!(explorer().root(None), Ok("/home/user".to_string()));
}

#[test]
fn root_without_path_or_home_fails() {
    let homeless = Explorer::with_home(None);
    assert_eq!(homeless.root(None), Err(ConfigurationError::HomeUnavailable));
    assert_eq!(homeless.root(Some("/srv".to_string())), Ok("/srv".to_string()));
}

#[test]
fn explorer_is_made_of_its_parts() {
    let e = Explorer::from_parts(Some("/srv".to_string()), true);
    assert!(e.show_hidden(None));
    assert!(!e.show_hidden(Some(false)));
    assert!(e.admits(None, ".env"));
    assert_eq!(e.root(None), Ok("/srv".to_string()));
    assert_eq!(e.into_parts(), (Some("/srv".to_string()), true));
    assert_eq!(explorer().into_parts(), (Some("/home/user".to_string()), false));
    assert_eq!(Explorer::with_home(None).into_parts(), (None, false));
}

#[test]
fn visibility_follows_the_call_then_the_default() {
    let e = explorer();
    assert!(!e.show_hidden(None));
    assert!(e.show_hidden(Some(true)));
    assert!(!e.show_hidden(Some(false)));
}

#[test]
fn admits_tells_which_children_need_metadata() {
    let e = explorer();
    assert!(e.admits(None, "notes.txt"));
    assert!(!e.admits(None, ".env"));
    assert!(!e.admits(Some(false), ".env"));
    assert!(e.admits(Some(true), ".env"));
    assert!(e.admits(Some(true), "notes.txt"));
}

#[test]
fn new_explorer_leaves_hidden_entries_out() {
    let e = Explorer::new();
    assert!(!e.show_hidden(None));
    assert!(!e.admits(None, ".profile"));
}

#[test]
fn view_files_keeps_the_order_of_enumeration() {
    let children = vec![
        file("/d", "zeta", 1),
        file("/d", ".env", 1),
        dir("/d", "beta"),
        unreadable("/d", "gone"),
        file("/d", "alpha.txt", 1),
    ];
    let shown = Reader::view_files(ViewFilesOptions { path: None, hidden: true }, children.clone());
    assert_eq!(names(&shown), vec!["zeta", ".env", "beta", "alpha.txt"]);
    let visible = Reader::view_files(
        ViewFilesOptions { path: Some("/d".to_string()), hidden: false },
        children,
    );
    assert_eq!(names(&visible), vec!["zeta", "beta", "alpha.txt"]);
    assert_eq!(visible[2].file_ext, Some("txt".to_string()));
    assert_eq!(visible[1].file_ext, None);
}

#[test]
fn reader_admits_hidden_names_on_request() {
    let shown = ViewFilesOptions { path: None, hidden: true };
    let visible = ViewFilesOptions { path: None, hidden: false };
    assert!(Reader::admits(&shown, ".env"));
    assert!(Reader::admits(&shown, "notes.txt"));
    assert!(!Reader::admits(&visible, ".env"));
    assert!(Reader::admits(&visible, "notes.txt"));
}

#[test]
fn reader_root_is_the_given_path() {
    let args = ViewFilesOptions { path: Some("/srv/data".to_string()), hidden: false };
    assert_eq!(Reader::root(&args), Ok("/srv/data".to_string()));
}
