use hmm_utils::entry::{Child, Metadata, Timestamp};
use hmm_utils::pattern::children_pattern;
use hmm_utils::reader::{Reader, ViewFilesOptions};
use hmm_utils::tree::{Explorer, FileInfo};

const HOME: &str = "/home/user";

/// A host with one directory, the home directory, and five children in it.
fn children_of(root: &str) -> Vec<(&'static str, Option<Metadata>)> {
    let stamp = Some(Timestamp { secs: 1_700_000_000, nanos: 0 });
    if root != HOME {
        return vec![];
    }
    vec![
        ("notes.txt", Some(Metadata { is_dir: false, size: 120, modified: stamp })),
        (".bashrc", Some(Metadata { is_dir: false, size: 3_771, modified: stamp })),
        ("Documents", Some(Metadata { is_dir: true, size: 4_096, modified: stamp })),
        (".cache", Some(Metadata { is_dir: true, size: 4_096, modified: None })),
        ("archive.tar.gz", Some(Metadata { is_dir: false, size: 9_000, modified: stamp })),
    ]
}

fn enumerate(root: &str, admits: &dyn Fn(&str) -> bool) -> Vec<Child> {
    children_of(root)
        .into_iter()
        .filter(|(name, _)| admits(name))
        .map(|(name, metadata)| Child {
            path: format!("{}/{}", root, name),
            name: name.to_string(),
            metadata,
        })
        .collect()
}

fn explore(explorer: &Explorer, path: Option<String>, hidden: Option<bool>) -> Vec<FileInfo> {
    let root = explorer.root(path).expect("Failed to get home directory");
    let children = enumerate(&root, &|name| explorer.admits(hidden, name));
    explorer.explore(hidden, children)
}

fn view_files(args: ViewFilesOptions) -> Vec<FileInfo> {
    let root = match &args.path {
        Some(path) => path.clone(),
        None => HOME.to_string(),
    };
    let children = enumerate(&root, &|_| true);
    Reader::view_files(args, children)
}

#[test]
fn test_list_files() {
    let files = view_files(ViewFilesOptions { path: None, hidden: true });
    assert!(!files.is_empty(), "No files were listed");
}

#[test]
fn test_explore() {
    let explorer = Explorer::with_home(Some(HOME.to_string()));
    let files = explore(&explorer, None, None);

    assert!(!files.is_empty(), "No files were viewed");
}

#[test]
fn test_explore_invalid_path() {
    let explorer = Explorer::with_home(Some(HOME.to_string()));
    let files_invalid_path =
        explore(&explorer, Some("/non_existent_directory".to_string()), None);

    assert!(
        files_invalid_path.is_empty(),
        "Invalid path should result in an empty view"
    );
}

#[test]
fn test_explore_hidden_false() {
    let explorer = Explorer::with_home(Some(HOME.to_string()));
    let files_hidden_false = explore(&explorer, None, Some(false));
    assert!(
        !files_hidden_false
            .iter()
            .any(|file| file.name.starts_with('.')),
        "Hidden files should not be viewed"
    );
}

#[test]
fn test_explore_hidden_true() {
    let explorer = Explorer::with_home(Some(HOME.to_string()));
    let files_hidden_true = explore(&explorer, None, Some(true));
    assert!(
        !files_hidden_true.is_empty(),
        "No files were viewed when 'hidden' is true"
    );
}

#[test]
fn home_listing_in_full() {
    let explorer = Explorer::with_home(Some(HOME.to_string()));
    let names = |files: Vec<FileInfo>| -> Vec<String> { files.into_iter().map(|f| f.name).collect() };
    assert_eq!(
        names(explore(&explorer, None, None)),
        vec!["Documents", "archive.tar.gz", "notes.txt"]
    );
    assert_eq!(
        names(explore(&explorer, None, Some(true))),
        vec![".cache", "Documents", ".bashrc", "archive.tar.gz", "notes.txt"]
    );
    assert_eq!(
        names(view_files(ViewFilesOptions { path: None, hidden: false })),
        vec!["notes.txt", "Documents", "archive.tar.gz"]
    );
}

#[test]
fn missing_directory_on_disk_has_no_children() {
    let explorer = Explorer::new();
    let root = explorer.root(Some("/non_existent_directory".to_string())).unwrap();
    let mut children = Vec::new();
    for found in glob::glob(&children_pattern(&root)).expect("pattern of a root is valid") {
        let path = found.expect("nothing to read");
        let name = path.file_name().unwrap().to_string_lossy().to_string();
        children.push(Child { path: path.to_string_lossy().to_string(), name, metadata: None });
    }
    assert!(children.is_empty());
    assert!(explorer.explore(None, children).is_empty());
}
