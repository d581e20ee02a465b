use generate_git_repo::command::TreeNode;
use generate_git_repo::materialize::create_files_to_write;
use generate_git_repo::materialize::split_path;
use generate_git_repo::materialize::FileToWrite;
use generate_git_repo::materialize::StagedEntry;

#[test]
fn split_path_test() {
    assert_eq!(split_path(""), vec![""]);

    assert_eq!(split_path("path"), vec!["path"]);

    assert_eq!(split_path("path/to/file"), vec!["path", "to", "file"]);
}

#[test]
fn split_path_keeps_empty_segments() {
    assert_eq!(split_path("a/"), vec!["a", ""]);
    assert_eq!(split_path("/a//b"), vec!["", "a", "", "b"]);
}

fn file(path: &str, content: &str) -> (String, TreeNode) {
    (path.to_string(), TreeNode::Utf8File(content.to_string()))
}

fn flatten(prefix: &str, entries: &[StagedEntry], out: &mut Vec<(String, Vec<u8>)>) {
    for e in entries {
        let path = if prefix.is_empty() { e.name.clone() } else { format!("{}/{}", prefix, e.name) };
        match &e.node {
            FileToWrite::File { contents } => out.push((path, contents.clone())),
            FileToWrite::Directory(sub) => flatten(&path, sub, out),
        }
    }
}

#[test]
fn disjoint_paths_round_trip() {
    let tree = vec![
        file("README", "hello"),
        file("src/main.rs", "fn main() {}"),
        file("src/lib/a.rs", "a"),
        file("src/lib/b.rs", "b"),
    ];
    let staged = match create_files_to_write(&tree) {
        Ok(s) => s,
        Err(_) => panic!("disjoint paths were refused"),
    };
    assert_eq!(staged.len(), 2);
    let mut flat = Vec::new();
    flatten("", &staged, &mut flat);
    flat.sort();
    let mut expected: Vec<(String, Vec<u8>)> = vec![
        ("README".to_string(), b"hello".to_vec()),
        ("src/main.rs".to_string(), b"fn main() {}".to_vec()),
        ("src/lib/a.rs".to_string(), b"a".to_vec()),
        ("src/lib/b.rs".to_string(), b"b".to_vec()),
    ];
    expected.sort();
    assert_eq!(flat, expected);
}

#[test]
fn empty_tree_is_empty_directory() {
    let staged = match create_files_to_write(&Vec::new()) {
        Ok(s) => s,
        Err(_) => panic!("an empty tree was refused"),
    };
    assert_eq!(staged.len(), 0);
}

#[test]
fn file_then_path_below_it_conflicts() {
    let tree = vec![file("a", "X"), file("a/b", "Y")];
    match create_files_to_write(&tree) {
        Err(e) => assert_eq!(e.path, "a/b"),
        Ok(_) => panic!("conflict not detected"),
    }
}

#[test]
fn path_below_then_file_conflicts() {
    let tree = vec![file("a/b", "Y"), file("a", "X")];
    match create_files_to_write(&tree) {
        Err(e) => assert_eq!(e.path, "a"),
        Ok(_) => panic!("conflict not detected"),
    }
}

#[test]
fn same_leaf_twice_conflicts() {
    let tree = vec![file("a/b", "X"), file("a/b", "Y")];
    assert!(create_files_to_write(&tree).is_err());
}
