use generate_git_repo::command::Command;
use generate_git_repo::command::TreeNode;
use generate_git_repo::interpreter::Interpreter;
use generate_git_repo::interpreter::Plan;
use generate_git_repo::interpreter::Step;
use generate_git_repo::interpreter::TreePlan;
use generate_git_repo::registry::ObjectRef;
use generate_git_repo::registry::Registry;

fn oid(n: u8) -> ObjectRef {
    ObjectRef { bytes: [n; 20] }
}

fn commit(id: &str, parents: &[&str]) -> Command {
    Command::Commit {
        id: id.to_string(),
        message: None,
        parents: parents.iter().map(|p| p.to_string()).collect(),
        tree: None,
        branches: None,
        tags: None,
    }
}

fn merge(id: &str, commits: &[&str], no_ff: bool) -> Command {
    Command::Merge {
        id: id.to_string(),
        commits: commits.iter().map(|p| p.to_string()).collect(),
        message: None,
        tree: None,
        branches: None,
        tags: None,
        no_ff,
    }
}

fn config(all_name: Option<&str>, author_name: Option<&str>) -> Command {
    Command::Config {
        all_name: all_name.map(|s| s.to_string()),
        all_email: None,
        author_name: author_name.map(|s| s.to_string()),
        author_email: None,
        committer_name: None,
        committer_email: None,
        tagger_name: None,
        tagger_email: None,
        tree: None,
    }
}

fn step(interp: &mut Interpreter, command: Command, ancestry: &Vec<Vec<bool>>) -> Step {
    match interp.interpret_command(command, ancestry) {
        Ok(s) => s,
        Err(e) => panic!("path conflict at {}", e.path),
    }
}

// Runs a commit command and reports `written` as the store's id for it.
fn run_commit(interp: &mut Interpreter, command: Command, written: ObjectRef) -> Vec<ObjectRef> {
    let s = step(interp, command, &Vec::new());
    match s.plan {
        Plan::Commit { id, commit } => {
            interp.record_commit(id, written);
            commit.parents
        }
        _ => panic!("expected a commit plan"),
    }
}

fn bytes_of(refs: &[ObjectRef]) -> Vec<[u8; 20]> {
    refs.iter().map(|r| r.bytes).collect()
}

#[test]
fn rebinding_resolves_to_latest() {
    let mut reg = Registry::new();
    reg.bind("a".to_string(), oid(1));
    reg.bind("a".to_string(), oid(2));
    assert_eq!(reg.resolve("a").map(|r| r.bytes), Some([2; 20]));
    assert!(reg.resolve("b").is_none());
}

#[test]
fn unresolved_parent_is_left_out() {
    let mut interp = Interpreter::new(oid(0));
    run_commit(&mut interp, commit("a", &[]), oid(1));
    let s = step(&mut interp, commit("b", &["a", "ghost"]), &Vec::new());
    assert_eq!(s.unresolved, vec!["ghost".to_string()]);
    match s.plan {
        Plan::Commit { id, commit } => {
            assert_eq!(id, "b");
            assert_eq!(bytes_of(&commit.parents), vec![[1; 20]]);
            assert_eq!(commit.message, "b");
            match commit.tree {
                TreePlan::Existing(t) => assert_eq!(t.bytes, [0; 20]),
                TreePlan::Build(_) => panic!("expected the default tree"),
            }
        }
        _ => panic!("expected a commit plan"),
    }
}

#[test]
fn own_field_beats_shared_field() {
    let mut interp = Interpreter::new(oid(0));
    step(&mut interp, config(Some("All"), Some("Author")), &Vec::new());
    assert_eq!(interp.config.author.name, "Author");
    assert_eq!(interp.config.committer.name, "All");
    assert_eq!(interp.config.tagger.name, "All");
    assert_eq!(interp.config.author.email, "generate-git-repo@example.org");
    let s = step(&mut interp, commit("a", &[]), &Vec::new());
    match s.plan {
        Plan::Commit { commit, .. } => {
            assert_eq!(commit.author.name, "Author");
            assert_eq!(commit.committer.name, "All");
        }
        _ => panic!("expected a commit plan"),
    }
}

#[test]
fn diverging_merge_makes_merge_commit() {
    let mut interp = Interpreter::new(oid(0));
    run_commit(&mut interp, commit("a", &[]), oid(1));
    run_commit(&mut interp, commit("b", &["a"]), oid(2));
    run_commit(&mut interp, commit("c", &["a"]), oid(3));
    // b and c are unrelated
    let ancestry = vec![vec![true, false], vec![false, true]];
    let s = step(&mut interp, merge("d", &["b", "c"], false), &ancestry);
    match s.plan {
        Plan::Commit { id, commit } => {
            assert_eq!(id, "d");
            assert_eq!(bytes_of(&commit.parents), vec![[2; 20], [3; 20]]);
            interp.record_commit(id, oid(4));
        }
        _ => panic!("expected a merge commit"),
    }
    assert_eq!(interp.registry.resolve("d").map(|r| r.bytes), Some([4; 20]));
}

#[test]
fn linear_merge_fast_forwards() {
    let mut interp = Interpreter::new(oid(0));
    run_commit(&mut interp, commit("a", &[]), oid(1));
    run_commit(&mut interp, commit("b", &["a"]), oid(2));
    // a is an ancestor of b
    let ancestry = vec![vec![true, true], vec![false, true]];
    let s = step(&mut interp, merge("m", &["a", "b"], false), &ancestry);
    match s.plan {
        Plan::FastForward { target, .. } => assert_eq!(target.bytes, [2; 20]),
        _ => panic!("expected a fast-forward"),
    }
    assert_eq!(interp.registry.resolve("m").map(|r| r.bytes), Some([2; 20]));
}

#[test]
fn no_ff_merge_makes_merge_commit() {
    let mut interp = Interpreter::new(oid(0));
    run_commit(&mut interp, commit("a", &[]), oid(1));
    run_commit(&mut interp, commit("b", &["a"]), oid(2));
    let ancestry = vec![vec![true, true], vec![false, true]];
    let s = step(&mut interp, merge("m", &["a", "b"], true), &ancestry);
    match s.plan {
        Plan::Commit { commit, .. } => assert_eq!(bytes_of(&commit.parents), vec![[1; 20], [2; 20]]),
        _ => panic!("expected a merge commit"),
    }
    assert!(interp.registry.resolve("m").is_none());
}

#[test]
fn branch_and_tags_on_unknown_id_do_nothing() {
    let mut interp = Interpreter::new(oid(0));
    let s = step(&mut interp, Command::Branch { name: "main".to_string(), on: "x".to_string() }, &Vec::new());
    assert!(matches!(s.plan, Plan::Nothing));
    assert_eq!(s.unresolved, vec!["x".to_string()]);
    let s = step(
        &mut interp,
        Command::Tag { name: "v1".to_string(), on: "x".to_string(), lightweight: false },
        &Vec::new(),
    );
    assert!(matches!(s.plan, Plan::Nothing));
}

#[test]
fn branch_and_tags_point_at_commit() {
    let mut interp = Interpreter::new(oid(0));
    run_commit(&mut interp, commit("a", &[]), oid(1));
    let s = step(&mut interp, Command::Branch { name: "main".to_string(), on: "a".to_string() }, &Vec::new());
    match s.plan {
        Plan::Branch { name, target } => {
            assert_eq!(name, "main");
            assert_eq!(target.bytes, [1; 20]);
        }
        _ => panic!("expected a branch"),
    }
    let s = step(
        &mut interp,
        Command::Tag { name: "v1".to_string(), on: "a".to_string(), lightweight: false },
        &Vec::new(),
    );
    match s.plan {
        Plan::AnnotatedTag { name, target, tagger, message } => {
            assert_eq!(name, "v1");
            assert_eq!(target.bytes, [1; 20]);
            assert_eq!(tagger.name, "generate-git-repo");
            assert_eq!(message, "Tag message");
        }
        _ => panic!("expected an annotated tag"),
    }
    let s = step(
        &mut interp,
        Command::Tag { name: "v2".to_string(), on: "a".to_string(), lightweight: true },
        &Vec::new(),
    );
    assert!(matches!(s.plan, Plan::LightweightTag { .. }));
}

#[test]
fn commit_with_conflicting_tree_fails() {
    let mut interp = Interpreter::new(oid(0));
    let c = Command::Commit {
        id: "a".to_string(),
        message: Some("first".to_string()),
        parents: Vec::new(),
        tree: Some(vec![
            ("a".to_string(), TreeNode::Utf8File("X".to_string())),
            ("a/b".to_string(), TreeNode::Utf8File("Y".to_string())),
        ]),
        branches: None,
        tags: None,
    };
    assert!(interp.interpret_command(c, &Vec::new()).is_err());
}

#[test]
fn config_tree_becomes_default() {
    let mut interp = Interpreter::new(oid(0));
    let c = Command::Config {
        all_name: None,
        all_email: None,
        author_name: None,
        author_email: None,
        committer_name: None,
        committer_email: None,
        tagger_name: None,
        tagger_email: None,
        tree: Some(vec![("f".to_string(), TreeNode::Utf8File("x".to_string()))]),
    };
    let s = step(&mut interp, c, &Vec::new());
    match s.plan {
        Plan::SetDefaultTree(es) => assert_eq!(es.len(), 1),
        _ => panic!("expected a tree to build"),
    }
    interp.set_default_tree(oid(9));
    let s = step(&mut interp, commit("a", &[]), &Vec::new());
    match s.plan {
        Plan::Commit { commit, .. } => match commit.tree {
            TreePlan::Existing(t) => assert_eq!(t.bytes, [9; 20]),
            TreePlan::Build(_) => panic!("expected the default tree"),
        },
        _ => panic!("expected a commit plan"),
    }
}
