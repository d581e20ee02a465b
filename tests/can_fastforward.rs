use generate_git_repo::can_fastforward::can_fastforward;

fn can_fastforward_helper_is_parent(parent: u8, child: u8, adjacency: &[[u8; 2]]) -> bool {
    if parent == child {
        return true;
    }

    for [a, b] in adjacency {
        if *a != parent {
            continue;
        }

        if can_fastforward_helper_is_parent(*b, child, adjacency) {
            return true;
        }
    }

    false
}

fn can_fastforward_helper(commits: &[u8], adjacency: &[[u8; 2]]) -> Option<u8> {
    can_fastforward(commits, |parent, child| {
        can_fastforward_helper_is_parent(parent, child, adjacency)
    })
}

fn can_fastforward_to(commits: &[u8], adjacency: &[[u8; 2]], to: u8) {
    assert_eq!(can_fastforward_helper(commits, adjacency), Some(to));
}

fn can_fastforward_false(commits: &[u8], adjacency: &[[u8; 2]]) {
    assert_eq!(can_fastforward_helper(commits, adjacency).is_some(), false);
}

#[test]
fn can_fastforward_test() {
    // a' = 1, b' = 2, from = 3

    // a' -> b' -> from: fast-forward.
    can_fastforward_to(&[1, 2, 3], &[[1, 2], [2, 3]], 3);
    can_fastforward_to(&[1, 3], &[[1, 2], [2, 3]], 3);

    // from -> a' -> b': "from" moves to the most recent commit, "b'".
    can_fastforward_to(&[1, 2, 3], &[[3, 1], [1, 2]], 2);
    can_fastforward_to(&[2, 3], &[[3, 1], [1, 2]], 2);

    // a' -> from -> b': "from" moves to "b'".
    can_fastforward_to(&[1, 2, 3], &[[1, 3], [3, 2]], 2);
    // not 2, because it is not among the commits
    can_fastforward_to(&[1, 3], &[[1, 3], [3, 2]], 3);

    // from -> a', from -> b': no fast-forward.
    can_fastforward_false(&[1, 2, 3], &[[3, 1], [3, 2]]);

    // a' -> from, a' -> b': no fast-forward.
    can_fastforward_false(&[1, 2, 3], &[[1, 3], [1, 2]]);

    // no common commits
    can_fastforward_false(&[1, 2], &[]);

    // a single commit fast-forwards to itself
    can_fastforward_to(&[1], &[], 1);

    // nothing cannot be fast-forwarded
    can_fastforward_false(&[], &[]);
}

#[test]
fn linear_chain_gives_newest() {
    // 1 -> 2 -> 3
    let edges = [[1u8, 2u8], [2, 3]];
    assert_eq!(can_fastforward_helper(&[1, 2, 3], &edges), Some(3));
    assert_eq!(can_fastforward_helper(&[3, 2, 1], &edges), Some(3));
    assert_eq!(can_fastforward_helper(&[1, 3], &edges), Some(3));
}

#[test]
fn unrelated_pair_gives_none() {
    assert_eq!(can_fastforward_helper(&[7, 9], &[[1, 7], [1, 9]]), None);
}

#[test]
fn diverging_children_give_none() {
    // 1 -> 2, 1 -> 3
    assert_eq!(can_fastforward_helper(&[1, 2, 3], &[[1, 2], [1, 3]]), None);
}

#[test]
fn repeated_commit_fast_forwards_to_it() {
    assert_eq!(can_fastforward_helper(&[4, 4], &[]), Some(4));
}
