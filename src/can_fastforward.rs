use vstd::prelude::*;
use vstd::std_specs::cmp::PartialEqSpec;

verus! {

/// Every answer that `is_parent` gives is the value of `rel` on its arguments.
pub open spec fn computes<T, F: Fn(T, T) -> bool>(is_parent: F, rel: spec_fn(T, T) -> bool) -> bool {
    forall|a: T, b: T, r: bool| #[trigger] call_ensures(is_parent, (a, b), r) ==> r == rel(a, b)
}

/// The predicate accepts every pair of nodes.
pub open spec fn accepts_all<T, F: Fn(T, T) -> bool>(is_parent: F) -> bool {
    forall|a: T, b: T| call_requires(is_parent, (a, b))
}

/// Some pair of entries of `nodes` is unrelated in both directions.
pub open spec fn diverges<T>(nodes: Seq<T>, rel: spec_fn(T, T) -> bool) -> bool {
    exists|i: int, j: int|
        0 <= i < j < nodes.len() && !rel(#[trigger] nodes[i], #[trigger] nodes[j]) && !rel(
            nodes[j],
            nodes[i],
        )
}

/// On the entries of `nodes`, `rel` is reflexive, antisymmetric and transitive, as true
/// ancestry in a commit graph is.
pub open spec fn is_ancestry_on<T>(nodes: Seq<T>, rel: spec_fn(T, T) -> bool) -> bool {
    &&& forall|i: int| 0 <= i < nodes.len() ==> rel(#[trigger] nodes[i], nodes[i])
    &&& forall|i: int, j: int|
        0 <= i < nodes.len() && 0 <= j < nodes.len() && rel(#[trigger] nodes[i], #[trigger] nodes[j])
            && rel(nodes[j], nodes[i]) ==> nodes[i] == nodes[j]
    &&& forall|i: int, j: int, k: int|
        0 <= i < nodes.len() && 0 <= j < nodes.len() && 0 <= k < nodes.len() && rel(
            #[trigger] nodes[i],
            #[trigger] nodes[j],
        ) && rel(nodes[j], #[trigger] nodes[k]) ==> rel(nodes[i], nodes[k])
}

/// `v` is a descendant of (or equal to) every entry of `nodes` below `bound`.
pub open spec fn descends_from_all<T>(nodes: Seq<T>, rel: spec_fn(T, T) -> bool, v: T, bound: int) -> bool {
    forall|y: int| 0 <= y < bound ==> rel(#[trigger] nodes[y], v)
}

/// The running value while row `i` of the pairwise comparison is under way, pairs
/// `(i, i+1) .. (i, j-1)` done: it still sits at entry `i` and tops every entry before `j`;
/// or it sits at a later entry that tops every entry up to itself; or it tops all entries.
spec fn row_state<T>(nodes: Seq<T>, rel: spec_fn(T, T) -> bool, v: T, i: int, j: int) -> bool {
    ||| (v == nodes[i] && descends_from_all(nodes, rel, v, j))
    ||| (exists|x: int|
        i < x < nodes.len() && v == #[trigger] nodes[x] && v != nodes[i] && descends_from_all(
            nodes,
            rel,
            v,
            x + 1,
        ))
    ||| descends_from_all(nodes, rel, v, nodes.len() as int)
}

/// Comparing entries `i` and `j` (`forward` when `i` is the older) keeps the running
/// value in its row state.
proof fn lemma_row_step<T>(
    s: Seq<T>,
    rel: spec_fn(T, T) -> bool,
    prev: Option<T>,
    v: T,
    i: int,
    j: int,
    forward: bool,
)
    requires
        is_ancestry_on(s, rel),
        0 <= i < j < s.len(),
        forward ==> rel(s[i], s[j]),
        !forward ==> rel(s[j], s[i]),
        prev is None ==> i == 0 && j == 1 && v == (if forward { s[j] } else { s[i] }),
        prev is Some ==> row_state(s, rel, prev->0, i, j),
        prev is Some ==> (v == if prev->0 == (if forward { s[i] } else { s[j] }) {
            if forward { s[j] } else { s[i] }
        } else {
            prev->0
        }),
    ensures
        row_state(s, rel, v, i, j + 1),
{
    let ni = s[i];
    let nj = s[j];
    if prev is None {
        // the first comparison: the running value is the newer of entries 0 and 1
        assert(descends_from_all(s, rel, v, j + 1));
    } else {
        let pv = prev->0;
        if descends_from_all(s, rel, pv, s.len() as int) {
            if forward {
                assert(rel(nj, pv));
                if pv == ni {
                    assert(ni == nj);
                }
            } else {
                assert(rel(ni, pv));
                if pv == nj {
                    assert(ni == nj);
                }
            }
            assert(v == pv);
        } else if pv == ni && descends_from_all(s, rel, pv, j) {
            if forward {
                assert(v == nj);
                assert forall|y: int| 0 <= y < j + 1 implies rel(
                    #[trigger] s[y],
                    v,
                ) by {
                    if y < j {
                        assert(rel(s[y], s[i]));
                    }
                }
                if v != ni {
                    assert(row_state(s, rel, v, i, j + 1));
                } else {
                    assert(descends_from_all(s, rel, v, j + 1));
                }
            } else {
                assert(v == ni);
                assert(descends_from_all(s, rel, v, j + 1));
            }
        } else {
            assert(exists|x: int|
                i < x < s.len() && pv == #[trigger] s[x] && pv != s[i] && descends_from_all(
                    s,
                    rel,
                    pv,
                    x + 1,
                ));
            let x = choose|x: int|
                i < x < s.len() && pv == #[trigger] s[x] && pv != s[i] && descends_from_all(
                    s,
                    rel,
                    pv,
                    x + 1,
                );
            assert(rel(s[i], s[x]));
            if !forward && pv == nj {
                assert(rel(s[j], s[i]));
                assert(s[x] == s[i]);
            }
            assert(v == pv);
            assert(row_state(s, rel, v, i, j + 1));
        }
    }
}

/// Decides whether `nodes` can be fast-forwarded: whether every two of them are related by
/// ancestry. Returns the most-descendant node when they are, `None` when two of them diverge
/// or `nodes` is empty. A single node fast-forwards to itself.
pub fn can_fastforward<T, F>(nodes: &[T], is_parent: F) -> (r: Option<T>) where
    T: Copy,
    T: Eq,
    F: Fn(T, T) -> bool,

    requires
        accepts_all(is_parent),
        vstd::laws_eq::obeys_concrete_eq::<T>(),
    ensures
        nodes@.len() == 0 ==> r is None,
        nodes@.len() == 1 ==> r == Some(nodes@[0]),
        r is Some ==> nodes@.contains(r->0),
        forall|rel: spec_fn(T, T) -> bool|
            #[trigger] computes(is_parent, rel) && nodes@.len() >= 2 ==> (r is None <==> diverges(
                nodes@,
                rel,
            )),
        forall|rel: spec_fn(T, T) -> bool|
            #[trigger] computes(is_parent, rel) && is_ancestry_on(nodes@, rel) && r is Some
                ==> descends_from_all(nodes@, rel, r->0, nodes@.len() as int),
{
    proof {
        reveal(vstd::laws_eq::obeys_concrete_eq);
    }
    let nodes_len = nodes.len();

    if nodes_len == 0 {
        return None;
    }
    if nodes_len == 1 {
        assert(nodes@.contains(nodes@[0]));
        assert forall|rel: spec_fn(T, T) -> bool|
            #[trigger] computes(is_parent, rel) && is_ancestry_on(nodes@, rel) implies descends_from_all(
            nodes@,
            rel,
            nodes@[0],
            1,
        ) by {
            assert(rel(nodes@[0], nodes@[0]));
        }
        return Some(nodes[0]);
    }

    let ghost s = nodes@;
    let mut most_recent: Option<T> = None;

    let mut i: usize = 0;
    while i < nodes_len
        invariant
            s == nodes@,
            nodes_len == s.len(),
            nodes_len >= 2,
            0 <= i <= nodes_len,
            accepts_all(is_parent),
            forall|x: T, y: T| x.eq_spec(&y) <==> (x == y),
            T::obeys_eq_spec(),
            // every pair with a first index below i was related
            forall|rel: spec_fn(T, T) -> bool, a: int, b: int|
                #[trigger] computes(is_parent, rel) && 0 <= a < i && a < b < s.len() ==> rel(
                    #[trigger] s[a],
                    #[trigger] s[b],
                ) || rel(s[b], s[a]),
            most_recent is None <==> i == 0,
            most_recent is Some ==> s.contains(most_recent->0),
            forall|rel: spec_fn(T, T) -> bool|
                #[trigger] computes(is_parent, rel) && is_ancestry_on(s, rel) && most_recent is Some
                    && i < s.len() ==> row_state(s, rel, most_recent->0, i as int, i + 1),
            forall|rel: spec_fn(T, T) -> bool|
                #[trigger] computes(is_parent, rel) && is_ancestry_on(s, rel) && most_recent is Some
                    && i == s.len() ==> descends_from_all(s, rel, most_recent->0, s.len() as int),
        decreases nodes_len - i,
    {
        let mut j: usize = i + 1;
        while j < nodes_len
            invariant
                s == nodes@,
                nodes_len == s.len(),
                nodes_len >= 2,
                0 <= i < nodes_len,
                i + 1 <= j <= nodes_len,
                accepts_all(is_parent),
                forall|x: T, y: T| x.eq_spec(&y) <==> (x == y),
                T::obeys_eq_spec(),
                forall|rel: spec_fn(T, T) -> bool, a: int, b: int|
                    #[trigger] computes(is_parent, rel) && 0 <= a < i && a < b < s.len() ==> rel(
                        #[trigger] s[a],
                        #[trigger] s[b],
                    ) || rel(s[b], s[a]),
                forall|rel: spec_fn(T, T) -> bool, b: int|
                    #[trigger] computes(is_parent, rel) && i < b < j ==> rel(s[i as int], #[trigger] s[b])
                        || rel(s[b], s[i as int]),
                most_recent is None <==> (i == 0 && j == 1),
                most_recent is Some ==> s.contains(most_recent->0),
                forall|rel: spec_fn(T, T) -> bool|
                    #[trigger] computes(is_parent, rel) && is_ancestry_on(s, rel) && most_recent is Some
                        ==> row_state(s, rel, most_recent->0, i as int, j as int),
            decreases nodes_len - j,
        {
            let a = nodes[i];
            let b = nodes[j];
            let ab = is_parent(a, b);
            let (old, new) = if ab {
                (a, b)
            } else {
                let ba = is_parent(b, a);
                if ba {
                    (b, a)
                } else {
                    assert forall|rel: spec_fn(T, T) -> bool|
                        #[trigger] computes(is_parent, rel) implies diverges(s, rel) by {
                        assert(!rel(s[i as int], s[j as int]) && !rel(s[j as int], s[i as int]));
                    }
                    return None;
                }
            };
            proof {
                assert(s.contains(new)) by {
                    assert(s[i as int] == a && s[j as int] == b);
                }
            }
            let ghost prev = most_recent;
            if let Some(r) = most_recent {
                if r == old {
                    most_recent = Some(new);
                }
            } else {
                most_recent = Some(new);
            }
            proof {
                assert(old == if ab { s[i as int] } else { s[j as int] });
                assert(new == if ab { s[j as int] } else { s[i as int] });
                assert(prev is Some ==> (most_recent->0 == if prev->0 == old { new } else { prev->0 }));
                assert forall|rel: spec_fn(T, T) -> bool|
                    #[trigger] computes(is_parent, rel) && is_ancestry_on(s, rel) implies row_state(
                    s,
                    rel,
                    most_recent->0,
                    i as int,
                    j + 1,
                ) by {
                    assert(ab ==> rel(s[i as int], s[j as int]));
                    assert(!ab ==> rel(s[j as int], s[i as int]));
                    lemma_row_step(s, rel, prev, most_recent->0, i as int, j as int, ab);
                }
                assert forall|rel: spec_fn(T, T) -> bool, bb: int|
                    #[trigger] computes(is_parent, rel) && i < bb < j + 1 implies rel(
                    s[i as int],
                    #[trigger] s[bb],
                ) || rel(s[bb], s[i as int]) by {
                    if bb == j {
                        assert(ab ==> rel(s[i as int], s[j as int]));
                        assert(!ab ==> rel(s[j as int], s[i as int]));
                    }
                }
            }
            j = j + 1;
        }
        proof {
            assert forall|rel: spec_fn(T, T) -> bool|
                #[trigger] computes(is_parent, rel) && is_ancestry_on(s, rel) && most_recent is Some
                    && i + 1 < s.len() implies row_state(s, rel, most_recent->0, i + 1, i + 2) by {
                let v = most_recent->0;
                let ii = i as int;
                if descends_from_all(s, rel, v, s.len() as int) {
                } else if v == s[ii] && descends_from_all(s, rel, v, s.len() as int) {
                } else {
                    let x = choose|x: int|
                        ii < x < s.len() && v == #[trigger] s[x] && v != s[ii] && descends_from_all(
                            s,
                            rel,
                            v,
                            x + 1,
                        );
                    if x == ii + 1 {
                        assert(descends_from_all(s, rel, v, ii + 2));
                    } else if v == s[ii + 1] {
                        assert(descends_from_all(s, rel, v, ii + 2));
                    } else {
                        assert(row_state(s, rel, v, ii + 1, ii + 2));
                    }
                }
            }
            assert forall|rel: spec_fn(T, T) -> bool|
                #[trigger] computes(is_parent, rel) && is_ancestry_on(s, rel) && most_recent is Some
                    && i + 1 == s.len() implies descends_from_all(s, rel, most_recent->0, s.len() as int) by {
                assert(row_state(s, rel, most_recent->0, i as int, s.len() as int));
            }
        }
        i = i + 1;
    }
    assert forall|rel: spec_fn(T, T) -> bool| #[trigger] computes(is_parent, rel) implies !diverges(s, rel) by {
        if diverges(s, rel) {
            let (x, y) = choose|x: int, y: int|
                0 <= x < y < s.len() && !rel(#[trigger] s[x], #[trigger] s[y]) && !rel(s[y], s[x]);
            assert(rel(s[x], s[y]) || rel(s[y], s[x]));
        }
    }
    most_recent
}

} // verus!
