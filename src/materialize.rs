use vstd::prelude::*;
use vstd::string::StrSliceExecFns;
use vstd::string::StringExecFns;
use vstd::string::StringSliceAdditionalSpecFns;

use crate::command::TreeNode;

verus! {

/// The segments of a slash-separated path, in order. Splitting never yields an empty list:
/// `""` is one empty segment and `"a/"` is `"a"` followed by an empty segment.
pub open spec fn split_segments(s: Seq<char>) -> Seq<Seq<char>>
    decreases s.len(),
{
    if s.len() == 0 {
        seq![Seq::<char>::empty()]
    } else if s.last() == '/' {
        split_segments(s.drop_last()).push(Seq::<char>::empty())
    } else {
        let r = split_segments(s.drop_last());
        r.update(r.len() - 1, r.last().push(s.last()))
    }
}

/// The path that a list of segments spells, with `/` between segments.
pub open spec fn join_segments(segs: Seq<Seq<char>>) -> Seq<char>
    decreases segs.len(),
{
    if segs.len() <= 1 {
        if segs.len() == 0 {
            Seq::<char>::empty()
        } else {
            segs[0]
        }
    } else {
        join_segments(segs.drop_last()) + seq!['/'] + segs.last()
    }
}

pub open spec fn str_views(parts: Seq<&str>) -> Seq<Seq<char>> {
    parts.map_values(|x: &str| x@)
}

pub proof fn lemma_split_nonempty(s: Seq<char>)
    ensures
        split_segments(s).len() >= 1,
    decreases s.len(),
{
    if s.len() > 0 {
        lemma_split_nonempty(s.drop_last());
    }
}

/// Joining the segments of a path gives the path back, so distinct paths have
/// distinct segment lists.
pub proof fn lemma_join_split(s: Seq<char>)
    ensures
        join_segments(split_segments(s)) == s,
    decreases s.len(),
{
    if s.len() > 0 {
        let t = s.drop_last();
        lemma_join_split(t);
        lemma_split_nonempty(t);
        let r = split_segments(t);
        if s.last() == '/' {
            assert(split_segments(s).drop_last() =~= r);
            assert(s =~= t + seq!['/'] + Seq::<char>::empty());
        } else {
            let r2 = split_segments(s);
            if r.len() == 1 {
                assert(s =~= r[0].push(s.last()));
            } else {
                assert(r2.drop_last() =~= r.drop_last());
                assert(s =~= t.push(s.last()));
                assert(r2.last() == r.last().push(s.last()));
                assert(join_segments(r) == join_segments(r.drop_last()) + seq!['/'] + r.last());
                assert(s =~= join_segments(r.drop_last()) + seq!['/'] + r.last().push(s.last()));
            }
        }
    }
}

/// Splits a path on `/` into its segments.
pub fn split_path(path: &str) -> (r: Vec<&str>)
    ensures
        str_views(r@) == split_segments(path@),
{
    let n = path.unicode_len();
    let mut parts: Vec<&str> = Vec::new();
    let mut start: usize = 0;
    let mut i: usize = 0;
    assert(str_views(parts@) =~= Seq::<Seq<char>>::empty());
    assert(path@.take(0) =~= Seq::<char>::empty());
    assert(path@.subrange(0, 0) =~= Seq::<char>::empty());
    while i < n
        invariant
            n == path@.len(),
            start <= i <= n,
            str_views(parts@) + seq![path@.subrange(start as int, i as int)] == split_segments(
                path@.take(i as int),
            ),
        decreases n - i,
    {
        let c = path.get_char(i);
        let ghost prev = parts@;
        let ghost pre = path@.take(i as int);
        let ghost cur = path@.take(i + 1);
        let ghost r = split_segments(pre);
        assert(cur.drop_last() =~= pre);
        assert(cur.last() == c);
        proof {
            lemma_split_nonempty(pre);
        }
        if c == '/' {
            let seg = path.substring_char(start, i);
            parts.push(seg);
            assert(str_views(parts@) =~= str_views(prev).push(seg@));
            assert(split_segments(cur) == r.push(Seq::<char>::empty()));
            assert(path@.subrange(i + 1, i + 1) =~= Seq::<char>::empty());
            assert(str_views(parts@) + seq![path@.subrange(i + 1, i + 1)] =~= split_segments(cur));
            start = i + 1;
        } else {
            assert(path@.subrange(start as int, i + 1) =~= path@.subrange(start as int, i as int).push(
                c,
            ));
            assert(split_segments(cur) == r.update(r.len() - 1, r.last().push(c)));
            assert(str_views(parts@) + seq![path@.subrange(start as int, i + 1)] =~= split_segments(
                cur,
            ));
        }
        i = i + 1;
    }
    let seg = path.substring_char(start, n);
    let ghost prev = parts@;
    parts.push(seg);
    assert(str_views(parts@) =~= str_views(prev).push(seg@));
    assert(path@.take(n as int) =~= path@);
    parts
}

/// A path that cannot be placed: it lands on a file or directory that is already there,
/// or descends into a file.
pub struct PathConflict {
    pub path: String,
}

/// A node of the tree being staged: a file with its bytes, or a directory of named entries.
pub enum FileToWrite {
    File { contents: Vec<u8> },
    Directory(Vec<StagedEntry>),
}

/// One named entry of a staged directory.
pub struct StagedEntry {
    pub name: String,
    pub node: FileToWrite,
}

/// The node of the first entry named `name`.
pub open spec fn lookup(es: Seq<StagedEntry>, name: Seq<char>) -> Option<FileToWrite>
    decreases es.len(),
{
    if es.len() == 0 {
        None
    } else if es[0].name@ == name {
        Some(es[0].node)
    } else {
        lookup(es.drop_first(), name)
    }
}

/// The node reached from a directory with entries `es` by following the segments `q`.
pub open spec fn node_at(es: Seq<StagedEntry>, q: Seq<Seq<char>>) -> Option<FileToWrite>
    decreases q.len(),
{
    if q.len() == 0 {
        None
    } else {
        match lookup(es, q[0]) {
            None => None,
            Some(n) => if q.len() == 1 {
                Some(n)
            } else {
                match n {
                    FileToWrite::File { .. } => None,
                    FileToWrite::Directory(sub) => node_at(sub@, q.drop_first()),
                }
            },
        }
    }
}

/// The contents of the file at `q`, if a file is there.
pub open spec fn file_at(es: Seq<StagedEntry>, q: Seq<Seq<char>>) -> Option<Seq<u8>> {
    match node_at(es, q) {
        Some(FileToWrite::File { contents }) => Some(contents@),
        _ => None,
    }
}

/// `a` is `b` or a leading part of it.
pub open spec fn is_prefix_of(a: Seq<Seq<char>>, b: Seq<Seq<char>>) -> bool {
    a.len() <= b.len() && b.take(a.len() as int) == a
}

/// Two paths that cannot both hold a file: one of them lies on or above the other.
pub open spec fn paths_collide(a: Seq<Seq<char>>, b: Seq<Seq<char>>) -> bool {
    is_prefix_of(a, b) || is_prefix_of(b, a)
}

/// Placing a file at `p` is refused: a node is already at `p`, or a file lies on the way.
pub open spec fn is_blocked(es: Seq<StagedEntry>, p: Seq<Seq<char>>) -> bool {
    ||| node_at(es, p) is Some
    ||| exists|m: int| 1 <= m < p.len() && (#[trigger] file_at(es, p.take(m))) is Some
}

/// No two entries of `es` share a name.
pub open spec fn distinct_names(es: Seq<StagedEntry>) -> bool {
    forall|i: int, j: int| 0 <= i < j < es.len() ==> es[i].name@ != es[j].name@
}

/// No directory of the tree, the top one included, holds two entries of one name.
pub open spec fn names_unique(es: Seq<StagedEntry>) -> bool {
    &&& distinct_names(es)
    &&& forall|q: Seq<Seq<char>>|
        #[trigger] node_at(es, q) matches Some(FileToWrite::Directory(sub)) ==> distinct_names(sub@)
}

proof fn lemma_lookup_first(es: Seq<StagedEntry>, k: int, name: Seq<char>)
    requires
        0 <= k < es.len(),
        es[k].name@ == name,
        forall|j: int| 0 <= j < k ==> es[j].name@ != name,
    ensures
        lookup(es, name) == Some(es[k].node),
    decreases k,
{
    if k > 0 {
        lemma_lookup_first(es.drop_first(), k - 1, name);
    }
}

proof fn lemma_lookup_none(es: Seq<StagedEntry>, name: Seq<char>)
    requires
        forall|j: int| 0 <= j < es.len() ==> es[j].name@ != name,
    ensures
        lookup(es, name) is None,
    decreases es.len(),
{
    if es.len() > 0 {
        lemma_lookup_none(es.drop_first(), name);
    }
}

proof fn lemma_lookup_push(es: Seq<StagedEntry>, e: StagedEntry, name: Seq<char>)
    requires
        lookup(es, e.name@) is None,
    ensures
        lookup(es.push(e), name) == if name == e.name@ {
            Some(e.node)
        } else {
            lookup(es, name)
        },
    decreases es.len(),
{
    if es.len() > 0 {
        assert(es.push(e).drop_first() =~= es.drop_first().push(e));
        assert(es.push(e)[0] == es[0]);
        assert(es[0].name@ != e.name@);
        assert(lookup(es.drop_first(), e.name@) is None);
        lemma_lookup_push(es.drop_first(), e, name);
    } else {
        assert(es.push(e).drop_first() =~= Seq::<StagedEntry>::empty());
        assert(es.push(e)[0] == e);
        assert(lookup(Seq::<StagedEntry>::empty(), name) is None);
        assert(lookup(es, name) is None);
    }
}

proof fn lemma_lookup_update(es: Seq<StagedEntry>, k: int, e: StagedEntry, name: Seq<char>)
    requires
        0 <= k < es.len(),
        es[k].name@ == e.name@,
        forall|j: int| 0 <= j < k ==> es[j].name@ != e.name@,
    ensures
        lookup(es.update(k, e), name) == if name == e.name@ {
            Some(e.node)
        } else {
            lookup(es, name)
        },
    decreases k,
{
    assert(es.update(k, e)[0] == if k == 0 { e } else { es[0] });
    if k > 0 {
        assert(es.update(k, e).drop_first() =~= es.drop_first().update(k - 1, e));
        lemma_lookup_update(es.drop_first(), k - 1, e, name);
    } else {
        assert(es.update(k, e).drop_first() =~= es.drop_first());
    }
}

/// Index of the first entry named `name`.
fn find_entry(files: &Vec<StagedEntry>, name: &str) -> (r: Option<usize>)
    ensures
        r is None ==> forall|j: int| 0 <= j < files@.len() ==> files@[j].name@ != name@,
        r is Some ==> r->0 < files@.len() && files@[r->0 as int].name@ == name@ && forall|j: int|
            0 <= j < r->0 ==> files@[j].name@ != name@,
{
    let mut i: usize = 0;
    while i < files.len()
        invariant
            i <= files@.len(),
            forall|j: int| 0 <= j < i ==> files@[j].name@ != name@,
        decreases files@.len() - i,
    {
        if same_text(files[i].name.as_str(), name) {
            return Some(i);
        }
        i = i + 1;
    }
    None
}

/// Whether two strings hold the same characters.
pub fn same_text(a: &str, b: &str) -> (r: bool)
    ensures
        r == (a@ == b@),
{
    if a.unicode_len() != b.unicode_len() {
        return false;
    }
    let n = a.unicode_len();
    let mut i: usize = 0;
    while i < n
        invariant
            n == a@.len(),
            n == b@.len(),
            i <= n,
            forall|j: int| 0 <= j < i ==> a@[j] == b@[j],
        decreases n - i,
    {
        if a.get_char(i) != b.get_char(i) {
            return false;
        }
        i = i + 1;
    }
    assert(a@ =~= b@);
    true
}

proof fn lemma_empty_dir(q: Seq<Seq<char>>)
    ensures
        node_at(Seq::<StagedEntry>::empty(), q) is None,
{
}

/// Places a file with `contents` at the segments `path_parts` below the directory `files`,
/// making the directories on the way. Refused exactly when the place is blocked.
pub fn add_to_files_to_write(
    files_to_write: &mut Vec<StagedEntry>,
    full_path: &str,
    path_parts: &[&str],
    contents: Vec<u8>,
) -> (r: Result<(), PathConflict>)
    requires
        path_parts@.len() >= 1,
        names_unique(old(files_to_write)@),
    ensures
        r is Ok <==> !is_blocked(old(files_to_write)@, str_views(path_parts@)),
        r is Ok ==> names_unique(final(files_to_write)@),
        r is Err ==> r->Err_0.path@ == full_path@,
        r is Ok ==> forall|q: Seq<Seq<char>>|
            #[trigger] file_at(final(files_to_write)@, q) == if q == str_views(path_parts@) {
                Some(contents@)
            } else {
                file_at(old(files_to_write)@, q)
            },
        r is Ok ==> forall|q: Seq<Seq<char>>|
            (#[trigger] node_at(final(files_to_write)@, q) is Some) <==> (node_at(
                old(files_to_write)@,
                q,
            ) is Some || (1 <= q.len() && is_prefix_of(q, str_views(path_parts@)))),
    decreases path_parts@.len(),
{
    let ghost es = files_to_write@;
    let ghost p = str_views(path_parts@);
    let ghost c = contents@;
    let name = path_parts[0];
    let found = find_entry(files_to_write, name);
    proof {
        if found is Some {
            lemma_lookup_first(es, found->0 as int, name@);
        } else {
            lemma_lookup_none(es, name@);
        }
        assert(p[0] == name@);
    }
    if path_parts.len() == 1 {
        if found.is_some() {
            return Err(PathConflict { path: String::from_str(full_path) });
        }
        let entry = StagedEntry { name: String::from_str(name), node: FileToWrite::File { contents } };
        let ghost e = entry;
        files_to_write.push(entry);
        proof {
            assert forall|n: Seq<char>| #[trigger]
                lookup(es.push(e), n) == if n == name@ {
                    Some(e.node)
                } else {
                    lookup(es, n)
                } by {
                lemma_lookup_push(es, e, n);
            }
            assert forall|q: Seq<Seq<char>>|
                #[trigger] node_at(files_to_write@, q) == if q.len() >= 1 && q[0] == name@ {
                    if q.len() == 1 {
                        Some(e.node)
                    } else {
                        None
                    }
                } else {
                    node_at(es, q)
                } by {}
            assert forall|q: Seq<Seq<char>>| q == p <==> (q.len() == 1 && q[0] == name@) by {
                if q.len() == 1 && q[0] == name@ {
                    assert(q =~= p);
                }
            }
            assert forall|q: Seq<Seq<char>>|
                (1 <= q.len() && is_prefix_of(q, p)) <==> (q.len() == 1 && q[0] == name@) by {
                if q.len() == 1 && q[0] == name@ {
                    assert(p.take(1) =~= q);
                }
            }
        }
        proof {
            assert forall|q: Seq<Seq<char>>| #[trigger] file_at(files_to_write@, q) == if q == p {
                Some(c)
            } else {
                file_at(es, q)
            } by {
                if q.len() == 1 && q[0] == name@ { assert(q == p); }
            }
            assert forall|q: Seq<Seq<char>>| (#[trigger] node_at(files_to_write@, q) is Some) <==> (node_at(es, q) is Some || (1 <= q.len() && is_prefix_of(q, p))) by {
            }
        }
        return Ok(());
    }
    let ghost t = str_views(path_parts@.subrange(1, path_parts@.len() as int));
    assert(t =~= p.drop_first());
    let tail = vstd::slice::slice_subrange(path_parts, 1, path_parts.len());
    assert(str_views(tail@) == t);
    // segments of `p` below its first one, and the correspondence of paths through `name`
    assert forall|q: Seq<Seq<char>>| q.len() >= 1 && q[0] == name@ implies (q == p <==> q.drop_first() == t)
        && (is_prefix_of(q, p) <==> is_prefix_of(q.drop_first(), t)) by {
        if q.drop_first() == t {
            assert(q =~= seq![q[0]] + q.drop_first());
            assert(p =~= seq![p[0]] + p.drop_first());
        }
        if is_prefix_of(q.drop_first(), t) {
            assert(q =~= seq![q[0]] + q.drop_first());
            assert(p.take(q.len() as int) =~= seq![p[0]] + t.take(q.len() - 1));
            assert(p.take(q.len() as int) =~= q);
        }
        if is_prefix_of(q, p) {
            assert(t.take(q.len() - 1) =~= q.drop_first());
        }
    }
    assert forall|m: int| 2 <= m < p.len() implies #[trigger] p.take(m).drop_first() == t.take(m - 1)
        && p.take(m)[0] == name@ by {
        assert(p.take(m).drop_first() =~= t.take(m - 1));
    }
    match found {
        None => {
            let mut sub: Vec<StagedEntry> = Vec::new();
            proof {
                assert forall|q: Seq<Seq<char>>| node_at(sub@, q) is None by {
                    lemma_empty_dir(q);
                    assert(sub@ =~= Seq::<StagedEntry>::empty());
                }
            }
            let ghost sub0 = sub@;
            let r = add_to_files_to_write(&mut sub, full_path, tail, contents);
            assert(r is Ok) by {
                assert(!is_blocked(sub0, t));
            }
            let ghost sub1 = sub@;
            let entry = StagedEntry { name: String::from_str(name), node: FileToWrite::Directory(sub) };
            let ghost e = entry;
            files_to_write.push(entry);
            proof {
                assert forall|n: Seq<char>| #[trigger]
                    lookup(es.push(e), n) == if n == name@ {
                        Some(e.node)
                    } else {
                        lookup(es, n)
                    } by {
                    lemma_lookup_push(es, e, n);
                }
                assert forall|q: Seq<Seq<char>>|
                    #[trigger] node_at(files_to_write@, q) == if q.len() >= 1 && q[0] == name@ {
                        if q.len() == 1 {
                            Some(e.node)
                        } else {
                            node_at(sub1, q.drop_first())
                        }
                    } else {
                        node_at(es, q)
                    } by {}
                assert forall|m: int| 1 <= m < p.len() implies file_at(es, #[trigger] p.take(m)) is None by {
                    assert(p.take(m)[0] == name@);
                }
            }
            proof {
                assert forall|q: Seq<Seq<char>>| #[trigger] file_at(files_to_write@, q) == if q == p {
                    Some(c)
                } else {
                    file_at(es, q)
                } by {
                    if q.len() > 1 && q[0] == name@ {
                        assert(q == p <==> q.drop_first() == t);
                        assert(file_at(es, q) is None);
                        assert(file_at(files_to_write@, q) == file_at(sub1, q.drop_first()));
                        assert(file_at(sub0, q.drop_first()) is None);
                    } else if q.len() == 1 && q[0] == name@ {
                        assert(q != p);
                    }
                }
                assert forall|q: Seq<Seq<char>>| (#[trigger] node_at(files_to_write@, q) is Some) <==> (node_at(es, q) is Some || (1 <= q.len() && is_prefix_of(q, p))) by {
                    if q.len() > 1 && q[0] == name@ {
                        assert(is_prefix_of(q, p) <==> is_prefix_of(q.drop_first(), t));
                        assert(node_at(es, q) is None);
                    } else if q.len() == 1 && q[0] == name@ {
                        assert(p.take(1) =~= q);
                    }
                }
            }
            Ok(())
        },
        Some(k) => {
            let mut entry = files_to_write.remove(k);
            let ghost e0 = entry;
            match &mut entry.node {
                FileToWrite::File { .. } => {
                    assert(file_at(es, p.take(1)) is Some) by {
                        assert(p.take(1)[0] == name@);
                    }
                    files_to_write.insert(k, entry);
                    Err(PathConflict { path: String::from_str(full_path) })
                },
                FileToWrite::Directory(sub) => {
                    let ghost sub0 = sub@;
                    proof {
                        assert(e0 == es[k as int]);
                        let top = seq![name@];
                        assert(top[0] == name@);
                        assert(node_at(es, top) == Some(e0.node));
                        assert forall|q: Seq<Seq<char>>|
                            (#[trigger] node_at(sub0, q) matches Some(FileToWrite::Directory(d))
                                ==> distinct_names(d@)) by {
                            if q.len() > 0 {
                                let full = top + q;
                                assert(full.drop_first() =~= q);
                                assert(full[0] == name@);
                                assert(node_at(es, full) == node_at(sub0, q));
                            }
                        }
                    }
                    let r = add_to_files_to_write(sub, full_path, tail, contents);
                    let ghost sub1 = sub@;
                    files_to_write.insert(k, entry);
                    assert(files_to_write@ =~= es.update(k as int, entry));
                    proof {
                        assert(e0.node matches FileToWrite::Directory(s0) && s0@ == sub0);
                        assert(entry.node matches FileToWrite::Directory(s1) && s1@ == sub1);
                        assert forall|q: Seq<Seq<char>>| q.len() >= 1 && q[0] == name@ && q.len() > 1
                            implies #[trigger] node_at(es, q) == node_at(sub0, q.drop_first()) by {}
                        if r is Err {
                            if node_at(sub0, t) is Some {
                                assert(node_at(es, p) is Some);
                            } else {
                                let m = choose|m: int|
                                    1 <= m < t.len() && (#[trigger] file_at(sub0, t.take(m))) is Some;
                                assert(file_at(es, p.take(m + 1)) is Some);
                            }
                        } else {
                            assert(node_at(es, p) is None);
                            assert forall|m: int| 1 <= m < p.len() implies file_at(
                                es,
                                #[trigger] p.take(m),
                            ) is None by {
                                if m >= 2 {
                                    assert(file_at(sub0, t.take(m - 1)) is None);
                                } else {
                                    assert(p.take(m)[0] == name@);
                                }
                            }
                            assert forall|n: Seq<char>| #[trigger]
                                lookup(files_to_write@, n) == if n == name@ {
                                    Some(entry.node)
                                } else {
                                    lookup(es, n)
                                } by {
                                lemma_lookup_update(es, k as int, entry, n);
                            }
                            assert forall|q: Seq<Seq<char>>|
                                #[trigger] node_at(files_to_write@, q) == if q.len() >= 1 && q[0]
                                    == name@ {
                                    if q.len() == 1 {
                                        Some(entry.node)
                                    } else {
                                        node_at(sub1, q.drop_first())
                                    }
                                } else {
                                    node_at(es, q)
                                } by {}
                        }
                    }
                    if r.is_ok() {
                        assert forall|q: Seq<Seq<char>>| #[trigger] file_at(files_to_write@, q) == if q == p {
                            Some(c)
                        } else {
                            file_at(es, q)
                        } by {
                            if q.len() > 1 && q[0] == name@ {
                                assert(q == p <==> q.drop_first() == t);
                                assert(node_at(es, q) == node_at(sub0, q.drop_first()));
                                assert(file_at(files_to_write@, q) == file_at(sub1, q.drop_first()));
                                assert(file_at(es, q) == file_at(sub0, q.drop_first()));
                            } else if q.len() == 1 && q[0] == name@ {
                                assert(q != p);
                            }
                        }
                        assert forall|q: Seq<Seq<char>>| (#[trigger] node_at(files_to_write@, q) is Some) <==> (node_at(es, q) is Some || (1 <= q.len() && is_prefix_of(q, p))) by {
                            if q.len() > 1 && q[0] == name@ {
                                assert(is_prefix_of(q, p) <==> is_prefix_of(q.drop_first(), t));
                                assert(node_at(es, q) == node_at(sub0, q.drop_first()));
                            } else if q.len() == 1 && q[0] == name@ {
                                assert(p.take(1) =~= q);
                            }
                        }
                    }
                    r
                },
            }
        },
    }
}

/// The segments of the path declared by a tree entry.
pub open spec fn declared_path(entry: (String, TreeNode)) -> Seq<Seq<char>> {
    split_segments(entry.0@)
}

/// The bytes that a declared node holds.
pub open spec fn declared_content(node: TreeNode) -> Seq<u8> {
    match node {
        TreeNode::Utf8File(s) => vstd::utf8::encode_utf8(s@),
    }
}

/// No declared path lies on or above another one (nor repeats one).
pub open spec fn paths_disjoint(tree: Seq<(String, TreeNode)>) -> bool {
    forall|i: int, j: int|
        0 <= i < j < tree.len() ==> !paths_collide(
            declared_path(#[trigger] tree[i]),
            declared_path(#[trigger] tree[j]),
        )
}

/// `es` holds exactly the declared files, each with its content, and exactly the
/// directories that lead to them.
pub open spec fn materialized(tree: Seq<(String, TreeNode)>, es: Seq<StagedEntry>) -> bool {
    &&& forall|q: Seq<Seq<char>>|
        (#[trigger] file_at(es, q) is Some) <==> exists|i: int|
            0 <= i < tree.len() && declared_path(#[trigger] tree[i]) == q
    &&& forall|i: int|
        0 <= i < tree.len() ==> #[trigger] file_at(es, declared_path(tree[i])) == Some(
            declared_content(tree[i].1),
        )
    &&& dirs_lead_to_files(tree, es)
}

/// The directories of `es` are exactly the places on the way to a declared path.
#[verifier::opaque]
pub open spec fn dirs_lead_to_files(tree: Seq<(String, TreeNode)>, es: Seq<StagedEntry>) -> bool {
    forall|q: Seq<Seq<char>>|
        (#[trigger] node_at(es, q) is Some) <==> exists|i: int|
            0 <= i < tree.len() && 1 <= q.len() && is_prefix_of(q, declared_path(#[trigger] tree[i]))
}

proof fn lemma_blocked_iff_collides(
    before: Seq<(String, TreeNode)>,
    es: Seq<StagedEntry>,
    p: Seq<Seq<char>>,
)
    requires
        materialized(before, es),
        p.len() >= 1,
    ensures
        is_blocked(es, p) <==> exists|i: int|
            0 <= i < before.len() && paths_collide(declared_path(#[trigger] before[i]), p),
{
    reveal(dirs_lead_to_files);
    if node_at(es, p) is Some {
        let i = choose|i: int|
            0 <= i < before.len() && 1 <= p.len() && is_prefix_of(p, declared_path(#[trigger] before[i]));
        assert(paths_collide(declared_path(before[i]), p));
    }
    if exists|m: int| 1 <= m < p.len() && (#[trigger] file_at(es, p.take(m))) is Some {
        let m = choose|m: int| 1 <= m < p.len() && (#[trigger] file_at(es, p.take(m))) is Some;
        let i = choose|i: int| 0 <= i < before.len() && declared_path(#[trigger] before[i]) == p.take(m);
        assert(paths_collide(declared_path(before[i]), p));
    }
    assert forall|i: int| 0 <= i < before.len() && paths_collide(
        declared_path(#[trigger] before[i]),
        p,
    ) implies is_blocked(es, p) by {
        let d = declared_path(before[i]);
        lemma_split_nonempty(before[i].0@);
        if is_prefix_of(p, d) {
            assert(1 <= p.len() && is_prefix_of(p, declared_path(before[i])));
            assert(node_at(es, p) is Some);
        } else {
            assert(declared_path(before[i]) == d);
            assert(file_at(es, d) is Some);
            let m = d.len() as int;
            if m == p.len() {
                assert(p.take(m) =~= p);
            }
            assert(1 <= m < p.len());
            assert(p.take(m) == d);
            assert(file_at(es, p.take(m)) is Some);
        }
    }
}

proof fn lemma_insert_step(
    before: Seq<(String, TreeNode)>,
    entry: (String, TreeNode),
    es: Seq<StagedEntry>,
    nes: Seq<StagedEntry>,
)
    requires
        materialized(before, es),
        paths_disjoint(before),
        forall|i: int|
            0 <= i < before.len() ==> !paths_collide(
                declared_path(#[trigger] before[i]),
                declared_path(entry),
            ),
        forall|q: Seq<Seq<char>>|
            #[trigger] file_at(nes, q) == if q == declared_path(entry) {
                Some(declared_content(entry.1))
            } else {
                file_at(es, q)
            },
        forall|q: Seq<Seq<char>>|
            (#[trigger] node_at(nes, q) is Some) <==> (node_at(es, q) is Some || (1 <= q.len()
                && is_prefix_of(q, declared_path(entry)))),
    ensures
        paths_disjoint(before.push(entry)),
        materialized(before.push(entry), nes),
{
    reveal(dirs_lead_to_files);
    let after = before.push(entry);
    let p = declared_path(entry);
    let k = before.len() as int;
    assert(after[k] == entry);
    assert forall|i: int| 0 <= i < k implies #[trigger] after[i] == before[i] by {}
    assert forall|i: int, j: int| 0 <= i < j < after.len() implies !paths_collide(
        declared_path(#[trigger] after[i]),
        declared_path(#[trigger] after[j]),
    ) by {
        if j < k {
            assert(after[i] == before[i] && after[j] == before[j]);
        }
    }
    assert forall|q: Seq<Seq<char>>|
        (#[trigger] file_at(nes, q) is Some) <==> exists|i: int|
            0 <= i < after.len() && declared_path(#[trigger] after[i]) == q by {
        if file_at(nes, q) is Some && q != p {
            let i = choose|i: int| 0 <= i < before.len() && declared_path(#[trigger] before[i]) == q;
            assert(after[i] == before[i]);
        }
        if q == p {
            assert(declared_path(after[k]) == q);
        }
        if exists|i: int| 0 <= i < after.len() && declared_path(#[trigger] after[i]) == q {
            let i = choose|i: int| 0 <= i < after.len() && declared_path(#[trigger] after[i]) == q;
            if i < k {
                assert(after[i] == before[i]);
            }
        }
    }
    assert forall|i: int| 0 <= i < after.len() implies file_at(nes, declared_path(#[trigger] after[i]))
        == Some(declared_content(after[i].1)) by {
        if i < k {
            assert(after[i] == before[i]);
            if declared_path(before[i]) == p {
                assert(paths_collide(declared_path(before[i]), p));
            }
        }
    }
    assert forall|q: Seq<Seq<char>>|
        (#[trigger] node_at(nes, q) is Some) <==> exists|i: int|
            0 <= i < after.len() && 1 <= q.len() && is_prefix_of(q, declared_path(#[trigger] after[i])) by {
        if node_at(es, q) is Some {
            let i = choose|i: int|
                0 <= i < before.len() && 1 <= q.len() && is_prefix_of(q, declared_path(#[trigger] before[i]));
            assert(after[i] == before[i]);
        }
        if 1 <= q.len() && is_prefix_of(q, p) {
            assert(declared_path(after[k]) == p);
        }
        if exists|i: int| 0 <= i < after.len() && 1 <= q.len() && is_prefix_of(q, declared_path(#[trigger] after[i])) {
            let i = choose|i: int| 0 <= i < after.len() && 1 <= q.len() && is_prefix_of(q, declared_path(#[trigger] after[i]));
            if i < k {
                assert(after[i] == before[i]);
            }
        }
    }
}

/// Turns a list of declared paths with their contents into a nested tree of directories
/// and files. Fails exactly when two declared paths collide, whatever their order.
pub fn create_files_to_write(tree: &Vec<(String, TreeNode)>) -> (r: Result<
    Vec<StagedEntry>,
    PathConflict,
>)
    ensures
        r is Ok <==> paths_disjoint(tree@),
        r is Ok ==> materialized(tree@, r->Ok_0@),
        r is Ok ==> names_unique(r->Ok_0@),
{
    let mut files_to_write: Vec<StagedEntry> = Vec::new();
    let mut k: usize = 0;
    proof {
        reveal(dirs_lead_to_files);
        assert forall|q: Seq<Seq<char>>| node_at(files_to_write@, q) is None by {
            lemma_empty_dir(q);
            assert(files_to_write@ =~= Seq::<StagedEntry>::empty());
        }
    }
    while k < tree.len()
        invariant
            k <= tree@.len(),
            paths_disjoint(tree@.take(k as int)),
            materialized(tree@.take(k as int), files_to_write@),
            names_unique(files_to_write@),
        decreases tree@.len() - k,
    {
        let ghost es = files_to_write@;
        let ghost before = tree@.take(k as int);
        let ghost after = tree@.take(k + 1);
        let path = tree[k].0.as_str();
        let parts = split_path(path);
        let ghost p = declared_path(tree@[k as int]);
        let contents = match &tree[k].1 {
            TreeNode::Utf8File(s) => s.as_str().as_bytes_vec(),
        };
        proof {
            lemma_split_nonempty(path@);
            assert(str_views(parts@) == p);
            assert(after =~= before.push(tree@[k as int]));
            lemma_blocked_iff_collides(before, es, p);
        }
        let r = add_to_files_to_write(&mut files_to_write, path, parts.as_slice(), contents);
        match r {
            Err(e) => {
                proof {
                    let i = choose|i: int| 0 <= i < k && paths_collide(
                        declared_path(#[trigger] before[i]),
                        p,
                    );
                    assert(tree@[i] == before[i]);
                    assert(!paths_disjoint(tree@));
                }
                return Err(e);
            },
            Ok(()) => {},
        }
        proof {
            assert(contents@ == declared_content(tree@[k as int].1));
            lemma_insert_step(before, tree@[k as int], es, files_to_write@);
            assert(tree@.take(k + 1) =~= before.push(tree@[k as int]));
        }
        k = k + 1;
    }
    assert(tree@.take(k as int) =~= tree@);
    Ok(files_to_write)
}

/// Flattening a materialized tree back to slash-separated paths gives back the declared
/// paths with their contents: every file joins back to a declared path and holds its
/// content, and every declared path leads to a file that holds its content.
pub proof fn lemma_materialize_round_trip(tree: Seq<(String, TreeNode)>, es: Seq<StagedEntry>)
    requires
        materialized(tree, es),
    ensures
        forall|q: Seq<Seq<char>>|
            #[trigger] file_at(es, q) is Some ==> exists|i: int|
                0 <= i < tree.len() && (#[trigger] tree[i]).0@ == join_segments(q) && file_at(es, q)
                    == Some(declared_content(tree[i].1)),
        forall|i: int|
            0 <= i < tree.len() ==> file_at(es, split_segments((#[trigger] tree[i]).0@)) == Some(
                declared_content(tree[i].1),
            ) && join_segments(split_segments(tree[i].0@)) == tree[i].0@,
{
    assert forall|q: Seq<Seq<char>>| #[trigger] file_at(es, q) is Some implies exists|i: int|
        0 <= i < tree.len() && (#[trigger] tree[i]).0@ == join_segments(q) && file_at(es, q)
            == Some(declared_content(tree[i].1)) by {
        let i = choose|i: int| 0 <= i < tree.len() && declared_path(#[trigger] tree[i]) == q;
        lemma_join_split(tree[i].0@);
        assert(file_at(es, declared_path(tree[i])) == Some(declared_content(tree[i].1)));
    }
    assert forall|i: int| 0 <= i < tree.len() implies file_at(
        es,
        split_segments((#[trigger] tree[i]).0@),
    ) == Some(declared_content(tree[i].1)) && join_segments(split_segments(tree[i].0@))
        == tree[i].0@ by {
        lemma_join_split(tree[i].0@);
        assert(file_at(es, declared_path(tree[i])) == Some(declared_content(tree[i].1)));
    }
}

} // verus!
