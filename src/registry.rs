use vstd::prelude::*;

verus! {

/// Reference to an object of the store (a blob, a tree or a commit): its 20-byte id.
#[derive(Clone, Copy, Debug)]
pub struct ObjectRef {
    pub bytes: [u8; 20],
}

/// The bindings of a list of `(id, reference)` pairs, a later pair overriding an earlier one.
pub open spec fn bindings_of(s: Seq<(String, ObjectRef)>) -> Map<Seq<char>, ObjectRef>
    decreases s.len(),
{
    if s.len() == 0 {
        Map::empty()
    } else {
        bindings_of(s.drop_last()).insert(s.last().0@, s.last().1)
    }
}

/// Maps the ids that commands chose to the objects made for them. An id has at most one
/// binding; binding it again replaces the old one.
pub struct Registry {
    entries: Vec<(String, ObjectRef)>,
}

impl View for Registry {
    type V = Map<Seq<char>, ObjectRef>;

    closed spec fn view(&self) -> Map<Seq<char>, ObjectRef> {
        bindings_of(self.entries@)
    }
}

proof fn lemma_bindings_lookup(s: Seq<(String, ObjectRef)>, i: int)
    requires
        0 <= i < s.len(),
        forall|a: int, b: int| 0 <= a < b < s.len() ==> s[a].0@ != s[b].0@,
    ensures
        bindings_of(s).contains_key(s[i].0@),
        bindings_of(s)[s[i].0@] == s[i].1,
    decreases s.len(),
{
    if i < s.len() - 1 {
        lemma_bindings_lookup(s.drop_last(), i);
    }
}

proof fn lemma_bindings_absent(s: Seq<(String, ObjectRef)>, k: Seq<char>)
    requires
        forall|a: int| 0 <= a < s.len() ==> s[a].0@ != k,
    ensures
        !bindings_of(s).contains_key(k),
    decreases s.len(),
{
    if s.len() > 0 {
        lemma_bindings_absent(s.drop_last(), k);
    }
}

proof fn lemma_bindings_update(s: Seq<(String, ObjectRef)>, i: int, e: (String, ObjectRef))
    requires
        0 <= i < s.len(),
        s[i].0@ == e.0@,
        forall|a: int, b: int| 0 <= a < b < s.len() ==> s[a].0@ != s[b].0@,
    ensures
        bindings_of(s.update(i, e)) == bindings_of(s).insert(e.0@, e.1),
    decreases s.len(),
{
    let u = s.update(i, e);
    if i == s.len() - 1 {
        assert(u.drop_last() =~= s.drop_last());
        assert(bindings_of(u) =~= bindings_of(s).insert(e.0@, e.1));
    } else {
        assert(u.drop_last() =~= s.drop_last().update(i, e));
        lemma_bindings_update(s.drop_last(), i, e);
        assert(s.last().0@ != e.0@);
        assert(bindings_of(u) =~= bindings_of(s).insert(e.0@, e.1));
    }
}

impl Registry {
    /// No two entries share an id.
    pub closed spec fn wf(&self) -> bool {
        forall|a: int, b: int|
            0 <= a < b < self.entries@.len() ==> self.entries@[a].0@ != self.entries@[b].0@
    }

    pub fn new() -> (r: Registry)
        ensures
            r.wf(),
            r@ == Map::<Seq<char>, ObjectRef>::empty(),
    {
        Registry { entries: Vec::new() }
    }

    fn position(&self, id: &str) -> (r: Option<usize>)
        ensures
            r is None ==> forall|a: int| 0 <= a < self.entries@.len() ==> self.entries@[a].0@ != id@,
            r is Some ==> r->0 < self.entries@.len() && self.entries@[r->0 as int].0@ == id@,
    {
        let mut i: usize = 0;
        while i < self.entries.len()
            invariant
                i <= self.entries@.len(),
                forall|a: int| 0 <= a < i ==> self.entries@[a].0@ != id@,
            decreases self.entries@.len() - i,
        {
            if crate::materialize::same_text(self.entries[i].0.as_str(), id) {
                return Some(i);
            }
            i = i + 1;
        }
        None
    }

    /// Binds `id` to `object`, replacing any earlier binding of `id`.
    pub fn bind(&mut self, id: String, object: ObjectRef)
        requires
            old(self).wf(),
        ensures
            final(self).wf(),
            final(self)@ == old(self)@.insert(id@, object),
    {
        let ghost s = self.entries@;
        match self.position(id.as_str()) {
            Some(i) => {
                let ghost e = (id, object);
                proof {
                    lemma_bindings_update(s, i as int, e);
                }
                self.entries.set(i, (id, object));
                assert(self.entries@ =~= s.update(i as int, e));
            },
            None => {
                let ghost e = (id, object);
                self.entries.push((id, object));
                assert(self.entries@.drop_last() =~= s);
                assert(self.entries@.last() == e);
            },
        }
    }

    /// The object that `id` is bound to, if it is bound.
    pub fn resolve(&self, id: &str) -> (r: Option<ObjectRef>)
        requires
            self.wf(),
        ensures
            r == if self@.contains_key(id@) {
                Some(self@[id@])
            } else {
                None
            },
    {
        match self.position(id) {
            Some(i) => {
                proof {
                    lemma_bindings_lookup(self.entries@, i as int);
                }
                Some(self.entries[i].1)
            },
            None => {
                proof {
                    lemma_bindings_absent(self.entries@, id@);
                }
                None
            },
        }
    }
}

/// After two bindings of the same id, resolving it gives the later reference.
pub proof fn lemma_rebinding_keeps_latest(
    m: Map<Seq<char>, ObjectRef>,
    id: Seq<char>,
    first: ObjectRef,
    second: ObjectRef,
)
    ensures
        m.insert(id, first).insert(id, second).contains_key(id),
        m.insert(id, first).insert(id, second)[id] == second,
        m.insert(id, first).insert(id, second) == m.insert(id, second),
{
    assert(m.insert(id, first).insert(id, second) =~= m.insert(id, second));
}

} // verus!
