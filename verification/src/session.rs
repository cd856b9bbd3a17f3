//! Per-project in-memory sessions holding live Arrow record batches.

use vstd::prelude::*;

use crate::text::{owned, same_text};

verus! {

broadcast use vstd::seq_lib::group_seq_properties;

/// Live in-memory state for one project; `B` is the record batch type (arrow's
/// `B` in the store), which the registry only carries.
pub struct ProjectSession<B> {
    pub project_id: String,
    /// Latest schedule snapshot record batch.
    pub schedule_snapshot: Option<B>,
    /// Latest activity record batches.
    pub activities: Vec<B>,
    /// Latest EVM record batch.
    pub evm: Option<B>,
    /// Latest simulation record batch.
    pub simulation: Option<B>,
    /// Latest resource load record batches.
    pub resource_loads: Vec<B>,
}

impl<B> ProjectSession<B> {
    /// A session of `project_id` that holds no batches yet.
    pub open spec fn is_fresh(self, project_id: Seq<char>) -> bool {
        &&& self.project_id@ == project_id
        &&& self.schedule_snapshot is None
        &&& self.activities@.len() == 0
        &&& self.evm is None
        &&& self.simulation is None
        &&& self.resource_loads@.len() == 0
    }

    /// An empty session for `project_id`.
    pub fn new(project_id: &str) -> (r: Self)
        ensures
            r.is_fresh(project_id@),
    {
        ProjectSession {
            project_id: owned(project_id),
            schedule_snapshot: None,
            activities: Vec::new(),
            evm: None,
            simulation: None,
            resource_loads: Vec::new(),
        }
    }
}

/// Registry of active project sessions, one per project id.
pub struct SessionRegistry<B> {
    entries: Vec<(String, ProjectSession<B>)>,
}

impl<B> SessionRegistry<B> {
    /// Each project id has at most one entry.
    ///
    /// A predicate that callers carry rather than a type invariant:
    /// `get_or_create` and `get_mut` hand out `&mut` into the entries, and Verus
    /// does not take a mutable reference into a field of a type with a type
    /// invariant.
    pub closed spec fn wf(self) -> bool {
        forall|i: int, j: int|
            0 <= i < j < self.entries.len() ==> #[trigger] self.entries[i].0@ != #[trigger] self.entries[j].0@
    }

    closed spec fn has_key(self, k: Seq<char>) -> bool {
        exists|i: int| 0 <= i < self.entries.len() && #[trigger] self.entries[i].0@ == k
    }

    /// The sessions by project id.
    pub closed spec fn view(self) -> Map<Seq<char>, ProjectSession<B>> {
        Map::new(
            |k: Seq<char>| self.has_key(k),
            |k: Seq<char>| self.entries[choose|i: int| 0 <= i < self.entries.len() && #[trigger] self.entries[i].0@ == k].1,
        )
    }

    proof fn lemma_entry(self, i: int)
        requires
            self.wf(),
            0 <= i < self.entries.len(),
        ensures
            self@.contains_key(self.entries[i].0@),
            self@[self.entries[i].0@] == self.entries[i].1,
    {
        let k = self.entries[i].0@;
        assert(self.has_key(k));
        let j = choose|j: int| 0 <= j < self.entries.len() && #[trigger] self.entries[j].0@ == k;
        if j != i {
            if j < i {
                assert(self.entries[j].0@ != self.entries[i].0@);
            } else {
                assert(self.entries[i].0@ != self.entries[j].0@);
            }
        }
    }

    proof fn lemma_update_any(self, i: int)
        requires
            self.wf(),
            0 <= i < self.entries.len(),
        ensures
            forall|other: Self|
                #![trigger other@]
                other.entries.len() == self.entries.len() && other.entries[i].0 == self.entries[i].0 && (
                forall|j: int| 0 <= j < self.entries.len() && j != i ==> other.entries[j] == self.entries[j])
                    ==> other.wf() && other@ == self@.insert(self.entries[i].0@, other.entries[i].1),
    {
        assert forall|other: Self|
            #![trigger other@]
            other.entries.len() == self.entries.len() && other.entries[i].0 == self.entries[i].0 && (
            forall|j: int| 0 <= j < self.entries.len() && j != i ==> other.entries[j] == self.entries[j])
                implies other.wf() && other@ == self@.insert(self.entries[i].0@, other.entries[i].1) by {
            let k = self.entries[i].0@;
            let v = other.entries[i].1;
            assert forall|a: int, b: int|
                0 <= a < b < other.entries.len() implies #[trigger] other.entries[a].0@
                != #[trigger] other.entries[b].0@ by {
                assert(other.entries[a].0 == self.entries[a].0);
                assert(other.entries[b].0 == self.entries[b].0);
            }
            assert forall|kk: Seq<char>| #[trigger] other@.contains_key(kk) <==> self@.insert(k, v).contains_key(kk) by {
                if other.has_key(kk) {
                    let j = choose|j: int| 0 <= j < other.entries.len() && #[trigger] other.entries[j].0@ == kk;
                    assert(self.entries[j].0@ == kk);
                }
                if self.has_key(kk) {
                    let j = choose|j: int| 0 <= j < self.entries.len() && #[trigger] self.entries[j].0@ == kk;
                    assert(other.entries[j].0@ == kk);
                }
                if kk == k {
                    assert(other.entries[i].0@ == kk);
                }
            }
            assert forall|kk: Seq<char>| #[trigger] other@.contains_key(kk) implies other@[kk] == self@.insert(k, v)[kk] by {
                let j = choose|j: int| 0 <= j < other.entries.len() && #[trigger] other.entries[j].0@ == kk;
                other.lemma_entry(j);
                if j == i {
                } else {
                    assert(other.entries[j] == self.entries[j]);
                    self.lemma_entry(j);
                }
            }
            assert(other@ =~= self@.insert(k, v));
        }
    }

    proof fn lemma_push(self, other: Self, k: Seq<char>, v: ProjectSession<B>)
        requires
            self.wf(),
            !self@.contains_key(k),
            other.entries@ == self.entries@.push((other.entries@.last().0, v)),
            other.entries@.last().0@ == k,
        ensures
            other.wf(),
            other@ == self@.insert(k, v),
    {
        let n = self.entries.len() as int;
        assert forall|a: int, b: int|
            0 <= a < b < other.entries.len() implies #[trigger] other.entries[a].0@
            != #[trigger] other.entries[b].0@ by {
            if b == n {
                assert(other.entries[a] == self.entries[a]);
                if self.entries[a].0@ == k {
                    self.lemma_entry(a);
                }
            } else {
                assert(other.entries[a] == self.entries[a]);
                assert(other.entries[b] == self.entries[b]);
            }
        }
        assert forall|kk: Seq<char>| #[trigger] other@.contains_key(kk) <==> self@.insert(k, v).contains_key(kk) by {
            if other.has_key(kk) {
                let j = choose|j: int| 0 <= j < other.entries.len() && #[trigger] other.entries[j].0@ == kk;
                if j < n {
                    assert(self.entries[j].0@ == kk);
                }
            }
            if self.has_key(kk) {
                let j = choose|j: int| 0 <= j < self.entries.len() && #[trigger] self.entries[j].0@ == kk;
                assert(other.entries[j].0@ == kk);
            }
            if kk == k {
                assert(other.entries[n].0@ == kk);
            }
        }
        assert forall|kk: Seq<char>| #[trigger] other@.contains_key(kk) implies other@[kk] == self@.insert(k, v)[kk] by {
            let j = choose|j: int| 0 <= j < other.entries.len() && #[trigger] other.entries[j].0@ == kk;
            other.lemma_entry(j);
            if j < n {
                assert(other.entries[j] == self.entries[j]);
                self.lemma_entry(j);
            }
        }
        assert(other@ =~= self@.insert(k, v));
    }

    /// An empty registry.
    pub fn new() -> (r: Self)
        ensures
            r.wf(),
            r@ == Map::<Seq<char>, ProjectSession<B>>::empty(),
    {
        let r = SessionRegistry { entries: Vec::new() };
        assert(r@ =~= Map::<Seq<char>, ProjectSession<B>>::empty());
        r
    }

    fn find(&self, project_id: &str) -> (res: Option<usize>)
        requires
            self.wf(),
        ensures
            match res {
                Some(i) => i < self.entries.len() && self.entries[i as int].0@ == project_id@,
                None => !self@.contains_key(project_id@),
            },
    {
        let mut i: usize = 0;
        while i < self.entries.len()
            invariant
                i <= self.entries.len(),
                forall|j: int| 0 <= j < i ==> self.entries[j].0@ != project_id@,
            decreases self.entries.len() - i,
        {
            if same_text(self.entries[i].0.as_str(), project_id) {
                return Some(i);
            }
            i = i + 1;
        }
        None
    }

    /// The session of `project_id`, created empty when there is none.
    pub fn get_or_create(&mut self, project_id: &str) -> (r: &mut ProjectSession<B>)
        requires
            old(self).wf(),
        ensures
            final(self).wf(),
            old(self)@.contains_key(project_id@) ==> *r == old(self)@[project_id@],
            !old(self)@.contains_key(project_id@) ==> r.is_fresh(project_id@),
            final(self)@ == old(self)@.insert(project_id@, *final(r)),
    {
        let ghost before = *self;
        let i = match self.find(project_id) {
            Some(i) => {
                proof {
                    self.lemma_entry(i as int);
                }
                i
            },
            None => {
                self.entries.push((owned(project_id), ProjectSession::new(project_id)));
                proof {
                    before.lemma_push(*self, project_id@, self.entries@.last().1);
                    self.lemma_entry(self.entries.len() - 1);
                }
                self.entries.len() - 1
            },
        };
        proof {
            self.lemma_update_any(i as int);
        }
        let entry = &mut self.entries[i];
        &mut entry.1
    }
    /// The session of `project_id`, if there is one.
    pub fn get(&self, project_id: &str) -> (r: Option<&ProjectSession<B>>)
        requires
            self.wf(),
        ensures
            match r {
                Some(s) => self@.contains_key(project_id@) && *s == self@[project_id@],
                None => !self@.contains_key(project_id@),
            },
    {
        match self.find(project_id) {
            Some(i) => {
                proof {
                    self.lemma_entry(i as int);
                }
                Some(&self.entries[i].1)
            },
            None => None,
        }
    }

    /// The session of `project_id` for changing, if there is one.
    pub fn get_mut(&mut self, project_id: &str) -> (r: Option<&mut ProjectSession<B>>)
        requires
            old(self).wf(),
        ensures
            final(self).wf(),
            match r {
                Some(s) => {
                    &&& old(self)@.contains_key(project_id@)
                    &&& *s == old(self)@[project_id@]
                    &&& final(self)@ == old(self)@.insert(project_id@, *final(s))
                },
                None => !old(self)@.contains_key(project_id@) && final(self)@ == old(self)@,
            },
    {
        match self.find(project_id) {
            Some(i) => {
                proof {
                    self.lemma_entry(i as int);
                    self.lemma_update_any(i as int);
                }
                let entry = &mut self.entries[i];
                Some(&mut entry.1)
            },
            None => None,
        }
    }

    proof fn lemma_remove(self, other: Self, i: int)
        requires
            self.wf(),
            0 <= i < self.entries.len(),
            other.entries@ == self.entries@.remove(i),
        ensures
            other.wf(),
            other@ == self@.remove(self.entries[i].0@),
    {
        let k = self.entries[i].0@;
        assert forall|a: int, b: int|
            0 <= a < b < other.entries.len() implies #[trigger] other.entries[a].0@
            != #[trigger] other.entries[b].0@ by {
            let sa = if a < i { a } else { a + 1 };
            let sb = if b < i { b } else { b + 1 };
            assert(other.entries[a] == self.entries[sa]);
            assert(other.entries[b] == self.entries[sb]);
        }
        assert forall|kk: Seq<char>| #[trigger] other@.contains_key(kk) <==> self@.remove(k).contains_key(kk) by {
            if other.has_key(kk) {
                let j = choose|j: int| 0 <= j < other.entries.len() && #[trigger] other.entries[j].0@ == kk;
                let sj = if j < i { j } else { j + 1 };
                assert(self.entries[sj].0@ == kk);
                assert(sj != i);
                if kk == k {
                    if sj < i {
                        assert(self.entries[sj].0@ != self.entries[i].0@);
                    } else {
                        assert(self.entries[i].0@ != self.entries[sj].0@);
                    }
                }
            }
            if self.has_key(kk) && kk != k {
                let j = choose|j: int| 0 <= j < self.entries.len() && #[trigger] self.entries[j].0@ == kk;
                assert(j != i);
                let oj = if j < i { j } else { j - 1 };
                assert(other.entries[oj].0@ == kk);
            }
        }
        assert forall|kk: Seq<char>| #[trigger] other@.contains_key(kk) implies other@[kk] == self@.remove(k)[kk] by {
            let j = choose|j: int| 0 <= j < other.entries.len() && #[trigger] other.entries[j].0@ == kk;
            other.lemma_entry(j);
            let sj = if j < i { j } else { j + 1 };
            assert(other.entries[j] == self.entries[sj]);
            self.lemma_entry(sj);
        }
        assert(other@ =~= self@.remove(k));
    }

    /// Drops the session of `project_id`, if any.
    pub fn remove(&mut self, project_id: &str)
        requires
            old(self).wf(),
        ensures
            final(self).wf(),
            final(self)@ == old(self)@.remove(project_id@),
    {
        match self.find(project_id) {
            Some(i) => {
                let ghost before = *self;
                self.entries.remove(i);
                proof {
                    before.lemma_remove(*self, i as int);
                }
            },
            None => {
                assert(self@ =~= self@.remove(project_id@));
            },
        }
    }
}

impl<B> Default for SessionRegistry<B> {
    fn default() -> (r: Self)
        ensures
            r.wf(),
            r@ == Map::<Seq<char>, ProjectSession<B>>::empty(),
    {
        Self::new()
    }
}

/// A session written through `get_or_create` (or changed through `get_mut`) is
/// what `get` then returns for that project.
pub proof fn lemma_get_returns_written<B>(
    before: SessionRegistry<B>,
    after: SessionRegistry<B>,
    project_id: Seq<char>,
    written: ProjectSession<B>,
)
    requires
        after@ == before@.insert(project_id, written),
    ensures
        after@.contains_key(project_id),
        after@[project_id] == written,
{
}

/// Writing one project's session leaves every other project's session as it was.
pub proof fn lemma_write_keeps_others<B>(
    before: SessionRegistry<B>,
    after: SessionRegistry<B>,
    project_id: Seq<char>,
    written: ProjectSession<B>,
    other: Seq<char>,
)
    requires
        after@ == before@.insert(project_id, written),
        other != project_id,
    ensures
        after@.contains_key(other) == before@.contains_key(other),
        before@.contains_key(other) ==> after@[other] == before@[other],
{
}

/// After `remove`, `get` finds no session for that project, and the others stay.
pub proof fn lemma_removed_not_found<B>(
    before: SessionRegistry<B>,
    after: SessionRegistry<B>,
    project_id: Seq<char>,
    other: Seq<char>,
)
    requires
        after@ == before@.remove(project_id),
    ensures
        !after@.contains_key(project_id),
        other != project_id ==> after@.contains_key(other) == before@.contains_key(other),
        other != project_id && before@.contains_key(other) ==> after@[other] == before@[other],
{
}

/// `get_or_create` on a project that already has a session, with the session
/// left unchanged, leaves the registry as it was.
pub proof fn lemma_existing_session_kept<B>(
    before: SessionRegistry<B>,
    after: SessionRegistry<B>,
    project_id: Seq<char>,
)
    requires
        before@.contains_key(project_id),
        after@ == before@.insert(project_id, before@[project_id]),
    ensures
        after@ == before@,
{
    assert(before@.insert(project_id, before@[project_id]) =~= before@);
}

} // verus!
