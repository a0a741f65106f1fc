//! Versions of background operations, one counter per kind of operation.
//!
//! Starting an operation of some kind bumps that kind's version; an operation
//! that is still running later asks whether its own version is the current one
//! and stops when it is not.  Cancelling is starting a new version that no
//! running operation holds.
use vstd::prelude::*;

verus! {

/// The version that the next `begin` of `kind` hands out: one more than the
/// current version, or 1 for a kind that was never started.
pub open spec fn next_version(versions: Map<Seq<char>, u64>, kind: Seq<char>) -> int {
    if versions.contains_key(kind) {
        versions[kind] + 1
    } else {
        1
    }
}

/// Whether `id` is the current version of `kind`.
pub open spec fn is_current_version(versions: Map<Seq<char>, u64>, kind: Seq<char>, id: u64) -> bool {
    versions.contains_key(kind) && versions[kind] == id
}

/// Whether `kind` can still be started without its counter overflowing.
pub open spec fn can_begin(versions: Map<Seq<char>, u64>, kind: Seq<char>) -> bool {
    versions.contains_key(kind) ==> versions[kind] < u64::MAX
}

/// Each kind has one entry, and the entries hold exactly the versions.
spec fn consistent(entries: Seq<(String, u64)>, versions: Map<Seq<char>, u64>) -> bool {
    &&& forall|i: int, j: int|
        0 <= i < j < entries.len() ==> #[trigger] entries[i].0@ != #[trigger] entries[j].0@
    &&& forall|i: int|
        0 <= i < entries.len() ==> {
            &&& versions.contains_key(#[trigger] entries[i].0@)
            &&& versions[entries[i].0@] == entries[i].1
        }
    &&& forall|k: Seq<char>|
        #[trigger] versions.contains_key(k) ==> exists|i: int|
            0 <= i < entries.len() && #[trigger] entries[i].0@ == k
}

/// Registry of operation versions, keyed by the kind of operation.
pub struct JobRegistry {
    entries: Vec<(String, u64)>,
    versions: Ghost<Map<Seq<char>, u64>>,
}

impl View for JobRegistry {
    type V = Map<Seq<char>, u64>;

    closed spec fn view(&self) -> Map<Seq<char>, u64> {
        self.versions@
    }
}

impl JobRegistry {
    #[verifier::type_invariant]
    closed spec fn entries_match_versions(&self) -> bool {
        consistent(self.entries@, self.versions@)
    }

    /// An empty registry: no kind has been started.
    pub fn new() -> (r: Self)
        ensures
            r@ == Map::<Seq<char>, u64>::empty(),
    {
        JobRegistry { entries: Vec::new(), versions: Ghost(Map::empty()) }
    }

    /// Position of `kind` among the entries, if it was ever started.
    fn position(&self, kind: &String) -> (r: Option<usize>)
        ensures
            match r {
                Some(i) => i < self.entries@.len() && self.entries@[i as int].0@ == kind@,
                None => forall|i: int|
                    0 <= i < self.entries@.len() ==> #[trigger] self.entries@[i].0@ != kind@,
            },
    {
        let mut i: usize = 0;
        while i < self.entries.len()
            invariant
                i <= self.entries@.len(),
                forall|j: int| 0 <= j < i ==> #[trigger] self.entries@[j].0@ != kind@,
            decreases self.entries@.len() - i,
        {
            if self.entries[i].0 == *kind {
                return Some(i);
            }
            i = i + 1;
        }
        None
    }

    /// Moves the entries out, leaving an empty registry behind.
    fn take_entries(&mut self) -> (r: Vec<(String, u64)>)
        ensures
            r@ == old(self).entries@,
            final(self)@ == Map::<Seq<char>, u64>::empty(),
    {
        let mut taken = JobRegistry::new();
        std::mem::swap(self, &mut taken);
        let JobRegistry { entries, versions: _ } = taken;
        entries
    }

    /// Starts a new version of `kind` and returns it; every earlier version of
    /// `kind` stops being current.
    pub fn begin(&mut self, kind: &str) -> (r: u64)
        requires
            can_begin(old(self)@, kind@),
        ensures
            r == next_version(old(self)@, kind@),
            final(self)@ == old(self)@.insert(kind@, r),
    {
        proof {
            use_type_invariant(&*self);
        }
        let key: String = kind.to_owned();
        let ghost versions = self@;
        let ghost old_entries = self.entries@;
        match self.position(&key) {
            Some(i) => {
                proof {
                    assert(versions.contains_key(old_entries[i as int].0@));
                }
                let next = self.entries[i].1 + 1;
                let ghost updated = versions.insert(key@, next);
                let mut entries = self.take_entries();
                entries.set(i, (key, next));
                proof {
                    assert forall|j: int| 0 <= j < entries@.len() implies #[trigger] entries@[j].0@
                        == old_entries[j].0@ by {}
                    assert forall|j: int| 0 <= j < entries@.len() implies {
                        &&& updated.contains_key(#[trigger] entries@[j].0@)
                        &&& updated[entries@[j].0@] == entries@[j].1
                    } by {
                        if j != i {
                            assert(old_entries[j].0@ != old_entries[i as int].0@);
                        }
                    }
                    assert forall|k: Seq<char>| #[trigger] updated.contains_key(k) implies exists|j: int|
                        0 <= j < entries@.len() && #[trigger] entries@[j].0@ == k by {
                        if k != kind@ {
                            assert(versions.contains_key(k));
                            let j = choose|j: int|
                                0 <= j < old_entries.len() && #[trigger] old_entries[j].0@ == k;
                            assert(entries@[j].0@ == k);
                        } else {
                            assert(entries@[i as int].0@ == k);
                        }
                    }
                    assert forall|x: int, y: int| 0 <= x < y < entries@.len() implies #[trigger] entries@[x].0@
                        != #[trigger] entries@[y].0@ by {
                        if y < old_entries.len() {
                            assert(old_entries[x].0@ != old_entries[y].0@);
                        }
                    }
                    assert(consistent(entries@, updated));
                }
                *self = JobRegistry { entries, versions: Ghost(updated) };
                next
            },
            None => {
                let ghost updated = versions.insert(key@, 1);
                let mut entries = self.take_entries();
                entries.push((key, 1));
                proof {
                    assert forall|j: int| 0 <= j < old_entries.len() implies entries@[j] == old_entries[j] by {}
                    assert forall|j: int| 0 <= j < entries@.len() implies {
                        &&& updated.contains_key(#[trigger] entries@[j].0@)
                        &&& updated[entries@[j].0@] == entries@[j].1
                    } by {
                        if j < old_entries.len() {
                            assert(old_entries[j].0@ != kind@);
                        }
                    }
                    assert forall|k: Seq<char>| #[trigger] updated.contains_key(k) implies exists|j: int|
                        0 <= j < entries@.len() && #[trigger] entries@[j].0@ == k by {
                        if k != kind@ {
                            assert(versions.contains_key(k));
                            let j = choose|j: int|
                                0 <= j < old_entries.len() && #[trigger] old_entries[j].0@ == k;
                            assert(entries@[j].0@ == k);
                        } else {
                            assert(entries@[old_entries.len() as int].0@ == k);
                        }
                    }
                    assert forall|x: int, y: int| 0 <= x < y < entries@.len() implies #[trigger] entries@[x].0@
                        != #[trigger] entries@[y].0@ by {
                        if y < old_entries.len() {
                            assert(old_entries[x].0@ != old_entries[y].0@);
                        }
                    }
                    assert(consistent(entries@, updated));
                }
                *self = JobRegistry { entries, versions: Ghost(updated) };
                1
            },
        }
    }

    /// Makes every running operation of `kind` stale by starting a version
    /// that nobody holds.
    pub fn cancel(&mut self, kind: &str)
        requires
            can_begin(old(self)@, kind@),
        ensures
            final(self)@ == old(self)@.insert(kind@, next_version(old(self)@, kind@) as u64),
    {
        self.begin(kind);
    }

    /// Whether `id` is the current version of `kind`.
    pub fn is_current(&self, kind: &str, id: u64) -> (r: bool)
        ensures
            r == is_current_version(self@, kind@, id),
    {
        proof {
            use_type_invariant(self);
        }
        let key: String = kind.to_owned();
        match self.position(&key) {
            Some(i) => self.entries[i].1 == id,
            None => {
                proof {
                    if self.versions@.contains_key(kind@) {
                        let j = choose|j: int|
                            0 <= j < self.entries@.len() && #[trigger] self.entries@[j].0@ == kind@;
                        assert(self.entries@[j].0@ != kind@);
                    }
                }
                false
            },
        }
    }
}

/// The version handed out by `begin` is current right after it.
pub proof fn law_begin_makes_current(versions: Map<Seq<char>, u64>, kind: Seq<char>)
    requires
        can_begin(versions, kind),
    ensures
        is_current_version(
            versions.insert(kind, next_version(versions, kind) as u64),
            kind,
            next_version(versions, kind) as u64,
        ),
{
}

/// After `begin` (or `cancel`) of `kind`, no version of `kind` that was
/// current before is current any longer.
pub proof fn law_begin_supersedes_previous(versions: Map<Seq<char>, u64>, kind: Seq<char>, id: u64)
    requires
        can_begin(versions, kind),
        is_current_version(versions, kind, id),
    ensures
        !is_current_version(
            versions.insert(kind, next_version(versions, kind) as u64),
            kind,
            id,
        ),
{
}

/// Starting one kind of operation leaves every other kind as it was.
pub proof fn law_begin_leaves_other_kinds(
    versions: Map<Seq<char>, u64>,
    kind: Seq<char>,
    other: Seq<char>,
    id: u64,
)
    requires
        can_begin(versions, kind),
        other != kind,
    ensures
        is_current_version(versions.insert(kind, next_version(versions, kind) as u64), other, id)
            == is_current_version(versions, other, id),
{
}

/// Versions of one kind only grow: the new version is larger than any
/// version that was current for that kind.
pub proof fn law_versions_increase(versions: Map<Seq<char>, u64>, kind: Seq<char>, id: u64)
    requires
        is_current_version(versions, kind, id),
    ensures
        next_version(versions, kind) > id,
{
}

} // verus!
