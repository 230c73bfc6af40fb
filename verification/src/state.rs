//! The per-file sync state: tombstoned entries keyed by workspace-relative
//! path, the unit that reconciliation and the wire protocol exchange.
//!
//! The mapping is held as a vector of `(path, entry)` pairs with unique keys;
//! its contracts speak of the derived `Map` from paths to entry values.

use vstd::prelude::*;

verus! {

/// The abstract value of a `FileEntry`.
pub struct FileEntryV {
    pub hash: Option<Seq<char>>,
    pub is_deleted: bool,
    pub last_modified: u64,
}

/// One tracked file: an optional content digest (lowercase hex SHA-256),
/// a tombstone flag, and the time of the last change in milliseconds UTC.
pub struct FileEntry {
    pub hash: Option<String>,
    pub is_deleted: bool,
    pub last_modified: u64,
}

impl View for FileEntry {
    type V = FileEntryV;

    open spec fn view(&self) -> FileEntryV {
        FileEntryV {
            hash: if self.hash is Some {
                Some(self.hash->0@)
            } else {
                None
            },
            is_deleted: self.is_deleted,
            last_modified: self.last_modified,
        }
    }
}

/// A deleted entry carries no hash; a live entry always carries one.
pub open spec fn entry_wf(e: FileEntryV) -> bool {
    e.is_deleted <==> e.hash is None
}

/// Two entries describe the same file state: both tombstones of the same
/// time, or both live with the same content digest.
pub open spec fn entries_equivalent(a: FileEntryV, b: FileEntryV) -> bool {
    ||| (a.is_deleted && b.is_deleted && a.last_modified == b.last_modified)
    ||| (!a.is_deleted && !b.is_deleted && a.hash == b.hash)
}

impl FileEntry {
    /// A live entry for a file with the given digest and modification time.
    pub fn new(hash: String, last_modified: u64) -> (r: FileEntry)
        ensures
            r@ == (FileEntryV { hash: Some(hash@), is_deleted: false, last_modified }),
            entry_wf(r@),
    {
        FileEntry { hash: Some(hash), is_deleted: false, last_modified }
    }

    /// A tombstone for the given modification time.
    pub fn new_deleted(last_modified: u64) -> (r: FileEntry)
        ensures
            r@ == (FileEntryV { hash: None, is_deleted: true, last_modified }),
            entry_wf(r@),
    {
        FileEntry { hash: None, is_deleted: true, last_modified }
    }

    /// The same entry turned into a tombstone, keeping its time.
    pub fn deleted(&self) -> (r: FileEntry)
        ensures
            r@ == (FileEntryV {
                hash: None,
                is_deleted: true,
                last_modified: self@.last_modified,
            }),
            entry_wf(r@),
    {
        FileEntry { hash: None, is_deleted: true, last_modified: self.last_modified }
    }

    /// Whether the entry describes a file that currently exists.
    pub fn is_live(&self) -> (r: bool)
        ensures
            r == (!self@.is_deleted && self@.hash is Some),
    {
        !self.is_deleted && self.hash.is_some()
    }

    /// A copy of the entry with the same abstract value.
    pub fn duplicate(&self) -> (r: FileEntry)
        ensures
            r@ == self@,
    {
        FileEntry {
            hash: match &self.hash {
                Some(h) => Some(h.clone()),
                None => None,
            },
            is_deleted: self.is_deleted,
            last_modified: self.last_modified,
        }
    }
}

/// No path occurs twice among the pairs.
pub open spec fn unique_keys(s: Seq<(Seq<char>, FileEntryV)>) -> bool {
    forall|i: int, j: int| 0 <= i < j < s.len() ==> s[i].0 != s[j].0
}

/// The mapping that a pair sequence denotes; later pairs win.
pub open spec fn map_of(s: Seq<(Seq<char>, FileEntryV)>) -> Map<Seq<char>, FileEntryV>
    decreases s.len(),
{
    if s.len() == 0 {
        Map::<Seq<char>, FileEntryV>::empty()
    } else {
        map_of(s.drop_last()).insert(s.last().0, s.last().1)
    }
}

pub proof fn lemma_map_of_contains(s: Seq<(Seq<char>, FileEntryV)>)
    ensures
        forall|p: Seq<char>|
            map_of(s).contains_key(p) <==> exists|i: int| 0 <= i < s.len() && #[trigger] s[i].0 == p,
    decreases s.len(),
{
    if s.len() > 0 {
        lemma_map_of_contains(s.drop_last());
        assert(map_of(s) == map_of(s.drop_last()).insert(s.last().0, s.last().1));
        assert forall|p: Seq<char>| map_of(s).contains_key(p) implies
            exists|i: int| 0 <= i < s.len() && #[trigger] s[i].0 == p by {
            if p == s.last().0 {
                assert(s[s.len() - 1].0 == p);
            } else {
                assert(map_of(s.drop_last()).contains_key(p));
                let i = choose|i: int| 0 <= i < s.drop_last().len() && #[trigger] s.drop_last()[i].0 == p;
                assert(s[i] == s.drop_last()[i]);
                assert(s[i].0 == p);
            }
        }
        assert forall|p: Seq<char>|
            (exists|i: int| 0 <= i < s.len() && #[trigger] s[i].0 == p) implies
            map_of(s).contains_key(p) by {
            let i = choose|i: int| 0 <= i < s.len() && #[trigger] s[i].0 == p;
            if i < s.len() - 1 {
                assert(s.drop_last()[i].0 == p);
            }
        }
    }
}

pub proof fn lemma_map_of_index(s: Seq<(Seq<char>, FileEntryV)>)
    requires
        unique_keys(s),
    ensures
        forall|i: int| 0 <= i < s.len() ==> map_of(s)[#[trigger] s[i].0] == s[i].1,
    decreases s.len(),
{
    if s.len() > 0 {
        assert(unique_keys(s.drop_last()));
        lemma_map_of_index(s.drop_last());
        assert forall|i: int| 0 <= i < s.len() implies map_of(s)[#[trigger] s[i].0] == s[i].1 by {
            if i < s.len() - 1 {
                assert(s[i].0 != s.last().0);
                assert(s.drop_last()[i] == s[i]);
            }
        }
    }
}

pub proof fn lemma_map_of_update(s: Seq<(Seq<char>, FileEntryV)>, i: int, e: FileEntryV)
    requires
        unique_keys(s),
        0 <= i < s.len(),
    ensures
        map_of(s.update(i, (s[i].0, e))) =~= map_of(s).insert(s[i].0, e),
    decreases s.len(),
{
    let t = s.update(i, (s[i].0, e));
    if i == s.len() - 1 {
        assert(t.drop_last() =~= s.drop_last());
        assert(t.last() == (s[i].0, e));
    } else {
        assert(t.drop_last() =~= s.drop_last().update(i, (s[i].0, e)));
        assert(unique_keys(s.drop_last()));
        assert(s.drop_last()[i] == s[i]);
        lemma_map_of_update(s.drop_last(), i, e);
        assert(t.last() == s.last());
        assert(s[i].0 != s.last().0);
    }
}

pub proof fn lemma_map_of_push(s: Seq<(Seq<char>, FileEntryV)>, p: Seq<char>, e: FileEntryV)
    ensures
        map_of(s.push((p, e))) =~= map_of(s).insert(p, e),
{
    assert(s.push((p, e)).drop_last() =~= s);
    assert(s.push((p, e)).last() == (p, e));
}

/// The sync state: workspace-relative paths mapped to file entries.
pub struct SyncState {
    pub entries: Vec<(String, FileEntry)>,
}

impl View for SyncState {
    type V = Seq<(Seq<char>, FileEntryV)>;

    open spec fn view(&self) -> Seq<(Seq<char>, FileEntryV)> {
        self.entries@.map(|i: int, pe: (String, FileEntry)| (pe.0@, pe.1@))
    }
}

impl SyncState {
    /// The mapping this state denotes.
    pub open spec fn as_map(&self) -> Map<Seq<char>, FileEntryV> {
        map_of(self@)
    }

    /// Paths are unique and every entry is well formed.
    pub open spec fn wf(&self) -> bool {
        &&& unique_keys(self@)
        &&& forall|i: int| 0 <= i < self@.len() ==> entry_wf(#[trigger] self@[i].1)
    }

    /// An empty state.
    pub fn new() -> (r: SyncState)
        ensures
            r@ == Seq::<(Seq<char>, FileEntryV)>::empty(),
            r.as_map() == Map::<Seq<char>, FileEntryV>::empty(),
            r.wf(),
    {
        SyncState { entries: Vec::new() }
    }

    /// How many paths the state tracks (live entries and tombstones both).
    pub fn file_count(&self) -> (r: usize)
        ensures
            r == self@.len(),
    {
        self.entries.len()
    }

    /// Find the index of a path, if present.
    fn find(&self, path: &String) -> (r: Option<usize>)
        ensures
            match r {
                Some(i) => i < self@.len() && self@[i as int].0 == path@,
                None => forall|i: int| 0 <= i < self@.len() ==> self@[i].0 != path@,
            },
    {
        let mut i: usize = 0;
        while i < self.entries.len()
            invariant
                i <= self@.len(),
                self@.len() == self.entries@.len(),
                forall|j: int| 0 <= j < i ==> self@[j].0 != path@,
            decreases self@.len() - i,
        {
            if self.entries[i].0 == *path {
                return Some(i);
            }
            i = i + 1;
        }
        None
    }

    /// Look a path up.
    pub fn get_file(&self, path: &String) -> (r: Option<&FileEntry>)
        requires
            self.wf(),
        ensures
            match r {
                Some(e) => self.as_map().contains_key(path@) && e@ == self.as_map()[path@],
                None => !self.as_map().contains_key(path@),
            },
    {
        proof {
            lemma_map_of_contains(self@);
            lemma_map_of_index(self@);
        }
        match self.find(path) {
            Some(i) => Some(&self.entries[i].1),
            None => None,
        }
    }

    /// Whether the path is tracked and currently live.
    pub fn file_exists(&self, path: &String) -> (r: bool)
        requires
            self.wf(),
        ensures
            r == (self.as_map().contains_key(path@) && !self.as_map()[path@].is_deleted),
    {
        let r = match self.get_file(path) {
            Some(e) => e.is_live(),
            None => false,
        };
        proof {
            lemma_map_of_contains(self@);
            lemma_map_of_index(self@);
            if self.as_map().contains_key(path@) {
                let i = choose|i: int| 0 <= i < self@.len() && #[trigger] self@[i].0 == path@;
                assert(entry_wf(self@[i].1));
                assert(self.as_map()[self@[i].0] == self@[i].1);
            }
        }
        r
    }

    /// Insert or replace the entry for a path.
    pub fn add_file(&mut self, path: String, entry: FileEntry)
        requires
            old(self).wf(),
            entry_wf(entry@),
        ensures
            final(self).wf(),
            final(self).as_map() == old(self).as_map().insert(path@, entry@),
            final(self)@.len() <= old(self)@.len() + 1,
    {
        proof {
            lemma_map_of_contains(self@);
        }
        match self.find(&path) {
            Some(i) => {
                let ghost old_seq = self@;
                proof {
                    lemma_map_of_update(old_seq, i as int, entry@);
                }
                self.entries.remove(i);
                self.entries.insert(i, (path, entry));
                proof {
                    assert(self@ =~= old_seq.update(i as int, (old_seq[i as int].0, entry@)));
                }
            },
            None => {
                let ghost old_seq = self@;
                proof {
                    lemma_map_of_push(old_seq, path@, entry@);
                }
                self.entries.push((path, entry));
                proof {
                    assert(self@ =~= old_seq.push((path@, entry@)));
                }
            },
        }
    }

    /// Record a content change: a live entry with the new digest, stamped now.
    pub fn update_file(&mut self, path: String, new_hash: String, now: u64)
        requires
            old(self).wf(),
        ensures
            final(self).wf(),
            final(self).as_map() == old(self).as_map().insert(
                path@,
                FileEntryV { hash: Some(new_hash@), is_deleted: false, last_modified: now },
            ),
    {
        let entry = FileEntry::new(new_hash, now);
        self.add_file(path, entry);
    }

    /// Record a deletion: a tombstone stamped now. Idempotent.
    pub fn delete_file(&mut self, path: String, now: u64)
        requires
            old(self).wf(),
        ensures
            final(self).wf(),
            final(self).as_map() == old(self).as_map().insert(
                path@,
                FileEntryV { hash: None, is_deleted: true, last_modified: now },
            ),
    {
        let entry = FileEntry::new_deleted(now);
        self.add_file(path, entry);
    }

    /// Drop a path from the state entirely (no tombstone).
    pub fn remove_file(&mut self, path: &String)
        requires
            old(self).wf(),
        ensures
            final(self).wf(),
            final(self).as_map() == old(self).as_map().remove(path@),
    {
        proof {
            lemma_map_of_contains(self@);
        }
        match self.find(path) {
            Some(i) => {
                let ghost old_seq = self@;
                self.entries.remove(i);
                proof {
                    assert(self@ =~= old_seq.remove(i as int));
                    lemma_map_of_remove(old_seq, i as int);
                }
            },
            None => {
                proof {
                    assert(self.as_map() =~= self.as_map().remove(path@));
                }
            },
        }
    }

    /// A deep copy: the snapshot other components receive.
    pub fn snapshot(&self) -> (r: SyncState)
        ensures
            r@ == self@,
    {
        let mut entries: Vec<(String, FileEntry)> = Vec::new();
        let mut i: usize = 0;
        while i < self.entries.len()
            invariant
                i <= self.entries@.len(),
                entries@.len() == i as int,
                forall|j: int| 0 <= j < i ==> #[trigger] entries@[j].0@ == self.entries@[j].0@
                    && entries@[j].1@ == self.entries@[j].1@,
            decreases self.entries@.len() - i,
        {
            let path = self.entries[i].0.clone();
            let entry = self.entries[i].1.duplicate();
            entries.push((path, entry));
            i = i + 1;
        }
        let r = SyncState { entries };
        proof {
            assert(r@ =~= self@);
        }
        r
    }
}

pub proof fn lemma_map_of_remove(s: Seq<(Seq<char>, FileEntryV)>, i: int)
    requires
        unique_keys(s),
        0 <= i < s.len(),
    ensures
        map_of(s.remove(i)) =~= map_of(s).remove(s[i].0),
    decreases s.len(),
{
    let t = s.remove(i);
    if i == s.len() - 1 {
        assert(t =~= s.drop_last());
        lemma_map_of_contains(s.drop_last());
        assert(forall|j: int| 0 <= j < s.drop_last().len() ==> #[trigger] s.drop_last()[j].0 != s[i].0);
        assert(!map_of(s.drop_last()).contains_key(s[i].0));
        assert(map_of(s.drop_last()) =~= map_of(s.drop_last()).insert(s.last().0, s.last().1).remove(
            s[i].0,
        ));
    } else {
        assert(t.drop_last() =~= s.drop_last().remove(i));
        assert(t.last() == s.last());
        assert(unique_keys(s.drop_last()));
        assert(s.drop_last()[i] == s[i]);
        lemma_map_of_remove(s.drop_last(), i);
        assert(s[i].0 != s.last().0);
    }
}

impl SyncState {
    /// Check well-formedness of a state that arrived over the wire: every
    /// entry consistent and no path tracked twice.
    pub fn check_wf(&self) -> (r: bool)
        ensures
            r == self.wf(),
    {
        let n = self.entries.len();
        let mut i: usize = 0;
        while i < n
            invariant
                n == self@.len(),
                i <= n,
                forall|a: int, b: int| 0 <= a < b < i ==> self@[a].0 != self@[b].0,
                forall|a: int| 0 <= a < i ==> entry_wf(#[trigger] self@[a].1),
            decreases n - i,
        {
            let e = &self.entries[i].1;
            let entry_ok = if e.is_deleted {
                e.hash.is_none()
            } else {
                e.hash.is_some()
            };
            if !entry_ok {
                proof {
                    assert(!entry_wf(self@[i as int].1));
                }
                return false;
            }
            let mut j: usize = 0;
            while j < i
                invariant
                    n == self@.len(),
                    j <= i < n,
                    forall|b: int| 0 <= b < j ==> self@[b].0 != self@[i as int].0,
                decreases i - j,
            {
                if self.entries[j].0.eq(&self.entries[i].0) {
                    proof {
                        assert(self@[j as int].0 == self@[i as int].0);
                    }
                    return false;
                }
                j = j + 1;
            }
            proof {
                assert(entry_wf(self@[i as int].1));
                assert forall|a: int, b: int| 0 <= a < b < i + 1 implies self@[a].0 != self@[
                    b].0 by {
                    if b < i {
                    } else {
                        assert(self@[a].0 != self@[i as int].0);
                    }
                }
            }
            i = i + 1;
        }
        true
    }
}

} // verus!
