//! A backend that keeps its objects in memory.
use crate::assoc::{
    as_map, distinct_keys, key_at, lemma_entry, lemma_index_of, lemma_len, lemma_push,
    lemma_remove, lemma_update, position,
};
use crate::drivers::{
    directory, has_object_under, now, path_starts_with, starts_with, told_by_clock,
    without_directory, Driver, Files,
};
use crate::errors::DriverError;
use std::time::SystemTime;
use vstd::prelude::*;

verus! {

/// One stored object.
#[derive(Debug)]
pub struct File {
    pub content: Vec<u8>,
    pub last_modified: SystemTime,
}

/// The objects that the entries stand for: the content of each, under its
/// path.
pub open spec fn files_of(entries: Seq<(String, File)>) -> Files {
    as_map(entries).map_values(|file: File| file.content@)
}

/// When each of the objects that the entries stand for was last written.
pub open spec fn stamps_of(entries: Seq<(String, File)>) -> Map<Seq<char>, SystemTime> {
    as_map(entries).map_values(|file: File| file.last_modified)
}

/// An in-memory backend. It holds one entry for each path written and not
/// deleted since, and nothing in it fails for a reason of its own.
#[derive(Debug)]
pub struct InMemoryDriver {
    entries: Vec<(String, File)>,
}

impl InMemoryDriver {
    #[verifier::type_invariant]
    spec fn well_formed(self) -> bool {
        distinct_keys(self.entries@)
    }

    /// When each of the stored objects was last written: the time that
    /// the clock gave at its last write.
    pub closed spec fn stamps(&self) -> Map<Seq<char>, SystemTime> {
        stamps_of(self.entries@)
    }

    /// An empty backend.
    pub fn new() -> (driver: Self)
        ensures
            driver.files() == Files::empty(),
            driver.stamps() == Map::<Seq<char>, SystemTime>::empty(),
            driver.reliable(),
    {
        let driver = InMemoryDriver { entries: Vec::new() };
        assert(files_of(driver.entries@) =~= Files::empty());
        assert(stamps_of(driver.entries@) =~= Map::<Seq<char>, SystemTime>::empty());
        driver
    }

    /// The stored objects, each under its path: a copy of the backend's
    /// entries.
    pub fn get_files(&self) -> (files: Vec<(String, File)>)
        ensures
            distinct_keys(files@),
            files_of(files@) == self.files(),
            stamps_of(files@) == self.stamps(),
            files@.len() == self.files().len(),
    {
        proof {
            use_type_invariant(self);
        }
        let mut files: Vec<(String, File)> = Vec::new();
        let mut i: usize = 0;
        while i < self.entries.len()
            invariant
                i <= self.entries.len(),
                files@.len() == i,
                forall|j: int|
                    0 <= j < i ==> (#[trigger] files@[j]).0@ == self.entries@[j].0@
                        && files@[j].1.content@ == self.entries@[j].1.content@
                        && files@[j].1.last_modified == self.entries@[j].1.last_modified,
            decreases self.entries.len() - i,
        {
            let content = self.entries[i].1.content.clone();
            let file = File { content, last_modified: self.entries[i].1.last_modified };
            files.push((self.entries[i].0.clone(), file));
            i = i + 1;
        }
        proof {
            lemma_same_files(files@, self.entries@);
            lemma_len(self.entries@);
            assert(files_of(self.entries@).dom() =~= as_map(self.entries@).dom());
        }
        files
    }
}

impl Clone for InMemoryDriver {
    /// A backend of its own that holds the same objects, each with the
    /// time of its last write.
    fn clone(&self) -> (copy: Self)
        ensures
            copy.files() == self.files(),
            copy.stamps() == self.stamps(),
    {
        InMemoryDriver { entries: self.get_files() }
    }
}

impl Default for InMemoryDriver {
    fn default() -> (driver: Self)
        ensures
            driver.files() == Files::empty(),
            driver.stamps() == Map::<Seq<char>, SystemTime>::empty(),
            driver.reliable(),
    {
        InMemoryDriver::new()
    }
}

/// Entries with the same paths, contents and times, place by place, stand
/// for the same objects.
proof fn lemma_same_files(a: Seq<(String, File)>, b: Seq<(String, File)>)
    requires
        a.len() == b.len(),
        distinct_keys(b),
        forall|j: int|
            0 <= j < a.len() ==> (#[trigger] a[j]).0@ == b[j].0@ && a[j].1.content@
                == b[j].1.content@ && a[j].1.last_modified == b[j].1.last_modified,
    ensures
        distinct_keys(a),
        files_of(a) == files_of(b),
        stamps_of(a) == stamps_of(b),
{
    assert(distinct_keys(a)) by {
        assert forall|i: int, j: int| 0 <= i < a.len() && 0 <= j < a.len() && i != j implies (
        #[trigger] a[i]).0@ != (#[trigger] a[j]).0@ by {
            assert(b[i].0@ != b[j].0@);
        }
    }
    assert forall|path: Seq<char>| files_of(a).contains_key(path) <==> files_of(b).contains_key(
        path,
    ) by {
        if files_of(a).contains_key(path) {
            let i = choose|i: int| key_at(a, path, i);
            assert(key_at(b, path, i));
        }
        if files_of(b).contains_key(path) {
            let i = choose|i: int| key_at(b, path, i);
            assert(key_at(a, path, i));
        }
    }
    assert forall|path: Seq<char>| files_of(a).contains_key(path) implies files_of(a)[path]
        == files_of(b)[path] && stamps_of(a)[path] == stamps_of(b)[path] by {
        let i = choose|i: int| key_at(a, path, i);
        lemma_entry(a, i);
        lemma_entry(b, i);
    }
    assert(files_of(a) =~= files_of(b));
    assert(stamps_of(a) =~= stamps_of(b));
}

impl Driver for InMemoryDriver {
    closed spec fn files(&self) -> Files {
        files_of(self.entries@)
    }

    open spec fn reliable(&self) -> bool {
        true
    }

    fn read(&self, path: &str) -> (res: Result<Vec<u8>, DriverError>) {
        proof {
            use_type_invariant(self);
        }
        match position(&self.entries, path) {
            Some(i) => {
                proof {
                    lemma_entry(self.entries@, i as int);
                }
                Ok(self.entries[i].1.content.clone())
            },
            None => Err(DriverError::ResourceNotFound),
        }
    }

    fn file_exists(&self, path: &str) -> (res: Result<bool, DriverError>) {
        proof {
            use_type_invariant(self);
        }
        match position(&self.entries, path) {
            Some(i) => {
                proof {
                    lemma_entry(self.entries@, i as int);
                }
                Ok(true)
            },
            None => Ok(false),
        }
    }

    /// The object is then last written at the time that the clock gives
    /// during the call; the times of the other objects stay.
    fn write(&mut self, path: &str, content: Vec<u8>) -> (res: Result<(), DriverError>)
        ensures
            exists|time: SystemTime| #[trigger]
                told_by_clock(time) && final(self).stamps() == old(self).stamps().insert(
                    path@,
                    time,
                ),
    {
        proof {
            use_type_invariant(&*self);
        }
        let time = now();
        proof {
            assert(told_by_clock(time));
        }
        let file = File { content, last_modified: time };
        let entry = (path.to_string(), file);
        let mut entries: Vec<(String, File)> = Vec::new();
        std::mem::swap(&mut entries, &mut self.entries);
        let ghost before = entries@;
        match position(&entries, path) {
            Some(i) => {
                proof {
                    lemma_update(entries@, i as int, entry);
                }
                entries.set(i, entry);
            },
            None => {
                proof {
                    assert forall|i: int| 0 <= i < entries@.len() implies (#[trigger] entries@[i]).0@
                        != entry.0@ by {
                        if entries@[i].0@ == entry.0@ {
                            lemma_entry(entries@, i);
                        }
                    }
                    lemma_push(entries@, entry);
                }
                entries.push(entry);
            },
        }
        proof {
            assert(files_of(entries@) =~= files_of(before).insert(path@, content@));
            assert(stamps_of(entries@) =~= stamps_of(before).insert(path@, time));
        }
        self.entries = entries;
        Ok(())
    }

    /// The time of the object goes with it; where nothing was removed,
    /// nothing changes.
    fn delete(&mut self, path: &str) -> (res: Result<(), DriverError>)
        ensures
            final(self).stamps() == old(self).stamps().remove(path@),
    {
        proof {
            use_type_invariant(&*self);
        }
        let mut entries: Vec<(String, File)> = Vec::new();
        std::mem::swap(&mut entries, &mut self.entries);
        let ghost before = entries@;
        let res = match position(&entries, path) {
            Some(i) => {
                proof {
                    lemma_entry(entries@, i as int);
                    lemma_remove(entries@, i as int);
                }
                let _ = entries.remove(i);
                proof {
                    assert(files_of(entries@) =~= files_of(before).remove(path@));
                    assert(stamps_of(entries@) =~= stamps_of(before).remove(path@));
                }
                Ok(())
            },
            None => {
                proof {
                    assert(stamps_of(before).dom() =~= as_map(before).dom());
                    assert(stamps_of(before) =~= stamps_of(before).remove(path@));
                }
                Err(DriverError::ResourceNotFound)
            },
        };
        self.entries = entries;
        res
    }

    /// The times of the objects that are removed go with them.
    fn delete_directory(&mut self, path: &str) -> (res: Result<(), DriverError>)
        ensures
            final(self).stamps() == old(self).stamps().remove_keys(directory(path@)),
    {
        proof {
            use_type_invariant(&*self);
        }
        let mut entries: Vec<(String, File)> = Vec::new();
        std::mem::swap(&mut entries, &mut self.entries);
        let ghost before = entries@;
        let mut found = false;
        let mut i: usize = 0;
        while i < entries.len()
            invariant
                i <= entries.len(),
                distinct_keys(entries@),
                forall|j: int|
                    0 <= j < i ==> !path_starts_with((#[trigger] entries@[j]).0@, path@),
                without_directory(files_of(entries@), path@) == without_directory(
                    files_of(before),
                    path@,
                ),
                stamps_of(entries@).remove_keys(directory(path@)) == stamps_of(
                    before,
                ).remove_keys(directory(path@)),
                !found ==> entries@ == before,
                found ==> has_object_under(files_of(before), path@),
            decreases entries.len() - i,
        {
            if starts_with(entries[i].0.as_str(), path) {
                proof {
                    let gone = entries@[i as int].0@;
                    lemma_entry(entries@, i as int);
                    lemma_remove(entries@, i as int);
                    assert(files_of(entries@.remove(i as int)) =~= files_of(entries@).remove(gone));
                    assert(without_directory(files_of(entries@).remove(gone), path@)
                        =~= without_directory(files_of(entries@), path@));
                    assert(stamps_of(entries@.remove(i as int)) =~= stamps_of(entries@).remove(
                        gone,
                    ));
                    assert(stamps_of(entries@).remove(gone).remove_keys(directory(path@))
                        =~= stamps_of(entries@).remove_keys(directory(path@)));
                    if !found {
                        assert(files_of(before).contains_key(gone));
                    }
                }
                let _ = entries.remove(i);
                found = true;
            } else {
                i = i + 1;
            }
        }
        proof {
            let left = files_of(entries@);
            assert forall|p: Seq<char>| left.contains_key(p) implies !path_starts_with(
                p,
                path@,
            ) by {
                let j = lemma_index_of(entries@, p);
                assert(!path_starts_with(entries@[j].0@, path@));
            }
            assert(without_directory(left, path@) =~= left);
            assert(stamps_of(entries@).dom() =~= left.dom());
            assert(stamps_of(entries@).remove_keys(directory(path@)) =~= stamps_of(entries@));
        }
        self.entries = entries;
        if found {
            Ok(())
        } else {
            Err(DriverError::ResourceNotFound)
        }
    }

    /// The time is the one that is stored for the object.
    fn last_modified(&self, path: &str) -> (res: Result<SystemTime, DriverError>)
        ensures
            res matches Ok(time) ==> self.stamps().contains_key(path@) && time
                == self.stamps()[path@],
    {
        proof {
            use_type_invariant(self);
        }
        match position(&self.entries, path) {
            Some(i) => {
                proof {
                    lemma_entry(self.entries@, i as int);
                }
                Ok(self.entries[i].1.last_modified)
            },
            None => Err(DriverError::ResourceNotFound),
        }
    }
}

} // verus!
