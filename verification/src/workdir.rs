use vstd::prelude::*;

verus! {

use crate::kvstore::KvStore;
use crate::strings::str_eq;

/// The picture of the working directory the engine reconciles: the tracked
/// area's files, each a path and its bytes, and the directories present.
/// The control directory is no part of it.
pub struct Workdir {
    pub files: KvStore<Vec<u8>>,
    pub dirs: Vec<String>,
}

impl Workdir {
    pub open spec fn wf(&self) -> bool {
        self.files.wf()
    }

    /// The map from file path to content.
    pub open spec fn files_map(&self) -> Map<Seq<char>, Seq<u8>> {
        self.files@
    }

    /// The set of directory paths present.
    pub open spec fn dirs_set(&self) -> Set<Seq<char>> {
        Set::new(|d: Seq<char>| exists|i: int| 0 <= i < self.dirs@.len() && self.dirs@[i]@ == d)
    }

    /// An empty working directory.
    pub fn new() -> (r: Workdir)
        ensures
            r.wf(),
            r.files_map() == Map::<Seq<char>, Seq<u8>>::empty(),
            r.dirs_set() == Set::<Seq<char>>::empty(),
    {
        let r = Workdir { files: KvStore::new(), dirs: Vec::new() };
        proof {
            assert(r.dirs_set() =~= Set::<Seq<char>>::empty());
        }
        r
    }

    /// Whether a directory is present.
    pub fn has_dir(&self, d: &str) -> (b: bool)
        ensures
            b == self.dirs_set().contains(d@),
    {
        let mut i: usize = 0;
        while i < self.dirs.len()
            invariant
                0 <= i <= self.dirs@.len(),
                forall|j: int| 0 <= j < i ==> self.dirs@[j]@ != d@,
            decreases self.dirs@.len() - i,
        {
            if str_eq(self.dirs[i].as_str(), d) {
                return true;
            }
            i += 1;
        }
        false
    }

    /// Makes a directory present; one already present stays as it is.
    pub fn add_dir(&mut self, d: String)
        ensures
            final(self).wf() == old(self).wf(),
            final(self).files_map() == old(self).files_map(),
            final(self).dirs_set() == old(self).dirs_set().insert(d@),
    {
        self.dirs.push(d);
        proof {
            assert(forall|j: int| 0 <= j < old(self).dirs@.len() ==> self.dirs@[j] == old(
                self,
            ).dirs@[j]);
            assert(self.dirs@[old(self).dirs@.len() as int]@ == d@);
            assert(final(self).dirs_set() =~= old(self).dirs_set().insert(d@));
        }
    }

    /// Writes a file: stores `data` under `path`, replacing what was there.
    pub fn write_file(&mut self, path: String, data: Vec<u8>)
        requires
            old(self).wf(),
        ensures
            final(self).wf(),
            final(self).files_map() == old(self).files_map().insert(path@, data@),
            final(self).dirs_set() == old(self).dirs_set(),
    {
        self.files.insert(path, data);
    }

    /// The content of the file at `path`, if one is present.
    pub fn get_file(&self, path: &str) -> (r: Option<&Vec<u8>>)
        requires
            self.wf(),
        ensures
            match r {
                Some(d) => self.files_map().contains_key(path@) && d@ == self.files_map()[path@],
                None => !self.files_map().contains_key(path@),
            },
    {
        self.files.get(path)
    }

    /// Removes the file at `path`; a working directory without it is left
    /// as it is.
    pub fn remove_file(&mut self, path: &str)
        requires
            old(self).wf(),
        ensures
            final(self).wf(),
            final(self).files_map() == old(self).files_map().remove(path@),
            final(self).dirs_set() == old(self).dirs_set(),
    {
        self.files.remove(path);
    }
}

} // verus!
