use vstd::prelude::*;

verus! {

use crate::index::Index;
use crate::kvstore::KvStore;
use crate::object::ObjectStore;
use crate::reference::RefStore;

/// The whole repository picture the engine works on: the object store, the
/// reference store and the staging index. A single explicit value of it is
/// threaded through every operation.
pub struct Repository {
    pub objects: ObjectStore,
    pub refs: RefStore,
    pub index: Index,
}

impl Repository {
    /// Every store is well formed.
    pub open spec fn wf(&self) -> bool {
        &&& self.objects.wf()
        &&& self.refs.wf()
        &&& self.index.wf()
    }

    /// A freshly initialized repository: no objects, an empty staging
    /// area, and `HEAD` pointing symbolically at the `master` branch,
    /// which does not exist until the first commit.
    pub fn init() -> (r: Repository)
        ensures
            r.wf(),
            r.objects@ == Map::<Seq<char>, Seq<u8>>::empty(),
            r.index.entries@ == Map::<Seq<char>, crate::index::EntryModel>::empty(),
            r.refs@ == Map::<Seq<char>, Seq<char>>::empty().insert(
                "HEAD"@,
                "ref: refs/heads/master\n"@,
            ),
    {
        let mut refs: RefStore = KvStore::new();
        refs.insert(("HEAD").to_owned(), ("ref: refs/heads/master\n").to_owned());
        Repository { objects: KvStore::new(), refs, index: Index::new() }
    }
}

} // verus!
