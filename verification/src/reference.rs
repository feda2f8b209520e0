use vstd::prelude::*;

verus! {

use crate::kvstore::KvStore;
use crate::strings::{strip_prefix_str, trim_str, trim_of};

/// The reference store: a map from a reference name, such as `HEAD` or
/// `refs/heads/master`, to the text its file holds.
pub type RefStore = KvStore<String>;

/// Operations on named references: mutable pointers to object hashes, with
/// one level of symbolic indirection through a `ref: ` prefix.
pub struct Reference;

impl Reference {
    /// Creates or overwrites a reference, storing `target_hash` — a literal
    /// hash or a symbolic `ref: ` line — as its whole content.
    pub fn create(refs: &mut RefStore, ref_name: &str, target_hash: &str)
        requires
            old(refs).wf(),
        ensures
            final(refs).wf(),
            final(refs)@ == old(refs)@.insert(ref_name@, target_hash@),
    {
        refs.insert(ref_name.to_owned(), target_hash.to_owned());
    }

    /// Deletes a reference; a store without it is left as it is.
    pub fn delete(refs: &mut RefStore, ref_name: &str)
        requires
            old(refs).wf(),
        ensures
            final(refs).wf(),
            final(refs)@ == old(refs)@.remove(ref_name@),
    {
        refs.remove(ref_name);
    }

    /// The trimmed content of a reference, or nothing when it is absent.
    /// Symbolic indirection is not followed here; callers strip the
    /// `ref: ` prefix themselves.
    pub fn resolve(refs: &RefStore, ref_name: &str) -> (r: Option<String>)
        requires
            refs.wf(),
        ensures
            match r {
                Some(content) => refs@.contains_key(ref_name@) && content@ == trim_of(
                    refs@[ref_name@],
                ),
                None => !refs@.contains_key(ref_name@),
            },
    {
        match refs.get(ref_name) {
            Some(content) => Some(trim_str(content.as_str())),
            None => None,
        }
    }
}

/// The branch that `HEAD` names, when it is a symbolic reference into the
/// branch namespace: the trimmed text after `ref: refs/heads/`.
pub open spec fn current_branch_of(refs: Map<Seq<char>, Seq<char>>) -> Option<Seq<char>> {
    if refs.contains_key("HEAD"@) && refs["HEAD"@].len() >= "ref: refs/heads/"@.len()
        && refs["HEAD"@].subrange(0, "ref: refs/heads/"@.len() as int) == "ref: refs/heads/"@ {
        Some(
            trim_of(
                refs["HEAD"@].subrange("ref: refs/heads/"@.len() as int, refs["HEAD"@].len() as int),
            ),
        )
    } else {
        None
    }
}

/// The name of the branch currently checked out, as `current_branch_of`
/// describes: nothing when `HEAD` is absent or detached.
pub fn get_current_branch(refs: &RefStore) -> (r: Option<String>)
    requires
        refs.wf(),
    ensures
        match r {
            Some(b) => current_branch_of(refs@) == Some(b@),
            None => current_branch_of(refs@) is None,
        },
{
    let head = match refs.get("HEAD") {
        Some(h) => h,
        None => {
            return None;
        },
    };
    match strip_prefix_str(head.as_str(), "ref: refs/heads/") {
        Some(rest) => Some(trim_str(rest.as_str())),
        None => None,
    }
}

} // verus!
