use vstd::prelude::*;

verus! {

use vstd::string::StrSliceExecFns;
use vstd::string::StringExecFns;
use vstd::utf8::encode_utf8;
use crate::bytes::dec_digits;
use crate::error::GitError;
use crate::index::EntryModel;
use crate::object::{Object, blob_kind, commit_kind, id_of, raw_bytes_of};
use crate::reference::Reference;
use crate::repository::Repository;
use crate::strings::{str_eq, strip_prefix_str, str_starts_with, trim_of, no_nul_chars, path_ok};
use crate::index::Index;
use crate::tree::{TreeProcessor, index_tree_ok, hash_str_wf, builder_ok, staged_snapshot_under, snapshot_of, store_extends, MAX_TREE_DEPTH};
use crate::workdir::Workdir;

/// Stages one file whose content and metadata the caller read from disk:
/// stores the content as a blob object and records the entry under the
/// repository-relative path, replacing any entry for that path.
pub fn stage_single_file(
    repo: &mut Repository,
    rel_path: String,
    content: &[u8],
    mode: u32,
    mtime: u64,
    ctime: u64,
    size: u64,
) -> (sha: String)
    requires
        old(repo).wf(),
        1 <= encode_utf8(rel_path@).len() <= 255,
    ensures
        final(repo).wf(),
        sha@ == id_of(blob_kind(), content@),
        final(repo).objects@ == old(repo).objects@.insert(
            sha@,
            raw_bytes_of(blob_kind(), content@),
        ),
        final(repo).index.entries@ == old(repo).index.entries@.insert(
            rel_path@,
            EntryModel { path: rel_path@, sha: sha@, mode, mtime, ctime, size },
        ),
        final(repo).refs == old(repo).refs,
{
    let data = vstd::slice::slice_to_vec(content);
    let blob = Object::Blob(data);
    let sha = blob.save(&mut repo.objects);
    proof {
        crate::hashing::lemma_hex_of_len(crate::hashing::sha1_of(raw_bytes_of(
            blob_kind(),
            content@,
        )));
    }
    repo.index.stage_file(rel_path, sha.clone(), mode, mtime, ctime, size);
    sha
}

/// Creates a blob object from file content.
pub struct BlobProcessor;

impl BlobProcessor {
    /// Stores `content` as a blob object and returns its identity.
    pub fn create_blob(store: &mut crate::object::ObjectStore, content: &[u8]) -> (sha: String)
        requires
            old(store).wf(),
        ensures
            final(store).wf(),
            sha@ == id_of(blob_kind(), content@),
            final(store)@ == old(store)@.insert(sha@, raw_bytes_of(blob_kind(), content@)),
    {
        let data = vstd::slice::slice_to_vec(content);
        let blob = Object::Blob(data);
        blob.save(store)
    }
}

/// Deduplication: staging two distinct paths with identical content yields
/// two staging entries sharing one blob identity, while the object store
/// gains a single object — storing the blob again changes nothing.
pub proof fn lemma_stage_dedup(
    objects: Map<Seq<char>, Seq<u8>>,
    entries: Map<Seq<char>, EntryModel>,
    p1: Seq<char>,
    p2: Seq<char>,
    content: Seq<u8>,
    e1: EntryModel,
    e2: EntryModel,
)
    requires
        p1 != p2,
        e1.path == p1 && e1.sha == id_of(blob_kind(), content),
        e2.path == p2 && e2.sha == id_of(blob_kind(), content),
    ensures
        ({
            let id = id_of(blob_kind(), content);
            let raw = raw_bytes_of(blob_kind(), content);
            let objects2 = objects.insert(id, raw).insert(id, raw);
            let entries2 = entries.insert(p1, e1).insert(p2, e2);
            &&& objects2 == objects.insert(id, raw)
            &&& objects2.dom() == objects.dom().insert(id)
            &&& entries2.contains_key(p1) && entries2.contains_key(p2)
            &&& entries2[p1].sha == entries2[p2].sha
        }),
{
    let id = id_of(blob_kind(), content);
    let raw = raw_bytes_of(blob_kind(), content);
    assert(objects.insert(id, raw).insert(id, raw) =~= objects.insert(id, raw));
    assert(objects.insert(id, raw).dom() =~= objects.dom().insert(id));
}

/// What removing staged paths leaves of the staging map and the working
/// files: each path present in the staging area loses its entry, and its
/// working file too unless files are kept; a path not staged is skipped.
pub open spec fn rm_fold(
    entries: Map<Seq<char>, EntryModel>,
    files: Map<Seq<char>, Seq<u8>>,
    paths: Seq<Seq<char>>,
    keep_in_workdir: bool,
) -> (Map<Seq<char>, EntryModel>, Map<Seq<char>, Seq<u8>>)
    decreases paths.len(),
{
    if paths.len() == 0 {
        (entries, files)
    } else {
        let (e1, f1) = rm_fold(entries, files, paths.drop_last(), keep_in_workdir);
        let p = paths.last();
        if e1.contains_key(p) {
            (e1.remove(p), if keep_in_workdir { f1 } else { f1.remove(p) })
        } else {
            (e1, f1)
        }
    }
}

/// Removes one file from the staging area, and from the working directory
/// unless it is kept; a path that is not staged is skipped entirely.
pub fn remove_file_from_index_and_workdir(
    repo: &mut Repository,
    workdir: &mut Workdir,
    file_path: &str,
    keep_in_workdir: bool,
) -> (removed: bool)
    requires
        old(repo).wf(),
        old(workdir).wf(),
    ensures
        final(repo).wf(),
        final(workdir).wf(),
        removed == old(repo).index.entries@.contains_key(file_path@),
        final(repo).objects == old(repo).objects,
        final(repo).refs == old(repo).refs,
        removed ==> final(repo).index.entries@ == old(repo).index.entries@.remove(file_path@),
        removed && !keep_in_workdir ==> final(workdir).files_map() == old(
            workdir,
        ).files_map().remove(file_path@),
        removed && keep_in_workdir ==> *final(workdir) == *old(workdir),
        !removed ==> final(repo).index == old(repo).index && *final(workdir) == *old(workdir),
        final(workdir).dirs_set() == old(workdir).dirs_set(),
{
    if !repo.index.entries.contains(file_path) {
        return false;
    }
    repo.index.unstage_file(file_path);
    if !keep_in_workdir {
        workdir.remove_file(file_path);
    }
    true
}

/// Removes the given staged files from the staging area, and from the
/// working directory unless they are kept, as `rm_fold` describes. The
/// caller expands directories to the files inside them first.
pub fn git_rm(
    repo: &mut Repository,
    workdir: &mut Workdir,
    paths: &Vec<String>,
    keep_in_workdir: bool,
)
    requires
        old(repo).wf(),
        old(workdir).wf(),
    ensures
        final(repo).wf(),
        final(workdir).wf(),
        final(repo).objects == old(repo).objects,
        final(repo).refs == old(repo).refs,
        ({
            let (e, f) = rm_fold(
                old(repo).index.entries@,
                old(workdir).files_map(),
                paths@.map_values(|p: String| p@),
                keep_in_workdir,
            );
            final(repo).index.entries@ == e && final(workdir).files_map() == f
        }),
        final(workdir).dirs_set() == old(workdir).dirs_set(),
{
    let ghost pathseq = paths@.map_values(|p: String| p@);
    let mut i: usize = 0;
    proof {
        assert(pathseq.take(0) =~= Seq::<Seq<char>>::empty());
    }
    while i < paths.len()
        invariant
            0 <= i <= paths@.len(),
            pathseq == paths@.map_values(|p: String| p@),
            repo.wf(),
            workdir.wf(),
            repo.objects == old(repo).objects,
            repo.refs == old(repo).refs,
            ({
                let (e, f) = rm_fold(
                    old(repo).index.entries@,
                    old(workdir).files_map(),
                    pathseq.take(i as int),
                    keep_in_workdir,
                );
                repo.index.entries@ == e && workdir.files_map() == f
            }),
            workdir.dirs_set() == old(workdir).dirs_set(),
        decreases paths@.len() - i,
    {
        remove_file_from_index_and_workdir(repo, workdir, paths[i].as_str(), keep_in_workdir);
        proof {
            assert(pathseq.take(i as int + 1).drop_last() =~= pathseq.take(i as int));
            assert(pathseq.take(i as int + 1).last() == pathseq[i as int]);
        }
        i += 1;
    }
    proof {
        assert(pathseq.take(paths@.len() as int) =~= pathseq);
    }
}

/// The payload of a commit made by the commit command: the tree line, the
/// parent line when there is a parent, the author line carrying the fixed
/// author and the decimal timestamp, a blank line, and the message.
pub open spec fn commit_cmd_text_of(
    tree: Seq<char>,
    parent: Option<Seq<char>>,
    timestamp: u64,
    message: Seq<char>,
) -> Seq<u8> {
    encode_utf8("tree "@) + encode_utf8(tree) + encode_utf8("\n"@) + (match parent {
        Some(p) => encode_utf8("parent "@) + encode_utf8(p) + encode_utf8("\n"@),
        None => Seq::<u8>::empty(),
    }) + encode_utf8("author You <you@example.com> "@) + dec_digits(timestamp as nat)
        + encode_utf8("\n\n"@) + encode_utf8(message)
}

/// Records the staging area as a commit: builds the tree snapshot, writes
/// a commit object carrying the given timestamp, and advances the current
/// branch — or `HEAD` itself, when it is detached — to the new commit.
pub fn git_commit(repo: &mut Repository, message: &str, timestamp: u64) -> (sha: String)
    requires
        old(repo).wf(),
        index_tree_ok(&old(repo).index),
    ensures
        final(repo).wf(),
        final(repo).index == old(repo).index,
        hash_str_wf(sha@),
        final(repo).objects@.contains_key(sha@),
        forall|k: Seq<char>|
            #[trigger] old(repo).objects@.contains_key(k) ==> final(repo).objects@.contains_key(k),
        builder_ok(old(repo).objects@, old(repo).index.entries@) ==> store_extends(
            old(repo).objects@,
            final(repo).objects@,
        ),
        exists|tree_sha: Seq<char>|
            {
                let payload = #[trigger] commit_cmd_text_of(
                    tree_sha,
                    current_parent_of(old(repo).refs@),
                    timestamp,
                    message@,
                );
                &&& hash_str_wf(tree_sha)
                &&& sha@ == id_of(commit_kind(), payload)
                &&& final(repo).objects@[sha@] == raw_bytes_of(commit_kind(), payload)
                &&& (builder_ok(old(repo).objects@, old(repo).index.entries@) ==> snapshot_of(
                    final(repo).objects@,
                    tree_sha,
                    Seq::<char>::empty(),
                    MAX_TREE_DEPTH as nat,
                ) == Some(
                    staged_snapshot_under(old(repo).index.entries@, Seq::<char>::empty()),
                ))
                &&& final(repo).refs@ == (match current_commit_ref_of(old(repo).refs@) {
                    Some(r) => old(repo).refs@.insert(r, sha@),
                    None => old(repo).refs@.insert("HEAD"@, sha@),
                })
            },
{
    let tree_sha = TreeProcessor::create_tree_from_index(&mut repo.objects, &repo.index);
    let ghost tstore = repo.objects@;
    let head_content = match repo.refs.get("HEAD") {
        Some(h) => h.clone(),
        None => String::new(),
    };
    let branch_name: Option<String> = if str_starts_with(head_content.as_str(), "ref:") {
        match strip_prefix_str(head_content.as_str(), "ref: ") {
            Some(rest) => Some(crate::strings::trim_str(rest.as_str())),
            None => Some(crate::strings::trim_str(head_content.as_str())),
        }
    } else {
        None
    };
    proof {
        reveal_strlit("ref:");
        reveal_strlit("ref: ");
        assert((match branch_name {
            Some(b) => Some(b@),
            None => None::<Seq<char>>,
        }) == current_commit_ref_of(old(repo).refs@));
    }
    let parent: Option<String> = match &branch_name {
        Some(b) => Reference::resolve(&repo.refs, b.as_str()),
        None => None,
    };
    proof {
        assert((match parent {
            Some(p) => Some(p@),
            None => None::<Seq<char>>,
        }) == current_parent_of(old(repo).refs@));
    }
    let mut payload: Vec<u8> = Vec::new();
    crate::bytes::push_bytes(&mut payload, ("tree ").as_bytes());
    crate::bytes::push_bytes(&mut payload, tree_sha.as_str().as_bytes());
    crate::bytes::push_bytes(&mut payload, ("\n").as_bytes());
    match &parent {
        Some(p) => {
            crate::bytes::push_bytes(&mut payload, ("parent ").as_bytes());
            crate::bytes::push_bytes(&mut payload, p.as_str().as_bytes());
            crate::bytes::push_bytes(&mut payload, ("\n").as_bytes());
        },
        None => {},
    }
    crate::bytes::push_bytes(&mut payload, ("author You <you@example.com> ").as_bytes());
    let ts = crate::bytes::dec_bytes(timestamp);
    crate::bytes::push_bytes(&mut payload, ts.as_slice());
    crate::bytes::push_bytes(&mut payload, ("\n\n").as_bytes());
    crate::bytes::push_bytes(&mut payload, message.as_bytes());
    proof {
        assert(payload@ =~= commit_cmd_text_of(
            tree_sha@,
            match parent {
                Some(p) => Some(p@),
                None => None,
            },
            timestamp,
            message@,
        ));
    }
    let commit_obj = Object::Commit(payload);
    let commit_sha = commit_obj.save(&mut repo.objects);
    proof {
        crate::hashing::lemma_hex_of_len(crate::hashing::sha1_of(raw_of_commit(
            tree_sha@,
            match parent {
                Some(p) => Some(p@),
                None => None,
            },
            timestamp,
            message@,
        )));
    }
    match &branch_name {
        Some(b) => {
            Reference::create(&mut repo.refs, b.as_str(), commit_sha.as_str());
        },
        None => {
            Reference::create(&mut repo.refs, "HEAD", commit_sha.as_str());
        },
    }
    proof {
        assert(payload@ == commit_cmd_text_of(
            tree_sha@,
            current_parent_of(old(repo).refs@),
            timestamp,
            message@,
        ));
        if builder_ok(old(repo).objects@, old(repo).index.entries@) {
            assert(crate::object::objects_consistent(tstore));
            assert(crate::hashing::sha1_collision_free());
            assert(store_extends(tstore, repo.objects@));
            crate::tree::lemma_snapshot_frame(
                tstore,
                repo.objects@,
                tree_sha@,
                Seq::<char>::empty(),
                MAX_TREE_DEPTH as nat,
            );
            assert(store_extends(old(repo).objects@, repo.objects@));
        }
    }
    commit_sha
}

/// The raw stored bytes of the commit the commit command writes.
pub open spec fn raw_of_commit(
    tree: Seq<char>,
    parent: Option<Seq<char>>,
    timestamp: u64,
    message: Seq<char>,
) -> Seq<u8> {
    raw_bytes_of(commit_kind(), commit_cmd_text_of(tree, parent, timestamp, message))
}

/// The reference the commit command advances: the branch that a symbolic
/// `HEAD` names (trimmed), or nothing when `HEAD` is detached or absent.
pub open spec fn current_commit_ref_of(refs: Map<Seq<char>, Seq<char>>) -> Option<Seq<char>> {
    let head = if refs.contains_key("HEAD"@) {
        refs["HEAD"@]
    } else {
        Seq::<char>::empty()
    };
    if head.len() >= 4 && head.subrange(0, 4) == "ref:"@ {
        if head.len() >= 5 && head.subrange(0, 5) == "ref: "@ {
            Some(trim_of(head.skip(5)))
        } else {
            Some(trim_of(head))
        }
    } else {
        None
    }
}

/// The parent of the commit the commit command writes: what the current
/// branch points at, or nothing on a detached or absent `HEAD` or an
/// unborn branch.
pub open spec fn current_parent_of(refs: Map<Seq<char>, Seq<char>>) -> Option<Seq<char>> {
    match current_commit_ref_of(refs) {
        Some(r) => if refs.contains_key(r) {
            Some(trim_of(refs[r]))
        } else {
            None
        },
        None => None,
    }
}

/// Whether a path is a well-formed relative path, as `path_ok` describes.
fn path_ok_exec(s: &str) -> (r: bool)
    ensures
        r == path_ok(s@),
{
    let len = s.unicode_len();
    if len == 0 {
        return false;
    }
    if s.get_char(0) == '/' {
        return false;
    }
    if s.get_char(len - 1) == '/' {
        return false;
    }
    let mut i: usize = 1;
    while i < len
        invariant
            1 <= i <= len,
            len == s@.len(),
            len > 0,
            s@[0] != '/',
            s@[len - 1] != '/',
            forall|j: int| 0 < j < i ==> !(#[trigger] s@[j] == '/' && s@[j - 1] == '/'),
        decreases len - i,
    {
        if s.get_char(i) == '/' && s.get_char(i - 1) == '/' {
            return false;
        }
        i += 1;
    }
    true
}

/// Whether no character of `s` is the null character.
fn no_nul_exec(s: &str) -> (r: bool)
    ensures
        r == no_nul_chars(s@),
{
    let len = s.unicode_len();
    let mut i: usize = 0;
    while i < len
        invariant
            0 <= i <= len,
            len == s@.len(),
            forall|j: int| 0 <= j < i ==> s@[j] != '\0',
        decreases len - i,
    {
        if s.get_char(i) == '\0' {
            return false;
        }
        i += 1;
    }
    true
}

/// Whether the staging area can stand in a tree snapshot, exactly as the
/// commit command requires of it: a caller that loaded the staging area
/// from disk tests this before committing.
pub fn index_fit_for_commit(index: &Index) -> (r: bool)
    requires
        index.wf(),
    ensures
        r == index_tree_ok(index),
{
    let n = index.entries.len();
    let mut i: usize = 0;
    while i < n
        invariant
            0 <= i <= n,
            index.wf(),
            n == index.entries.pairs_seq().len(),
            forall|j: int|
                0 <= j < i ==> {
                    let k = #[trigger] index.entries.pairs_seq()[j].0@;
                    no_nul_chars(k) && path_ok(k) && index.entries@[k].mode != 0o40000u32
                },
        decreases n - i,
    {
        let p = index.entries.key_at(i);
        let v = index.entries.val_at(i);
        proof {
            crate::kvstore::lemma_kvstore_pairs_in_map(&index.entries, i as int);
        }
        if !no_nul_exec(p.as_str()) || !path_ok_exec(p.as_str()) || v.mode == 0o40000 {
            proof {
                assert(index.entries@.contains_key(p@));
                assert(!index_tree_ok(index));
            }
            return false;
        }
        i += 1;
    }
    proof {
        assert forall|k: Seq<char>| #[trigger] index.entries@.contains_key(k) implies no_nul_chars(
            k,
        ) && path_ok(k) && index.entries@[k].mode != 0o40000u32 by {
            crate::kvstore::lemma_kvstore_map_in_pairs(&index.entries, k);
        }
    }
    true
}

/// What the branch command reports on success.
#[derive(Debug, PartialEq, Eq)]
pub enum BranchOutcome {
    /// The names of all branches; listing changes nothing.
    Listed(Vec<String>),
    /// `HEAD` is absent or empty, so there is nothing to list or branch from.
    HeadUnset,
    /// A branch was created at this commit.
    Created(String),
    /// The named branch was deleted.
    Deleted,
    /// The branch to delete does not exist; nothing changed.
    AbsentBranch,
}

/// True when `names` holds exactly the branch names: those `b` with a
/// reference file in the branch namespace.
pub open spec fn branch_list_ok(refs: Map<Seq<char>, Seq<char>>, names: Seq<String>) -> bool {
    forall|b: Seq<char>|
        (exists|i: int| 0 <= i < names.len() && #[trigger] names[i]@ == b)
            <==> #[trigger] refs.contains_key("refs/heads/"@ + b)
}

/// The branch name the delete guard compares against: the branch `HEAD`
/// names, or `master` when `HEAD` is detached or absent.
pub open spec fn delete_current_name_of(refs: Map<Seq<char>, Seq<char>>) -> Seq<char> {
    match crate::reference::current_branch_of(refs) {
        Some(b) => b,
        None => "master"@,
    }
}

/// The reference a new branch is created from: the trimmed `HEAD` without
/// its `ref: ` prefix, or the `master` branch when the prefix is absent.
pub open spec fn create_base_ref_of(refs: Map<Seq<char>, Seq<char>>) -> Seq<char> {
    let head = trim_of(
        if refs.contains_key("HEAD"@) {
            refs["HEAD"@]
        } else {
            Seq::<char>::empty()
        },
    );
    if head.len() >= "ref: "@.len() && head.subrange(0, "ref: "@.len() as int) == "ref: "@ {
        head.skip("ref: "@.len() as int)
    } else {
        "refs/heads/master"@
    }
}

/// The trimmed `HEAD` content, empty when `HEAD` is absent.
pub open spec fn head_trimmed_of(refs: Map<Seq<char>, Seq<char>>) -> Seq<char> {
    trim_of(
        if refs.contains_key("HEAD"@) {
            refs["HEAD"@]
        } else {
            Seq::<char>::empty()
        },
    )
}

/// Lists, creates or deletes branches. With no name, the branch names are
/// listed. With a name and the delete flag, the branch is deleted — never
/// the branch currently checked out: that fails without touching any
/// reference. With a name alone, a branch is created at the current
/// branch's latest commit; a repository without commits refuses.
pub fn git_branch(repo: &mut Repository, branch_name: Option<&str>, delete: bool) -> (r: Result<
    BranchOutcome,
    GitError,
>)
    requires
        old(repo).wf(),
    ensures
        final(repo).wf(),
        final(repo).objects == old(repo).objects,
        final(repo).index == old(repo).index,
        match branch_name {
            None => final(repo).refs == old(repo).refs && (match r {
                Ok(BranchOutcome::HeadUnset) => head_trimmed_of(old(repo).refs@).len() == 0,
                Ok(BranchOutcome::Listed(names)) => head_trimmed_of(old(repo).refs@).len() != 0
                    && branch_list_ok(old(repo).refs@, names@),
                _ => false,
            }),
            Some(n) => {
                if delete {
                    if n@ == delete_current_name_of(old(repo).refs@) {
                        // the branch checked out may never be deleted, and
                        // no reference changes when that is attempted
                        r == Err::<BranchOutcome, GitError>(GitError::InvalidReference)
                            && final(repo).refs == old(repo).refs
                    } else if old(repo).refs@.contains_key("refs/heads/"@ + n@) {
                        r == Ok::<BranchOutcome, GitError>(BranchOutcome::Deleted) && final(repo).refs@ == old(repo).refs@.remove("refs/heads/"@ + n@)
                    } else {
                        r == Ok::<BranchOutcome, GitError>(BranchOutcome::AbsentBranch) && final(repo).refs == old(repo).refs
                    }
                } else {
                    if head_trimmed_of(old(repo).refs@).len() == 0 {
                        r == Ok::<BranchOutcome, GitError>(BranchOutcome::HeadUnset) && final(repo).refs == old(repo).refs
                    } else if !old(repo).refs@.contains_key(create_base_ref_of(old(repo).refs@)) {
                        r == Err::<BranchOutcome, GitError>(GitError::NoCommitsOnBranch) && final(repo).refs == old(repo).refs
                    } else {
                        ({
                            let commit = trim_of(
                                old(repo).refs@[create_base_ref_of(old(repo).refs@)],
                            );
                            r matches Ok(BranchOutcome::Created(c)) && c@ == commit && final(repo).refs@ == old(repo).refs@.insert("refs/heads/"@ + n@, commit)
                        })
                    }
                }
            },
        },
{
    proof {
        reveal_strlit("ref: ");
        reveal_strlit("master");
        reveal_strlit("refs/heads/");
        reveal_strlit("refs/heads/master");
    }
    match branch_name {
        None => {
            let head = match repo.refs.get("HEAD") {
                Some(h) => crate::strings::trim_str(h.as_str()),
                None => String::new(),
            };
            proof {
                assert(head@ =~= head_trimmed_of(repo.refs@));
            }
            if head.as_str().unicode_len() == 0 {
                return Ok(BranchOutcome::HeadUnset);
            }
            let mut names: Vec<String> = Vec::new();
            let n = repo.refs.len();
            let mut i: usize = 0;
            while i < n
                invariant
                    repo.wf(),
                    0 <= i <= n,
                    n == repo.refs.pairs_seq().len(),
                    forall|m: int|
                        0 <= m < names@.len() ==> exists|j: int|
                            0 <= j < i && #[trigger] repo.refs.pairs_seq()[j].0@ == "refs/heads/"@
                                + #[trigger] names@[m]@,
                    forall|j: int|
                        0 <= j < i && (repo.refs.pairs_seq()[j].0@.len() >= "refs/heads/"@.len()
                            && #[trigger] repo.refs.pairs_seq()[j].0@.subrange(
                            0,
                            "refs/heads/"@.len() as int,
                        ) == "refs/heads/"@) ==> exists|m: int|
                            0 <= m < names@.len() && #[trigger] names@[m]@
                                == repo.refs.pairs_seq()[j].0@.skip("refs/heads/"@.len() as int),
                decreases n - i,
            {
                let key = repo.refs.key_at(i);
                match strip_prefix_str(key.as_str(), "refs/heads/") {
                    Some(rest) => {
                        let ghost old_names = names@;
                        names.push(rest);
                        proof {
                            assert(forall|m: int|
                                0 <= m < old_names.len() ==> names@[m] == old_names[m]);
                            let b = names@[old_names.len() as int]@;
                            assert(repo.refs.pairs_seq()[i as int].0@ =~= "refs/heads/"@ + b);
                        }
                    },
                    None => {},
                }
                i += 1;
            }
            proof {
                assert forall|b: Seq<char>|
                    (exists|m: int| 0 <= m < names@.len() && #[trigger] names@[m]@ == b)
                        <==> #[trigger] repo.refs@.contains_key("refs/heads/"@ + b) by {
                    crate::kvstore::lemma_map_of_contains(
                        repo.refs.pairs_seq(),
                        "refs/heads/"@ + b,
                    );
                    if exists|m: int| 0 <= m < names@.len() && names@[m]@ == b {
                        let m = choose|m: int| 0 <= m < names@.len() && #[trigger] names@[m]@ == b;
                        assert(exists|j: int|
                            0 <= j < n && #[trigger] repo.refs.pairs_seq()[j].0@ == "refs/heads/"@
                                + names@[m]@);
                        assert(repo.refs@.contains_key("refs/heads/"@ + b));
                    }
                    if repo.refs@.contains_key("refs/heads/"@ + b) {
                        let j = choose|j: int|
                            0 <= j < repo.refs.pairs_seq().len()
                                && #[trigger] repo.refs.pairs_seq()[j].0@ == "refs/heads/"@ + b;
                        let k = repo.refs.pairs_seq()[j].0@;
                        assert(k.len() >= "refs/heads/"@.len());
                        assert(k.subrange(0, "refs/heads/"@.len() as int) =~= "refs/heads/"@);
                        assert(k.skip("refs/heads/"@.len() as int) =~= b);
                        assert(exists|m: int| 0 <= m < names@.len() && #[trigger] names@[m]@ == b);
                    }
                }
            }
            proof {
                assert(repo.refs == old(repo).refs);
                assert(head_trimmed_of(old(repo).refs@).len() != 0);
                assert(branch_list_ok(old(repo).refs@, names@));
            }
            Ok(BranchOutcome::Listed(names))
        },
        Some(name) => {
            if delete {
                let current = match crate::reference::get_current_branch(&repo.refs) {
                    Some(b) => b,
                    None => ("master").to_owned(),
                };
                proof {
                    assert(current@ == delete_current_name_of(repo.refs@));
                }
                if str_eq(name, current.as_str()) {
                    return Err(GitError::InvalidReference);
                }
                let mut key = ("refs/heads/").to_owned();
                key.append(name);
                if repo.refs.contains(key.as_str()) {
                    Reference::delete(&mut repo.refs, key.as_str());
                    Ok(BranchOutcome::Deleted)
                } else {
                    Ok(BranchOutcome::AbsentBranch)
                }
            } else {
                let head = match repo.refs.get("HEAD") {
                    Some(h) => crate::strings::trim_str(h.as_str()),
                    None => String::new(),
                };
                proof {
                    assert(head@ =~= head_trimmed_of(repo.refs@));
                }
                if head.as_str().unicode_len() == 0 {
                    return Ok(BranchOutcome::HeadUnset);
                }
                let base_ref = match strip_prefix_str(head.as_str(), "ref: ") {
                    Some(rest) => rest,
                    None => ("refs/heads/master").to_owned(),
                };
                proof {
                    assert(base_ref@ == create_base_ref_of(repo.refs@));
                }
                let commit = match Reference::resolve(&repo.refs, base_ref.as_str()) {
                    Some(c) => c,
                    None => {
                        return Err(GitError::NoCommitsOnBranch);
                    },
                };
                let mut key = ("refs/heads/").to_owned();
                key.append(name);
                Reference::create(&mut repo.refs, key.as_str(), commit.as_str());
                Ok(BranchOutcome::Created(commit))
            }
        },
    }
}

} // verus!
