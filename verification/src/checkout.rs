use vstd::prelude::*;

verus! {

use vstd::string::StrSliceExecFns;
use vstd::string::StringExecFns;
use vstd::utf8::{encode_utf8, decode_utf8, valid_utf8};
use crate::bytes::{first_pos_of, lemma_first_pos_at, find_byte, bytes_range};
use crate::error::GitError;
use crate::index::{Index, EntryModel};
use crate::object::{Object, ObjectStore, blob_kind, id_of, load_result, strip_header_of};
use crate::reference::Reference;
use crate::repository::Repository;
use crate::strings::{str_eq, strip_prefix_str, path_join, path_join_of, bytes_to_string, trim_of};
use crate::tree::{TreeProcessor, TreeEntry, TreeEntryModel, parse_tree_of, hash_str_wf, MAX_TREE_DEPTH, Snapshot, tree_entries_at, snapshot_entries, snapshot_of, snap_entry_of, snap_entries_map, snap_files_map, lemma_snapshot_entries_extend_none};
use crate::workdir::Workdir;

/// True when every staged file whose path is present in the working files
/// still holds content with the recorded blob identity.
pub open spec fn workdir_clean(
    entries: Map<Seq<char>, EntryModel>,
    files: Map<Seq<char>, Seq<u8>>,
) -> bool {
    forall|p: Seq<char>|
        #[trigger] entries.contains_key(p) && files.contains_key(p) ==> id_of(
            blob_kind(),
            files[p],
        ) == entries[p].sha
}

/// Whether the working directory is clean: every staged file that is
/// present on disk hashes to the identity the staging area recorded. An
/// absent file does not count as a change.
pub fn is_workdir_clean(index: &Index, workdir: &Workdir) -> (r: bool)
    requires
        index.wf(),
        workdir.wf(),
    ensures
        r == workdir_clean(index.entries@, workdir.files_map()),
{
    let n = index.entries.len();
    let mut i: usize = 0;
    while i < n
        invariant
            0 <= i <= n,
            index.wf(),
            workdir.wf(),
            n == index.entries.pairs_seq().len(),
            forall|j: int|
                0 <= j < i ==> {
                    let p = #[trigger] index.entries.pairs_seq()[j].0@;
                    workdir.files_map().contains_key(p) ==> id_of(
                        blob_kind(),
                        workdir.files_map()[p],
                    ) == index.entries@[p].sha
                },
        decreases n - i,
    {
        let path = index.entries.key_at(i);
        let entry = index.entries.val_at(i);
        proof {
            crate::kvstore::lemma_kvstore_pairs_in_map(&index.entries, i as int);
        }
        match workdir.get_file(path.as_str()) {
            Some(content) => {
                let data = vstd::slice::slice_to_vec(content.as_slice());
                let blob = Object::Blob(data);
                let sha = blob.id();
                if !str_eq(sha.as_str(), entry.sha.as_str()) {
                    proof {
                        let p = index.entries.pairs_seq()[i as int].0@;
                        assert(index.entries@.contains_key(p));
                        assert(id_of(blob_kind(), workdir.files_map()[p]) != index.entries@[p].sha);
                    }
                    return false;
                }
            },
            None => {},
        }
        i += 1;
    }
    proof {
        assert forall|p: Seq<char>|
            #[trigger] index.entries@.contains_key(p) && workdir.files_map().contains_key(p)
                implies id_of(blob_kind(), workdir.files_map()[p]) == index.entries@[p].sha by {
            crate::kvstore::lemma_kvstore_map_in_pairs(&index.entries, p);
        }
    }
    true
}

/// The bytes of the hash on the first line beginning `tree `, read line by
/// line; nothing when no line carries the prefix.
pub open spec fn tree_line_of(data: Seq<u8>) -> Option<Seq<u8>>
    decreases data.len(),
{
    if data.len() >= 5 && data.subrange(0, 5) == seq![0x74u8, 0x72u8, 0x65u8, 0x65u8, 0x20u8] {
        let nl = first_pos_of(data, 0x0au8);
        if 0 <= nl <= data.len() {
            Some(data.subrange(5, if nl < data.len() { nl } else { data.len() as int }))
        } else {
            None
        }
    } else {
        let nl = first_pos_of(data, 0x0au8);
        if 0 <= nl < data.len() {
            tree_line_of(data.skip(nl + 1))
        } else {
            None
        }
    }
}

/// The tree identity named in a commit payload: the text after `tree ` on
/// the first line that begins with it. A payload without such a line, or
/// with one that is no character sequence, is malformed.
pub fn commit_tree_hash(payload: &[u8]) -> (r: Result<String, GitError>)
    ensures
        match r {
            Ok(h) => (exists|hb: Seq<u8>|
                tree_line_of(payload@) == Some(hb) && valid_utf8(hb) && h@ == decode_utf8(hb)),
            Err(e) => e == GitError::MalformedObject && (match tree_line_of(payload@) {
                Some(hb) => !valid_utf8(hb),
                None => true,
            }),
        },
{
    let len = payload.len();
    let mut i: usize = 0;
    proof {
        assert(payload@.skip(0) =~= payload@);
    }
    loop
        invariant
            0 <= i <= len,
            len == payload@.len(),
            tree_line_of(payload@) == tree_line_of(payload@.skip(i as int)),
        ensures
            tree_line_of(payload@) == tree_line_of(payload@.skip(i as int)),
            payload@.skip(i as int).len() >= 5,
            payload@.skip(i as int).subrange(0, 5) == seq![0x74u8, 0x72u8, 0x65u8, 0x65u8, 0x20u8],
            i <= len,
        decreases len - i,
    {
        let ghost rest = payload@.skip(i as int);
        if len - i >= 5 && payload[i] == 0x74 && payload[i + 1] == 0x72 && payload[i + 2] == 0x65
            && payload[i + 3] == 0x65 && payload[i + 4] == 0x20 {
            proof {
                assert(rest.subrange(0, 5) =~= seq![0x74u8, 0x72u8, 0x65u8, 0x65u8, 0x20u8]);
            }
            break;
        }
        proof {
            if rest.len() >= 5 {
                assert(rest.subrange(0, 5) != seq![0x74u8, 0x72u8, 0x65u8, 0x65u8, 0x20u8]) by {
                    let pat = seq![0x74u8, 0x72u8, 0x65u8, 0x65u8, 0x20u8];
                    if rest.subrange(0, 5) == pat {
                        assert(rest.subrange(0, 5)[0] == rest[0]);
                        assert(rest.subrange(0, 5)[1] == rest[1]);
                        assert(rest.subrange(0, 5)[2] == rest[2]);
                        assert(rest.subrange(0, 5)[3] == rest[3]);
                        assert(rest.subrange(0, 5)[4] == rest[4]);
                    }
                }
            }
        }
        match find_byte(payload, 0x0a, i) {
            Some(nl) => {
                proof {
                    lemma_first_pos_at(rest, 0x0au8, nl - i);
                    assert(rest.skip(nl - i + 1) =~= payload@.skip(nl as int + 1));
                }
                i = nl + 1;
            },
            None => {
                proof {
                    lemma_first_pos_at(rest, 0x0au8, rest.len() as int);
                }
                return Err(GitError::MalformedObject);
            },
        }
    }
    let ghost rest = payload@.skip(i as int);
    let hend = match find_byte(payload, 0x0a, i) {
        Some(nl) => nl,
        None => len,
    };
    proof {
        assert(rest[0] == 0x74u8 && rest[1] == 0x72u8 && rest[2] == 0x65u8 && rest[3] == 0x65u8
            && rest[4] == 0x20u8);
        if hend < len {
            assert(payload@[hend as int] == 0x0au8);
            assert(hend - i >= 5);
            lemma_first_pos_at(rest, 0x0au8, hend - i);
        } else {
            lemma_first_pos_at(rest, 0x0au8, rest.len() as int);
        }
        assert(tree_line_of(rest) == Some(rest.subrange(5, hend - i)));
    }
    assert(hend >= i + 5);
    let hb = bytes_range(payload, i + 5, hend);
    proof {
        assert(hb@ =~= rest.subrange(5, hend - i));
    }
    match bytes_to_string(hb) {
        Some(h) => Ok(h),
        None => Err(GitError::MalformedObject),
    }
}

/// Restores the tree stored under `tree_sha` beneath `current_dir`: writes
/// every file of the snapshot into the working directory, makes every
/// directory present, and stages every restored file under the identity
/// the tree already carries. On failure — a missing or malformed object,
/// a path no index record can hold, or a graph nesting deeper than the
/// fuel — what was restored before the failure remains.
pub fn restore_tree(
    objects: &ObjectStore,
    current_dir: &str,
    tree_sha: &str,
    index: &mut Index,
    workdir: &mut Workdir,
    fuel: u64,
) -> (r: Result<(), GitError>)
    requires
        objects.wf(),
        old(index).wf(),
        old(workdir).wf(),
    ensures
        final(index).wf(),
        final(workdir).wf(),
        forall|k: Seq<char>|
            #[trigger] final(index).entries@.contains_key(k) ==> (old(
                index,
            ).entries@.contains_key(k) && final(index).entries@[k] == old(index).entries@[k]) || (
            final(index).entries@[k].mtime == 0 && final(index).entries@[k].ctime == 0),
        match r {
            Ok(()) => snapshot_of(objects@, tree_sha@, current_dir@, fuel as nat) matches Some(s)
                && final(index).entries@ == old(index).entries@.union_prefer_right(
                snap_entries_map(objects@, s),
            ) && final(workdir).files_map() == old(workdir).files_map().union_prefer_right(
                snap_files_map(objects@, s),
            ) && final(workdir).dirs_set() == old(workdir).dirs_set().union(s.dirs),
            Err(e) => (e == GitError::NotFound || e == GitError::MalformedObject) && snapshot_of(
                objects@,
                tree_sha@,
                current_dir@,
                fuel as nat,
            ) is None,
        },
    decreases fuel,
{
    if fuel == 0 {
        return Err(GitError::MalformedObject);
    }
    let payload = match Object::load(objects, tree_sha) {
        Some(p) => p,
        None => {
            return Err(GitError::NotFound);
        },
    };
    let entries = match TreeProcessor::parse_tree(payload.as_slice()) {
        Ok(es) => es,
        Err(e) => {
            return Err(e);
        },
    };
    let ghost esm = entries@.map_values(|e: TreeEntry| e@);
    let ghost g = (fuel - 1) as nat;
    let n = entries.len();
    let mut i: usize = 0;
    proof {
        assert(esm.take(0) =~= Seq::<TreeEntryModel>::empty());
        assert(snapshot_entries(objects@, esm.take(0), current_dir@, g) matches Some(s0)
            && s0.files =~= Map::<Seq<char>, TreeEntryModel>::empty() && s0.dirs =~= Set::<
            Seq<char>,
        >::empty());
        let s0 = snapshot_entries(objects@, esm.take(0), current_dir@, g).unwrap();
        assert(snap_entries_map(objects@, s0) =~= Map::<Seq<char>, EntryModel>::empty());
        assert(snap_files_map(objects@, s0) =~= Map::<Seq<char>, Seq<u8>>::empty());
        assert(index.entries@ =~= old(index).entries@.union_prefer_right(
            snap_entries_map(objects@, s0),
        ));
        assert(workdir.files_map() =~= old(workdir).files_map().union_prefer_right(
            snap_files_map(objects@, s0),
        ));
        assert(workdir.dirs_set() =~= old(workdir).dirs_set().union(s0.dirs));
    }
    while i < n
        invariant
            0 <= i <= n,
            objects.wf(),
            index.wf(),
            workdir.wf(),
            n == entries@.len(),
            esm == entries@.map_values(|e: TreeEntry| e@),
            fuel >= 1,
            g == (fuel - 1) as nat,
            tree_entries_at(objects@, tree_sha@) == Some(esm),
            forall|j: int| 0 <= j < entries@.len() ==> hash_str_wf(#[trigger] entries@[j]@.hash),
            forall|k: Seq<char>|
                #[trigger] index.entries@.contains_key(k) ==> (old(index).entries@.contains_key(k)
                    && index.entries@[k] == old(index).entries@[k]) || (index.entries@[k].mtime
                    == 0 && index.entries@[k].ctime == 0),
            snapshot_entries(objects@, esm.take(i as int), current_dir@, g) matches Some(si)
                && index.entries@ == old(index).entries@.union_prefer_right(
                snap_entries_map(objects@, si),
            ) && workdir.files_map() == old(workdir).files_map().union_prefer_right(
                snap_files_map(objects@, si),
            ) && workdir.dirs_set() == old(workdir).dirs_set().union(si.dirs),
        decreases n - i,
    {
        let ghost si = snapshot_entries(objects@, esm.take(i as int), current_dir@, g).unwrap();
        let entry = &entries[i];
        let ghost em = entry@;
        let path = path_join(current_dir, entry.name.as_str());
        proof {
            assert(esm.take(i as int + 1).drop_last() =~= esm.take(i as int));
            assert(esm.take(i as int + 1).last() == em);
        }
        if entry.is_dir {
            workdir.add_dir(path.clone());
            let ghost pre_entries = index.entries@;
            let r = restore_tree(objects, path.as_str(), entry.hash.as_str(), index, workdir, fuel
                - 1);
            match r {
                Ok(()) => {
                    proof {
                        let ssub = snapshot_of(objects@, em.hash, path@, g).unwrap();
                        let snext = snapshot_entries(
                            objects@,
                            esm.take(i as int + 1),
                            current_dir@,
                            g,
                        ).unwrap();
                        assert(snext.files =~= si.files.union_prefer_right(ssub.files));
                        assert(snext.dirs =~= si.dirs.union(ssub.dirs).insert(path@));
                        assert(snap_entries_map(objects@, snext) =~= snap_entries_map(
                            objects@,
                            si,
                        ).union_prefer_right(snap_entries_map(objects@, ssub)));
                        assert(snap_files_map(objects@, snext) =~= snap_files_map(
                            objects@,
                            si,
                        ).union_prefer_right(snap_files_map(objects@, ssub)));
                        assert(index.entries@ =~= old(index).entries@.union_prefer_right(
                            snap_entries_map(objects@, snext),
                        ));
                        assert(workdir.files_map() =~= old(
                            workdir,
                        ).files_map().union_prefer_right(snap_files_map(objects@, snext)));
                        assert(workdir.dirs_set() =~= old(workdir).dirs_set().union(snext.dirs));
                    }
                },
                Err(e) => {
                    proof {
                        assert(snapshot_entries(objects@, esm.take(i as int + 1), current_dir@, g)
                            is None);
                        lemma_snapshot_entries_extend_none(
                            objects@,
                            esm,
                            current_dir@,
                            g,
                            i as int + 1,
                        );
                        assert forall|k: Seq<char>|
                            #[trigger] index.entries@.contains_key(k) implies (old(
                            index,
                        ).entries@.contains_key(k) && index.entries@[k] == old(
                            index,
                        ).entries@[k]) || (index.entries@[k].mtime == 0 && index.entries@[k].ctime
                            == 0) by {
                            if !(index.entries@[k].mtime == 0 && index.entries@[k].ctime == 0) {
                                assert(pre_entries.contains_key(k) && index.entries@[k]
                                    == pre_entries[k]);
                            }
                        }
                    }
                    return Err(e);
                },
            }
        } else {
            let blob = match Object::load(objects, entry.hash.as_str()) {
                Some(b) => b,
                None => {
                    proof {
                        assert(snapshot_entries(objects@, esm.take(i as int + 1), current_dir@, g)
                            is None);
                        lemma_snapshot_entries_extend_none(
                            objects@,
                            esm,
                            current_dir@,
                            g,
                            i as int + 1,
                        );
                    }
                    return Err(GitError::NotFound);
                },
            };
            let plen = path.as_str().as_bytes().len();
            if plen < 1 || plen > 255 {
                proof {
                    assert(snapshot_entries(objects@, esm.take(i as int + 1), current_dir@, g)
                        is None);
                    lemma_snapshot_entries_extend_none(
                        objects@,
                        esm,
                        current_dir@,
                        g,
                        i as int + 1,
                    );
                }
                return Err(GitError::MalformedObject);
            }
            let size = blob.len() as u64;
            workdir.write_file(path.clone(), blob);
            index.stage_file(path.clone(), entry.hash.clone(), entry.mode, 0, 0, size);
            proof {
                let snext = snapshot_entries(
                    objects@,
                    esm.take(i as int + 1),
                    current_dir@,
                    g,
                ).unwrap();
                assert(snext.files =~= si.files.insert(path@, em));
                assert(snext.dirs =~= si.dirs);
                assert(snap_entries_map(objects@, snext) =~= snap_entries_map(
                    objects@,
                    si,
                ).insert(path@, snap_entry_of(objects@, path@, em)));
                assert(snap_files_map(objects@, snext) =~= snap_files_map(objects@, si).insert(
                    path@,
                    strip_header_of(objects@[em.hash]),
                ));
                assert(index.entries@ =~= old(index).entries@.union_prefer_right(
                    snap_entries_map(objects@, snext),
                ));
                assert(workdir.files_map() =~= old(workdir).files_map().union_prefer_right(
                    snap_files_map(objects@, snext),
                ));
                assert(workdir.dirs_set() =~= old(workdir).dirs_set().union(snext.dirs));
            }
        }
        i += 1;
    }
    proof {
        assert(esm.take(n as int) =~= esm);
    }
    Ok(())
}

/// The snapshot a commit denotes: the commit payload's tree line resolved
/// and walked to the full depth bound.
pub open spec fn commit_snapshot_of(objects: Map<Seq<char>, Seq<u8>>, sha: Seq<char>) -> Option<
    Snapshot,
> {
    match load_result(objects, sha) {
        None => None,
        Some(payload) => match tree_line_of(payload) {
            None => None,
            Some(hb) => if !valid_utf8(hb) {
                None
            } else {
                snapshot_of(objects, decode_utf8(hb), Seq::empty(), MAX_TREE_DEPTH as nat)
            },
        },
    }
}

/// Rebuilds the staging area and the working directory to the snapshot of
/// the given commit: the staging area is cleared and repopulated with one
/// entry per restored file, and the working directory afterwards holds
/// exactly the snapshot's files and directories. When the commit or the
/// graph under it is absent or malformed, the working directory is left as
/// it was.
pub fn restore_index_and_workdir(repo: &mut Repository, workdir: &mut Workdir, commit_sha: &str)
    -> (r: Result<(), GitError>)
    requires
        old(repo).wf(),
        old(workdir).wf(),
    ensures
        final(repo).wf(),
        final(workdir).wf(),
        final(repo).objects == old(repo).objects,
        final(repo).refs == old(repo).refs,
        match r {
            Ok(()) => commit_snapshot_of(old(repo).objects@, commit_sha@) matches Some(s) && final(repo).index.entries@ == snap_entries_map(old(repo).objects@, s) && final(workdir).files_map() == snap_files_map(old(repo).objects@, s) && final(workdir).dirs_set()
                == s.dirs,
            Err(e) => (e == GitError::NotFound || e == GitError::MalformedObject)
                && commit_snapshot_of(old(repo).objects@, commit_sha@) is None && *final(workdir)
                == *old(workdir),
        },
{
    let payload = match Object::load(&repo.objects, commit_sha) {
        Some(p) => p,
        None => {
            return Err(GitError::NotFound);
        },
    };
    let tree_hash = match commit_tree_hash(payload.as_slice()) {
        Ok(h) => h,
        Err(e) => {
            return Err(e);
        },
    };
    repo.index.clear();
    let mut new_wd = Workdir::new();
    let r = restore_tree(
        &repo.objects,
        "",
        tree_hash.as_str(),
        &mut repo.index,
        &mut new_wd,
        MAX_TREE_DEPTH,
    );
    proof {
        reveal_strlit("");
        assert(""@ =~= Seq::<char>::empty());
    }
    match r {
        Ok(()) => {
            proof {
                let s = snapshot_of(
                    repo.objects@,
                    tree_hash@,
                    Seq::<char>::empty(),
                    MAX_TREE_DEPTH as nat,
                ).unwrap();
                assert(repo.index.entries@ =~= snap_entries_map(repo.objects@, s));
                assert(new_wd.files_map() =~= snap_files_map(repo.objects@, s));
                assert(new_wd.dirs_set() =~= s.dirs);
            }
            *workdir = new_wd;
            Ok(())
        },
        Err(e) => Err(e),
    }
}

/// The reference `HEAD` names: the trimmed `HEAD` without its `ref: `
/// prefix, or the empty name when `HEAD` is detached or absent.
pub open spec fn head_branch_ref_of(refs: Map<Seq<char>, Seq<char>>) -> Seq<char> {
    let head = trim_of(
        if refs.contains_key("HEAD"@) {
            refs["HEAD"@]
        } else {
            Seq::<char>::empty()
        },
    );
    if head.len() >= "ref: "@.len() && head.subrange(0, "ref: "@.len() as int) == "ref: "@ {
        head.skip("ref: "@.len() as int)
    } else {
        Seq::<char>::empty()
    }
}

/// The commit a checkout resolves its target to: with a new branch, the
/// current branch's latest commit — nothing when that branch has none;
/// otherwise the commit an existing branch of that name points at, or the
/// target itself taken as a literal commit identity.
pub open spec fn checkout_target_of(
    refs: Map<Seq<char>, Seq<char>>,
    target: Seq<char>,
    create_new: bool,
) -> Option<Seq<char>> {
    if create_new {
        let cur = head_branch_ref_of(refs);
        if refs.contains_key(cur) {
            Some(trim_of(refs[cur]))
        } else {
            None
        }
    } else {
        let tb = "refs/heads/"@ + target;
        if refs.contains_key(tb) {
            Some(trim_of(refs[tb]))
        } else {
            Some(target)
        }
    }
}

/// Switches the working tree to a branch or commit. A working directory
/// with uncommitted changes blocks the whole operation before anything is
/// touched. The target is resolved — creating the new branch from the
/// current commit when asked, which a commit-less repository refuses —
/// `HEAD` moves to the branch symbolically or to the commit literally, and
/// the working directory and staging area are rebuilt to the target's
/// snapshot, dropping everything outside it.
pub fn git_checkout(repo: &mut Repository, workdir: &mut Workdir, target: &str, create_new: bool)
    -> (r: Result<(), GitError>)
    requires
        old(repo).wf(),
        old(workdir).wf(),
    ensures
        final(repo).wf(),
        final(workdir).wf(),
        final(repo).objects == old(repo).objects,
        ({
            let clean = workdir_clean(old(repo).index.entries@, old(workdir).files_map());
            let tgt = checkout_target_of(old(repo).refs@, target@, create_new);
            if !clean {
                r == Err::<(), GitError>(GitError::DirtyWorkingTree) && *final(repo) == *old(repo)
                    && *final(workdir) == *old(workdir)
            } else if tgt is None {
                r == Err::<(), GitError>(GitError::NoCommitsOnBranch) && *final(repo) == *old(repo)
                    && *final(workdir) == *old(workdir)
            } else {
                let sha = tgt.unwrap();
                let refs1 = if create_new {
                    old(repo).refs@.insert("refs/heads/"@ + target@, sha)
                } else {
                    old(repo).refs@
                };
                let branch_mode = create_new || old(repo).refs@.contains_key(
                    "refs/heads/"@ + target@,
                );
                let head_val = if branch_mode {
                    "ref: refs/heads/"@ + target@
                } else {
                    sha
                };
                &&& final(repo).refs@ == refs1.insert("HEAD"@, head_val)
                &&& match r {
                    Ok(()) => commit_snapshot_of(old(repo).objects@, sha) matches Some(s) && final(repo).index.entries@ == snap_entries_map(old(repo).objects@, s) && final(workdir).files_map() == snap_files_map(old(repo).objects@, s) && final(workdir).dirs_set() == s.dirs,
                    Err(e) => (e == GitError::NotFound || e == GitError::MalformedObject)
                        && commit_snapshot_of(old(repo).objects@, sha) is None && *final(workdir)
                        == *old(workdir),
                }
            }
        }),
{
    proof {
        reveal_strlit("ref: ");
        reveal_strlit("refs/heads/");
        reveal_strlit("ref: refs/heads/");
        reveal_strlit("HEAD");
    }
    if !is_workdir_clean(&repo.index, workdir) {
        return Err(GitError::DirtyWorkingTree);
    }
    let head_trim = match repo.refs.get("HEAD") {
        Some(h) => crate::strings::trim_str(h.as_str()),
        None => String::new(),
    };
    let current_branch_ref = match strip_prefix_str(head_trim.as_str(), "ref: ") {
        Some(rest) => rest,
        None => String::new(),
    };
    proof {
        assert(current_branch_ref@ == head_branch_ref_of(repo.refs@));
    }
    let mut target_branch_ref = ("refs/heads/").to_owned();
    target_branch_ref.append(target);
    proof {
        assert(target_branch_ref@ == "refs/heads/"@ + target@);
    }
    let branch_exists = repo.refs.contains(target_branch_ref.as_str());
    let target_commit: String;
    if create_new {
        let base = match Reference::resolve(&repo.refs, current_branch_ref.as_str()) {
            Some(b) => b,
            None => {
                return Err(GitError::NoCommitsOnBranch);
            },
        };
        Reference::create(&mut repo.refs, target_branch_ref.as_str(), base.as_str());
        target_commit = base;
    } else if branch_exists {
        target_commit = match Reference::resolve(&repo.refs, target_branch_ref.as_str()) {
            Some(c) => c,
            None => {
                proof {
                    assert(false);
                }
                String::new()
            },
        };
    } else {
        target_commit = target.to_owned();
    }
    proof {
        assert(Some(target_commit@) == checkout_target_of(old(repo).refs@, target@, create_new));
    }
    let branch_mode = create_new || branch_exists;
    if branch_mode {
        let mut head_val = ("ref: ").to_owned();
        head_val.append(target_branch_ref.as_str());
        proof {
            assert(head_val@ =~= "ref: refs/heads/"@ + target@);
        }
        Reference::create(&mut repo.refs, "HEAD", head_val.as_str());
    } else {
        Reference::create(&mut repo.refs, "HEAD", target_commit.as_str());
    }
    restore_index_and_workdir(repo, workdir, target_commit.as_str())
}

} // verus!
