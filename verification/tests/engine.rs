use minigit::commands::{stage_single_file, git_rm, git_branch, git_commit, BranchOutcome};
use minigit::commit::{compose_commit, CommitBuilder};
use minigit::error::GitError;
use minigit::hashing::{sha1, hex_encode, hex_decode};
use minigit::index::Index;
use minigit::kvstore::KvStore;
use minigit::object::{Object, ObjectStore};
use minigit::reference::{Reference, get_current_branch};
use minigit::repository::Repository;
use minigit::tree::{TreeEntry, TreeProcessor};
use minigit::workdir::Workdir;
use sha1::Digest;

fn new_store() -> ObjectStore {
    KvStore::new()
}

#[test]
fn sha1_matches_the_outside_digest() {
    // the classic SHA-1 test vector
    assert_eq!(sha1(b"abc"), "a9993e364706816aba3e25717850c26c9cd0d89d");
    // and the trusted wrapper against the outside crates directly
    let digest = sha1::Sha1::digest(b"some payload");
    assert_eq!(sha1(b"some payload"), hex::encode(digest));
    assert_ne!(sha1(b"a"), sha1(b"b"));
}

#[test]
fn hex_wrappers_encode_and_decode() {
    assert_eq!(hex_encode(&[0xab, 0x01, 0xff]), "ab01ff");
    assert_eq!(hex_encode(&[]), "");
    assert_eq!(hex_decode("ab01ff"), Some(vec![0xab, 0x01, 0xff]));
    assert_eq!(hex_decode("AB01FF"), Some(vec![0xab, 0x01, 0xff]));
    assert_eq!(hex_decode("abc"), None);
    assert_eq!(hex_decode("zz"), None);
}

#[test]
fn content_addressing_save_is_deterministic_and_load_returns_payload() {
    let mut store = new_store();
    let h1 = Object::Blob(b"hello".to_vec()).save(&mut store);
    let h2 = Object::Blob(b"hello".to_vec()).save(&mut store);
    assert_eq!(h1, h2);
    assert_eq!(h1, hex::encode(sha1::Sha1::digest(b"blob 5\x00hello")));
    assert_eq!(Object::load(&store, &h1), Some(b"hello".to_vec()));
    // a second kind with the same payload is a different object
    let h3 = Object::Tree(b"hello".to_vec()).save(&mut store);
    assert_ne!(h1, h3);
    assert_eq!(Object::load(&store, &h3), Some(b"hello".to_vec()));
}

#[test]
fn load_rejects_short_or_absent_identities() {
    let mut store = new_store();
    let h = Object::Blob(b"x".to_vec()).save(&mut store);
    assert_eq!(Object::load(&store, &h[0..10]), None);
    assert_eq!(
        Object::load(&store, "0000000000000000000000000000000000000000"),
        None
    );
}

#[test]
fn deduplication_two_paths_one_object() {
    let mut repo = Repository::init();
    let s1 = stage_single_file(&mut repo, "a.txt".to_string(), b"same", 0o100644, 1, 1, 4);
    let s2 = stage_single_file(&mut repo, "b.txt".to_string(), b"same", 0o100644, 2, 2, 4);
    assert_eq!(s1, s2);
    assert_eq!(repo.index.entries.len(), 2);
    assert_eq!(repo.objects.len(), 1);
    let e1 = repo.index.entries.get("a.txt").unwrap();
    let e2 = repo.index.entries.get("b.txt").unwrap();
    assert_eq!(e1.sha, e2.sha);
}

#[test]
fn tree_round_trip_reproduces_entries() {
    let blob_sha = hex::encode(sha1::Sha1::digest(b"blob 1\x00x"));
    let tree_sha = hex::encode(sha1::Sha1::digest(b"tree 0\x00"));
    let entries = vec![
        TreeEntry {
            name: "hello.txt".to_string(),
            hash: blob_sha.clone(),
            mode: 0o100644,
            is_dir: false,
        },
        TreeEntry {
            name: "sub dir".to_string(),
            hash: tree_sha.clone(),
            mode: 0o40000,
            is_dir: true,
        },
        TreeEntry {
            name: "tool".to_string(),
            hash: blob_sha.clone(),
            mode: 0o100755,
            is_dir: false,
        },
    ];
    let bytes = TreeProcessor::serialize_tree(&entries);
    let parsed = TreeProcessor::parse_tree(&bytes).unwrap();
    assert_eq!(parsed.len(), 3);
    for (a, b) in entries.iter().zip(parsed.iter()) {
        assert_eq!(a.name, b.name);
        assert_eq!(a.hash, b.hash);
        assert_eq!(a.mode, b.mode);
        assert_eq!(a.is_dir, b.is_dir);
    }
}

#[test]
fn parse_tree_rejects_truncated_records() {
    assert_eq!(
        TreeProcessor::parse_tree(b"notatree"),
        Err(GitError::MalformedObject)
    );
    assert_eq!(
        TreeProcessor::parse_tree(b"100644 a\x00shorthash"),
        Err(GitError::MalformedObject)
    );
    assert_eq!(TreeProcessor::parse_tree(b"").unwrap().len(), 0);
}

#[test]
fn empty_tree_has_the_well_known_identity() {
    let mut store = new_store();
    let h = TreeProcessor::create_empty_tree(&mut store);
    assert_eq!(h, hex::encode(sha1::Sha1::digest(b"tree 0\x00")));
    assert_eq!(Object::load(&store, &h), Some(Vec::new()));
}

#[test]
fn empty_staging_area_builds_the_empty_tree() {
    let mut repo = Repository::init();
    let h = TreeProcessor::create_tree_from_index(&mut repo.objects, &repo.index);
    assert_eq!(h, hex::encode(sha1::Sha1::digest(b"tree 0\x00")));
    assert_eq!(Object::load(&repo.objects, &h), Some(Vec::new()));
}

#[test]
fn built_trees_walk_back_to_the_staged_files() {
    let mut repo = Repository::init();
    stage_single_file(&mut repo, "deep/er/c.txt".to_string(), b"c", 0o100644, 0, 0, 1);
    stage_single_file(&mut repo, "a.txt".to_string(), b"a", 0o100644, 0, 0, 1);
    let root = TreeProcessor::create_tree_from_index(&mut repo.objects, &repo.index);
    let top = TreeProcessor::parse_tree(&Object::load(&repo.objects, &root).unwrap()).unwrap();
    assert_eq!(top.len(), 2);
    // sorted byte-wise by name: a.txt before deep
    assert_eq!(top[0].name, "a.txt");
    assert!(!top[0].is_dir);
    assert_eq!(top[1].name, "deep");
    assert!(top[1].is_dir);
    let mid = TreeProcessor::parse_tree(&Object::load(&repo.objects, &top[1].hash).unwrap())
        .unwrap();
    assert_eq!(mid.len(), 1);
    assert_eq!(mid[0].name, "er");
    assert!(mid[0].is_dir);
    let leaf = TreeProcessor::parse_tree(&Object::load(&repo.objects, &mid[0].hash).unwrap())
        .unwrap();
    assert_eq!(leaf.len(), 1);
    assert_eq!(leaf[0].name, "c.txt");
    assert!(!leaf[0].is_dir);
    assert_eq!(
        Object::load(&repo.objects, &leaf[0].hash),
        Some(b"c".to_vec())
    );
}

#[test]
fn commit_composition_is_deterministic() {
    let tree = "0123456789abcdef0123456789abcdef01234567".to_string();
    let parent = Some("fedcba9876543210fedcba9876543210fedcba98".to_string());
    let a = compose_commit(&tree, &parent, "Tom <tom@example.com>", "stamp", "message");
    let b = compose_commit(&tree, &parent, "Tom <tom@example.com>", "stamp", "message");
    assert_eq!(a, b);
    let mut store = new_store();
    let h1 = Object::Commit(a).save(&mut store);
    let h2 = Object::Commit(b).save(&mut store);
    assert_eq!(h1, h2);
    assert_eq!(store.len(), 1);
    // the composed text is exactly the documented layout
    let c = compose_commit(&tree, &None, "A <a@b>", "t0", "msg");
    let expected = format!("tree {}\nauthor A <a@b> t0\n\nmsg", tree);
    assert_eq!(c, expected.into_bytes());
}

#[test]
fn create_commit_stores_a_commit_object() {
    let mut store = new_store();
    let tree = "0123456789abcdef0123456789abcdef01234567".to_string();
    let h = CommitBuilder::create_commit(
        &mut store,
        tree.clone(),
        None,
        "Tom <tom@example.com>".to_string(),
        "hello".to_string(),
    );
    let payload = Object::load(&store, &h).unwrap();
    let text = String::from_utf8(payload).unwrap();
    assert!(text.starts_with(&format!("tree {}\n", tree)));
    assert!(text.ends_with("\n\nhello"));
}

#[test]
fn index_round_trip_keeps_entries() {
    let mut index = Index::new();
    let sha = hex::encode(sha1::Sha1::digest(b"blob 5\x00hello"));
    index.stage_file("a.txt".to_string(), sha.clone(), 0o100644, 11, 12, 5);
    index.stage_file("dir/b.txt".to_string(), sha.clone(), 0o100755, 21, 22, 5);
    let bytes = index.save();
    let loaded = Index::load(&bytes);
    assert_eq!(loaded.entries.len(), 2);
    let a = loaded.entries.get("a.txt").unwrap();
    assert_eq!(a.sha, sha);
    assert_eq!(a.mode, 0o100644);
    assert_eq!(a.mtime, 11);
    assert_eq!(a.ctime, 12);
    assert_eq!(a.size, 5);
    let b = loaded.entries.get("dir/b.txt").unwrap();
    assert_eq!(b.path, "dir/b.txt");
    assert_eq!(b.mode, 0o100755);
}

#[test]
fn loading_an_absent_index_gives_an_empty_staging_area() {
    let loaded = Index::load(&[]);
    assert_eq!(loaded.entries.len(), 0);
}

#[test]
fn unstage_and_clear_remove_entries() {
    let mut index = Index::new();
    let sha = hex::encode(sha1::Sha1::digest(b"blob 1\x00x"));
    index.stage_file("a.txt".to_string(), sha.clone(), 0o100644, 0, 0, 1);
    index.stage_file("b.txt".to_string(), sha, 0o100644, 0, 0, 1);
    index.unstage_file("a.txt");
    assert!(index.entries.get("a.txt").is_none());
    assert!(index.entries.get("b.txt").is_some());
    index.unstage_file("missing.txt");
    assert_eq!(index.entries.len(), 1);
    index.clear();
    assert_eq!(index.entries.len(), 0);
}

#[test]
fn references_create_resolve_delete() {
    let mut repo = Repository::init();
    assert_eq!(
        Reference::resolve(&repo.refs, "HEAD"),
        Some("ref: refs/heads/master".to_string())
    );
    assert_eq!(get_current_branch(&repo.refs), Some("master".to_string()));
    Reference::create(&mut repo.refs, "refs/heads/master", "abc123\n");
    assert_eq!(
        Reference::resolve(&repo.refs, "refs/heads/master"),
        Some("abc123".to_string())
    );
    Reference::delete(&mut repo.refs, "refs/heads/master");
    assert_eq!(Reference::resolve(&repo.refs, "refs/heads/master"), None);
    Reference::delete(&mut repo.refs, "refs/heads/master");
    assert_eq!(Reference::resolve(&repo.refs, "refs/heads/master"), None);
}

#[test]
fn tag_refs_are_created_under_the_tags_namespace() {
    let mut repo = Repository::init();
    Object::create_tag_ref(&mut repo.refs, "v1", "0123456789abcdef0123456789abcdef01234567");
    assert_eq!(
        Reference::resolve(&repo.refs, "refs/tags/v1"),
        Some("0123456789abcdef0123456789abcdef01234567".to_string())
    );
}

#[test]
fn rm_unstages_and_removes_working_files() {
    let mut repo = Repository::init();
    let mut wd = Workdir::new();
    wd.write_file("a.txt".to_string(), b"one".to_vec());
    wd.write_file("b.txt".to_string(), b"two".to_vec());
    stage_single_file(&mut repo, "a.txt".to_string(), b"one", 0o100644, 0, 0, 3);
    stage_single_file(&mut repo, "b.txt".to_string(), b"two", 0o100644, 0, 0, 3);
    git_rm(
        &mut repo,
        &mut wd,
        &vec!["a.txt".to_string(), "untracked.txt".to_string()],
        false,
    );
    assert!(repo.index.entries.get("a.txt").is_none());
    assert!(wd.get_file("a.txt").is_none());
    assert!(repo.index.entries.get("b.txt").is_some());
    assert!(wd.get_file("b.txt").is_some());
    git_rm(&mut repo, &mut wd, &vec!["b.txt".to_string()], true);
    assert!(repo.index.entries.get("b.txt").is_none());
    assert_eq!(wd.get_file("b.txt"), Some(&b"two".to_vec()));
}

#[test]
fn branch_listing_names_every_branch() {
    let mut repo = Repository::init();
    Reference::create(&mut repo.refs, "refs/heads/master", "aaaa");
    Reference::create(&mut repo.refs, "refs/heads/feature", "bbbb");
    Reference::create(&mut repo.refs, "refs/tags/v1", "cccc");
    match git_branch(&mut repo, None, false).unwrap() {
        BranchOutcome::Listed(names) => {
            let mut names = names;
            names.sort();
            assert_eq!(names, vec!["feature".to_string(), "master".to_string()]);
        }
        _ => panic!("expected a listing"),
    }
}

#[test]
fn branch_creation_needs_a_commit() {
    let mut repo = Repository::init();
    assert_eq!(
        git_branch(&mut repo, Some("feature"), false),
        Err(GitError::NoCommitsOnBranch)
    );
    let _ = git_commit(&mut repo, "first", 1000);
    match git_branch(&mut repo, Some("feature"), false).unwrap() {
        BranchOutcome::Created(c) => {
            assert_eq!(Reference::resolve(&repo.refs, "refs/heads/feature"), Some(c));
        }
        _ => panic!("expected a created branch"),
    }
}

#[test]
fn branch_delete_guard_protects_the_current_branch() {
    let mut repo = Repository::init();
    let _ = git_commit(&mut repo, "first", 1000);
    let refs_before: Vec<(String, Option<String>)> = vec![
        ("HEAD".to_string(), Reference::resolve(&repo.refs, "HEAD")),
        (
            "refs/heads/master".to_string(),
            Reference::resolve(&repo.refs, "refs/heads/master"),
        ),
    ];
    assert_eq!(
        git_branch(&mut repo, Some("master"), true),
        Err(GitError::InvalidReference)
    );
    for (name, content) in refs_before {
        assert_eq!(Reference::resolve(&repo.refs, &name), content);
    }
    // a branch that is not checked out can be deleted
    let _ = git_branch(&mut repo, Some("other"), false).unwrap();
    assert_eq!(
        git_branch(&mut repo, Some("other"), true),
        Ok(BranchOutcome::Deleted)
    );
    assert_eq!(Reference::resolve(&repo.refs, "refs/heads/other"), None);
    assert_eq!(
        git_branch(&mut repo, Some("other"), true),
        Ok(BranchOutcome::AbsentBranch)
    );
}

#[test]
fn commit_advances_the_current_branch() {
    let mut repo = Repository::init();
    let c1 = git_commit(&mut repo, "first", 1000);
    assert_eq!(
        Reference::resolve(&repo.refs, "refs/heads/master"),
        Some(c1.clone())
    );
    let c2 = git_commit(&mut repo, "second", 2000);
    assert_ne!(c1, c2);
    assert_eq!(Reference::resolve(&repo.refs, "refs/heads/master"), Some(c2.clone()));
    // the second commit records the first as its parent
    let payload = Object::load(&repo.objects, &c2).unwrap();
    let text = String::from_utf8(payload).unwrap();
    assert!(text.contains(&format!("parent {}\n", c1)));
}
