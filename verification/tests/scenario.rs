use minigit::checkout::{git_checkout, is_workdir_clean};
use minigit::commands::{stage_single_file, git_commit, git_branch, BranchOutcome};
use minigit::error::GitError;
use minigit::reference::Reference;
use minigit::repository::Repository;
use minigit::workdir::Workdir;
use sha1::Digest;

#[test]
fn dirty_tree_guard_blocks_checkout_and_changes_nothing() {
    let mut repo = Repository::init();
    let mut wd = Workdir::new();
    wd.write_file("a.txt".to_string(), b"hello".to_vec());
    stage_single_file(&mut repo, "a.txt".to_string(), b"hello", 0o100644, 0, 0, 5);
    let _ = git_commit(&mut repo, "first", 1000);
    // modify the tracked file after staging, without re-staging
    wd.write_file("a.txt".to_string(), b"changed".to_vec());
    assert!(!is_workdir_clean(&repo.index, &wd));
    let head_before = Reference::resolve(&repo.refs, "HEAD");
    assert_eq!(
        git_checkout(&mut repo, &mut wd, "master", false),
        Err(GitError::DirtyWorkingTree)
    );
    assert_eq!(wd.get_file("a.txt"), Some(&b"changed".to_vec()));
    assert_eq!(Reference::resolve(&repo.refs, "HEAD"), head_before);
    assert!(repo.index.entries.get("a.txt").is_some());
}

#[test]
fn checkout_fidelity_restores_exactly_the_committed_files() {
    let mut repo = Repository::init();
    let mut wd = Workdir::new();
    wd.write_file("a.txt".to_string(), b"alpha".to_vec());
    wd.add_dir("dir".to_string());
    wd.write_file("dir/b.txt".to_string(), b"beta".to_vec());
    stage_single_file(&mut repo, "a.txt".to_string(), b"alpha", 0o100644, 0, 0, 5);
    stage_single_file(&mut repo, "dir/b.txt".to_string(), b"beta", 0o100644, 0, 0, 4);
    let commit = git_commit(&mut repo, "snapshot", 1234);
    // perturb the working directory with untracked content
    wd.write_file("extra.txt".to_string(), b"junk".to_vec());
    wd.add_dir("junkdir".to_string());
    let r = git_checkout(&mut repo, &mut wd, &commit, false);
    assert_eq!(r, Ok(()));
    // exactly the committed file set and contents, nothing else
    assert_eq!(wd.files.len(), 2);
    assert_eq!(wd.get_file("a.txt"), Some(&b"alpha".to_vec()));
    assert_eq!(wd.get_file("dir/b.txt"), Some(&b"beta".to_vec()));
    assert!(wd.get_file("extra.txt").is_none());
    assert!(wd.has_dir("dir"));
    assert!(!wd.has_dir("junkdir"));
    // the index was rebuilt from the tree walk
    assert_eq!(repo.index.entries.len(), 2);
    let a = repo.index.entries.get("a.txt").unwrap();
    assert_eq!(
        a.sha,
        hex::encode(sha1::Sha1::digest(b"blob 5\x00alpha"))
    );
    // detached checkout of a literal commit hash moves HEAD to it
    assert_eq!(Reference::resolve(&repo.refs, "HEAD"), Some(commit));
}

#[test]
fn checkout_of_a_missing_commit_reports_not_found() {
    let mut repo = Repository::init();
    let mut wd = Workdir::new();
    let r = git_checkout(
        &mut repo,
        &mut wd,
        "0123456789abcdef0123456789abcdef01234567",
        false,
    );
    assert_eq!(r, Err(GitError::NotFound));
}

#[test]
fn checkout_with_create_needs_a_commit() {
    let mut repo = Repository::init();
    let mut wd = Workdir::new();
    assert_eq!(
        git_checkout(&mut repo, &mut wd, "feature", true),
        Err(GitError::NoCommitsOnBranch)
    );
}

#[test]
fn init_add_commit_branch_checkout_scenario() {
    // init . ; write a.txt = "hello" ; add a.txt ; commit -m "first"
    let mut repo = Repository::init();
    let mut wd = Workdir::new();
    wd.write_file("a.txt".to_string(), b"hello".to_vec());
    stage_single_file(&mut repo, "a.txt".to_string(), b"hello", 0o100644, 0, 0, 5);
    let commit = git_commit(&mut repo, "first", 1700000000);

    // the index holds one entry for a.txt whose hash is SHA1("blob 5\0hello")
    assert_eq!(repo.index.entries.len(), 1);
    let entry = repo.index.entries.get("a.txt").unwrap();
    assert_eq!(
        entry.sha,
        hex::encode(sha1::Sha1::digest(b"blob 5\x00hello"))
    );

    // branch feature: refs/heads/feature equals the commit hash
    match git_branch(&mut repo, Some("feature"), false).unwrap() {
        BranchOutcome::Created(c) => assert_eq!(c, commit),
        _ => panic!("expected a created branch"),
    }
    assert_eq!(
        Reference::resolve(&repo.refs, "refs/heads/feature"),
        Some(commit.clone())
    );

    // checkout feature: HEAD is symbolic, the working directory holds only a.txt
    assert_eq!(git_checkout(&mut repo, &mut wd, "feature", false), Ok(()));
    assert_eq!(
        Reference::resolve(&repo.refs, "HEAD"),
        Some("ref: refs/heads/feature".to_string())
    );
    assert_eq!(wd.files.len(), 1);
    assert_eq!(wd.get_file("a.txt"), Some(&b"hello".to_vec()));
}

#[test]
fn checkout_with_create_switches_to_the_new_branch() {
    let mut repo = Repository::init();
    let mut wd = Workdir::new();
    wd.write_file("a.txt".to_string(), b"one".to_vec());
    stage_single_file(&mut repo, "a.txt".to_string(), b"one", 0o100644, 0, 0, 3);
    let commit = git_commit(&mut repo, "base", 1);
    assert_eq!(git_checkout(&mut repo, &mut wd, "topic", true), Ok(()));
    assert_eq!(
        Reference::resolve(&repo.refs, "refs/heads/topic"),
        Some(commit)
    );
    assert_eq!(
        Reference::resolve(&repo.refs, "HEAD"),
        Some("ref: refs/heads/topic".to_string())
    );
    assert_eq!(wd.get_file("a.txt"), Some(&b"one".to_vec()));
}
