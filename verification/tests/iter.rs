use libgitdit::base::Oid;
use libgitdit::error::Kind;
use libgitdit::iter::{HeadRefsToIssuesIter, ReferenceDeletingIter, RefsReferringTo};
use libgitdit::memory::MemoryRepository;
use libgitdit::object::Database;
use libgitdit::reference::{Reference, Store};
use libgitdit::repository::RepositoryExt;
use libgitdit::traversal::{TraversalBuilder, Traversible};

fn commit(repo: &mut MemoryRepository, message: &str, parents: &[Oid]) -> Oid {
    repo.commit("Foo Bar", "Foo Bar", message, Oid::zero(), &parents.to_vec())
        .expect("Could not create commit")
}

// RefsReferringTo tests

#[test]
fn referred_refs() {
    let mut repo = MemoryRepository::new();

    let mut heads = Vec::new();
    let mut refs_to_watch = Vec::new();
    let mut refs_to_report = Vec::new();

    {
        let commit = commit(&mut repo, "Test message 1", &[]);
        let refa = repo
            .set_reference("refs/test/1a", commit, false, "create test ref 1a")
            .expect("Could not create reference");
        let refb = repo
            .set_reference("refs/test/1b", commit, false, "create test ref 1b")
            .expect("Could not create reference");
        heads.push(commit);
        refs_to_report.push(refa.name().to_string());
        refs_to_report.push(refb.name().to_string());
        refs_to_watch.push(refa);
        refs_to_watch.push(refb);
    }

    {
        let commit = commit(&mut repo, "Test message 2", &[]);
        let refa = repo
            .set_reference("refs/test/2a", commit, false, "create test ref 2a")
            .expect("Could not create reference");
        repo.set_reference("refs/test/2b", commit, false, "create test ref 2b")
            .expect("Could not create reference");
        heads.push(commit);
        refs_to_report.push(refa.name().to_string());
        refs_to_watch.push(refa);
    }

    {
        let commit = commit(&mut repo, "Test message 3", &[]);
        repo.set_reference("refs/test/3a", commit, false, "create test ref 3a")
            .expect("Could not create reference");
        repo.set_reference("refs/test/3b", commit, false, "create test ref 3b")
            .expect("Could not create reference");
        heads.push(commit);
    }

    {
        let commit = commit(&mut repo, "Test message 4", &[]);
        let refa = repo
            .set_reference("refs/test/4a", commit, false, "create test ref 4a")
            .expect("Could not create reference");
        let refb = repo
            .set_reference("refs/test/4b", commit, false, "create test ref 4b")
            .expect("Could not create reference");
        refs_to_watch.push(refa);
        refs_to_watch.push(refb);
    }

    let commits = repo
        .traversal_builder()
        .expect("Could not create revwalk")
        .with_heads(&heads)
        .expect("Could not push commit onto revwalk")
        .build()
        .expect("Could not create revwalk");
    let mut referred = RefsReferringTo::new(commits);
    referred.watch_refs(refs_to_watch).expect("Could not watch refs");

    let mut reported: Vec<String> = Vec::new();
    while let Some(item) = referred.next() {
        reported.push(
            item.expect("Error during iterating over refs")
                .name()
                .to_string(),
        );
    }
    reported.sort();
    refs_to_report.sort();
    assert_eq!(reported, refs_to_report);
}

#[test]
fn referred_refs_extended() {
    let mut repo = MemoryRepository::new();
    let first = commit(&mut repo, "Test message 1", &[]);
    let second = commit(&mut repo, "Test message 2", &[first]);
    let other = commit(&mut repo, "Test message 3", &[]);
    let walk = repo
        .traversal_builder()
        .expect("Could not create revwalk")
        .with_head(second)
        .expect("Could not push commit onto revwalk")
        .build()
        .expect("Could not create revwalk");
    let mut referred = RefsReferringTo::new(walk);
    referred
        .watch_ref(Reference::from_name("refs/test/first").with_target(first))
        .expect("Could not watch ref");
    referred
        .watch_ref(Reference::from_name("refs/test/other").with_target(other))
        .expect("Could not watch ref");
    let error = referred
        .watch_ref(Reference::from_name("refs/test/dead"))
        .expect_err("Watched a reference without target");
    assert_eq!(error.kind(), Kind::CannotGetReference);
    assert_eq!(error.subject(), "refs/test/dead");
    referred.extend(vec![Reference::from_name("refs/test/dead")]);

    let mut reported: Vec<String> = Vec::new();
    while let Some(item) = referred.next() {
        reported.push(
            item.expect("Error during iterating over refs")
                .name()
                .to_string(),
        );
    }
    assert_eq!(reported, vec!["refs/test/dead", "refs/test/first"]);
}

#[test]
fn referred_refs_walk_error() {
    let mut repo = MemoryRepository::new();
    let first = commit(&mut repo, "Test message 1", &[]);
    let mut unknown = first;
    unknown.advance(5);
    let second = commit(&mut repo, "Test message 2", &[unknown]);
    let walk = repo
        .traversal_builder()
        .expect("Could not create revwalk")
        .with_head(second)
        .expect("Could not push commit onto revwalk")
        .build()
        .expect("Could not create revwalk");
    let mut referred = RefsReferringTo::new(walk);
    referred
        .watch_ref(Reference::from_name("refs/test/first").with_target(first))
        .expect("Could not watch ref");
    let error = referred
        .next()
        .expect("The walk ended silently")
        .expect_err("The walk went on");
    assert_eq!(error.kind(), Kind::CannotGetCommit);
    assert_eq!(error.subject(), unknown.to_hex());
    assert!(referred.next().is_none());
}

// ReferenceDeletingIter tests

fn names(repo: &MemoryRepository) -> Vec<String> {
    let mut out: Vec<String> = repo
        .references("refs")
        .expect("Could not list references")
        .iter()
        .map(|r| r.name.clone())
        .collect();
    out.sort();
    out
}

#[test]
fn delete_all_ignoring_errors() {
    let mut repo = MemoryRepository::new();
    let id = commit(&mut repo, "Test message 1", &[]);
    let a = repo
        .set_reference("refs/test/a", id, false, "a")
        .expect("Could not create reference");
    let b = repo
        .set_reference("refs/test/b", id, false, "b")
        .expect("Could not create reference");
    repo.set_reference("refs/test/c", id, false, "c")
        .expect("Could not create reference");
    let gone = Reference::from_name("refs/test/gone");
    ReferenceDeletingIter::from(vec![a, gone, b]).delete_ignoring(&mut repo);
    assert_eq!(names(&repo), vec!["refs/test/c"]);
}

#[test]
fn delete_up_to_the_first_error() {
    let mut repo = MemoryRepository::new();
    let id = commit(&mut repo, "Test message 1", &[]);
    let a = repo
        .set_reference("refs/test/a", id, false, "a")
        .expect("Could not create reference");
    let b = repo
        .set_reference("refs/test/b", id, false, "b")
        .expect("Could not create reference");
    let gone = Reference::from_name("refs/test/gone");
    let mut deleting = ReferenceDeletingIter::from(vec![a, gone, b]);
    let error = deleting.next(&mut repo).expect("No error was reported");
    assert_eq!(error.kind(), Kind::CannotDeleteReference);
    assert_eq!(error.subject(), "refs/test/gone");
    assert_eq!(names(&repo), vec!["refs/test/b"]);
    assert!(deleting.next(&mut repo).is_none());
    assert!(names(&repo).is_empty());
    assert!(deleting.next(&mut repo).is_none());
}

// HeadRefsToIssuesIter tests

#[test]
fn head_refs_to_issues() {
    let mut repo = MemoryRepository::new();
    let issue = repo
        .create_issue("", "", "Test message 1", Oid::zero(), &vec![])
        .expect("Could not create issue");
    let head = issue
        .local_head(&repo)
        .expect("Could not retrieve local head")
        .expect("No local head found");
    let other = Reference::from_name("refs/heads/main");
    let mut issues = HeadRefsToIssuesIter::new(vec![head, other]);
    let first = issues
        .next()
        .expect("No issue was returned")
        .expect("Could not retrieve issue");
    assert_eq!(first.id(), issue.id());
    let error = issues
        .next()
        .expect("No error was returned")
        .expect_err("A branch is no head of an issue");
    assert_eq!(error.kind(), Kind::MalFormedHeadReference);
    assert_eq!(error.subject(), "refs/heads/main");
    assert!(issues.next().is_none());
}

#[test]
fn delete_one_reference_that_is_there() {
    let mut repo = MemoryRepository::new();
    let id = commit(&mut repo, "Test message 1", &[]);
    let a = repo
        .set_reference("refs/test/a", id, false, "a")
        .expect("Could not create reference");
    repo.set_reference("refs/test/b", id, false, "b")
        .expect("Could not create reference");
    let mut deleting = ReferenceDeletingIter::from(vec![a]);
    assert!(deleting.next(&mut repo).is_none());
    assert_eq!(names(&repo), vec!["refs/test/b"]);
}

#[test]
fn referred_refs_each_once() {
    let mut repo = MemoryRepository::new();
    let first = commit(&mut repo, "Test message 1", &[]);
    let second = commit(&mut repo, "Test message 2", &[first]);
    let walk = repo
        .traversal_builder()
        .expect("Could not create revwalk")
        .with_head(second)
        .expect("Could not push commit onto revwalk")
        .build()
        .expect("Could not create revwalk");
    let mut referred = RefsReferringTo::new(walk);
    for name in ["refs/test/a", "refs/test/b", "refs/test/c"] {
        referred
            .watch_ref(Reference::from_name(name).with_target(first))
            .expect("Could not watch ref");
    }
    referred
        .watch_ref(Reference::from_name("refs/test/top").with_target(second))
        .expect("Could not watch ref");
    let mut reported: Vec<String> = Vec::new();
    while let Some(item) = referred.next() {
        reported.push(
            item.expect("Error during iterating over refs")
                .name()
                .to_string(),
        );
    }
    assert_eq!(
        reported,
        vec!["refs/test/top", "refs/test/c", "refs/test/b", "refs/test/a"]
    );
    assert!(referred.next().is_none());
}
