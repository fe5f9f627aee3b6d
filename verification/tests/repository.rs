use libgitdit::base::Oid;
use libgitdit::error::Kind;
use libgitdit::issue::Issue;
use libgitdit::memory::MemoryRepository;
use libgitdit::object::Database;
use libgitdit::reference::{Reference, Store};
use libgitdit::repository::RepositoryExt;
use libgitdit::traversal::{Traversal, Traversible};

fn new_issue(repo: &mut MemoryRepository, message: &str) -> Issue {
    repo.create_issue("", "", message, Oid::zero(), &vec![])
        .expect("Could not create issue")
}

#[test]
fn find_issue() {
    let mut repo = MemoryRepository::new();

    let issue = new_issue(&mut repo, "Test message 1");

    repo.find_issue(issue.id().clone())
        .expect("Could not tretrieve issue by id");
}

#[test]
fn find_issue_unknown() {
    let mut repo = MemoryRepository::new();
    let message = repo
        .commit("", "", "Test message 1", Oid::zero(), &vec![])
        .expect("Cannot create commit");
    let error = repo.find_issue(message).expect_err("Found an issue without head");
    assert_eq!(error.kind(), Kind::CannotFindIssueHead);
    assert_eq!(error.subject(), message.to_hex());
}

#[test]
fn find_issue_by_remote_head() {
    let mut repo = MemoryRepository::new().with_remote(b"origin".to_vec());
    let message = repo
        .commit("", "", "Test message 1", Oid::zero(), &vec![])
        .expect("Cannot create commit");
    let name = format!("refs/remotes/origin/dit/{}/head", message.to_hex());
    repo.set_reference(&name, message, false, "fetch")
        .expect("Could not set reference");
    let issue = repo.find_issue(message).expect("Could not retrieve issue");
    assert_eq!(issue.id(), &message);
}

#[test]
fn find_issue_with_invalid_remote_name() {
    let mut repo = MemoryRepository::new().with_remote(vec![0xff, 0xfe]);
    let message = repo
        .commit("", "", "Test message 1", Oid::zero(), &vec![])
        .expect("Cannot create commit");
    let error = repo.find_issue(message).expect_err("Found an issue without head");
    assert_eq!(error.kind(), Kind::ReferenceNameError);
}

#[test]
fn issue_by_head_ref() {
    let mut repo = MemoryRepository::new();

    let issue = new_issue(&mut repo, "Test message 1");

    let local_head = issue
        .local_head(&repo)
        .expect("No local head found")
        .expect("Could not retrieve local head reference");
    let retrieved_issue = repo
        .issue_by_head_ref(&local_head)
        .expect("Could not retrieve issue");
    assert_eq!(issue.id(), retrieved_issue.id());
}

#[test]
fn issue_by_head_ref_malformed() {
    let repo = MemoryRepository::new();
    let reference = Reference::from_name(
        "refs/dit/65b56706fdc3501749d008750c61a1f24b888f72/leaves/f6bd121bdc2ba5906e412da19191a2eaf2025755",
    );
    let error = repo
        .issue_by_head_ref(&reference)
        .expect_err("A leaf is no head");
    assert_eq!(error.kind(), Kind::MalFormedHeadReference);
    assert_eq!(error.subject(), reference.name());
}

#[test]
fn issue_with_message() {
    let mut repo = MemoryRepository::new();

    let issue = new_issue(&mut repo, "Test message 1");
    let initial_message = issue
        .initial_message(&repo)
        .expect("Could not retrieve initial message");
    let message = issue
        .add_message(&mut repo, "", "", "Test message 2", Oid::zero(), &vec![initial_message.id()])
        .expect("Could not add message");

    let retrieved_issue = repo
        .issue_with_message(message)
        .expect("Could not retrieve issue");
    assert_eq!(retrieved_issue.id(), issue.id());
}

#[test]
fn issue_with_message_none() {
    let mut repo = MemoryRepository::new();
    let message = repo
        .commit("", "", "Test message 1", Oid::zero(), &vec![])
        .expect("Cannot create commit");
    let error = repo
        .issue_with_message(message)
        .expect_err("Found an issue for a stray message");
    assert_eq!(error.kind(), Kind::NoTreeInitFound);
    assert_eq!(error.subject(), message.to_hex());

    let mut unknown = message;
    unknown.advance(1);
    let error = repo
        .issue_with_message(unknown)
        .expect_err("Found an issue for an unknown message");
    assert_eq!(error.kind(), Kind::CannotConstructRevwalk);
}

#[test]
fn issues() {
    let mut repo = MemoryRepository::new();

    let issue = new_issue(&mut repo, "Test message 1");

    let mut issues = repo
        .issues()
        .expect("Could not retrieve issues")
        .into_iter();
    let retrieved_issue = issues.next().expect("Could not retrieve issue");
    assert_eq!(retrieved_issue.id(), issue.id());
    assert!(issues.next().is_none());
}

#[test]
fn issues_local_and_remote_once() {
    let mut repo = MemoryRepository::new()
        .with_remote(b"origin".to_vec())
        .with_remote(b"fork".to_vec());
    let first = new_issue(&mut repo, "Test message 1");
    let second = repo
        .commit("", "", "Test message 2", Oid::zero(), &vec![])
        .expect("Cannot create commit");
    for name in [
        format!("refs/remotes/origin/dit/{}/head", first.id().to_hex()),
        format!("refs/remotes/origin/dit/{}/head", second.to_hex()),
        format!("refs/remotes/fork/dit/{}/head", second.to_hex()),
        format!("refs/remotes/fork/dit/{}/leaves/{}", second.to_hex(), second.to_hex()),
    ] {
        repo.set_reference(&name, second, false, "fetch")
            .expect("Could not set reference");
    }
    let mut ids: Vec<Oid> = repo
        .issues()
        .expect("Could not retrieve issues")
        .iter()
        .map(|i| *i.id())
        .collect();
    ids.sort_by_key(|id| *id.as_bytes());
    assert_eq!(ids, vec![*first.id(), second]);

    let local = repo
        .issues_with_prefix("refs")
        .expect("Could not retrieve issues");
    assert_eq!(local.len(), 1);
    assert_eq!(local[0].id(), first.id());
}

#[test]
fn first_parent_messages() {
    let mut repo = MemoryRepository::new();

    let issue = new_issue(&mut repo, "Test message 1");
    let initial_message = issue
        .initial_message(&repo)
        .expect("Could not retrieve initial message");
    let message = issue
        .add_message(&mut repo, "", "", "Test message 2", Oid::zero(), &vec![initial_message.id()])
        .expect("Could not add message");

    let mut iter = repo
        .first_parent_messages(message)
        .expect("Could not create first parent iterator");
    let mut current_id = iter
        .next()
        .expect("No more messages")
        .expect("Could not retrieve message");
    assert_eq!(current_id, message);

    current_id = iter
        .next()
        .expect("No more messages")
        .expect("Could not retrieve message");
    assert_eq!(&current_id, issue.id());

    assert_eq!(iter.next().map(|r| r.is_ok()), None);
}

#[test]
fn create_issue_sets_head() {
    let mut repo = MemoryRepository::new();
    let issue = repo
        .create_issue("alice", "bob", "Test message 1", Oid::zero(), &vec![])
        .expect("Could not create issue");
    let initial = issue
        .initial_message(&repo)
        .expect("Could not retrieve initial message");
    assert_eq!(initial.author(), "alice");
    assert_eq!(initial.committer(), "bob");
    assert_eq!(initial.message(), "Test message 1");
    assert_eq!(initial.tree_id(), Oid::zero());
    assert!(initial.parent_ids().is_empty());
    let head = issue
        .local_head(&repo)
        .expect("Could not retrieve local head")
        .expect("No local head found");
    assert_eq!(head.name(), format!("refs/dit/{}/head", issue.id().to_hex()));
    assert_eq!(head.target(), Some(*issue.id()));
}

#[test]
fn issue_with_message_finds_the_first_issue_on_the_lineage() {
    let mut repo = MemoryRepository::new();
    let outer = new_issue(&mut repo, "Test message 1");
    let inner = repo
        .create_issue("", "", "Test message 2", Oid::zero(), &vec![*outer.id()])
        .expect("Could not create issue");
    let side = repo
        .create_issue("", "", "Test message 3", Oid::zero(), &vec![])
        .expect("Could not create issue");
    let reply = inner
        .add_message(&mut repo, "", "", "Test message 4", Oid::zero(), &vec![*inner.id(), *side.id()])
        .expect("Could not add message");
    let found = repo
        .issue_with_message(reply)
        .expect("Could not retrieve issue");
    assert_eq!(found.id(), inner.id());
    let found = repo
        .issue_with_message(*outer.id())
        .expect("Could not retrieve issue");
    assert_eq!(found.id(), outer.id());
}

#[test]
fn issues_with_prefix_lists_one_issue_per_head_in_order() {
    let mut repo = MemoryRepository::new().with_remote(b"origin".to_vec());
    let first = new_issue(&mut repo, "Test message 1");
    let second = new_issue(&mut repo, "Test message 2");
    first
        .add_message(&mut repo, "", "", "Test message 3", Oid::zero(), &vec![*first.id()])
        .expect("Could not add message");
    let nested = format!("refs/dit/archive/{}/head", first.id().to_hex());
    repo.set_reference(&nested, *first.id(), false, "archive")
        .expect("Could not set reference");
    repo.add_dead_reference("refs/dit/stray")
        .expect("Could not add reference");
    let ids: Vec<Oid> = repo
        .issues_with_prefix("refs")
        .expect("Could not retrieve issues")
        .iter()
        .map(|i| *i.id())
        .collect();
    assert_eq!(ids, vec![*first.id(), *second.id(), *first.id()]);
}

#[test]
fn listing_has_an_error_for_each_entry_without_target() {
    let mut repo = MemoryRepository::new();
    let id = repo
        .commit("", "", "Test message 1", Oid::zero(), &vec![])
        .expect("Cannot create commit");
    repo.set_reference("refs/test/a", id, false, "a")
        .expect("Could not set reference");
    repo.add_dead_reference("refs/test/b")
        .expect("Could not add reference");
    repo.set_reference("refs/other/c", id, false, "c")
        .expect("Could not set reference");
    let entries = repo
        .references("refs/test")
        .expect("Could not list references");
    assert_eq!(entries.len(), 2);
    assert_eq!(entries[0].name, "refs/test/a");
    assert_eq!(entries[0].target.as_ref().ok(), Some(&id));
    assert_eq!(entries[1].name, "refs/test/b");
    let error = entries[1].target.as_ref().expect_err("A dead reference resolved");
    assert_eq!(error.kind(), Kind::CannotGetReference);
    assert_eq!(error.subject(), "refs/test/b");
    let listed = repo.listing("refs/test").expect("Could not list references");
    assert_eq!(listed.len(), 2);
    assert_eq!(listed[0].target(), Some(id));
    assert_eq!(listed[1].target(), None);
}
