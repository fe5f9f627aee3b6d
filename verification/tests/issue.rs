use libgitdit::base::Oid;
use libgitdit::error::Kind;
use libgitdit::issue::{Issue, IssueRefType};
use libgitdit::memory::MemoryRepository;
use libgitdit::object::Database;
use libgitdit::reference::Store;
use libgitdit::repository::RepositoryExt;
use libgitdit::traversal::Traversal;

fn empty_tree() -> Oid {
    Oid::zero()
}

#[test]
fn issue_leaves() {
    let mut repo = MemoryRepository::new();

    let sig = "Foo Bar <foo.bar@example.com>";
    let empty_tree = empty_tree();

    {
        // messages we're not supposed to see
        let issue = repo
            .create_issue(sig, sig, "Test message 1", empty_tree, &vec![])
            .expect("Could not create issue");
        let initial_message = issue
            .initial_message(&repo)
            .expect("Could not retrieve initial message");
        issue
            .add_message(&mut repo, sig, sig, "Test message 2", empty_tree, &vec![initial_message.id()])
            .expect("Could not add message");
    }

    let issue = repo
        .create_issue(sig, sig, "Test message 3", empty_tree, &vec![])
        .expect("Could not create issue");
    let initial_message = issue
        .initial_message(&repo)
        .expect("Could not retrieve initial message");
    let message = issue
        .add_message(&mut repo, sig, sig, "Test message 4", empty_tree, &vec![initial_message.id()])
        .expect("Could not add message");

    let mut leaves = issue
        .local_refs(&repo, IssueRefType::Leaf)
        .expect("Could not retrieve issue leaves")
        .into_iter();
    let leaf = leaves
        .next()
        .expect("Could not find leaf reference")
        .target()
        .expect("Could not determine the target of the leaf reference");
    assert_eq!(leaf, message);
    assert!(leaves.next().is_none());
}

#[test]
fn local_refs() {
    let mut repo = MemoryRepository::new();

    let sig = "Foo Bar <foo.bar@example.com>";
    let empty_tree = empty_tree();

    {
        // messages we're not supposed to see
        let issue = repo
            .create_issue(sig, sig, "Test message 1", empty_tree, &vec![])
            .expect("Could not create issue");
        let initial_message = issue
            .initial_message(&repo)
            .expect("Could not retrieve initial message");
        issue
            .add_message(&mut repo, sig, sig, "Test message 3", empty_tree, &vec![initial_message.id()])
            .expect("Could not add message");
    }

    let issue = repo
        .create_issue(sig, sig, "Test message 2", empty_tree, &vec![])
        .expect("Could not create issue");
    let initial_message = issue
        .initial_message(&repo)
        .expect("Could not retrieve initial message");
    let message = issue
        .add_message(&mut repo, sig, sig, "Test message 3", empty_tree, &vec![initial_message.id()])
        .expect("Could not add message");

    let mut ids = vec![issue.id().clone(), message];
    ids.sort_by_key(|id| *id.as_bytes());
    let mut ref_ids: Vec<Oid> = issue
        .local_refs(&repo, IssueRefType::Any)
        .expect("Could not retrieve local refs")
        .into_iter()
        .map(|reference| reference.target().unwrap())
        .collect();
    ref_ids.sort_by_key(|id| *id.as_bytes());
    assert_eq!(ref_ids, ids);
}

#[test]
fn message_revwalk() {
    let mut repo = MemoryRepository::new();

    let sig = "Foo Bar <foo.bar@example.com>";
    let empty_tree = empty_tree();

    let issue1 = repo
        .create_issue(sig, sig, "Test message 1", empty_tree, &vec![])
        .expect("Could not create issue");
    let initial_message1 = issue1
        .initial_message(&repo)
        .expect("Could not retrieve initial message");

    let issue2 = repo
        .create_issue(sig, sig, "Test message 2", empty_tree, &vec![initial_message1.id()])
        .expect("Could not create issue");
    let initial_message2 = issue2
        .initial_message(&repo)
        .expect("Could not retrieve initial message");
    let message = issue2
        .add_message(&mut repo, sig, sig, "Test message 3", empty_tree, &vec![initial_message2.id()])
        .expect("Could not add message");
    let message_id = message;

    let mut iter1 = issue1
        .messages(&repo)
        .expect("Could not create message revwalk iterator");
    let mut current_id = iter1
        .next()
        .expect("No more messages")
        .expect("Could not retrieve message");
    assert_eq!(current_id, issue1.id().clone());
    assert!(iter1.next().is_none());

    let mut iter2 = issue2
        .messages(&repo)
        .expect("Could not create message revwalk iterator");
    current_id = iter2
        .next()
        .expect("No more messages")
        .expect("Could not retrieve message");
    assert_eq!(current_id, message_id);

    current_id = iter2
        .next()
        .expect("No more messages")
        .expect("Could not retrieve message");
    assert_eq!(&current_id, issue2.id());

    assert_eq!(iter2.next().map(|r| r.is_ok()), None);
}

#[test]
fn update_head() {
    let mut repo = MemoryRepository::new();

    let sig = "Foo Bar <foo.bar@example.com>";
    let empty_tree = empty_tree();

    let issue = repo
        .create_issue(sig, sig, "Test message 2", empty_tree, &vec![])
        .expect("Could not create issue");
    let initial_message = issue
        .initial_message(&repo)
        .expect("Could not retrieve initial message");
    let message = issue
        .add_message(&mut repo, sig, sig, "Test message 3", empty_tree, &vec![initial_message.id()])
        .expect("Could not add message");

    let mut local_head = issue
        .local_head(&repo)
        .expect("Could not retrieve local head")
        .expect("No local head found")
        .target()
        .expect("Could not get target of local head");
    assert_eq!(&local_head, issue.id());

    issue
        .update_head(&mut repo, message, true)
        .expect("Could not update head reference");
    local_head = issue
        .local_head(&repo)
        .expect("Could not retrieve local head")
        .expect("No local head found")
        .target()
        .expect("Could not get target of local head");
    assert_eq!(local_head, message);
}

#[test]
fn update_head_without_replace_fails_on_existing_head() {
    let mut repo = MemoryRepository::new();
    let issue = repo
        .create_issue("", "", "Test message 1", empty_tree(), &vec![])
        .expect("Could not create issue");
    let message = issue
        .add_message(&mut repo, "", "", "Test message 2", empty_tree(), &vec![*issue.id()])
        .expect("Could not add message");
    let error = issue
        .update_head(&mut repo, message, false)
        .expect_err("The head was overwritten");
    assert_eq!(error.kind(), Kind::CannotSetReference);
    assert_eq!(error.subject(), format!("refs/dit/{}/head", issue.id().to_hex()));
    let head = issue
        .local_head(&repo)
        .expect("Could not retrieve local head")
        .expect("No local head found");
    assert_eq!(head.target(), Some(*issue.id()));
}

#[test]
fn local_head_absent_is_no_error() {
    let mut repo = MemoryRepository::new();
    let message = repo
        .commit("", "", "Test message 1", empty_tree(), &vec![])
        .expect("Cannot create commit");
    let issue = Issue::new_unchecked(message);
    assert!(issue
        .local_head(&repo)
        .expect("Could not retrieve local head")
        .is_none());
}

#[test]
fn add_message_creates_one_leaf() {
    let mut repo = MemoryRepository::new();
    let issue = repo
        .create_issue("", "", "Test message 1", empty_tree(), &vec![])
        .expect("Could not create issue");
    let first = issue
        .add_message(&mut repo, "", "", "Test message 2", empty_tree(), &vec![*issue.id()])
        .expect("Could not add message");
    let second = issue
        .add_message(&mut repo, "", "", "Test message 3", empty_tree(), &vec![first])
        .expect("Could not add message");
    let mut names: Vec<String> = issue
        .local_leaves(&repo)
        .expect("Could not retrieve issue leaves")
        .iter()
        .map(|r| r.name().to_string())
        .collect();
    names.sort();
    let mut expected = vec![
        format!("refs/dit/{}/leaves/{}", issue.id().to_hex(), first.to_hex()),
        format!("refs/dit/{}/leaves/{}", issue.id().to_hex(), second.to_hex()),
    ];
    expected.sort();
    assert_eq!(names, expected);
    let error = issue
        .add_leaf(&mut repo, first)
        .expect_err("A leaf was created twice");
    assert_eq!(error.kind(), Kind::CannotSetReference);
}

#[test]
fn messages_from_follows_first_parents_to_the_initial_message() {
    let mut repo = MemoryRepository::new();
    let other = repo
        .create_issue("", "", "Test message 1", empty_tree(), &vec![])
        .expect("Could not create issue");
    let issue = repo
        .create_issue("", "", "Test message 2", empty_tree(), &vec![*other.id()])
        .expect("Could not create issue");
    let a = issue
        .add_message(&mut repo, "", "", "Test message 3", empty_tree(), &vec![*issue.id()])
        .expect("Could not add message");
    let b = issue
        .add_message(&mut repo, "", "", "Test message 4", empty_tree(), &vec![*issue.id()])
        .expect("Could not add message");
    let merge = issue
        .add_message(&mut repo, "", "", "Test message 5", empty_tree(), &vec![a, b])
        .expect("Could not add message");
    let mut walk = issue
        .messages_from(&repo, merge)
        .expect("Could not create walk");
    let mut seen = Vec::new();
    while let Some(item) = walk.next() {
        seen.push(item.expect("Could not retrieve message"));
    }
    assert_eq!(seen, vec![merge, a, *issue.id()]);
}

#[test]
fn messages_fail_for_unknown_issue() {
    let repo = MemoryRepository::new();
    let issue = Issue::new_unchecked(Oid::zero());
    let error = issue
        .messages(&repo)
        .map(|_| ())
        .expect_err("Walked an unknown issue");
    assert_eq!(error.kind(), Kind::CannotGetCommit);
    assert_eq!(error.subject(), Oid::zero().to_hex());
}

#[test]
fn glob_parts() {
    assert_eq!(IssueRefType::Any.glob_part(), "**");
    assert_eq!(IssueRefType::Head.glob_part(), "head");
    assert_eq!(IssueRefType::Leaf.glob_part(), "leaves/*");
}

#[test]
fn remote_heads_and_leaves() {
    let mut repo = MemoryRepository::new()
        .with_remote(b"origin".to_vec())
        .with_remote(b"fork".to_vec());
    let issue = repo
        .create_issue("", "", "Test message 1", empty_tree(), &vec![])
        .expect("Could not create issue");
    let id = *issue.id();
    let head = format!("refs/remotes/origin/dit/{}/head", id.to_hex());
    let leaf = format!("refs/remotes/fork/dit/{}/leaves/{}", id.to_hex(), id.to_hex());
    repo.set_reference(&head, id, false, "fetch")
        .expect("Could not set reference");
    repo.set_reference(&leaf, id, false, "fetch")
        .expect("Could not set reference");
    let heads = issue
        .all_remote_heads(&repo)
        .expect("Could not retrieve remote heads");
    assert_eq!(heads.len(), 1);
    assert_eq!(heads[0].name(), head);
    let leaves = issue
        .all_remote_leaves(&repo)
        .expect("Could not retrieve remote leaves");
    assert_eq!(leaves.len(), 1);
    assert_eq!(leaves[0].name(), leaf);
    assert_eq!(
        Issue::all_namespaces(&repo).expect("Could not retrieve namespaces"),
        vec![
            "refs/dit".to_string(),
            "refs/remotes/origin/dit".to_string(),
            "refs/remotes/fork/dit".to_string()
        ]
    );
}

#[test]
fn refs_by_type_and_namespace() {
    let mut repo = MemoryRepository::new()
        .with_remote(b"origin".to_vec())
        .with_remote(b"origin".to_vec());
    let issue = repo
        .create_issue("", "", "Test message 1", empty_tree(), &vec![])
        .expect("Could not create issue");
    let id = *issue.id();
    let reply = issue
        .add_message(&mut repo, "", "", "Test message 2", empty_tree(), &vec![id])
        .expect("Could not add message");
    let local_head = format!("refs/dit/{}/head", id.to_hex());
    let local_leaf = format!("refs/dit/{}/leaves/{}", id.to_hex(), reply.to_hex());
    let remote_head = format!("refs/remotes/origin/dit/{}/head", id.to_hex());
    let remote_leaf = format!("refs/remotes/origin/dit/{}/leaves/{}", id.to_hex(), id.to_hex());
    let remote_note = format!("refs/remotes/origin/dit/{}/notes", id.to_hex());
    for name in [&remote_head, &remote_leaf, &remote_note] {
        repo.set_reference(name, id, false, "fetch")
            .expect("Could not set reference");
    }
    let sorted = |list: Vec<libgitdit::reference::Reference>| {
        let mut names: Vec<String> = list.iter().map(|r| r.name().to_string()).collect();
        names.sort();
        names
    };
    assert_eq!(
        sorted(issue.local_refs(&repo, IssueRefType::Head).expect("Could not retrieve refs")),
        vec![local_head.clone()]
    );
    assert_eq!(
        sorted(issue.local_refs(&repo, IssueRefType::Any).expect("Could not retrieve refs")),
        vec![local_head.clone(), local_leaf.clone()]
    );
    assert_eq!(
        sorted(issue.remote_refs(&repo, IssueRefType::Any).expect("Could not retrieve refs")),
        vec![remote_head.clone(), remote_leaf.clone(), remote_note.clone()]
    );
    assert_eq!(
        sorted(issue.remote_refs(&repo, IssueRefType::Leaf).expect("Could not retrieve refs")),
        vec![remote_leaf.clone()]
    );
    assert_eq!(
        sorted(issue.all_refs(&repo, IssueRefType::Head).expect("Could not retrieve refs")),
        vec![local_head.clone(), remote_head.clone()]
    );
    assert_eq!(
        sorted(issue.all_refs(&repo, IssueRefType::Leaf).expect("Could not retrieve refs")),
        vec![local_leaf.clone(), remote_leaf.clone()]
    );
    let head = issue
        .remote_head(&repo, "origin")
        .expect("Could not retrieve remote head")
        .expect("No remote head found");
    assert_eq!(head.name(), remote_head);
    assert!(issue
        .remote_head(&repo, "fork")
        .expect("Could not retrieve remote head")
        .is_none());
    assert_eq!(
        sorted(issue.remote_leaves(&repo, "origin").expect("Could not retrieve refs")),
        vec![remote_leaf.clone()]
    );
    assert_eq!(Issue::remote_namespace("origin"), "refs/remotes/origin/dit");
    let heads = issue.heads(&repo).expect("Could not retrieve heads");
    assert_eq!(heads[0].name(), local_head);
    assert!(heads.iter().skip(1).all(|h| h.name() == remote_head));
}

#[test]
fn issue_as_text_and_labels() {
    let mut id = Oid::zero();
    id.advance(0x2a);
    let issue = Issue::new_unchecked(id);
    assert_eq!(issue.to_text(), "000000000000000000000000000000000000002a");
    assert_eq!(issue, Issue::new_unchecked(id));
    assert_eq!(IssueRefType::Any.label(), "Any ref");
    assert_eq!(IssueRefType::Head.label(), "Head ref");
    assert_eq!(IssueRefType::Leaf.label(), "Leaf ref");
}
