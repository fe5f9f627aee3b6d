use libgitdit::base::Oid;
use libgitdit::error::Kind;
use libgitdit::gc::{CollectableRefs, ReferenceCollectionSpec};
use libgitdit::issue::Issue;
use libgitdit::memory::MemoryRepository;
use libgitdit::object::Database;
use libgitdit::reference::{Reference, Store};
use libgitdit::repository::RepositoryExt;

fn tree() -> Oid {
    Oid::zero()
}

fn commit(repo: &mut MemoryRepository, message: &str, parents: &[Oid]) -> Oid {
    repo.commit("", "", message, tree(), &parents.to_vec())
        .expect("Cannot create commit")
}

fn reply(repo: &mut MemoryRepository, issue: &Issue, message: &str, parents: &[Oid]) -> Oid {
    issue
        .add_message(repo, "", "", message, tree(), &parents.to_vec())
        .expect("Could not add message")
}

fn names(mut refs: Vec<Reference>) -> Vec<String> {
    refs.sort_by(|a, b| a.name().cmp(b.name()));
    refs.iter().map(|r| r.name().to_string()).collect()
}

fn leaf_name(prefix: &str, issue: &Issue, leaf: Oid) -> String {
    format!("{}/{}/leaves/{}", prefix, issue.id().to_hex(), leaf.to_hex())
}

fn head_name(prefix: &str, issue: &Issue) -> String {
    format!("{}/{}/head", prefix, issue.id().to_hex())
}

#[test]
fn collectable_leaves() {
    let mut repo = MemoryRepository::new();

    let mut refs_to_collect = Vec::new();
    let mut issues = Vec::new();

    {
        // issue not supposed to be affected
        let initial_message = commit(&mut repo, "Test message 1", &[]);
        let issue = Issue::new_unchecked(initial_message);
        issue
            .update_head(&mut repo, initial_message, true)
            .expect("Could not update head");
        reply(&mut repo, &issue, "Test message 2", &[initial_message]);
    }

    {
        let initial_message = commit(&mut repo, "Test message 3", &[]);
        let issue = Issue::new_unchecked(initial_message);
        issue
            .update_head(&mut repo, initial_message, true)
            .expect("Could not update head");
        let message = reply(&mut repo, &issue, "Test message 4", &[initial_message]);
        issue
            .update_head(&mut repo, message, true)
            .expect("Could not update head");
        issues.push(issue);
        // the leaf of the message that the head points to is superseded by
        // no tip: it stays
    }

    {
        let initial_message = commit(&mut repo, "Test message 5", &[]);
        let issue = Issue::new_unchecked(initial_message);
        issue
            .update_head(&mut repo, initial_message, true)
            .expect("Could not update head");
        let message1_id = reply(&mut repo, &issue, "Test message 6", &[initial_message]);
        let message1 = repo
            .find_commit(message1_id)
            .expect("Could not retrieve message");
        reply(&mut repo, &issue, "Test message 7", &[message1.id()]);
        issues.push(issue);
        refs_to_collect.push(message1_id);
    }

    refs_to_collect.sort_by_key(|id| *id.as_bytes());

    let collectable =
        CollectableRefs::default().collect_heads(ReferenceCollectionSpec::BackedByRemoteHead);
    let mut collected: Vec<_> = issues
        .iter()
        .flat_map(|i| {
            collectable
                .for_issue(&repo, i)
                .expect("Error during discovery of collectable refs")
        })
        .map(|r| r.target().expect("Could not retrieve target"))
        .collect();
    collected.sort_by_key(|id| *id.as_bytes());
    assert_eq!(refs_to_collect, collected);
}

#[test]
fn leaves_of_a_chain() {
    // root r0, leaf l1 replies to r0, leaf l2 replies to l1
    let mut repo = MemoryRepository::new();
    let issue = repo
        .create_issue("", "", "r0", tree(), &vec![])
        .expect("Could not create issue");
    let l1 = reply(&mut repo, &issue, "l1", &[*issue.id()]);
    let l2 = reply(&mut repo, &issue, "l2", &[l1]);
    let collected = CollectableRefs::default()
        .leaves(&repo, &issue)
        .expect("Error during discovery of collectable refs");
    assert_eq!(names(collected), vec![leaf_name("refs/dit", &issue, l1)]);
    let kept = leaf_name("refs/dit", &issue, l2);
    assert!(repo
        .get_reference(&kept)
        .expect("Could not get reference")
        .is_some());
}

#[test]
fn leaves_of_a_lone_root() {
    // issue A = {root a0} only: its single leaf has no superseding tip
    let mut repo = MemoryRepository::new();
    let a0 = commit(&mut repo, "a0", &[]);
    let issue = Issue::new_unchecked(a0);
    issue.add_leaf(&mut repo, a0).expect("Could not add leaf");
    for gc in [
        CollectableRefs::default(),
        CollectableRefs::default().collect_heads(ReferenceCollectionSpec::BackedByRemoteHead),
        CollectableRefs::default().consider_remote_refs(true),
    ] {
        let collected = gc
            .leaves(&repo, &issue)
            .expect("Error during discovery of collectable refs");
        assert!(collected.is_empty());
    }
    // the same with a head that points to the root
    issue
        .update_head(&mut repo, a0, false)
        .expect("Could not update head");
    let collected = CollectableRefs::default()
        .leaves(&repo, &issue)
        .expect("Error during discovery of collectable refs");
    assert!(collected.is_empty());
}

#[test]
fn leaves_below_the_head() {
    // issue B = {root b0, head = b1, leaves b0 and b1}
    let mut repo = MemoryRepository::new();
    let b0 = commit(&mut repo, "b0", &[]);
    let issue = Issue::new_unchecked(b0);
    issue.add_leaf(&mut repo, b0).expect("Could not add leaf");
    let b1 = reply(&mut repo, &issue, "b1", &[b0]);
    issue
        .update_head(&mut repo, b1, false)
        .expect("Could not update head");
    let collected = CollectableRefs::default()
        .leaves(&repo, &issue)
        .expect("Error during discovery of collectable refs");
    assert_eq!(names(collected), vec![leaf_name("refs/dit", &issue, b0)]);
}

#[test]
fn leaves_of_other_issues_are_never_returned() {
    let mut repo = MemoryRepository::new().with_remote(b"origin".to_vec());
    let other = repo
        .create_issue("", "", "other", tree(), &vec![])
        .expect("Could not create issue");
    let o1 = reply(&mut repo, &other, "o1", &[*other.id()]);
    reply(&mut repo, &other, "o2", &[o1]);
    // an issue that starts at a message of the other issue
    let issue = repo
        .create_issue("", "", "root", tree(), &vec![o1])
        .expect("Could not create issue");
    let l1 = reply(&mut repo, &issue, "l1", &[*issue.id()]);
    reply(&mut repo, &issue, "l2", &[l1]);
    for gc in [
        CollectableRefs::default(),
        CollectableRefs::default().consider_remote_refs(true),
        CollectableRefs::default().collect_heads(ReferenceCollectionSpec::BackedByRemoteHead),
        CollectableRefs::default()
            .consider_remote_refs(true)
            .collect_heads(ReferenceCollectionSpec::BackedByRemoteHead),
    ] {
        let collected = gc
            .for_issue(&repo, &issue)
            .expect("Error during discovery of collectable refs");
        assert_eq!(names(collected), vec![leaf_name("refs/dit", &issue, l1)]);
    }
    // the other issue keeps its own judgement
    let collected = CollectableRefs::default()
        .leaves(&repo, &other)
        .expect("Error during discovery of collectable refs");
    assert_eq!(names(collected), vec![leaf_name("refs/dit", &other, o1)]);
}

#[test]
fn dead_leaves_are_always_collectable() {
    let mut repo = MemoryRepository::new();
    let issue = repo
        .create_issue("", "", "root", tree(), &vec![])
        .expect("Could not create issue");
    let l1 = reply(&mut repo, &issue, "l1", &[*issue.id()]);
    let mut gone = l1;
    gone.advance(100);
    repo.add_dead_reference(&leaf_name("refs/dit", &issue, gone))
        .expect("Could not add reference");
    for gc in [
        CollectableRefs::default(),
        CollectableRefs::default().consider_remote_refs(true),
        CollectableRefs::default().collect_heads(ReferenceCollectionSpec::BackedByRemoteHead),
    ] {
        let collected = gc
            .leaves(&repo, &issue)
            .expect("Error during discovery of collectable refs");
        assert_eq!(names(collected), vec![leaf_name("refs/dit", &issue, gone)]);
        assert!(gc
            .leaves(&repo, &issue)
            .expect("Error during discovery of collectable refs")[0]
            .target()
            .is_none());
    }
}

#[test]
fn head_is_never_collected_by_default() {
    let mut repo = MemoryRepository::new().with_remote(b"origin".to_vec());
    let issue = repo
        .create_issue("", "", "root", tree(), &vec![])
        .expect("Could not create issue");
    let remote = head_name("refs/remotes/origin/dit", &issue);
    repo.set_reference(&remote, *issue.id(), false, "fetch")
        .expect("Could not set reference");
    assert!(CollectableRefs::default()
        .head(&repo, &issue)
        .expect("Error during discovery of collectable refs")
        .is_none());
    assert!(CollectableRefs::default()
        .collect_heads(ReferenceCollectionSpec::Never)
        .consider_remote_refs(true)
        .head(&repo, &issue)
        .expect("Error during discovery of collectable refs")
        .is_none());
    // not even a head without a target
    let mut repo = MemoryRepository::new();
    let root = commit(&mut repo, "root", &[]);
    let issue = Issue::new_unchecked(root);
    repo.add_dead_reference(&head_name("refs/dit", &issue))
        .expect("Could not add reference");
    assert!(CollectableRefs::default()
        .head(&repo, &issue)
        .expect("Error during discovery of collectable refs")
        .is_none());
    let found = CollectableRefs::default()
        .collect_heads(ReferenceCollectionSpec::BackedByRemoteHead)
        .head(&repo, &issue)
        .expect("Error during discovery of collectable refs")
        .expect("A head without target is collectable");
    assert_eq!(found.name(), head_name("refs/dit", &issue));
}

#[test]
fn head_backed_by_remote_head() {
    let mut repo = MemoryRepository::new()
        .with_remote(b"origin".to_vec())
        .with_remote(b"fork".to_vec());
    let issue = repo
        .create_issue("", "", "root", tree(), &vec![])
        .expect("Could not create issue");
    let m1 = reply(&mut repo, &issue, "m1", &[*issue.id()]);
    let m2 = reply(&mut repo, &issue, "m2", &[m1]);
    let side = reply(&mut repo, &issue, "side", &[*issue.id()]);
    let gc = CollectableRefs::default().collect_heads(ReferenceCollectionSpec::BackedByRemoteHead);
    issue
        .update_head(&mut repo, m1, true)
        .expect("Could not update head");

    // no remote head at all
    assert!(gc
        .head(&repo, &issue)
        .expect("Error during discovery of collectable refs")
        .is_none());

    // a remote head whose history does not hold the local head
    let fork = head_name("refs/remotes/fork/dit", &issue);
    repo.set_reference(&fork, side, false, "fetch")
        .expect("Could not set reference");
    assert!(gc
        .head(&repo, &issue)
        .expect("Error during discovery of collectable refs")
        .is_none());

    // a remote head whose history holds the local head
    let origin = head_name("refs/remotes/origin/dit", &issue);
    repo.set_reference(&origin, m2, false, "fetch")
        .expect("Could not set reference");
    let found = gc
        .head(&repo, &issue)
        .expect("Error during discovery of collectable refs")
        .expect("The head is backed");
    assert_eq!(found.name(), head_name("refs/dit", &issue));
    assert_eq!(found.target(), Some(m1));

    // the head is listed first by for_issue
    let all = gc
        .for_issue(&repo, &issue)
        .expect("Error during discovery of collectable refs");
    assert_eq!(all[0].name(), head_name("refs/dit", &issue));
    assert_eq!(
        names(all),
        vec![
            head_name("refs/dit", &issue),
            leaf_name("refs/dit", &issue, m1),
        ]
    );

    // a remote head that is the local head
    repo.set_reference(&origin, m1, true, "fetch")
        .expect("Could not set reference");
    assert!(gc
        .head(&repo, &issue)
        .expect("Error during discovery of collectable refs")
        .is_some());
}

#[test]
fn remote_leaves_are_reported_on_request() {
    let mut repo = MemoryRepository::new().with_remote(b"origin".to_vec());
    let issue = repo
        .create_issue("", "", "root", tree(), &vec![])
        .expect("Could not create issue");
    let m1 = reply(&mut repo, &issue, "m1", &[*issue.id()]);
    let m2 = reply(&mut repo, &issue, "m2", &[m1]);
    let remote_root = leaf_name("refs/remotes/origin/dit", &issue, *issue.id());
    let remote_tip = leaf_name("refs/remotes/origin/dit", &issue, m2);
    repo.set_reference(&remote_root, *issue.id(), false, "fetch")
        .expect("Could not set reference");
    repo.set_reference(&remote_tip, m2, false, "fetch")
        .expect("Could not set reference");
    let local = CollectableRefs::default()
        .leaves(&repo, &issue)
        .expect("Error during discovery of collectable refs");
    assert_eq!(names(local), vec![leaf_name("refs/dit", &issue, m1)]);
    let all = CollectableRefs::default()
        .consider_remote_refs(true)
        .leaves(&repo, &issue)
        .expect("Error during discovery of collectable refs");
    assert_eq!(
        names(all),
        vec![leaf_name("refs/dit", &issue, m1), remote_root]
    );
}

#[test]
fn unresolvable_boundaries_abort_the_judgement() {
    let mut repo = MemoryRepository::new();
    let issue = repo
        .create_issue("", "", "root", tree(), &vec![])
        .expect("Could not create issue");
    let mut unknown = *issue.id();
    unknown.advance(9);
    // a leaf that points to a message that is not there
    let name = leaf_name("refs/dit", &issue, unknown);
    repo.set_reference(&name, unknown, false, "stray")
        .expect("Could not set reference");
    let error = CollectableRefs::default()
        .leaves(&repo, &issue)
        .expect_err("Judged with an unresolvable tip");
    assert_eq!(error.kind(), Kind::CannotGetCommit);
    assert_eq!(error.subject(), unknown.to_hex());

    // an issue whose initial message is not there
    let stray = Issue::new_unchecked(unknown);
    let error = CollectableRefs::default()
        .leaves(&repo, &stray)
        .expect_err("Judged an unknown issue");
    assert_eq!(error.kind(), Kind::CannotGetCommit);

    // a remote with a name that is no text
    let repo = repo.with_remote(vec![0xff]);
    let error = CollectableRefs::default()
        .consider_remote_refs(true)
        .leaves(&repo, &issue)
        .expect_err("Judged with an invalid remote name");
    assert_eq!(error.kind(), Kind::ReferenceNameError);
}
