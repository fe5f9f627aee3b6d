use libgitdit::base::Oid;
use libgitdit::error::Kind;
use libgitdit::memory::MemoryRepository;
use libgitdit::object::Database;
use libgitdit::traversal::{collect, finds, Traversal, TraversalBuilder, Traversible};

fn commit(repo: &mut MemoryRepository, message: &str, parents: &[Oid]) -> Oid {
    repo.commit("", "", message, Oid::zero(), &parents.to_vec())
        .expect("Could not create commit")
}

fn walk_from(
    repo: &MemoryRepository,
    heads: &[Oid],
    ends: &[Oid],
    first_parent_only: bool,
) -> Vec<Oid> {
    let builder = repo
        .traversal_builder()
        .expect("Could not create builder")
        .with_heads(&heads.to_vec())
        .expect("Could not add heads")
        .with_ends(&ends.to_vec())
        .expect("Could not add ends");
    let builder = if first_parent_only {
        builder.first_parent_only()
    } else {
        builder
    };
    collect(builder.build().expect("Could not build walk")).expect("The walk failed")
}

#[test]
fn diamond_yields_the_shared_ancestor_once() {
    let mut repo = MemoryRepository::new();
    let root = commit(&mut repo, "root", &[]);
    let left = commit(&mut repo, "left", &[root]);
    let right = commit(&mut repo, "right", &[root]);
    let top = commit(&mut repo, "top", &[left, right]);
    assert_eq!(
        walk_from(&repo, &[top], &[], false),
        vec![top, right, left, root]
    );
    assert_eq!(
        walk_from(&repo, &[left, right, top, left], &[], false),
        vec![top, right, left, root]
    );
}

#[test]
fn ends_are_not_yielded_and_not_followed() {
    let mut repo = MemoryRepository::new();
    let base = commit(&mut repo, "base", &[]);
    let a = commit(&mut repo, "a", &[base]);
    let b = commit(&mut repo, "b", &[a]);
    let side = commit(&mut repo, "side", &[base]);
    let top = commit(&mut repo, "top", &[b, side]);
    // an end cuts the path through it, not the path around it
    assert_eq!(
        walk_from(&repo, &[top], &[a], false),
        vec![top, side, b, base]
    );
    assert_eq!(walk_from(&repo, &[top], &[a, side], false), vec![top, b]);
    // a head that is an end yields nothing
    assert_eq!(walk_from(&repo, &[top], &[top], false), Vec::<Oid>::new());
    assert_eq!(walk_from(&repo, &[], &[], false), Vec::<Oid>::new());
}

#[test]
fn first_parent_only_follows_one_lineage() {
    let mut repo = MemoryRepository::new();
    let root = commit(&mut repo, "root", &[]);
    let left = commit(&mut repo, "left", &[root]);
    let right = commit(&mut repo, "right", &[root]);
    let top = commit(&mut repo, "top", &[right, left]);
    assert_eq!(walk_from(&repo, &[top], &[], true), vec![top, right, root]);
    assert_eq!(walk_from(&repo, &[top], &[right], true), vec![top]);
}

#[test]
fn unknown_boundaries_fail_the_construction() {
    let mut repo = MemoryRepository::new();
    let root = commit(&mut repo, "root", &[]);
    let mut unknown = root;
    unknown.advance(1);
    let error = repo
        .traversal_builder()
        .expect("Could not create builder")
        .with_head(unknown)
        .map(|_| ())
        .expect_err("Added an unknown head");
    assert_eq!(error.kind(), Kind::CannotConstructRevwalk);
    assert_eq!(error.subject(), unknown.to_hex());
    let error = repo
        .traversal_builder()
        .expect("Could not create builder")
        .with_ends(&vec![root, unknown])
        .map(|_| ())
        .expect_err("Added an unknown end");
    assert_eq!(error.kind(), Kind::CannotConstructRevwalk);
    let error = repo
        .first_parent_messages(unknown)
        .map(|_| ())
        .expect_err("Walked from an unknown message");
    assert_eq!(error.kind(), Kind::CannotConstructRevwalk);
}

#[test]
fn unknown_parents_fail_the_walk() {
    let mut repo = MemoryRepository::new();
    let root = commit(&mut repo, "root", &[]);
    let mut unknown = root;
    unknown.advance(7);
    let child = commit(&mut repo, "child", &[root, unknown]);
    let mut walk = repo
        .traversal_builder()
        .expect("Could not create builder")
        .with_head(child)
        .expect("Could not add head")
        .build()
        .expect("Could not build walk");
    assert_eq!(
        walk.next().expect("No more messages").expect("Could not retrieve message"),
        child
    );
    let error = walk
        .next()
        .expect("The walk ended silently")
        .expect_err("The walk went on");
    assert_eq!(error.kind(), Kind::CannotGetCommit);
    assert_eq!(error.subject(), unknown.to_hex());
    // the lineage of first parents does not meet the unknown message
    let walk = repo
        .first_parent_messages(child)
        .expect("Could not build walk");
    assert_eq!(collect(walk).expect("The walk failed"), vec![child, root]);
}

#[test]
fn finds_tells_whether_a_message_is_reached() {
    let mut repo = MemoryRepository::new();
    let root = commit(&mut repo, "root", &[]);
    let a = commit(&mut repo, "a", &[root]);
    let b = commit(&mut repo, "b", &[root]);
    let build = |head: Oid, ends: Vec<Oid>| {
        repo.traversal_builder()
            .expect("Could not create builder")
            .with_head(head)
            .expect("Could not add head")
            .with_ends(&ends)
            .expect("Could not add ends")
            .build()
            .expect("Could not build walk")
    };
    assert!(finds(build(a, vec![]), root).expect("The walk failed"));
    assert!(finds(build(a, vec![]), a).expect("The walk failed"));
    assert!(!finds(build(a, vec![]), b).expect("The walk failed"));
    assert!(!finds(build(a, vec![root]), root).expect("The walk failed"));
    let walk = repo
        .traversal_builder()
        .expect("Could not create builder")
        .with_head(b)
        .expect("Could not add head")
        .with_end(root)
        .expect("Could not add end")
        .build()
        .expect("Could not build walk");
    assert_eq!(collect(walk).expect("The walk failed"), vec![b]);
}

#[test]
fn commit_ids_count_up() {
    let mut repo = MemoryRepository::new();
    let first = commit(&mut repo, "first", &[]);
    let second = commit(&mut repo, "second", &[first]);
    assert_eq!(first.to_hex(), "0000000000000000000000000000000000000001");
    assert_eq!(second.to_hex(), "0000000000000000000000000000000000000002");
    assert!(first < second);
    let found = repo.find_commit(second).expect("Could not retrieve message");
    assert_eq!(found.id(), second);
    assert_eq!(found.message(), "second");
    assert_eq!(found.parent_ids(), &vec![first]);
    let mut unknown = second;
    unknown.advance(1);
    let error = repo.find_commit(unknown).expect_err("Found an unknown message");
    assert_eq!(error.kind(), Kind::CannotGetCommit);
    assert_eq!(error.subject(), unknown.to_hex());
}

fn object(id: Oid, parents: &[Oid]) -> libgitdit::object::commit::Commit {
    libgitdit::object::commit::Commit {
        id,
        author: String::new(),
        committer: String::new(),
        message: String::new(),
        tree: Oid::zero(),
        parents: parents.to_vec(),
    }
}

fn id(n: u8) -> Oid {
    let mut bytes = [0u8; 20];
    bytes[0] = n;
    Oid::from_bytes(bytes)
}

#[test]
fn walks_end_on_graphs_with_cycles() {
    let mut repo = MemoryRepository::new();
    repo.add_object(object(id(1), &[id(3)])).expect("Could not add object");
    repo.add_object(object(id(2), &[id(1)])).expect("Could not add object");
    repo.add_object(object(id(3), &[id(2), id(3)])).expect("Could not add object");
    assert_eq!(
        walk_from(&repo, &[id(2)], &[], false),
        vec![id(2), id(1), id(3)]
    );
    assert_eq!(walk_from(&repo, &[id(2)], &[id(3)], false), vec![id(2), id(1)]);
}

#[test]
fn the_greatest_pending_id_comes_first() {
    let mut repo = MemoryRepository::new();
    repo.add_object(object(id(9), &[])).expect("Could not add object");
    repo.add_object(object(id(1), &[id(9)])).expect("Could not add object");
    repo.add_object(object(id(5), &[id(1)])).expect("Could not add object");
    repo.add_object(object(id(7), &[])).expect("Could not add object");
    assert_eq!(
        walk_from(&repo, &[id(5), id(7)], &[], false),
        vec![id(7), id(5), id(1), id(9)]
    );
}

#[test]
fn objects_and_ids_do_not_collide() {
    let mut repo = MemoryRepository::new();
    repo.add_object(object(id(1), &[])).expect("Could not add object");
    let error = repo
        .add_object(object(id(1), &[]))
        .expect_err("Added an object twice");
    assert_eq!(error.kind(), Kind::CannotCreateMessage);
    assert_eq!(error.subject(), id(1).to_hex());
    // the id that the counter gives next is taken
    let mut next = Oid::zero();
    next.advance(1);
    repo.add_object(object(next, &[])).expect("Could not add object");
    let error = repo
        .commit("", "", "taken", Oid::zero(), &vec![])
        .expect_err("Created a message under an id that is taken");
    assert_eq!(error.kind(), Kind::CannotCreateMessage);
    assert_eq!(error.subject(), next.to_hex());
}

#[test]
fn commits_follow_one_another() {
    let mut repo = MemoryRepository::new();
    let mut expected = Oid::zero();
    for _ in 0..3 {
        expected.advance(1);
        assert_eq!(commit(&mut repo, "next", &[]), expected);
    }
}
