//! A repository that lives in memory.
//!
//! It offers all capabilities and never fails for a reason that its state
//! does not show. Ids of new messages are taken from a counter.

use vstd::prelude::*;
use vstd::string::*;
use crate::base::{chars_of, Base, Oid};
use crate::error::{Error, Kind};
use crate::object::commit::{copy_ids, Commit, CommitView};
use crate::object::Database;
use crate::reference::{
    Entry,
    distinct_names,
    in_store,
    is_selection,
    is_under,
    keep_marked,
    lemma_pick_selection,
    lists,
    str_eq,
    Reference,
    ReferenceView,
    Store,
};
use crate::traversal::{TraversalBuilder, Traversible};
use crate::walk::WalkBuilder;

verus! {

/// The messages of a list, by id.
pub open spec fn commit_map(items: Seq<Commit>) -> Map<Oid, CommitView> {
    Map::new(
        |id: Oid| exists|i: int| 0 <= i < items.len() && (#[trigger] items[i]).id == id,
        |id: Oid| items[choose|i: int| 0 <= i < items.len() && (#[trigger] items[i]).id == id]@,
    )
}

/// The targets of a list of references, by name.
pub open spec fn ref_map(items: Seq<Reference>) -> Map<Seq<char>, Option<Oid>> {
    Map::new(
        |name: Seq<char>| exists|i: int| 0 <= i < items.len() && (#[trigger] items[i])@.name == name,
        |name: Seq<char>|
            items[choose|i: int| 0 <= i < items.len() && (#[trigger] items[i])@.name == name]@.target,
    )
}

/// Whether no two messages of a list have the same id.
pub open spec fn distinct_ids(items: Seq<Commit>) -> bool {
    forall|i: int, j: int| 0 <= i < j < items.len() ==> (#[trigger] items[i]).id != (#[trigger] items[j]).id
}

/// The bytes of a list of names.
pub open spec fn names_of(items: Seq<Vec<u8>>) -> Seq<Seq<u8>> {
    items.map_values(|n: Vec<u8>| n@)
}

/// In a list of messages with distinct ids, each message is the one that
/// the map holds for its id.
pub proof fn lemma_commit_map(items: Seq<Commit>, i: int)
    requires
        distinct_ids(items),
        0 <= i < items.len(),
    ensures
        commit_map(items).contains_key(items[i].id),
        commit_map(items)[items[i].id] == items[i]@,
{
}

/// In a list of references with distinct names, each reference is the one
/// that the map holds for its name.
pub proof fn lemma_ref_map(items: Seq<Reference>, i: int)
    requires
        distinct_names(items),
        0 <= i < items.len(),
    ensures
        in_store(ref_map(items), items[i]@),
{
}

/// A list of references with distinct names lists its own map.
pub proof fn lemma_ref_map_selection(items: Seq<Reference>)
    requires
        distinct_names(items),
    ensures
        is_selection(ref_map(items), |path: Seq<char>| true, items),
{
}

/// Whether `name` is `prefix`, a slash, and at least one more character.
pub fn starts_below(name: &str, prefix: &str) -> (r: bool)
    ensures
        r == is_under(prefix@, name@),
{
    let n = chars_of(name);
    let p = chars_of(prefix);
    if n.len() <= p.len() || n.len() - p.len() < 2 {
        return false;
    }
    if n[p.len()] != '/' {
        return false;
    }
    let mut i: usize = 0;
    while i < p.len()
        invariant
            i <= p.len(),
            p.len() < n.len(),
            n@ == name@,
            p@ == prefix@,
            forall|j: int| 0 <= j < i ==> n@[j] == p@[j],
        decreases p.len() - i,
    {
        if n[i] != p[i] {
            return false;
        }
        i += 1;
    }
    assert(n@.subrange(0, p.len() as int) =~= p@);
    true
}

/// A repository in memory: messages, references and the names of remotes.
pub struct MemoryRepository {
    objects: Vec<Commit>,
    references: Vec<Reference>,
    remotes: Vec<Vec<u8>>,
    counter: Oid,
}

impl MemoryRepository {
    #[verifier::type_invariant]
    closed spec fn inv(self) -> bool {
        &&& distinct_ids(self.objects@)
        &&& distinct_names(self.references@)
    }

    /// The id that the next message gets.
    pub closed spec fn next_id(&self) -> Oid {
        self.counter.plus(1)
    }

    /// A repository without messages, references and remotes. Its counter
    /// stands at zero: the first message gets the id that is the number one.
    pub fn new() -> (r: Self)
        ensures
            r.commits() == Map::<Oid, CommitView>::empty(),
            r.refs() == Map::<Seq<char>, Option<Oid>>::empty(),
            r.remotes() == Seq::<Seq<u8>>::empty(),
            r.next_id().value() == 1,
    {
        let r = MemoryRepository {
            objects: Vec::new(),
            references: Vec::new(),
            remotes: Vec::new(),
            counter: Oid::zero(),
        };
        proof {
            r.counter.lemma_plus(1);
            crate::base::lemma_pow256_positive(19);
            assert(crate::base::oid_limit() == 256 * crate::base::pow256(19));
            vstd::arithmetic::div_mod::lemma_small_mod(1, crate::base::oid_limit());
        }
        r
    }

    /// The same repository with one more remote.
    pub fn with_remote(self, name: Vec<u8>) -> (r: Self)
        ensures
            r.commits() == self.commits(),
            r.refs() == self.refs(),
            r.remotes() == self.remotes().push(name@),
    {
        proof {
            use_type_invariant(&self);
        }
        let mut remotes = self.remotes;
        remotes.push(name);
        let r = MemoryRepository {
            objects: self.objects,
            references: self.references,
            remotes,
            counter: self.counter,
        };
        r
    }

    /// Add a message under the id that it carries. The call fails if a
    /// message has that id.
    pub fn add_object(&mut self, commit: Commit) -> (r: Result<(), Error>)
        ensures
            r is Ok <==> !old(self).commits().contains_key(commit.id),
            r is Ok ==> final(self).commits() == old(self).commits().insert(commit.id, commit@),
            r matches Err(e) ==> e.kind == Kind::CannotCreateMessage && e.subject@
                == commit.id.hex() && final(self).commits() == old(self).commits(),
            final(self).refs() == old(self).refs(),
            final(self).remotes() == old(self).remotes(),
    {
        proof {
            use_type_invariant(&*self);
        }
        let id = commit.id;
        if let Some(i) = self.position(&id) {
            let hex = id.to_hex();
            return Err(Error::new(Kind::CannotCreateMessage, hex));
        }
        let ghost before = self.objects@;
        let mut objects: Vec<Commit> = Vec::new();
        core::mem::swap(&mut self.objects, &mut objects);
        objects.push(commit);
        proof {
            assert(objects@.drop_last() =~= before);
            lemma_added(before, objects@);
        }
        core::mem::swap(&mut self.objects, &mut objects);
        Ok(())
    }

    /// Add a reference without a target, as a symbolic or broken reference
    /// is seen. The call fails if a reference of that name exists.
    pub fn add_dead_reference(&mut self, name: &str) -> (r: Result<Reference, Error>)
        ensures
            r is Ok <==> !old(self).refs().contains_key(name@),
            r matches Ok(x) ==> x@ == (ReferenceView { name: name@, target: None })
                && final(self).refs() == old(self).refs().insert(name@, None),
            r matches Err(e) ==> e.kind == Kind::CannotSetReference && e.subject@ == name@
                && final(self).refs() == old(self).refs(),
            final(self).commits() == old(self).commits(),
            final(self).remotes() == old(self).remotes(),
    {
        proof {
            use_type_invariant(&*self);
        }
        let ghost before = self.references@;
        match self.place(name) {
            Some(i) => {
                proof {
                    lemma_ref_map(before, i as int);
                }
                Err(Error::about(Kind::CannotSetReference, name))
            },
            None => {
                let new = Reference::from_name(name);
                let copy = new.clone();
                let mut references: Vec<Reference> = Vec::new();
                core::mem::swap(&mut self.references, &mut references);
                references.push(new);
                proof {
                    let after = references@;
                    assert(after.drop_last() =~= before);
                    lemma_pushed(before, after);
                }
                core::mem::swap(&mut self.references, &mut references);
                Ok(copy)
            },
        }
    }

    /// The place of the message with the given id.
    fn position(&self, id: &Oid) -> (r: Option<usize>)
        ensures
            r matches Some(i) ==> i < self.objects.len() && self.objects@[i as int].id == *id,
            r is None ==> forall|j: int| 0 <= j < self.objects.len() ==> self.objects@[j].id != *id,
    {
        let mut i: usize = 0;
        while i < self.objects.len()
            invariant
                i <= self.objects.len(),
                forall|j: int| 0 <= j < i ==> self.objects@[j].id != *id,
            decreases self.objects.len() - i,
        {
            if self.objects[i].id.same(id) {
                return Some(i);
            }
            i += 1;
        }
        None
    }

    /// The place of the reference with the given name.
    fn place(&self, name: &str) -> (r: Option<usize>)
        ensures
            r matches Some(i) ==> i < self.references.len() && self.references@[i as int]@.name
                == name@,
            r is None ==> forall|j: int|
                0 <= j < self.references.len() ==> self.references@[j]@.name != name@,
    {
        let mut i: usize = 0;
        while i < self.references.len()
            invariant
                i <= self.references.len(),
                forall|j: int| 0 <= j < i ==> self.references@[j]@.name != name@,
            decreases self.references.len() - i,
        {
            if str_eq(self.references[i].name(), name) {
                return Some(i);
            }
            i += 1;
        }
        None
    }
}

impl Base for MemoryRepository {
    closed spec fn commits(&self) -> Map<Oid, CommitView> {
        commit_map(self.objects@)
    }

    closed spec fn refs(&self) -> Map<Seq<char>, Option<Oid>> {
        ref_map(self.references@)
    }

    closed spec fn remotes(&self) -> Seq<Seq<u8>> {
        names_of(self.remotes@)
    }

    open spec fn reliable(&self) -> bool {
        true
    }

    proof fn lemma_finite(&self) {
        let ids = self.objects@.map_values(|c: Commit| c.id);
        vstd::seq_lib::seq_to_set_is_finite(ids);
        assert(self.commits().dom() =~= ids.to_set()) by {
            assert forall|id: Oid| self.commits().dom().contains(id) <==> ids.to_set().contains(
                id,
            ) by {
                if self.commits().dom().contains(id) {
                    let i = choose|i: int|
                        0 <= i < self.objects@.len() && (#[trigger] self.objects@[i]).id == id;
                    assert(ids[i] == id);
                }
            }
        }
        let names = self.references@.map_values(|r: Reference| r@.name);
        vstd::seq_lib::seq_to_set_is_finite(names);
        assert(self.refs().dom() =~= names.to_set()) by {
            assert forall|n: Seq<char>| self.refs().dom().contains(n) <==> names.to_set().contains(
                n,
            ) by {
                if self.refs().dom().contains(n) {
                    let i = choose|i: int|
                        0 <= i < self.references@.len() && (#[trigger] self.references@[i])@.name
                            == n;
                    assert(names[i] == n);
                }
            }
        }
    }
}

impl Database for MemoryRepository {
    fn find_commit(&self, oid: Oid) -> (r: Result<Commit, Error>) {
        proof {
            use_type_invariant(self);
        }
        match self.position(&oid) {
            Some(i) => {
                proof {
                    lemma_commit_map(self.objects@, i as int);
                }
                Ok(self.objects[i].clone())
            },
            None => {
                let hex = oid.to_hex();
                Err(Error::new(Kind::CannotGetCommit, hex))
            },
        }
    }

    /// The new message gets the id that follows the counter. The call fails
    /// if a message has that id. The counter moves on in either case.
    fn commit(
        &mut self,
        author: &str,
        committer: &str,
        message: &str,
        tree: Oid,
        parents: &Vec<Oid>,
    ) -> (r: Result<Oid, Error>)
        ensures
            r is Ok <==> !old(self).commits().contains_key(old(self).next_id()),
            r matches Ok(id) ==> id == old(self).next_id(),
            final(self).next_id() == old(self).next_id().plus(1),
    {
        proof {
            use_type_invariant(&*self);
        }
        let mut id = self.counter;
        id.advance(1);
        self.counter = id;
        if self.position(&id).is_some() {
            let hex = id.to_hex();
            return Err(Error::new(Kind::CannotCreateMessage, hex));
        }
        let commit = Commit {
            id,
            author: String::from_str(author),
            committer: String::from_str(committer),
            message: String::from_str(message),
            tree,
            parents: copy_ids(parents),
        };
        let ghost before = self.objects@;
        let mut objects: Vec<Commit> = Vec::new();
        core::mem::swap(&mut self.objects, &mut objects);
        objects.push(commit);
        assert(objects@.drop_last() =~= before);
        proof {
            lemma_added(before, objects@);
        }
        core::mem::swap(&mut self.objects, &mut objects);
        Ok(id)
    }
}

impl Store for MemoryRepository {
    fn get_reference(&self, path: &str) -> (r: Result<Option<Reference>, Error>) {
        proof {
            use_type_invariant(self);
        }
        match self.place(path) {
            Some(i) => {
                proof {
                    lemma_ref_map(self.references@, i as int);
                }
                Ok(Some(self.references[i].clone()))
            },
            None => Ok(None),
        }
    }

    fn references(&self, prefix: &str) -> (r: Result<Vec<Entry>, Error>) {
        proof {
            use_type_invariant(self);
        }
        let mut marks: Vec<bool> = Vec::new();
        let mut i: usize = 0;
        while i < self.references.len()
            invariant
                i <= self.references.len(),
                marks.len() == i,
                forall|k: int|
                    0 <= k < i ==> (marks@[k] <==> is_under(
                        prefix@,
                        (#[trigger] self.references@[k])@.name,
                    )),
            decreases self.references.len() - i,
        {
            let m = starts_below(self.references[i].name(), prefix);
            marks.push(m);
            i += 1;
        }
        let found = keep_marked(&self.references, &marks);
        let ghost wanted = |path: Seq<char>| is_under(prefix@, path);
        proof {
            lemma_ref_map_selection(self.references@);
            lemma_pick_selection(
                self.refs(),
                |path: Seq<char>| true,
                wanted,
                self.references@,
                marks@,
                found@,
            );
        }
        let mut out: Vec<Entry> = Vec::new();
        let mut k: usize = 0;
        while k < found.len()
            invariant
                k <= found.len(),
                out@.len() == k,
                forall|i: int| 0 <= i < k ==> (#[trigger] out@[i])@ == found@[i]@,
                forall|i: int|
                    0 <= i < k ==> ((#[trigger] out@[i]).target matches Err(e) ==> e.kind
                        == Kind::CannotGetReference && e.subject@ == out@[i]@.name),
            decreases found.len() - k,
        {
            let name = found[k].name();
            let target = match found[k].target() {
                Some(id) => Ok(id),
                None => Err(Error::about(Kind::CannotGetReference, name)),
            };
            out.push(Entry { name: String::from_str(name), target });
            k += 1;
        }
        proof {
            let refs = self.refs();
            assert forall|i: int, j: int| 0 <= i < j < out@.len() implies (
            #[trigger] out@[i])@.name != (#[trigger] out@[j])@.name by {
                assert(found@[i]@.name != found@[j]@.name);
            }
            assert forall|i: int| 0 <= i < out@.len() implies in_store(
                refs,
                (#[trigger] out@[i])@,
            ) && is_under(prefix@, out@[i]@.name) by {
                assert(in_store(refs, found@[i]@) && wanted(found@[i]@.name));
            }
            assert forall|path: Seq<char>|
                refs.contains_key(path) && #[trigger] is_under(prefix@, path) implies exists|i: int|
                0 <= i < out@.len() && (#[trigger] out@[i])@ == (ReferenceView {
                    name: path,
                    target: refs[path],
                }) by {
                let x = ReferenceView { name: path, target: refs[path] };
                assert(wanted(path));
                assert(lists(found@, x));
                let i = choose|i: int| 0 <= i < found@.len() && (#[trigger] found@[i])@ == x;
                assert(out@[i]@ == x);
            }
        }
        Ok(out)
    }

    fn set_reference(&mut self, name: &str, target: Oid, overwrite: bool, reflog_msg: &str) -> (r:
        Result<Reference, Error>) {
        proof {
            use_type_invariant(&*self);
        }
        let ghost before = self.references@;
        let found = self.place(name);
        let new = Reference::new(String::from_str(name), Some(target));
        let copy = new.clone();
        let mut references: Vec<Reference> = Vec::new();
        match found {
            Some(i) => {
                if !overwrite {
                    proof {
                        lemma_ref_map(before, i as int);
                    }
                    return Err(Error::about(Kind::CannotSetReference, name));
                }
                core::mem::swap(&mut self.references, &mut references);
                references.remove(i);
                references.insert(i, new);
                proof {
                    let after = references@;
                    assert(after =~= before.update(i as int, after[i as int]));
                    lemma_replaced(before, after, i as int);
                }
                core::mem::swap(&mut self.references, &mut references);
            },
            None => {
                core::mem::swap(&mut self.references, &mut references);
                references.push(new);
                proof {
                    let after = references@;
                    assert(after.drop_last() =~= before);
                    lemma_pushed(before, after);
                }
                core::mem::swap(&mut self.references, &mut references);
            },
        }
        Ok(copy)
    }

    fn delete_reference(&mut self, reference: &Reference) -> (r: Result<(), Error>) {
        proof {
            use_type_invariant(&*self);
        }
        let ghost before = self.references@;
        match self.place(reference.name()) {
            Some(i) => {
                proof {
                    lemma_ref_map(before, i as int);
                }
                let mut references: Vec<Reference> = Vec::new();
                core::mem::swap(&mut self.references, &mut references);
                references.remove(i);
                proof {
                    lemma_removed(before, references@, i as int);
                }
                core::mem::swap(&mut self.references, &mut references);
                Ok(())
            },
            None => Err(Error::about(Kind::CannotDeleteReference, reference.name())),
        }
    }

    fn remote_names(&self) -> (r: Result<Vec<Vec<u8>>, Error>) {
        let mut out: Vec<Vec<u8>> = Vec::new();
        let mut i: usize = 0;
        while i < self.remotes.len()
            invariant
                i <= self.remotes.len(),
                out@.len() == i,
                forall|k: int| 0 <= k < i ==> (#[trigger] out@[k])@ == self.remotes@[k]@,
            decreases self.remotes.len() - i,
        {
            let name = vstd::slice::slice_to_vec(self.remotes[i].as_slice());
            out.push(name);
            i += 1;
        }
        Ok(out)
    }
}

/// Adding a message with a new id adds it to the map.
proof fn lemma_added(before: Seq<Commit>, after: Seq<Commit>)
    requires
        distinct_ids(before),
        after.len() == before.len() + 1,
        after.drop_last() == before,
        forall|j: int| 0 <= j < before.len() ==> (#[trigger] before[j]).id != after.last().id,
    ensures
        distinct_ids(after),
        commit_map(after) == commit_map(before).insert(after.last().id, after.last()@),
{
    let n = before.len() as int;
    assert forall|j: int| 0 <= j < n implies after[j] == before[j] by {
    }
}

/// Replacing a reference by one of the same name replaces its target in the
/// map.
proof fn lemma_replaced(before: Seq<Reference>, after: Seq<Reference>, i: int)
    requires
        distinct_names(before),
        0 <= i < before.len(),
        after == before.update(i, after[i]),
        after[i]@.name == before[i]@.name,
    ensures
        distinct_names(after),
        ref_map(after) == ref_map(before).insert(after[i]@.name, after[i]@.target),
{
    let name = after[i]@.name;
    assert forall|n: Seq<char>| ref_map(after).contains_key(n) <==> ref_map(before).insert(
        name,
        after[i]@.target,
    ).contains_key(n) by {
        if ref_map(before).contains_key(n) {
            let k = choose|k: int| 0 <= k < before.len() && (#[trigger] before[k])@.name == n;
            assert(after[k]@.name == n);
        }
    }
}

/// Adding a reference with a new name adds it to the map.
proof fn lemma_pushed(before: Seq<Reference>, after: Seq<Reference>)
    requires
        distinct_names(before),
        after.len() == before.len() + 1,
        after.drop_last() == before,
        forall|j: int| 0 <= j < before.len() ==> (#[trigger] before[j])@.name != after.last()@.name,
    ensures
        distinct_names(after),
        ref_map(after) == ref_map(before).insert(after.last()@.name, after.last()@.target),
{
    let n = before.len() as int;
    assert forall|j: int| 0 <= j < n implies after[j] == before[j] by {
    }
}

/// Removing a reference removes it from the map.
proof fn lemma_removed(before: Seq<Reference>, after: Seq<Reference>, i: int)
    requires
        distinct_names(before),
        0 <= i < before.len(),
        after == before.remove(i),
    ensures
        distinct_names(after),
        ref_map(after) == ref_map(before).remove(before[i]@.name),
{
    let name = before[i]@.name;
    assert forall|p: Seq<char>| ref_map(after).contains_key(p) <==> ref_map(before).remove(
        name,
    ).contains_key(p) by {
        if ref_map(before).contains_key(p) && p != name {
            let k = choose|k: int| 0 <= k < before.len() && (#[trigger] before[k])@.name == p;
            let k1 = if k < i {
                k
            } else {
                k - 1
            };
            assert(after[k1] == before[k]);
        }
    }
}

impl<'t> Traversible<'t> for MemoryRepository {
    type TraversalBuilder = WalkBuilder<'t, MemoryRepository>;

    fn traversal_builder(&'t self) -> (r: Result<Self::TraversalBuilder, Error>) {
        Ok(WalkBuilder::new(self))
    }
}

} // verus!
