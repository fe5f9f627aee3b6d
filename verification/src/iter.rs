//! Utility iterators
//!
//! This module provides various iterators. Each offers a method `next` that
//! is called until it returns `None`.

use vstd::prelude::*;
use crate::base::{Base, Oid};
use crate::error::{Error, Kind};
use crate::issue::Issue;
use crate::reference::{
    distinct_names,
    is_head_path,
    keep_marked,
    lemma_pick_contains,
    lists,
    pick,
    views,
    lists_name,
    parse,
    Reference,
    ReferenceView,
    Store,
};
use crate::repository::head_issue;
use crate::traversal::{is_walk_error, Plan, Traversal};

verus! {

/// Iterator for transforming head references to issues
///
/// This iterator wraps a list of references and returns the issues
/// associated to the head references of the list, in order. A reference
/// that is no head reference gives an error.
pub struct HeadRefsToIssuesIter {
    inner: Vec<Reference>,
    position: usize,
}

impl HeadRefsToIssuesIter {
    /// The references that are left.
    pub closed spec fn rest(&self) -> Seq<Reference> {
        self.inner@.subrange(self.position as int, self.inner.len() as int)
    }

    #[verifier::type_invariant]
    closed spec fn inv(self) -> bool {
        self.position <= self.inner.len()
    }

    /// An iterator over the issues of the given head references.
    pub fn new(inner: Vec<Reference>) -> (r: Self)
        ensures
            r.rest() == inner@,
    {
        let r = HeadRefsToIssuesIter { inner, position: 0 };
        r
    }

    /// The issue of the next reference.
    pub fn next(&mut self) -> (r: Option<Result<Issue, Error>>)
        ensures
            r is None <==> old(self).rest().len() == 0,
            r is None ==> final(self).rest() == old(self).rest(),
            r is Some ==> final(self).rest() == old(self).rest().drop_first(),
            r matches Some(Ok(issue)) ==> parse(old(self).rest()[0]@.name) matches Some(p)
                && p.kind is Head && p.issue == issue@,
            r matches Some(Err(e)) ==> !is_head_path(old(self).rest()[0]@.name) && e.kind
                == Kind::MalFormedHeadReference && e.subject@ == old(self).rest()[0]@.name,
    {
        proof {
            use_type_invariant(&*self);
        }
        if self.position >= self.inner.len() {
            return None;
        }
        let reference = &self.inner[self.position];
        let r = match head_issue(reference) {
            Some(id) => Ok(Issue::new_unchecked(id)),
            None => Err(Error::about(Kind::MalFormedHeadReference, reference.name())),
        };
        self.position = self.position + 1;
        Some(r)
    }
}

/// Iterator over references referring to any of a number of commits
///
/// This iterator wraps a walk of the commit graph. It will iterate over the
/// ids yielded by the walk. If one of them is the target of any of the
/// watched references, those references will be returned.
///
/// Only "watched" references are returned, e.g. they need to be supplied
/// through the `watch_ref()` function, and references supplied through
/// `extend()`, which are returned whatever the walk yields. Each reference
/// will only be returned once.
pub struct RefsReferringTo<T: Traversal> {
    refs: Vec<Reference>,
    inner: T,
    current_refs: Vec<Reference>,
    extras: Ghost<Set<ReferenceView>>,
    done: bool,
}

/// For each reference of a list, whether it refers to the id.
pub open spec fn referring_marks(v: Seq<Reference>, id: Oid) -> Seq<bool> {
    Seq::new(v.len(), |k: int| v[k]@.target == Some(id))
}

/// For each reference of a list, whether it does not refer to the id.
pub open spec fn other_marks(v: Seq<Reference>, id: Oid) -> Seq<bool> {
    Seq::new(v.len(), |k: int| v[k]@.target != Some(id))
}

impl<T: Traversal> RefsReferringTo<T> {
    /// The references that are watched and not yet returned.
    pub closed spec fn watched(&self) -> Seq<Reference> {
        self.refs@
    }

    /// The references that are to be returned next.
    pub closed spec fn stashed(&self) -> Seq<Reference> {
        self.current_refs@
    }

    /// The references that were supplied to be returned whatever the walk
    /// yields.
    pub closed spec fn extras(&self) -> Set<ReferenceView> {
        self.extras@
    }

    /// What the wrapped walk walks.
    pub closed spec fn plan(&self) -> Plan {
        self.inner.plan()
    }

    /// Whether the wrapped walk has ended, with an error or without.
    pub closed spec fn done(&self) -> bool {
        self.done
    }

    /// Validity of the iterator's state.
    pub closed spec fn wf(&self) -> bool {
        &&& self.inner.wf()
        &&& !self.done ==> !self.inner.failed()
        &&& forall|i: int| 0 <= i < self.refs.len() ==> (#[trigger] self.refs@[i])@.target is Some
        &&& forall|i: int|
            0 <= i < self.refs.len() ==> !self.inner.visited().contains(
                (#[trigger] self.refs@[i])@.target->0,
            )
        &&& forall|i: int|
            0 <= i < self.current_refs.len() ==> self.extras@.contains(
                (#[trigger] self.current_refs@[i])@,
            ) || ((self.current_refs@[i])@.target matches Some(t) && self.inner.plan().reaches(t))
    }

    /// Create a new iterator iterating over the messages supplied
    pub fn new(messages: T) -> (r: Self)
        requires
            messages.wf(),
            !messages.failed(),
        ensures
            r.wf(),
            !r.done(),
            r.plan() == messages.plan(),
            r.watched() == Seq::<Reference>::empty(),
            r.stashed() == Seq::<Reference>::empty(),
            r.extras() == Set::<ReferenceView>::empty(),
            r.fresh() == (messages.visited().len() == 0),
    {
        RefsReferringTo {
            refs: Vec::new(),
            inner: messages,
            current_refs: Vec::new(),
            extras: Ghost(Set::empty()),
            done: false,
        }
    }

    /// Start watching a reference
    ///
    /// A watched reference may be returned by the iterator. A reference
    /// without a target cannot be watched. References are watched before
    /// the first call of `next`.
    pub fn watch_ref(&mut self, reference: Reference) -> (r: Result<(), Error>)
        requires
            old(self).wf(),
            old(self).fresh(),
        ensures
            final(self).wf(),
            final(self).plan() == old(self).plan(),
            final(self).stashed() == old(self).stashed(),
            final(self).extras() == old(self).extras(),
            final(self).done() == old(self).done(),
            final(self).fresh() == old(self).fresh(),
            r is Ok <==> reference@.target is Some,
            r is Ok ==> final(self).watched() == old(self).watched().push(reference),
            r matches Err(e) ==> e.kind == Kind::CannotGetReference && e.subject@ == reference@.name
                && final(self).watched() == old(self).watched(),
    {
        match reference.target() {
            Some(_) => {
                self.refs.push(reference);
                Ok(())
            },
            None => Err(Error::about(Kind::CannotGetReference, reference.name())),
        }
    }

    /// Start watching a number of references
    ///
    /// The references are watched in order, up to the first one without a
    /// target, which is an error.
    pub fn watch_refs(&mut self, references: Vec<Reference>) -> (r: Result<(), Error>)
        requires
            old(self).wf(),
            old(self).fresh(),
        ensures
            final(self).wf(),
            final(self).fresh(),
            final(self).plan() == old(self).plan(),
            final(self).stashed() == old(self).stashed(),
            final(self).extras() == old(self).extras(),
            final(self).done() == old(self).done(),
            r is Ok <==> forall|i: int|
                0 <= i < references.len() ==> (#[trigger] references@[i])@.target is Some,
            r is Ok ==> final(self).watched() == old(self).watched() + references@,
            r matches Err(e) ==> e.kind == Kind::CannotGetReference,
    {
        let ghost given = references@;
        let mut rest = references;
        let mut count: usize = 0;
        let total = rest.len();
        while rest.len() > 0
            invariant
                self.wf(),
                self.fresh(),
                self.plan() == old(self).plan(),
                self.stashed() == old(self).stashed(),
                self.extras() == old(self).extras(),
                self.done() == old(self).done(),
                count + rest.len() == total,
                total == given.len(),
                given == references@,
                rest@ == given.subrange(count as int, total as int),
                self.watched() == old(self).watched() + given.take(count as int),
                forall|i: int| 0 <= i < count ==> (#[trigger] given[i])@.target is Some,
            decreases rest.len(),
        {
            let reference = rest.remove(0);
            match self.watch_ref(reference) {
                Ok(()) => {},
                Err(e) => {
                    return Err(e);
                },
            }
            count += 1;
        }
        Ok(())
    }

    /// Whether the walk has not yielded anything yet.
    pub closed spec fn fresh(&self) -> bool {
        self.inner.visited().len() == 0
    }

    /// Supply references that are returned whatever the walk yields.
    pub fn extend(&mut self, references: Vec<Reference>)
        requires
            old(self).wf(),
        ensures
            final(self).wf(),
            final(self).plan() == old(self).plan(),
            final(self).watched() == old(self).watched(),
            final(self).stashed() == old(self).stashed() + references@,
            final(self).done() == old(self).done(),
            final(self).fresh() == old(self).fresh(),
            forall|x: ReferenceView|
                final(self).extras().contains(x) <==> old(self).extras().contains(x) || lists(
                    references@,
                    x,
                ),
    {
        let ghost given = references@;
        let mut references = references;
        self.current_refs.append(&mut references);
        proof {
            self.extras@ = Set::new(
                |x: ReferenceView| old(self).extras@.contains(x) || lists(given, x),
            );
        }
    }

    /// The next reference: one that was supplied to be returned in any case,
    /// or a watched one whose target the walk yields.
    ///
    /// Once the result is `None`, no watched reference is left whose target
    /// the walk reaches. After an error the iterator gives what is stashed
    /// and ends.
    pub fn next(&mut self) -> (r: Option<Result<Reference, Error>>)
        requires
            old(self).wf(),
        ensures
            final(self).wf(),
            final(self).plan() == old(self).plan(),
            final(self).extras() == old(self).extras(),
            r matches Some(Ok(x)) ==> {
                &&& final(self).done() == old(self).done()
                &&& old(self).extras().contains(x@) || (x@.target matches Some(t) && old(
                    self,
                ).plan().reaches(t))
                &&& if old(self).stashed().len() > 0 {
                    // the last of the stash leaves it
                    &&& x == old(self).stashed().last()
                    &&& final(self).stashed() == old(self).stashed().drop_last()
                    &&& final(self).watched() == old(self).watched()
                } else {
                    // the watched references that refer to an id that the walk
                    // yields leave the watch: one is returned, the others are
                    // stashed
                    &&& x@.target is Some
                    &&& old(self).plan().reaches(x@.target->0)
                    &&& views(final(self).watched()) == pick(
                        old(self).watched(),
                        other_marks(old(self).watched(), x@.target->0),
                    )
                    &&& views(final(self).stashed()).push(x@) == pick(
                        old(self).watched(),
                        referring_marks(old(self).watched(), x@.target->0),
                    )
                }
            },
            r matches Some(Err(e)) ==> {
                &&& final(self).done()
                &&& !old(self).done()
                &&& is_walk_error(old(self).plan(), e)
                &&& final(self).watched() == old(self).watched()
                &&& final(self).stashed() == old(self).stashed()
            },
            r is None ==> {
                &&& old(self).stashed().len() == 0
                &&& final(self).done() == old(self).done()
                &&& final(self).watched() == old(self).watched()
                &&& final(self).stashed() == old(self).stashed()
                &&& old(self).done() || forall|i: int|
                    0 <= i < old(self).watched().len() ==> !old(self).plan().reaches(
                        (#[trigger] old(self).watched()[i])@.target->0,
                    )
            },
    {
        let ghost plan = self.inner.plan();
        if let Some(reference) = self.current_refs.pop() {
            return Some(Ok(reference));
        }
        if self.done || self.refs.len() == 0 {
            return None;
        }
        loop
            invariant
                self.inner.wf(),
                !self.inner.failed(),
                !self.done,
                !old(self).done,
                self.inner.plan() == plan,
                old(self).inner.plan() == plan,
                self.refs@ == old(self).refs@,
                self.extras@ == old(self).extras@,
                self.current_refs@ == old(self).current_refs@,
                old(self).current_refs@.len() == 0,
                self.refs.len() > 0,
                forall|i: int| 0 <= i < self.refs.len() ==> (#[trigger] self.refs@[i])@.target is Some,
                forall|i: int|
                    0 <= i < self.refs.len() ==> !self.inner.visited().contains(
                        (#[trigger] self.refs@[i])@.target->0,
                    ),
            decreases self.inner.remaining(),
        {
            let ghost seen = self.inner.visited();
            match self.inner.next() {
                None => {
                    return None;
                },
                Some(Err(e)) => {
                    self.done = true;
                    return Some(Err(e));
                },
                Some(Ok(id)) => {
                    if refers(&self.refs, &id) {
                        // move the references that refer to the id to the stash
                        let ghost before = self.refs@;
                        let mut referring: Vec<bool> = Vec::new();
                        let mut others: Vec<bool> = Vec::new();
                        let mut i: usize = 0;
                        while i < self.refs.len()
                            invariant
                                i <= self.refs.len(),
                                self.refs@ == before,
                                referring@ == referring_marks(before, id).take(i as int),
                                others@ == other_marks(before, id).take(i as int),
                            decreases self.refs.len() - i,
                        {
                            let same = match self.refs[i].target() {
                                Some(t) => t.same(&id),
                                None => false,
                            };
                            referring.push(same);
                            others.push(!same);
                            proof {
                                assert(referring@ =~= referring_marks(before, id).take(i + 1));
                                assert(others@ =~= other_marks(before, id).take(i + 1));
                            }
                            i += 1;
                        }
                        proof {
                            assert(referring@ =~= referring_marks(before, id));
                            assert(others@ =~= other_marks(before, id));
                        }
                        let kept = keep_marked(&self.refs, &others);
                        let mut found = keep_marked(&self.refs, &referring);
                        let ghost all_found = found@;
                        proof {
                            let w = choose|w: int|
                                0 <= w < before.len() && (#[trigger] before[w])@.target == Some(id);
                            lemma_pick_contains(before, referring@, before[w]@);
                            assert(views(all_found).len() == all_found.len());
                            assert forall|k: int| 0 <= k < kept.len() implies (
                            #[trigger] kept@[k])@.target is Some
                                && !self.inner.visited().contains(kept@[k]@.target->0) by {
                                let x = kept@[k]@;
                                assert(views(kept@)[k] == x);
                                assert(pick(before, others@).contains(x));
                                lemma_pick_contains(before, others@, x);
                                let j = choose|j: int|
                                    0 <= j < before.len() && others@[j] && (#[trigger] before[j])@
                                        == x;
                                assert(!seen.contains(before[j]@.target->0));
                                if self.inner.visited().contains(x.target->0) {
                                    let m = choose|m: int|
                                        0 <= m < self.inner.visited().len()
                                            && self.inner.visited()[m] == x.target->0;
                                    if m < seen.len() {
                                        assert(seen[m] == x.target->0);
                                    }
                                }
                            }
                            assert forall|k: int| 0 <= k < all_found.len() implies (
                            #[trigger] all_found[k])@.target == Some(id) by {
                                let x = all_found[k]@;
                                assert(views(all_found)[k] == x);
                                assert(pick(before, referring@).contains(x));
                                lemma_pick_contains(before, referring@, x);
                            }
                        }
                        let reference = found.pop().unwrap();
                        proof {
                            assert(all_found =~= found@.push(reference));
                            assert(views(all_found) =~= views(found@).push(reference@));
                            assert(all_found[all_found.len() - 1] == reference);
                            assert forall|k: int| 0 <= k < found.len() implies (
                            #[trigger] found@[k])@.target == Some(id) by {
                                assert(found@[k] == all_found[k]);
                            }
                        }
                        self.refs = kept;
                        self.current_refs = found;
                        return Some(Ok(reference));
                    }
                    proof {
                        assert forall|i: int|
                            0 <= i < self.refs.len() implies !self.inner.visited().contains(
                            (#[trigger] self.refs@[i])@.target->0,
                        ) by {
                            let t = self.refs@[i]@.target->0;
                            assert(!seen.contains(t));
                            if self.inner.visited().contains(t) {
                                let m = choose|m: int|
                                    0 <= m < self.inner.visited().len()
                                        && self.inner.visited()[m] == t;
                                if m < seen.len() {
                                    assert(seen[m] == t);
                                }
                            }
                        }
                    }
                },
            }
        }
    }
}

/// Whether one of the references refers to the id.
fn refers(list: &Vec<Reference>, id: &Oid) -> (r: bool)
    ensures
        r == exists|i: int| 0 <= i < list.len() && (#[trigger] list@[i])@.target == Some(*id),
{
    let mut i: usize = 0;
    while i < list.len()
        invariant
            i <= list.len(),
            forall|k: int| 0 <= k < i ==> (#[trigger] list@[k])@.target != Some(*id),
        decreases list.len() - i,
    {
        if let Some(t) = list[i].target() {
            if t.same(id) {
                return true;
            }
        }
        i += 1;
    }
    false
}

/// Iterator for deleting references
///
/// This iterator wraps a list of references. All of the references of the
/// list are deleted. The `ReferenceDeletingIter` itself returns (only) the
/// errors encountered. Successful deletions are not reported, e.g. no items
/// will be returned.
///
/// Use this iterator if you want to remove references from a repository
/// but also want to delegate the decision what to do if an error is
/// encountered.
pub struct ReferenceDeletingIter {
    inner: Vec<Reference>,
    position: usize,
}

/// Whether the references `after` are what is left of the references
/// `before` when some of those named in `list` are deleted: all of them, if
/// no deletion fails.
pub open spec fn is_swept(
    before: Map<Seq<char>, Option<Oid>>,
    after: Map<Seq<char>, Option<Oid>>,
    list: Seq<Reference>,
    reliable: bool,
) -> bool {
    &&& forall|path: Seq<char>| #[trigger]
        after.contains_key(path) ==> before.contains_key(path) && after[path] == before[path]
    &&& forall|path: Seq<char>|
        #[trigger] before.contains_key(path) && !after.contains_key(path) ==> lists_name(list, path)
    &&& reliable ==> forall|path: Seq<char>| #[trigger]
        lists_name(list, path) ==> !after.contains_key(path)
}

/// Whether a sweep of `list` stopped at its `n`th reference: the references
/// before it are gone, the deletion of that one failed with the error `e`,
/// which names it, and the references `rest` after it are left to delete.
/// Where the store is reliable, the reference that could not be deleted is
/// not there.
pub open spec fn is_stopped(
    before: Map<Seq<char>, Option<Oid>>,
    after: Map<Seq<char>, Option<Oid>>,
    list: Seq<Reference>,
    rest: Seq<Reference>,
    reliable: bool,
    n: int,
    e: Error,
) -> bool {
    &&& 1 <= n <= list.len()
    &&& rest == list.subrange(n, list.len() as int)
    &&& e.kind == Kind::CannotDeleteReference
    &&& e.subject@ == list[n - 1]@.name
    &&& is_swept(before, after, list.take(n - 1), true)
    &&& reliable ==> !after.contains_key(list[n - 1]@.name)
}

impl ReferenceDeletingIter {
    /// The references that are left to delete.
    pub closed spec fn rest(&self) -> Seq<Reference> {
        self.inner@.subrange(self.position as int, self.inner.len() as int)
    }

    #[verifier::type_invariant]
    closed spec fn inv(self) -> bool {
        self.position <= self.inner.len()
    }

    /// An iterator that deletes the given references.
    pub fn from(items: Vec<Reference>) -> (r: Self)
        ensures
            r.rest() == items@,
    {
        let r = ReferenceDeletingIter { inner: items, position: 0 };
        r
    }

    /// Delete references up to the first failure, and return its error.
    ///
    /// The result is `None` once all references are deleted.
    pub fn next<R: Store>(&mut self, repo: &mut R) -> (r: Option<Error>)
        ensures
            r matches Some(e) ==> exists|n: int|
                #![trigger old(self).rest().take(n)]
                is_stopped(
                    old(repo).refs(),
                    final(repo).refs(),
                    old(self).rest(),
                    final(self).rest(),
                    old(repo).reliable(),
                    n,
                    e,
                ),
            r is None ==> final(self).rest().len() == 0 && is_swept(
                old(repo).refs(),
                final(repo).refs(),
                old(self).rest(),
                true,
            ),
            old(repo).reliable() && distinct_names(old(self).rest()) && (forall|i: int|
                0 <= i < old(self).rest().len() ==> old(repo).refs().contains_key(
                    (#[trigger] old(self).rest()[i])@.name,
                )) ==> r is None,
            final(repo).commits() == old(repo).commits(),
            final(repo).remotes() == old(repo).remotes(),
            final(repo).reliable() == old(repo).reliable(),
    {
        let ghost start = self.position as int;
        let ghost list = old(self).rest();
        let ghost refs0 = repo.refs();
        proof {
            use_type_invariant(&*self);
        }
        while self.position < self.inner.len()
            invariant
                0 <= start <= self.position <= self.inner.len(),
                self.inner@ == old(self).inner@,
                list == old(self).rest(),
                list == self.inner@.subrange(start, self.inner.len() as int),
                refs0 == old(repo).refs(),
                is_swept(refs0, repo.refs(), list.take(self.position - start), true),
                repo.commits() == old(repo).commits(),
                repo.remotes() == old(repo).remotes(),
                repo.reliable() == old(repo).reliable(),
            decreases self.inner.len() - self.position,
        {
            let ghost n = self.position - start;
            let ghost mid = repo.refs();
            let outcome = repo.delete_reference(&self.inner[self.position]);
            self.position = self.position + 1;
            proof {
                assert(list[n] == self.inner@[start + n]);
                assert(list.take(n + 1) =~= list.take(n).push(list[n]));
                lemma_swept_more(refs0, mid, repo.refs(), list.take(n), list[n], outcome is Ok);
                assert(self.rest() =~= list.subrange(n + 1, list.len() as int));
            }
            match outcome {
                Ok(()) => {},
                Err(e) => {
                    proof {
                        assert(list.take(n + 1 - 1) == list.take(n));
                        assert(is_stopped(
                            refs0,
                            repo.refs(),
                            list,
                            self.rest(),
                            repo.reliable(),
                            n + 1,
                            e,
                        ));
                        if repo.reliable() && distinct_names(list) && refs0.contains_key(
                            list[n]@.name,
                        ) {
                            // the reference was there and is gone: one of the same
                            // name was deleted before it
                            assert(lists_name(list.take(n), list[n]@.name));
                            let i = choose|i: int|
                                0 <= i < n && (#[trigger] list.take(n)[i])@.name == list[n]@.name;
                            assert(list.take(n)[i] == list[i]);
                            assert(list[i]@.name != list[n]@.name);
                        }
                    }
                    return Some(e);
                },
            }
        }
        proof {
            assert(list.take(list.len() as int) =~= list);
            assert(self.rest() =~= list.subrange(list.len() as int, list.len() as int));
        }
        None
    }

    /// Delete, ignoring errors
    ///
    /// Delete all references of the list, ignoring all errors.
    pub fn delete_ignoring<R: Store>(self, repo: &mut R)
        ensures
            is_swept(old(repo).refs(), final(repo).refs(), self.rest(), old(repo).reliable()),
            final(repo).commits() == old(repo).commits(),
            final(repo).remotes() == old(repo).remotes(),
            final(repo).reliable() == old(repo).reliable(),
    {
        let ghost start = self.position as int;
        let ghost list = self.rest();
        let ghost refs0 = repo.refs();
        let mut position = self.position;
        proof {
            use_type_invariant(&self);
        }
        while position < self.inner.len()
            invariant
                0 <= start <= position <= self.inner.len(),
                list == self.inner@.subrange(start, self.inner.len() as int),
                refs0 == old(repo).refs(),
                is_swept(refs0, repo.refs(), list.take(position - start), repo.reliable()),
                repo.commits() == old(repo).commits(),
                repo.remotes() == old(repo).remotes(),
                repo.reliable() == old(repo).reliable(),
            decreases self.inner.len() - position,
        {
            let ghost n = position - start;
            let ghost mid = repo.refs();
            let outcome = repo.delete_reference(&self.inner[position]);
            position = position + 1;
            proof {
                assert(list.take(n + 1) =~= list.take(n).push(list[n]));
                lemma_swept_more(refs0, mid, repo.refs(), list.take(n), list[n], outcome is Ok);
                if repo.reliable() && !(outcome is Ok) {
                    lemma_swept_absent(refs0, repo.refs(), list.take(n), list[n]);
                }
            }
        }
        proof {
            assert(list.take(list.len() as int) =~= list);
        }
    }
}

/// A sweep goes on with one more reference: it is deleted, or the deletion
/// fails and nothing changes.
proof fn lemma_swept_more(
    before: Map<Seq<char>, Option<Oid>>,
    mid: Map<Seq<char>, Option<Oid>>,
    after: Map<Seq<char>, Option<Oid>>,
    list: Seq<Reference>,
    next: Reference,
    deleted: bool,
)
    requires
        is_swept(before, mid, list, false),
        deleted ==> after == mid.remove(next@.name),
        !deleted ==> after == mid,
    ensures
        is_swept(before, after, list.push(next), false),
        deleted && is_swept(before, mid, list, true) ==> is_swept(
            before,
            after,
            list.push(next),
            true,
        ),
{
    let more = list.push(next);
    assert forall|path: Seq<char>| lists_name(list, path) implies lists_name(more, path) by {
        let i = choose|i: int| 0 <= i < list.len() && (#[trigger] list[i])@.name == path;
        assert(more[i] == list[i]);
    }
    assert(more[list.len() as int] == next);
    if deleted && is_swept(before, mid, list, true) {
        assert forall|path: Seq<char>| #[trigger] lists_name(more, path) implies !after.contains_key(
            path,
        ) by {
            let i = choose|i: int| 0 <= i < more.len() && (#[trigger] more[i])@.name == path;
            if i < list.len() {
                assert(lists_name(list, path));
            }
        }
    }
}

/// A sweep that is complete stays complete with one more reference that is
/// not there.
proof fn lemma_swept_absent(
    before: Map<Seq<char>, Option<Oid>>,
    after: Map<Seq<char>, Option<Oid>>,
    list: Seq<Reference>,
    next: Reference,
)
    requires
        is_swept(before, after, list, true),
        !after.contains_key(next@.name),
    ensures
        is_swept(before, after, list.push(next), true),
{
    let more = list.push(next);
    assert forall|path: Seq<char>| lists_name(list, path) implies lists_name(more, path) by {
        let i = choose|i: int| 0 <= i < list.len() && (#[trigger] list[i])@.name == path;
        assert(more[i] == list[i]);
    }
    assert forall|path: Seq<char>| #[trigger] lists_name(more, path) implies !after.contains_key(
        path,
    ) by {
        let i = choose|i: int| 0 <= i < more.len() && (#[trigger] more[i])@.name == path;
        if i < list.len() {
            assert(lists_name(list, path));
        }
    }
}

} // verus!
