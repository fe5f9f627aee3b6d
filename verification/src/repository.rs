//! Repository related utilities
//!
//! This module provides the `RepositoryExt` extension trait which provides
//! issue handling utilities for repositories.

use vstd::prelude::*;
use vstd::string::*;
use crate::base::{contains_id, Base, Oid};
use crate::error::{Error, Kind};
use crate::issue::{
    is_head_among,
    local_prefix,
    remote_namespaces_of,
    Issue,
};
use crate::object::commit::CommitView;
use crate::object::Database;
use crate::reference::{
    head_path,
    in_store,
    is_selection,
    is_store_error,
    keep_marked,
    lemma_pick_selection,
    is_head_path,
    is_under,
    lists,
    names_valid,
    parse,
    Kind as RefKind,
    Reference,
    ReferenceView,
    Store,
};
use crate::traversal::{
    is_parent,
    is_walk,
    is_walk_error,
    lemma_walk_error,
    only,
    start,
    Plan,
    Traversal,
    TraversalBuilder,
    Traversible,
};

verus! {

/// Whether an issue exists: it has a head, locally or in some remote.
pub open spec fn issue_exists(
    refs: Map<Seq<char>, Option<Oid>>,
    remotes: Seq<Seq<u8>>,
    id: Oid,
) -> bool {
    ||| refs.contains_key(head_path(local_prefix(), id))
    ||| exists|path: Seq<char>|
        refs.contains_key(path) && #[trigger] is_head_among(path, remote_namespaces_of(remotes), id)
}

/// Whether `path` names the head of issue `id` below `base`, in whatever
/// namespace.
pub open spec fn is_head_below(path: Seq<char>, base: Seq<char>, id: Oid) -> bool {
    is_under(base, path) && (parse(path) matches Some(p) && p.kind is Head && p.issue == id)
}

/// Whether issue `id` has a head below `base`.
pub open spec fn has_head_below(
    refs: Map<Seq<char>, Option<Oid>>,
    base: Seq<char>,
    id: Oid,
) -> bool {
    exists|path: Seq<char>| refs.contains_key(path) && #[trigger] is_head_below(path, base, id)
}

/// Whether a list of issues holds the issue `id`.
pub open spec fn has_issue(v: Seq<Issue>, id: Oid) -> bool {
    exists|i: int| 0 <= i < v.len() && (#[trigger] v[i])@ == id
}

/// The ids of a list of issues.
pub open spec fn ids_of(v: Seq<Issue>) -> Seq<Oid> {
    v.map_values(|i: Issue| i@)
}

/// The issues whose heads the references of a list are, in order.
pub open spec fn owners_of(heads: Seq<Reference>) -> Seq<Oid> {
    heads.map_values(|r: Reference| parse(r@.name)->0.issue)
}

/// The name below which the issues of a namespace reside.
pub open spec fn dit_base(prefix: Seq<char>) -> Seq<char> {
    prefix + "/dit"@
}

/// Whether issue `id` has a head below one of the bases.
pub open spec fn has_head_among(
    refs: Map<Seq<char>, Option<Oid>>,
    bases: Seq<Seq<char>>,
    id: Oid,
) -> bool {
    exists|k: int| 0 <= k < bases.len() && has_head_below(refs, #[trigger] bases[k], id)
}

/// The names below which issues reside: locally and in each remote.
pub open spec fn all_bases(remotes: Seq<Seq<u8>>) -> Seq<Seq<char>> {
    seq![dit_base("refs"@)] + remote_namespaces_of(remotes)
}

/// What the walk along the first parents of a message walks.
pub open spec fn lineage_plan(g: Map<Oid, CommitView>, reliable: bool, message: Oid) -> Plan {
    Plan {
        graph: g,
        heads: only(message),
        ends: Set::empty(),
        first_parent_only: true,
        reliable,
    }
}

/// Whether `issue` is the first issue on the lineage of `message`: a path of
/// first parents leads from the message to it, and, where that can be told
/// for sure, no message before it on the path is an issue.
pub open spec fn is_first_on_lineage(
    g: Map<Oid, CommitView>,
    refs: Map<Seq<char>, Option<Oid>>,
    remotes: Seq<Seq<u8>>,
    sure: bool,
    message: Oid,
    issue: Oid,
) -> bool {
    exists|p: Seq<Oid>|
        #![trigger is_walk(g, Set::empty(), true, p)]
        is_walk(g, Set::empty(), true, p) && p[0] == message && p.last() == issue && (sure
            ==> forall|i: int|
            0 <= i < p.len() - 1 ==> !issue_exists(refs, remotes, #[trigger] p[i]))
}

/// A message has at most one first parent.
pub proof fn lemma_one_first_parent(g: Map<Oid, CommitView>, child: Oid, a: Oid, b: Oid)
    requires
        is_parent(g, true, child, a),
        is_parent(g, true, child, b),
    ensures
        a == b,
{
    let es = crate::traversal::edges(g[child], true);
    let i = choose|i: int| 0 <= i < es.len() && es[i] == a;
    let j = choose|j: int| 0 <= j < es.len() && es[j] == b;
    assert(es.len() <= 1);
}

/// The issue whose head a reference is, if it is a head.
pub fn head_issue(reference: &Reference) -> (r: Option<Oid>)
    ensures
        r == match parse(reference@.name) {
            Some(p) => if p.kind is Head {
                Some(p.issue)
            } else {
                None
            },
            None => None,
        },
{
    match reference.parts() {
        Some(p) => match p.kind {
            RefKind::Head => Some(p.issue),
            RefKind::Leaf(_) => None,
        },
        None => None,
    }
}

/// Extension trait for Repositories
///
/// This trait is intended as an extension for repositories. It introduces
/// utility functions for dealing with issues, e.g. for retrieving
/// references for issues, creating messages and finding the initial message
/// of an issue.
pub trait RepositoryExt: Store + Sized {
    /// Retrieve an issue
    ///
    /// Returns the issue with a given id, if it has a head: a local one, or
    /// else one in some remote.
    fn find_issue(&self, id: Oid) -> (r: Result<Issue, Error>)
        ensures
            r matches Ok(issue) ==> issue@ == id && issue_exists(self.refs(), self.remotes(), id),
            r matches Err(e) ==> if e.kind == Kind::CannotFindIssueHead {
                e.subject@ == id.hex() && !issue_exists(self.refs(), self.remotes(), id)
            } else {
                is_store_error(e, self.reliable(), names_valid(self.remotes()))
            },
            self.reliable() && self.refs().contains_key(head_path(local_prefix(), id)) ==> r is Ok,
    {
        let issue = Issue::new_unchecked(id);
        let local = match issue.local_head(self) {
            Ok(l) => l,
            Err(e) => {
                return Err(e);
            },
        };
        if local.is_some() {
            return Ok(issue);
        }
        let remote = match issue.all_remote_heads(self) {
            Ok(v) => v,
            Err(e) => {
                return Err(e);
            },
        };
        if remote.len() > 0 {
            proof {
                let x = remote@[0]@;
                assert(lists(remote@, x));
            }
            Ok(issue)
        } else {
            proof {
                assert forall|path: Seq<char>|
                    self.refs().contains_key(path) && #[trigger] is_head_among(
                        path,
                        remote_namespaces_of(self.remotes()),
                        id,
                    ) implies false by {
                    let x = ReferenceView { name: path, target: self.refs()[path] };
                    assert(lists(remote@, x));
                }
            }
            Err(Error::new(Kind::CannotFindIssueHead, id.to_hex()))
        }
    }

    /// Retrieve an issue by its head ref
    ///
    /// Returns the issue associated with a head reference.
    fn issue_by_head_ref(&self, head_ref: &Reference) -> (r: Result<Issue, Error>)
        ensures
            r is Ok <==> is_head_path(head_ref@.name),
            r matches Ok(issue) ==> parse(head_ref@.name) matches Some(p) && p.issue == issue@,
            r matches Err(e) ==> e.kind == Kind::MalFormedHeadReference && e.subject@
                == head_ref@.name,
    {
        match head_ref.parts() {
            Some(p) => match p.kind {
                RefKind::Head => Ok(Issue::new_unchecked(p.issue)),
                RefKind::Leaf(_) => Err(
                    Error::about(Kind::MalFormedHeadReference, head_ref.name()),
                ),
            },
            None => Err(Error::about(Kind::MalFormedHeadReference, head_ref.name())),
        }
    }

    /// Find the first issue on a lineage
    ///
    /// Takes a walk along first parents that starts at `message`. Ids
    /// without an issue are passed over; the first id with an issue ends the
    /// search. If the walk ends before, no issue was found.
    fn first_issue_on_lineage<T: Traversal>(&self, walk: T, message: Oid) -> (r: Result<
        Issue,
        Error,
    >)
        requires
            walk.wf(),
            !walk.failed(),
            walk.visited() == Seq::<Oid>::empty(),
            walk.pending() == start(walk.plan()),
            walk.plan().first_parent_only,
            walk.plan().heads == only(message),
            walk.plan().ends == Set::<Oid>::empty(),
        ensures
            r matches Ok(issue) ==> issue_exists(self.refs(), self.remotes(), issue@)
                && is_first_on_lineage(
                walk.plan().graph,
                self.refs(),
                self.remotes(),
                self.reliable() && names_valid(self.remotes()),
                message,
                issue@,
            ),
            r matches Err(e) ==> if e.kind == Kind::NoTreeInitFound {
                e.subject@ == message.hex() && (self.reliable() && names_valid(self.remotes())
                    ==> forall|id: Oid| #[trigger]
                    walk.plan().reaches(id) ==> !issue_exists(self.refs(), self.remotes(), id))
            } else {
                is_walk_error(walk.plan(), e)
            },
            self.reliable() && names_valid(self.remotes()) && walk.plan().reliable
                && walk.plan().closed() ==> (r is Ok <==> exists|id: Oid|
                #![trigger walk.plan().reaches(id)]
                walk.plan().reaches(id) && issue_exists(self.refs(), self.remotes(), id)),
    {
        let ghost plan = walk.plan();
        let ghost sure = self.reliable() && names_valid(self.remotes());
        let mut w = walk;
        proof {
            assert(w.pending() =~= only(message));
        }
        loop
            invariant
                w.wf(),
                !w.failed(),
                w.plan() == plan,
                walk.plan() == plan,
                plan.first_parent_only,
                plan.ends == Set::<Oid>::empty(),
                plan.heads == only(message),
                sure == (self.reliable() && names_valid(self.remotes())),
                sure ==> forall|i: int|
                    0 <= i < w.visited().len() ==> !issue_exists(
                        self.refs(),
                        self.remotes(),
                        #[trigger] w.visited()[i],
                    ),
                // what was yielded is the lineage so far, and what is pending
                // is the next message on it
                w.visited().len() > 0 ==> is_walk(plan.graph, plan.ends, true, w.visited())
                    && w.visited()[0] == message,
                forall|o: Oid|
                    w.pending().contains(o) ==> if w.visited().len() == 0 {
                        o == message
                    } else {
                        is_parent(plan.graph, true, w.visited().last(), o)
                    },
            decreases w.remaining(),
        {
            let ghost before = w.visited();
            let ghost pending = w.pending();
            match w.next() {
                None => {
                    proof {
                        if sure {
                            assert forall|id: Oid| #[trigger] plan.reaches(id) implies !issue_exists(
                                self.refs(),
                                self.remotes(),
                                id,
                            ) by {
                                let i = choose|i: int| 0 <= i < before.len() && before[i] == id;
                            }
                        }
                    }
                    return Err(Error::new(Kind::NoTreeInitFound, message.to_hex()));
                },
                Some(Ok(id)) => {
                    let ghost lineage = before.push(id);
                    proof {
                        assert(!plan.ends.contains(id));
                        assert forall|i: int| 0 <= i < lineage.len() implies !plan.ends.contains(
                            #[trigger] lineage[i],
                        ) by {}
                        assert forall|i: int| 0 <= i < lineage.len() - 1 implies is_parent(
                            plan.graph,
                            true,
                            #[trigger] lineage[i],
                            lineage[i + 1],
                        ) by {
                            if i < before.len() - 1 {
                                assert(is_parent(plan.graph, true, before[i], before[i + 1]));
                            }
                        }
                        assert(is_walk(plan.graph, plan.ends, true, lineage));
                        assert(lineage[0] == message);
                        // at most one parent is followed
                        assert forall|o: Oid| w.pending().contains(o) implies is_parent(
                            plan.graph,
                            true,
                            lineage.last(),
                            o,
                        ) by {
                            if pending.contains(o) && o != id {
                                if !(before.len() == 0) {
                                    lemma_one_first_parent(plan.graph, before.last(), o, id);
                                }
                            }
                        }
                    }
                    match self.find_issue(id) {
                        Ok(issue) => {
                            proof {
                                assert forall|i: int|
                                    sure && 0 <= i < lineage.len() - 1 implies !issue_exists(
                                    self.refs(),
                                    self.remotes(),
                                    #[trigger] lineage[i],
                                ) by {
                                    assert(lineage[i] == before[i]);
                                }
                                assert(is_walk(plan.graph, Set::<Oid>::empty(), true, lineage)
                                    && lineage[0] == message && lineage.last() == issue@);
                            }
                            return Ok(issue);
                        },
                        Err(_) => {
                            proof {
                                assert forall|i: int|
                                    sure && 0 <= i < w.visited().len() implies !issue_exists(
                                    self.refs(),
                                    self.remotes(),
                                    #[trigger] w.visited()[i],
                                ) by {
                                    if i < before.len() {
                                        assert(w.visited()[i] == before[i]);
                                    }
                                }
                            }
                        },
                    }
                },
                Some(Err(e)) => {
                    proof {
                        if plan.reliable {
                            lemma_walk_error(plan, e);
                        }
                    }
                    return Err(e);
                },
            }
        }
    }

    /// Find the issue with a given message in it
    ///
    /// Returns the first issue found along the first parents of the message
    /// provided.
    fn issue_with_message<'r>(&'r self, message: Oid) -> (r: Result<Issue, Error>) where
        Self: Traversible<'r>,

        ensures
            r matches Ok(issue) ==> issue_exists(self.refs(), self.remotes(), issue@)
                && is_first_on_lineage(
                self.commits(),
                self.refs(),
                self.remotes(),
                self.reliable() && names_valid(self.remotes()),
                message,
                issue@,
            ),
            r matches Err(e) ==> if e.kind == Kind::NoTreeInitFound {
                e.subject@ == message.hex() && (self.reliable() && names_valid(self.remotes())
                    ==> forall|id: Oid| #[trigger]
                    lineage_plan(self.commits(), self.reliable(), message).reaches(id)
                        ==> !issue_exists(self.refs(), self.remotes(), id))
            } else if e.kind == Kind::CannotConstructRevwalk {
                self.reliable() ==> e.subject@ == message.hex() && !self.commits().contains_key(
                    message,
                )
            } else {
                is_walk_error(lineage_plan(self.commits(), self.reliable(), message), e)
            },
            self.reliable() && names_valid(self.remotes()) && self.commits().contains_key(message)
                && lineage_plan(self.commits(), self.reliable(), message).closed() ==> (r is Ok
                <==> exists|id: Oid|
                #![trigger lineage_plan(self.commits(), self.reliable(), message).reaches(id)]
                lineage_plan(self.commits(), self.reliable(), message).reaches(id) && issue_exists(
                    self.refs(),
                    self.remotes(),
                    id,
                )),
            r matches Err(e) ==> e.kind != Kind::NoTreeInitFound ==> !(self.reliable()
                && self.commits().contains_key(message) && lineage_plan(
                self.commits(),
                self.reliable(),
                message,
            ).closed()),
    {
        let walk = match self.first_parent_messages(message) {
            Ok(w) => w,
            Err(e) => {
                return Err(e);
            },
        };
        proof {
            let plan = walk.plan();
            assert(plan.heads =~= only(message));
            assert(plan =~= lineage_plan(self.commits(), self.reliable(), message));
        }
        let r = self.first_issue_on_lineage(walk, message);
        proof {
            if r is Err && r->Err_0.kind != Kind::NoTreeInitFound && self.reliable() {
                lemma_walk_error(
                    lineage_plan(self.commits(), self.reliable(), message),
                    r->Err_0,
                );
            }
        }
        r
    }

    /// Get issue hashes for a prefix
    ///
    /// This function returns all issues known to the repository under the
    /// prefix provided: all issues for which head references exist under
    /// `<prefix>/dit/`. Provide "refs" as the prefix to get only local
    /// issues. An issue is listed once for each of its heads, in the order
    /// in which the store lists the heads.
    fn issues_with_prefix(&self, prefix: &str) -> (r: Result<Vec<Issue>, Error>)
        ensures
            r matches Ok(v) ==> exists|heads: Seq<Reference>|
                #![trigger owners_of(heads)]
                is_selection(
                    self.refs(),
                    |path: Seq<char>| is_under(dit_base(prefix@), path) && is_head_path(path),
                    heads,
                ) && ids_of(v@) == owners_of(heads),
            r matches Ok(v) ==> forall|id: Oid| #[trigger]
                has_issue(v@, id) <==> has_head_below(self.refs(), dit_base(prefix@), id),
            r matches Err(e) ==> e.kind == Kind::CannotGetReferences && e.subject@ == dit_base(
                prefix@,
            ),
            self.reliable() ==> r is Ok,
    {
        let mut path = String::from_str(prefix);
        path.append("/dit");
        let ghost base = dit_base(prefix@);
        let ghost refs = self.refs();
        let all = match self.listing(path.as_str()) {
            Ok(v) => v,
            Err(e) => {
                return Err(e);
            },
        };
        let ghost listed = |p: Seq<char>| is_under(base, p);
        let ghost wanted = |p: Seq<char>| is_under(base, p) && is_head_path(p);
        let mut marks: Vec<bool> = Vec::new();
        let mut i: usize = 0;
        while i < all.len()
            invariant
                i <= all.len(),
                marks.len() == i,
                is_selection(refs, listed, all@),
                listed == |p: Seq<char>| is_under(base, p),
                wanted == |p: Seq<char>| is_under(base, p) && is_head_path(p),
                forall|k: int| 0 <= k < i ==> (marks@[k] <==> wanted((#[trigger] all@[k])@.name)),
            decreases all.len() - i,
        {
            let m = all[i].is_head();
            proof {
                assert(listed(all@[i as int]@.name));
            }
            marks.push(m);
            i += 1;
        }
        let heads = keep_marked(&all, &marks);
        proof {
            lemma_pick_selection(refs, listed, wanted, all@, marks@, heads@);
        }
        let mut out: Vec<Issue> = Vec::new();
        let mut k: usize = 0;
        while k < heads.len()
            invariant
                k <= heads.len(),
                is_selection(refs, wanted, heads@),
                wanted == |p: Seq<char>| is_under(base, p) && is_head_path(p),
                ids_of(out@) == owners_of(heads@).take(k as int),
            decreases heads.len() - k,
        {
            proof {
                assert(wanted(heads@[k as int]@.name));
            }
            let ghost before = out@;
            match head_issue(&heads[k]) {
                Some(id) => {
                    out.push(Issue::new_unchecked(id));
                },
                None => {
                    // a head reference has an owner
                    assert(false);
                },
            }
            proof {
                assert(ids_of(out@) =~= ids_of(before).push(owners_of(heads@)[k as int]));
            }
            k += 1;
        }
        proof {
            assert(owners_of(heads@).take(heads.len() as int) =~= owners_of(heads@));
            assert forall|id: Oid| #[trigger]
                has_issue(out@, id) <==> has_head_below(refs, base, id) by {
                if has_issue(out@, id) {
                    let j = choose|j: int| 0 <= j < out.len() && (#[trigger] out@[j])@ == id;
                    assert(ids_of(out@)[j] == id);
                    assert(wanted(heads@[j]@.name));
                    assert(in_store(refs, heads@[j]@));
                    assert(is_head_below(heads@[j]@.name, base, id));
                }
                if has_head_below(refs, base, id) {
                    let p = choose|p: Seq<char>|
                        refs.contains_key(p) && #[trigger] is_head_below(p, base, id);
                    assert(wanted(p));
                    let x = ReferenceView { name: p, target: refs[p] };
                    assert(lists(heads@, x));
                    let j = choose|j: int| 0 <= j < heads.len() && (#[trigger] heads@[j])@ == x;
                    assert(ids_of(out@)[j] == id);
                    assert(out@[j]@ == id);
                }
            }
        }
        Ok(out)
    }

    /// Get all issue hashes
    ///
    /// This function returns all issues known to the repository, locally
    /// and in remotes, each once.
    fn issues(&self) -> (r: Result<Vec<Issue>, Error>)
        ensures
            r matches Ok(v) ==> ids_of(v@).no_duplicates() && names_valid(self.remotes())
                && forall|id: Oid| #[trigger]
                has_issue(v@, id) <==> has_head_among(self.refs(), all_bases(self.remotes()), id),
            r matches Err(e) ==> is_store_error(e, self.reliable(), names_valid(self.remotes())),
    {
        let ghost refs = self.refs();
        let ghost bases = all_bases(self.remotes());
        let mut prefixes: Vec<String> = Vec::new();
        prefixes.push(String::from_str("refs"));
        let mut paths = match self.remote_ref_paths() {
            Ok(v) => v,
            Err(e) => {
                return Err(e);
            },
        };
        prefixes.append(&mut paths);
        let mut out: Vec<Issue> = Vec::new();
        let mut seen: Vec<Oid> = Vec::new();
        let mut k: usize = 0;
        while k < prefixes.len()
            invariant
                k <= prefixes.len(),
                refs == self.refs(),
                prefixes@.len() == bases.len(),
                forall|j: int| 0 <= j < prefixes.len() ==> dit_base((#[trigger] prefixes@[j])@)
                    == bases[j],
                seen@ == ids_of(out@),
                seen@.no_duplicates(),
                forall|id: Oid| #[trigger]
                    has_issue(out@, id) <==> has_head_among(refs, bases.take(k as int), id),
            decreases prefixes.len() - k,
        {
            let found = match self.issues_with_prefix(prefixes[k].as_str()) {
                Ok(v) => v,
                Err(e) => {
                    return Err(e);
                },
            };
            let ghost base = bases[k as int];
            let ghost start = out@;
            let mut i: usize = 0;
            while i < found.len()
                invariant
                    i <= found.len(),
                    seen@ == ids_of(out@),
                    seen@.no_duplicates(),
                    forall|id: Oid| #[trigger]
                        has_issue(out@, id) <==> has_issue(start, id) || exists|j: int|
                            0 <= j < i && (#[trigger] found@[j])@ == id,
                decreases found.len() - i,
            {
                let id = *found[i].id();
                let ghost before = out@;
                if !contains_id(&seen, &id) {
                    seen.push(id);
                    out.push(found[i]);
                }
                proof {
                    let after = out@;
                    assert forall|o: Oid| #[trigger]
                        has_issue(after, o) <==> has_issue(start, o) || exists|j: int|
                            0 <= j < i + 1 && (#[trigger] found@[j])@ == o by {
                        if has_issue(after, o) {
                            let j = choose|j: int| 0 <= j < after.len() && (#[trigger] after[j])@ == o;
                            if j < before.len() {
                                assert(has_issue(before, o));
                            }
                        }
                        if has_issue(start, o) || exists|j: int|
                            0 <= j < i && (#[trigger] found@[j])@ == o {
                            assert(has_issue(before, o));
                            let j = choose|j: int|
                                0 <= j < before.len() && (#[trigger] before[j])@ == o;
                            assert(after[j]@ == o);
                        }
                        if found@[i as int]@ == o {
                            if !(ids_of(before).contains(o)) {
                                assert(after[before.len() as int]@ == o);
                            }
                        }
                    }
                }
                i += 1;
            }
            proof {
                assert forall|id: Oid| #[trigger]
                    has_issue(out@, id) <==> has_head_among(refs, bases.take(k + 1), id) by {
                    if has_issue(out@, id) {
                        if !(has_issue(start, id)) {
                            assert(has_issue(found@, id));
                            assert(bases.take(k + 1)[k as int] == base);
                        }
                    }
                    if has_head_among(refs, bases.take(k + 1), id) {
                        let m = choose|m: int|
                            0 <= m < k + 1 && has_head_below(
                                refs,
                                #[trigger] bases.take(k + 1)[m],
                                id,
                            );
                        if !(m < k) {
                            assert(has_issue(found@, id));
                        }
                    }
                }
            }
            k += 1;
        }
        proof {
            assert(bases.take(prefixes.len() as int) =~= bases);
        }
        Ok(out)
    }

    /// Create a new issue
    ///
    /// Creates the initial message of the issue and its local head. Returns
    /// the issue. If the head cannot be created, the message stays in the
    /// object database without a reference.
    fn create_issue(
        &mut self,
        author: &str,
        committer: &str,
        message: &str,
        tree: Oid,
        parents: &Vec<Oid>,
    ) -> (r: Result<Issue, Error>) where Self: Database
        ensures
            r matches Ok(issue) ==> !old(self).commits().contains_key(issue@) && final(self).commits() == old(self).commits().insert(
                issue@,
                CommitView {
                    author: author@,
                    committer: committer@,
                    message: message@,
                    tree,
                    parents: parents@,
                },
            ) && final(self).refs() == old(self).refs().insert(
                head_path(local_prefix(), issue@),
                Some(issue@),
            ),
            r matches Err(e) ==> final(self).refs() == old(self).refs() && ((e.kind
                == Kind::CannotCreateMessage && final(self).commits() == old(self).commits()) || (
            e.kind == Kind::CannotSetReference && exists|id: Oid|
                !old(self).commits().contains_key(id) && final(self).commits() == #[trigger] old(self).commits().insert(
                    id,
                    CommitView {
                        author: author@,
                        committer: committer@,
                        message: message@,
                        tree,
                        parents: parents@,
                    },
                ))),
            final(self).remotes() == old(self).remotes(),
            final(self).reliable() == old(self).reliable(),
    {
        let id = match self.commit(author, committer, message, tree, parents) {
            Ok(id) => id,
            Err(e) => {
                return Err(e);
            },
        };
        let issue = Issue::new_unchecked(id);
        match issue.update_head(self, id, false) {
            Ok(_) => Ok(issue),
            Err(e) => Err(e),
        }
    }
}

impl RepositoryExt for crate::memory::MemoryRepository {

}

} // verus!
