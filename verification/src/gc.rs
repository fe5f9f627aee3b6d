//! Garbage collecting utilities
//!
//! A reference is collectable if deleting it loses nothing that another
//! reference does not record. A leaf is collectable if its message is a
//! strict ancestor of another tip of the issue, or if it has no target. The
//! local head is collectable, where that is asked for, if a head of a remote
//! has it in its history.

use vstd::prelude::*;
use crate::base::{contains_id, Base, Oid};
use crate::error::{Error, Kind};
use crate::issue::{
    is_head_among,
    is_leaf_among,
    issue_ends,
    issue_known,
    issue_plan,
    lemma_head_unique,
    lemma_issue_walk_error,
    local_prefix,
    remote_namespaces_of,
    texts,
    Issue,
};
use crate::object::commit::CommitView;
use crate::object::Database;
use crate::reference::{
    head_path,
    is_selection,
    is_store_error,
    keep_marked,
    lemma_pick_selection,
    lemma_selection_same,
    lemma_selection_union,
    lists,
    names_valid,
    Reference,
    ReferenceView,
    Store,
};
use crate::traversal::{
    all_known,
    collect,
    finds,
    is_closed,
    is_parent,
    is_unknown_error,
    is_walk,
    reachable,
    Plan,
    Traversal,
    TraversalBuilder,
    Traversible,
};

verus! {

/// Under what circumstances the local head of an issue is collected.
#[derive(Clone, Copy, Debug, PartialEq, Eq, Structural)]
pub enum ReferenceCollectionSpec {
    /// The local head is never collected.
    Never,
    /// The local head is collected if the head of some remote has it in its
    /// history.
    BackedByRemoteHead,
}

impl Default for ReferenceCollectionSpec {
    fn default() -> (r: Self)
        ensures
            r == ReferenceCollectionSpec::Never,
    {
        ReferenceCollectionSpec::Never
    }
}

/// Type representing collectable references
///
/// Use this type in order to compute dit-references which are no longer
/// required and thus may be collected.
#[derive(Clone, Copy, Debug)]
pub struct CollectableRefs {
    /// Should remote references be considered during collection?
    consider_remote_refs: bool,
    /// Under what circumstances should local heads be collected?
    collect_heads: ReferenceCollectionSpec,
}

impl Default for CollectableRefs {
    fn default() -> (r: Self)
        ensures
            !r.considers_remote_refs(),
            r.head_condition() == ReferenceCollectionSpec::Never,
    {
        CollectableRefs {
            consider_remote_refs: false,
            collect_heads: ReferenceCollectionSpec::Never,
        }
    }
}

/// The targets of the heads of an issue in the given namespaces.
pub open spec fn head_targets(
    refs: Map<Seq<char>, Option<Oid>>,
    namespaces: Seq<Seq<char>>,
    issue: Oid,
) -> Set<Oid> {
    Set::new(
        |t: Oid|
            exists|path: Seq<char>|
                refs.contains_key(path) && refs[path] == Some(t) && #[trigger] is_head_among(
                    path,
                    namespaces,
                    issue,
                ),
    )
}

/// Whether the history of the head of some remote, down to the initial
/// message of the issue, holds `target`.
pub open spec fn is_backed(
    g: Map<Oid, CommitView>,
    refs: Map<Seq<char>, Option<Oid>>,
    remotes: Seq<Seq<u8>>,
    issue: Oid,
    target: Oid,
) -> bool {
    reachable(
        g,
        head_targets(refs, remote_namespaces_of(remotes), issue),
        issue_ends(g, issue),
        false,
        target,
    )
}

/// Whether the local head of an issue is collectable: collection is asked
/// for, the head exists, and it has no target or is backed by a remote.
pub open spec fn head_collectable(
    condition: ReferenceCollectionSpec,
    g: Map<Oid, CommitView>,
    refs: Map<Seq<char>, Option<Oid>>,
    remotes: Seq<Seq<u8>>,
    issue: Oid,
) -> bool {
    let path = head_path(local_prefix(), issue);
    &&& condition == ReferenceCollectionSpec::BackedByRemoteHead
    &&& refs.contains_key(path)
    &&& match refs[path] {
        None => true,
        Some(target) => is_backed(g, refs, remotes, issue, target),
    }
}

/// Whether `found` is the local head of an issue if that is collectable,
/// and nothing otherwise.
pub open spec fn is_collectable_head(
    condition: ReferenceCollectionSpec,
    g: Map<Oid, CommitView>,
    refs: Map<Seq<char>, Option<Oid>>,
    remotes: Seq<Seq<u8>>,
    issue: Oid,
    found: Option<Reference>,
) -> bool {
    &&& found is Some <==> head_collectable(condition, g, refs, remotes, issue)
    &&& found matches Some(x) ==> x@ == (ReferenceView {
        name: head_path(local_prefix(), issue),
        target: refs[head_path(local_prefix(), issue)],
    })
}

/// Whether everything resolves that the judgement on the local head of an
/// issue needs: the names of the remotes, the initial message and its
/// parents, the targets of the remote heads and their histories.
pub open spec fn head_resolvable(
    condition: ReferenceCollectionSpec,
    g: Map<Oid, CommitView>,
    refs: Map<Seq<char>, Option<Oid>>,
    remotes: Seq<Seq<u8>>,
    issue: Oid,
) -> bool {
    let path = head_path(local_prefix(), issue);
    let heads = head_targets(refs, remote_namespaces_of(remotes), issue);
    ||| condition == ReferenceCollectionSpec::Never
    ||| !refs.contains_key(path)
    ||| refs[path] is None
    ||| {
        &&& names_valid(remotes)
        &&& issue_known(g, issue)
        &&& forall|t: Oid| heads.contains(t) ==> g.contains_key(t)
        &&& is_closed(g, heads, issue_ends(g, issue), false)
    }
}

/// Whether everything resolved that a judgement on the local head of an
/// issue looks at in any case: the names of the remotes, the initial message
/// and its parents, and the targets of the remote heads.
pub open spec fn head_settled(
    condition: ReferenceCollectionSpec,
    g: Map<Oid, CommitView>,
    refs: Map<Seq<char>, Option<Oid>>,
    remotes: Seq<Seq<u8>>,
    issue: Oid,
) -> bool {
    let path = head_path(local_prefix(), issue);
    let heads = head_targets(refs, remote_namespaces_of(remotes), issue);
    ||| condition == ReferenceCollectionSpec::Never
    ||| !refs.contains_key(path)
    ||| refs[path] is None
    ||| {
        &&& names_valid(remotes)
        &&& issue_known(g, issue)
        &&& forall|t: Oid| heads.contains(t) ==> g.contains_key(t)
    }
}

/// The namespaces whose leaves are considered: the local one, and those of
/// the remotes if asked for.
pub open spec fn considered_namespaces(remote: bool, remotes: Seq<Seq<u8>>) -> Seq<Seq<char>> {
    if remote {
        seq![local_prefix()] + remote_namespaces_of(remotes)
    } else {
        seq![local_prefix()]
    }
}

/// The tips of an issue: the targets of its leaves in the given namespaces
/// and of its local head.
pub open spec fn tips(
    refs: Map<Seq<char>, Option<Oid>>,
    namespaces: Seq<Seq<char>>,
    issue: Oid,
) -> Set<Oid> {
    Set::new(
        |t: Oid|
            exists|path: Seq<char>|
                #![trigger refs[path]]
                refs.contains_key(path) && refs[path] == Some(t) && (is_leaf_among(
                    path,
                    namespaces,
                    issue,
                ) || path == head_path(local_prefix(), issue)),
    )
}

/// The parents of those tips that are no ends.
pub open spec fn tip_parents(g: Map<Oid, CommitView>, tips: Set<Oid>, ends: Set<Oid>) -> Set<
    Oid,
> {
    Set::new(
        |p: Oid|
            exists|t: Oid| tips.contains(t) && !ends.contains(t) && #[trigger] is_parent(g, false, t, p),
    )
}

/// Whether a message is superseded: it is a strict ancestor of a tip of the
/// issue, reached without leaving the issue.
pub open spec fn is_superseded(
    g: Map<Oid, CommitView>,
    refs: Map<Seq<char>, Option<Oid>>,
    namespaces: Seq<Seq<char>>,
    issue: Oid,
    id: Oid,
) -> bool {
    reachable(
        g,
        tip_parents(g, tips(refs, namespaces, issue), issue_ends(g, issue)),
        issue_ends(g, issue),
        false,
        id,
    )
}

/// Whether `path` names a collectable leaf of an issue: a leaf in one of
/// the namespaces without a target or with a superseded one.
pub open spec fn leaf_collectable(
    g: Map<Oid, CommitView>,
    refs: Map<Seq<char>, Option<Oid>>,
    namespaces: Seq<Seq<char>>,
    issue: Oid,
    path: Seq<char>,
) -> bool {
    &&& is_leaf_among(path, namespaces, issue)
    &&& match refs[path] {
        None => true,
        Some(target) => is_superseded(g, refs, namespaces, issue, target),
    }
}

/// Whether everything resolves that the judgement on the leaves of an issue
/// needs: the initial message and its parents, the tips and their parents,
/// and all the ancestors of the tips within the issue.
pub open spec fn leaves_resolvable(
    g: Map<Oid, CommitView>,
    refs: Map<Seq<char>, Option<Oid>>,
    namespaces: Seq<Seq<char>>,
    issue: Oid,
) -> bool {
    let ends = issue_ends(g, issue);
    let ts = tips(refs, namespaces, issue);
    &&& issue_known(g, issue)
    &&& forall|t: Oid|
        ts.contains(t) && !ends.contains(t) ==> g.contains_key(t) && all_known(g, g[t].parents)
    &&& is_closed(g, tip_parents(g, ts, ends), ends, false)
}

/// Whether `e` is an error that a judgement may end with: an error of the
/// store, or that of a message that does not resolve.
pub open spec fn is_judgement_error(
    e: Error,
    reliable: bool,
    names_ok: bool,
    resolvable: bool,
) -> bool {
    if e.kind == Kind::CannotGetCommit || e.kind == Kind::CannotConstructRevwalk {
        !(reliable && resolvable)
    } else {
        is_store_error(e, reliable, names_ok)
    }
}

/// Whether `path` names a collectable reference of an issue: its local
/// head, if that is collectable, or a collectable leaf.
pub open spec fn is_collectable(
    condition: ReferenceCollectionSpec,
    remote: bool,
    g: Map<Oid, CommitView>,
    refs: Map<Seq<char>, Option<Oid>>,
    remotes: Seq<Seq<u8>>,
    issue: Oid,
    path: Seq<char>,
) -> bool {
    ||| path == head_path(local_prefix(), issue) && head_collectable(
        condition,
        g,
        refs,
        remotes,
        issue,
    )
    ||| leaf_collectable(g, refs, considered_namespaces(remote, remotes), issue, path)
}

/// Where heads are never collected, the local head is not collectable,
/// whatever the repository holds.
pub proof fn lemma_head_never_collectable(
    remote: bool,
    g: Map<Oid, CommitView>,
    refs: Map<Seq<char>, Option<Oid>>,
    remotes: Seq<Seq<u8>>,
    issue: Oid,
    found: Option<Reference>,
)
    ensures
        !head_collectable(ReferenceCollectionSpec::Never, g, refs, remotes, issue),
        is_collectable_head(ReferenceCollectionSpec::Never, g, refs, remotes, issue, found)
            ==> found is None,
        !is_collectable(
            ReferenceCollectionSpec::Never,
            remote,
            g,
            refs,
            remotes,
            issue,
            head_path(local_prefix(), issue),
        ),
{
    let path = head_path(local_prefix(), issue);
    let names = considered_namespaces(remote, remotes);
    if is_leaf_among(path, names, issue) {
        let k = choose|k: int|
            0 <= k < names.len() && crate::issue::is_leaf_of(path, #[trigger] names[k], issue);
        lemma_head_unique(local_prefix(), issue, names[k], issue);
    }
}

/// Where heads are collected if a remote backs them, a local head with a
/// target is collectable if and only if the head of some remote has the
/// target in its history, bounded at the initial message of the issue.
pub proof fn lemma_head_backed_by_remote(
    g: Map<Oid, CommitView>,
    refs: Map<Seq<char>, Option<Oid>>,
    remotes: Seq<Seq<u8>>,
    issue: Oid,
    target: Oid,
)
    requires
        refs.contains_key(head_path(local_prefix(), issue)),
        refs[head_path(local_prefix(), issue)] == Some(target),
    ensures
        head_collectable(ReferenceCollectionSpec::BackedByRemoteHead, g, refs, remotes, issue)
            <==> exists|remote_target: Oid|
            head_targets(refs, remote_namespaces_of(remotes), issue).contains(remote_target)
                && #[trigger] reachable(
                g,
                crate::traversal::only(remote_target),
                issue_ends(g, issue),
                false,
                target,
            ),
{
    crate::traversal::lemma_reachable_from_one_head(
        g,
        head_targets(refs, remote_namespaces_of(remotes), issue),
        issue_ends(g, issue),
        false,
        target,
    );
}

/// A collectable leaf of an issue is a leaf of no other issue, whatever the
/// policy.
pub proof fn lemma_collectable_leaf_is_own(
    g: Map<Oid, CommitView>,
    refs: Map<Seq<char>, Option<Oid>>,
    namespaces: Seq<Seq<char>>,
    issue: Oid,
    path: Seq<char>,
    prefix: Seq<char>,
    other: Oid,
)
    requires
        leaf_collectable(g, refs, namespaces, issue, path),
        crate::issue::is_leaf_of(path, prefix, other),
    ensures
        other == issue,
{
    let k = choose|k: int|
        0 <= k < namespaces.len() && crate::issue::is_leaf_of(path, #[trigger] namespaces[k], issue);
    crate::issue::lemma_leaf_of_unique(path, namespaces[k], issue, prefix, other);
}

/// A reference that is collectable for an issue is the local head of the
/// issue or one of its leaves: no reference of another issue is.
pub proof fn lemma_collectable_is_own(
    condition: ReferenceCollectionSpec,
    remote: bool,
    g: Map<Oid, CommitView>,
    refs: Map<Seq<char>, Option<Oid>>,
    remotes: Seq<Seq<u8>>,
    issue: Oid,
    path: Seq<char>,
    prefix: Seq<char>,
    other: Oid,
)
    requires
        is_collectable(condition, remote, g, refs, remotes, issue, path),
        crate::issue::is_ref_of(path, prefix, other),
    ensures
        other == issue,
{
    let names = considered_namespaces(remote, remotes);
    if leaf_collectable(g, refs, names, issue, path) {
        let k = choose|k: int|
            0 <= k < names.len() && crate::issue::is_leaf_of(path, #[trigger] names[k], issue);
        if path == head_path(prefix, other) {
            lemma_head_unique(prefix, other, names[k], issue);
        } else {
            crate::issue::lemma_leaf_of_unique(path, names[k], issue, prefix, other);
        }
    } else {
        lemma_head_unique(local_prefix(), issue, prefix, other);
    }
}

/// A local leaf of an issue without a target is collectable under every
/// policy.
pub proof fn lemma_dead_leaf_collectable(
    condition: ReferenceCollectionSpec,
    remote: bool,
    g: Map<Oid, CommitView>,
    refs: Map<Seq<char>, Option<Oid>>,
    remotes: Seq<Seq<u8>>,
    issue: Oid,
    path: Seq<char>,
)
    requires
        crate::issue::is_leaf_of(path, local_prefix(), issue),
        refs[path] is None,
    ensures
        is_collectable(condition, remote, g, refs, remotes, issue, path),
{
    let names = considered_namespaces(remote, remotes);
    assert(names[0] == local_prefix());
}

/// The tip of an issue whose parents are all ends is superseded by nothing:
/// in an issue of one message, no leaf with a target is collectable.
pub proof fn lemma_lone_root_not_collectable(
    g: Map<Oid, CommitView>,
    refs: Map<Seq<char>, Option<Oid>>,
    namespaces: Seq<Seq<char>>,
    issue: Oid,
    path: Seq<char>,
)
    requires
        g.contains_key(issue),
        forall|t: Oid| #[trigger] tips(refs, namespaces, issue).contains(t) ==> t == issue,
        refs[path] is Some,
    ensures
        !leaf_collectable(g, refs, namespaces, issue, path),
{
}

/// Whether a message is a strict ancestor of a tip: a path of at least one
/// step leads from the tip to the message, and no message on it is an end.
pub open spec fn is_strict_ancestor_of_tip(
    g: Map<Oid, CommitView>,
    tips: Set<Oid>,
    ends: Set<Oid>,
    id: Oid,
) -> bool {
    exists|p: Seq<Oid>|
        #![trigger is_walk(g, ends, false, p)]
        is_walk(g, ends, false, p) && p.len() >= 2 && tips.contains(p[0]) && p.last() == id
}

/// A message is superseded if and only if it is a strict ancestor of a tip
/// of the issue.
pub proof fn lemma_superseded_is_strict_ancestor(
    g: Map<Oid, CommitView>,
    refs: Map<Seq<char>, Option<Oid>>,
    namespaces: Seq<Seq<char>>,
    issue: Oid,
    id: Oid,
)
    ensures
        is_superseded(g, refs, namespaces, issue, id) <==> is_strict_ancestor_of_tip(
            g,
            tips(refs, namespaces, issue),
            issue_ends(g, issue),
            id,
        ),
{
    let ends = issue_ends(g, issue);
    let ts = tips(refs, namespaces, issue);
    let heads = tip_parents(g, ts, ends);
    if is_superseded(g, refs, namespaces, issue, id) {
        let q = choose|q: Seq<Oid>|
            #![trigger is_walk(g, ends, false, q)]
            is_walk(g, ends, false, q) && heads.contains(q[0]) && q.last() == id;
        let t = choose|t: Oid|
            ts.contains(t) && !ends.contains(t) && #[trigger] is_parent(g, false, t, q[0]);
        let p = seq![t] + q;
        assert forall|i: int| 0 <= i < p.len() implies !ends.contains(#[trigger] p[i]) by {
            if i > 0 {
                assert(p[i] == q[i - 1]);
            }
        }
        assert forall|i: int| 0 <= i < p.len() - 1 implies is_parent(
            g,
            false,
            #[trigger] p[i],
            p[i + 1],
        ) by {
            if i > 0 {
                assert(p[i] == q[i - 1]);
                assert(p[i + 1] == q[i - 1 + 1]);
            } else {
                assert(p[1] == q[0]);
            }
        }
        assert(is_walk(g, ends, false, p) && p.len() >= 2 && ts.contains(p[0]) && p.last() == id);
    }
    if is_strict_ancestor_of_tip(g, ts, ends, id) {
        let p = choose|p: Seq<Oid>|
            #![trigger is_walk(g, ends, false, p)]
            is_walk(g, ends, false, p) && p.len() >= 2 && ts.contains(p[0]) && p.last() == id;
        let q = p.subrange(1, p.len() as int);
        assert(is_parent(g, false, p[0], p[1]));
        assert(!ends.contains(p[0]));
        assert(heads.contains(q[0]));
        assert forall|i: int| 0 <= i < q.len() implies !ends.contains(#[trigger] q[i]) by {
            assert(q[i] == p[i + 1]);
        }
        assert forall|i: int| 0 <= i < q.len() - 1 implies is_parent(
            g,
            false,
            #[trigger] q[i],
            q[i + 1],
        ) by {
            assert(q[i] == p[i + 1]);
            assert(is_parent(g, false, p[i + 1], p[i + 1 + 1]));
        }
        assert(is_walk(g, ends, false, q) && heads.contains(q[0]) && q.last() == id);
    }
}

/// The parent of a tip is superseded, unless it or the tip is an end: the
/// leaf of a message that has a reply with a leaf is collectable.
pub proof fn lemma_parent_of_tip_superseded(
    g: Map<Oid, CommitView>,
    refs: Map<Seq<char>, Option<Oid>>,
    namespaces: Seq<Seq<char>>,
    issue: Oid,
    tip: Oid,
    parent: Oid,
)
    requires
        tips(refs, namespaces, issue).contains(tip),
        is_parent(g, false, tip, parent),
        !issue_ends(g, issue).contains(tip),
        !issue_ends(g, issue).contains(parent),
    ensures
        is_superseded(g, refs, namespaces, issue, parent),
{
    let ends = issue_ends(g, issue);
    let heads = tip_parents(g, tips(refs, namespaces, issue), ends);
    crate::traversal::lemma_reachable_head(g, heads, ends, false, parent);
}

/// The targets of a head, if there is one, and of some leaves.
fn targets_of(head: &Option<Reference>, leaves: &Vec<Reference>) -> (r: Vec<Oid>)
    ensures
        forall|t: Oid|
            r@.contains(t) <==> (head matches Some(h) && h@.target == Some(t)) || exists|i: int|
                0 <= i < leaves.len() && (#[trigger] leaves@[i])@.target == Some(t),
{
    let mut out = crate::issue::targets_of(leaves);
    let ghost before = out@;
    let top = match head {
        Some(h) => h.target(),
        None => None,
    };
    if let Some(t) = top {
        out.push(t);
        proof {
            assert(out@[before.len() as int] == t);
        }
    }
    proof {
        assert forall|o: Oid| out@.contains(o) <==> before.contains(o) || top == Some(o) by {
            if out@.contains(o) {
                let j = choose|j: int| 0 <= j < out@.len() && out@[j] == o;
                if j < before.len() {
                    assert(before[j] == o);
                }
            }
            if before.contains(o) {
                let j = choose|j: int| 0 <= j < before.len() && before[j] == o;
                assert(out@[j] == o);
            }
        }
        assert forall|t: Oid|
            out@.contains(t) <==> (head matches Some(h) && h@.target == Some(t)) || exists|i: int|
                0 <= i < leaves.len() && (#[trigger] leaves@[i])@.target == Some(t) by {
            assert(before.contains(t) <==> exists|i: int|
                0 <= i < leaves.len() && (#[trigger] leaves@[i])@.target == Some(t));
        }
    }
    out
}

impl CollectableRefs {
    /// Whether the leaves of remotes are considered.
    pub closed spec fn considers_remote_refs(self) -> bool {
        self.consider_remote_refs
    }

    /// Under what circumstances the local head is collected.
    pub closed spec fn head_condition(self) -> ReferenceCollectionSpec {
        self.collect_heads
    }

    /// Causes remote references to be considered
    ///
    /// By default, only local leaves are considered. Calling this function
    /// causes the resulting struct to also consider, and report, the leaves
    /// of remotes.
    pub fn consider_remote_refs(self, option: bool) -> (r: Self)
        ensures
            r.considers_remote_refs() == option,
            r.head_condition() == self.head_condition(),
    {
        CollectableRefs { consider_remote_refs: option, collect_heads: self.collect_heads }
    }

    /// Causes local head references to be collected under a specified
    /// condition
    ///
    /// By default, heads are never collected. Using this function a user
    /// may change this behaviour.
    pub fn collect_heads(self, condition: ReferenceCollectionSpec) -> (r: Self)
        ensures
            r.considers_remote_refs() == self.considers_remote_refs(),
            r.head_condition() == condition,
    {
        CollectableRefs { consider_remote_refs: self.consider_remote_refs, collect_heads: condition }
    }

    /// Retrieve the local head reference if it is collectable
    ///
    /// The call fails only if the store fails or something does not
    /// resolve that the judgement needs.
    pub fn head<'r, R: Store + Database + Traversible<'r>>(
        &self,
        repo: &'r R,
        issue: &Issue,
    ) -> (r: Result<Option<Reference>, Error>)
        ensures
            r matches Ok(found) ==> is_collectable_head(
                self.head_condition(),
                repo.commits(),
                repo.refs(),
                repo.remotes(),
                issue@,
                found,
            ),
            r matches Err(e) ==> is_judgement_error(
                e,
                repo.reliable(),
                names_valid(repo.remotes()),
                head_resolvable(
                    self.head_condition(),
                    repo.commits(),
                    repo.refs(),
                    repo.remotes(),
                    issue@,
                ),
            ),
            repo.reliable() && head_resolvable(
                self.head_condition(),
                repo.commits(),
                repo.refs(),
                repo.remotes(),
                issue@,
            ) ==> r is Ok,
            r is Ok ==> head_settled(
                self.head_condition(),
                repo.commits(),
                repo.refs(),
                repo.remotes(),
                issue@,
            ),
            r matches Ok(None) ==> head_resolvable(
                self.head_condition(),
                repo.commits(),
                repo.refs(),
                repo.remotes(),
                issue@,
            ),
            r matches Err(e) ==> (e.kind == Kind::CannotConstructRevwalk && repo.reliable()
                ==> is_unknown_error(
                repo.commits(),
                true,
                head_targets(repo.refs(), remote_namespaces_of(repo.remotes()), issue@).union(
                    issue_ends(repo.commits(), issue@),
                ),
                e,
            )),
    {
        let ghost g = repo.commits();
        let ghost refs = repo.refs();
        let ghost namespaces = remote_namespaces_of(repo.remotes());
        let ghost heads = head_targets(refs, namespaces, issue@);
        let ghost ends = issue_ends(g, issue@);
        let local = match issue.local_head(repo) {
            Ok(l) => l,
            Err(e) => {
                return Err(e);
            },
        };
        let local_head = match local {
            Some(h) => h,
            None => {
                return Ok(None);
            },
        };
        match self.collect_heads {
            ReferenceCollectionSpec::Never => {
                return Ok(None);
            },
            ReferenceCollectionSpec::BackedByRemoteHead => {},
        }
        let target = match local_head.target() {
            Some(t) => t,
            None => {
                return Ok(Some(local_head));
            },
        };
        let remote_heads = match issue.all_remote_heads(repo) {
            Ok(v) => v,
            Err(e) => {
                return Err(e);
            },
        };
        let builder = match issue.terminated_messages(repo) {
            Ok(b) => b,
            Err(e) => {
                proof {
                    lemma_issue_walk_error(g, repo.reliable(), issue@, e);
                    if e.kind == Kind::CannotConstructRevwalk && repo.reliable() {
                        let id = choose|id: Oid|
                            #![trigger ends.contains(id)]
                            ends.contains(id) && e.subject@ == id.hex() && (repo.reliable()
                                ==> !g.contains_key(id));
                        assert(heads.union(ends).contains(id));
                    }
                }
                return Err(e);
            },
        };
        let targets = targets_of(&None, &remote_heads);
        proof {
            assert forall|t: Oid| targets@.to_set().contains(t) <==> heads.contains(t) by {
                if targets@.contains(t) {
                    let i = choose|i: int|
                        0 <= i < remote_heads.len() && (#[trigger] remote_heads@[i])@.target
                            == Some(t);
                    let x = remote_heads@[i]@;
                    assert(lists(remote_heads@, x));
                }
                if heads.contains(t) {
                    let path = choose|path: Seq<char>|
                        refs.contains_key(path) && refs[path] == Some(t) && #[trigger] is_head_among(
                            path,
                            namespaces,
                            issue@,
                        );
                    let x = ReferenceView { name: path, target: Some(t) };
                    assert(lists(remote_heads@, x));
                }
            }
            if !(all_known(g, targets@)) {
                let i = choose|i: int| 0 <= i < targets.len() && !g.contains_key(targets@[i]);
                assert(heads.contains(targets@[i]));
            }
        }
        let builder = match builder.with_heads(&targets) {
            Ok(b) => b,
            Err(e) => {
                proof {
                    let i = choose|i: int|
                        0 <= i < targets@.len() && e.subject@ == (#[trigger] targets@[i]).hex() && (
                        repo.reliable() ==> !g.contains_key(targets@[i]));
                    assert(targets@.to_set().contains(targets@[i]));
                    assert(heads.union(ends).contains(targets@[i]));
                }
                return Err(e);
            },
        };
        let walk = match builder.build() {
            Ok(w) => w,
            Err(e) => {
                return Err(e);
            },
        };
        proof {
            let plan = walk.plan();
            assert(plan.heads =~= heads);
            assert(plan.ends =~= ends);
            assert forall|t: Oid| heads.contains(t) implies g.contains_key(t) by {
                assert(targets@.to_set().contains(t));
                let i = choose|i: int| 0 <= i < targets@.len() && targets@[i] == t;
                assert(g.contains_key(targets@[i]));
            }
        }
        match finds(walk, target) {
            Ok(true) => Ok(Some(local_head)),
            Ok(false) => Ok(None),
            Err(e) => Err(e),
        }
    }

    /// The namespaces whose leaves are considered.
    fn namespaces<R: Store>(&self, repo: &R) -> (r: Result<Vec<String>, Error>)
        ensures
            r matches Ok(v) ==> texts(v@) == considered_namespaces(
                self.considers_remote_refs(),
                repo.remotes(),
            ) && (self.considers_remote_refs() ==> names_valid(repo.remotes())),
            r matches Err(e) ==> is_store_error(e, repo.reliable(), names_valid(repo.remotes()))
                && self.considers_remote_refs(),
    {
        let mut out: Vec<String> = Vec::new();
        out.push(String::from_str("refs/dit"));
        if self.consider_remote_refs {
            let mut remote = match Issue::remote_namespaces(repo) {
                Ok(v) => v,
                Err(e) => {
                    return Err(e);
                },
            };
            out.append(&mut remote);
        }
        Ok(out)
    }

    /// Retrieve all collectable leaves for an issue
    ///
    /// The result lists exactly the leaves of the issue that are
    /// collectable, in no particular order. The call fails only if the store
    /// fails or something does not resolve that the judgement needs.
    pub fn leaves<'r, R: Store + Database + Traversible<'r>>(
        &self,
        repo: &'r R,
        issue: &Issue,
    ) -> (r: Result<Vec<Reference>, Error>)
        ensures
            r matches Ok(v) ==> is_selection(
                repo.refs(),
                |path: Seq<char>|
                    leaf_collectable(
                        repo.commits(),
                        repo.refs(),
                        considered_namespaces(self.considers_remote_refs(), repo.remotes()),
                        issue@,
                        path,
                    ),
                v@,
            ),
            r is Ok ==> leaves_resolvable(
                repo.commits(),
                repo.refs(),
                considered_namespaces(self.considers_remote_refs(), repo.remotes()),
                issue@,
            ) && (self.considers_remote_refs() ==> names_valid(repo.remotes())),
            r matches Err(e) ==> is_judgement_error(
                e,
                repo.reliable(),
                self.considers_remote_refs() ==> names_valid(repo.remotes()),
                leaves_resolvable(
                    repo.commits(),
                    repo.refs(),
                    considered_namespaces(self.considers_remote_refs(), repo.remotes()),
                    issue@,
                ),
            ),
            repo.reliable() && leaves_resolvable(
                repo.commits(),
                repo.refs(),
                considered_namespaces(self.considers_remote_refs(), repo.remotes()),
                issue@,
            ) && (self.considers_remote_refs() ==> names_valid(repo.remotes())) ==> r is Ok,
    {
        let ghost g = repo.commits();
        let ghost refs = repo.refs();
        let ghost names = considered_namespaces(self.considers_remote_refs(), repo.remotes());
        let ghost ends = issue_ends(g, issue@);
        let ghost ts = tips(refs, names, issue@);
        let ghost base = issue_plan(g, repo.reliable(), issue@);
        let namespaces = match self.namespaces(repo) {
            Ok(v) => v,
            Err(e) => {
                return Err(e);
            },
        };
        let candidates = match issue.leaves_across(repo, &namespaces) {
            Ok(v) => v,
            Err(e) => {
                return Err(e);
            },
        };
        let head = match issue.local_head(repo) {
            Ok(h) => h,
            Err(e) => {
                return Err(e);
            },
        };
        let tip_list = targets_of(&head, &candidates);
        let ghost given = |path: Seq<char>| is_leaf_among(path, texts(namespaces@), issue@);
        proof {
            assert forall|t: Oid| tip_list@.contains(t) <==> ts.contains(t) by {
                if ts.contains(t) {
                    let path = choose|path: Seq<char>|
                        #![trigger refs[path]]
                        refs.contains_key(path) && refs[path] == Some(t) && (is_leaf_among(
                            path,
                            names,
                            issue@,
                        ) || path == head_path(local_prefix(), issue@));
                    if is_leaf_among(path, names, issue@) {
                        assert(given(path));
                    }
                }
            }
        }
        let initial = match issue.initial_message(repo) {
            Ok(c) => c,
            Err(e) => {
                return Err(e);
            },
        };
        let end_list = initial.parent_ids();
        let mut builder = match issue.terminated_messages(repo) {
            Ok(b) => b,
            Err(e) => {
                return Err(e);
            },
        };
        let ghost mut heads: Set<Oid> = Set::empty();
        let mut k: usize = 0;
        while k < tip_list.len()
            invariant
                k <= tip_list.len(),
                g == repo.commits(),
                refs == repo.refs(),
                names == considered_namespaces(self.considers_remote_refs(), repo.remotes()),
                ts == tips(refs, names, issue@),
                ends == issue_ends(g, issue@),
                end_list@.to_set() == ends,
                base == issue_plan(g, repo.reliable(), issue@),
                builder.wf(),
                builder.plan() == (Plan { heads, ..base }),
                forall|p: Oid|
                    heads.contains(p) <==> exists|i: int|
                        0 <= i < k && !ends.contains(tip_list@[i]) && #[trigger] is_parent(
                            g,
                            false,
                            tip_list@[i],
                            p,
                        ),
                forall|i: int|
                    0 <= i < k && !ends.contains(#[trigger] tip_list@[i]) ==> g.contains_key(
                        tip_list@[i],
                    ) && all_known(g, g[tip_list@[i]].parents),
                forall|t: Oid| tip_list@.contains(t) <==> ts.contains(t),
            decreases tip_list.len() - k,
        {
            let t = tip_list[k];
            let ghost before = heads;
            if !contains_id(end_list, &t) {
                assert(ts.contains(t) && !ends.contains(t));
                let commit = match repo.find_commit(t) {
                    Ok(c) => c,
                    Err(e) => {
                        return Err(e);
                    },
                };
                builder = match builder.with_heads(commit.parent_ids()) {
                    Ok(b) => b,
                    Err(e) => {
                        return Err(e);
                    },
                };
                proof {
                    heads = before.union(commit.parents@.to_set());
                }
            }
            proof {
                assert forall|p: Oid|
                    heads.contains(p) <==> exists|i: int|
                        0 <= i < k + 1 && !ends.contains(tip_list@[i]) && #[trigger] is_parent(
                            g,
                            false,
                            tip_list@[i],
                            p,
                        ) by {
                    if heads.contains(p) {
                        if !(before.contains(p)) {
                            assert(is_parent(g, false, tip_list@[k as int], p));
                        }
                    }
                    if exists|i: int|
                        0 <= i < k + 1 && !ends.contains(tip_list@[i]) && #[trigger] is_parent(
                            g,
                            false,
                            tip_list@[i],
                            p,
                        ) {
                    }
                }
            }
            k += 1;
        }
        proof {
            assert(heads =~= tip_parents(g, ts, ends));
        }
        let walk = match builder.build() {
            Ok(w) => w,
            Err(e) => {
                return Err(e);
            },
        };
        let ghost plan = walk.plan();
        proof {
            assert(plan.ends =~= ends);
        }
        let visited = match collect(walk) {
            Ok(v) => v,
            Err(e) => {
                return Err(e);
            },
        };
        proof {
            assert forall|id: Oid|
                visited@.contains(id) <==> reachable(
                    g,
                    tip_parents(g, ts, ends),
                    ends,
                    false,
                    id,
                ) by {
                assert(plan.reaches(id) == reachable(g, tip_parents(g, ts, ends), ends, false, id));
            }
        }
        let mut marks: Vec<bool> = Vec::new();
        let mut i: usize = 0;
        let ghost wanted = |path: Seq<char>| leaf_collectable(g, refs, names, issue@, path);
        let ghost listed = |path: Seq<char>| is_leaf_among(path, names, issue@);
        proof {
            lemma_selection_same(refs, given, listed, candidates@);
        }
        while i < candidates.len()
            invariant
                i <= candidates.len(),
                marks.len() == i,
                is_selection(refs, listed, candidates@),
                wanted == |path: Seq<char>| leaf_collectable(g, refs, names, issue@, path),
                listed == |path: Seq<char>| is_leaf_among(path, names, issue@),
                ts == tips(refs, names, issue@),
                ends == issue_ends(g, issue@),
                forall|id: Oid|
                    visited@.contains(id) <==> reachable(
                        g,
                        tip_parents(g, ts, ends),
                        ends,
                        false,
                        id,
                    ),
                forall|k: int| 0 <= k < i ==> (marks@[k] <==> wanted((#[trigger] candidates@[k])@.name)),
            decreases candidates.len() - i,
        {
            let m = match candidates[i].target() {
                None => true,
                Some(t) => contains_id(&visited, &t),
            };
            marks.push(m);
            i += 1;
        }
        let out = keep_marked(&candidates, &marks);
        proof {
            lemma_pick_selection(refs, listed, wanted, candidates@, marks@, out@);
        }
        Ok(out)
    }

    /// Find collectable references for an issue
    ///
    /// The result lists exactly the collectable references of the issue,
    /// according to the configuration: the local head first, if it is
    /// collectable, then the collectable leaves.
    pub fn for_issue<'r, R: Store + Database + Traversible<'r>>(
        &self,
        repo: &'r R,
        issue: &Issue,
    ) -> (r: Result<Vec<Reference>, Error>)
        ensures
            r matches Ok(v) ==> is_selection(
                repo.refs(),
                |path: Seq<char>|
                    is_collectable(
                        self.head_condition(),
                        self.considers_remote_refs(),
                        repo.commits(),
                        repo.refs(),
                        repo.remotes(),
                        issue@,
                        path,
                    ),
                v@,
            ),
            r matches Ok(v) ==> (head_collectable(
                self.head_condition(),
                repo.commits(),
                repo.refs(),
                repo.remotes(),
                issue@,
            ) ==> v@.len() > 0 && v@[0]@.name == head_path(local_prefix(), issue@)),
            r is Ok ==> head_settled(
                self.head_condition(),
                repo.commits(),
                repo.refs(),
                repo.remotes(),
                issue@,
            ) && leaves_resolvable(
                repo.commits(),
                repo.refs(),
                considered_namespaces(self.considers_remote_refs(), repo.remotes()),
                issue@,
            ) && (self.considers_remote_refs() ==> names_valid(repo.remotes())),
            r matches Err(e) ==> is_judgement_error(
                e,
                repo.reliable(),
                names_valid(repo.remotes()),
                head_resolvable(
                    self.head_condition(),
                    repo.commits(),
                    repo.refs(),
                    repo.remotes(),
                    issue@,
                ) && leaves_resolvable(
                    repo.commits(),
                    repo.refs(),
                    considered_namespaces(self.considers_remote_refs(), repo.remotes()),
                    issue@,
                ),
            ),
            repo.reliable() && head_resolvable(
                self.head_condition(),
                repo.commits(),
                repo.refs(),
                repo.remotes(),
                issue@,
            ) && leaves_resolvable(
                repo.commits(),
                repo.refs(),
                considered_namespaces(self.considers_remote_refs(), repo.remotes()),
                issue@,
            ) && (self.considers_remote_refs() ==> names_valid(repo.remotes())) ==> r is Ok,
    {
        let ghost g = repo.commits();
        let ghost refs = repo.refs();
        let ghost names = considered_namespaces(self.considers_remote_refs(), repo.remotes());
        let ghost path = head_path(local_prefix(), issue@);
        let ghost backed = head_collectable(
            self.head_condition(),
            g,
            refs,
            repo.remotes(),
            issue@,
        );
        let found = match self.head(repo, issue) {
            Ok(h) => h,
            Err(e) => {
                return Err(e);
            },
        };
        let mut more = match self.leaves(repo, issue) {
            Ok(v) => v,
            Err(e) => {
                return Err(e);
            },
        };
        let mut out: Vec<Reference> = Vec::new();
        if let Some(h) = found {
            out.push(h);
        }
        let ghost first = out@;
        let ghost second = more@;
        out.append(&mut more);
        proof {
            let is_head = |p: Seq<char>| p == path && backed;
            let is_leaf = |p: Seq<char>| leaf_collectable(g, refs, names, issue@, p);
            let either = |p: Seq<char>|
                is_collectable(
                    self.head_condition(),
                    self.considers_remote_refs(),
                    g,
                    refs,
                    repo.remotes(),
                    issue@,
                    p,
                );
            assert(is_selection(refs, is_head, first)) by {
                if backed {
                    assert(first[0]@ == (ReferenceView { name: path, target: refs[path] }));
                }
            }
            assert forall|p: Seq<char>| !(#[trigger] is_head(p) && #[trigger] is_leaf(p)) by {
                if is_head(p) && is_leaf(p) {
                    let k = choose|k: int|
                        0 <= k < names.len() && crate::issue::is_leaf_of(
                            p,
                            #[trigger] names[k],
                            issue@,
                        );
                    lemma_head_unique(local_prefix(), issue@, names[k], issue@);
                }
            }
            lemma_selection_union(refs, is_head, is_leaf, either, first, second);
        }
        Ok(out)
    }
}

} // verus!
