//! Commit/Message traversal
//!
//! A traversal walks the commit graph backwards, from a set of heads towards
//! their ancestors, and stops at a set of ends: an end is not visited and its
//! parents are not followed. Every id is visited at most once.

use vstd::prelude::*;
use crate::base::{Base, Oid};
use crate::error::{Error, Kind};
use crate::object::commit::CommitView;

verus! {

/// The commit graph: the known messages, by id.
pub type Graph = Map<Oid, CommitView>;

/// The parents that a traversal follows from a message: all of them, or the
/// first only.
pub open spec fn edges(c: CommitView, first_parent_only: bool) -> Seq<Oid> {
    if first_parent_only && c.parents.len() > 1 {
        c.parents.take(1)
    } else {
        c.parents
    }
}

/// Whether a traversal steps from `child` to `parent`.
pub open spec fn is_parent(g: Graph, first_parent_only: bool, child: Oid, parent: Oid) -> bool {
    g.contains_key(child) && edges(g[child], first_parent_only).contains(parent)
}

/// Whether `p` is a path that a traversal may take: it steps from child to
/// parent and holds no end.
pub open spec fn is_walk(g: Graph, ends: Set<Oid>, first_parent_only: bool, p: Seq<Oid>) -> bool {
    &&& p.len() > 0
    &&& forall|i: int| 0 <= i < p.len() ==> !ends.contains(#[trigger] p[i])
    &&& forall|i: int|
        0 <= i < p.len() - 1 ==> is_parent(g, first_parent_only, #[trigger] p[i], p[i + 1])
}

/// Whether `id` is reachable from some head without passing through an end.
pub open spec fn reachable(
    g: Graph,
    heads: Set<Oid>,
    ends: Set<Oid>,
    first_parent_only: bool,
    id: Oid,
) -> bool {
    exists|p: Seq<Oid>|
        #![trigger is_walk(g, ends, first_parent_only, p)]
        is_walk(g, ends, first_parent_only, p) && heads.contains(p[0]) && p.last() == id
}

/// Whether every id that is reachable is a known message.
pub open spec fn is_closed(g: Graph, heads: Set<Oid>, ends: Set<Oid>, first_parent_only: bool) -> bool {
    forall|id: Oid| #[trigger] reachable(g, heads, ends, first_parent_only, id) ==> g.contains_key(id)
}

/// A head that is no end is reachable.
pub proof fn lemma_reachable_head(
    g: Graph,
    heads: Set<Oid>,
    ends: Set<Oid>,
    first_parent_only: bool,
    head: Oid,
)
    requires
        heads.contains(head),
        !ends.contains(head),
    ensures
        reachable(g, heads, ends, first_parent_only, head),
{
    let p = seq![head];
    assert(is_walk(g, ends, first_parent_only, p));
}

/// A parent of a reachable id is reachable, unless it is an end.
pub proof fn lemma_reachable_step(
    g: Graph,
    heads: Set<Oid>,
    ends: Set<Oid>,
    first_parent_only: bool,
    child: Oid,
    parent: Oid,
)
    requires
        reachable(g, heads, ends, first_parent_only, child),
        is_parent(g, first_parent_only, child, parent),
        !ends.contains(parent),
    ensures
        reachable(g, heads, ends, first_parent_only, parent),
{
    let p = choose|p: Seq<Oid>|
        #![trigger is_walk(g, ends, first_parent_only, p)]
        is_walk(g, ends, first_parent_only, p) && heads.contains(p[0]) && p.last() == child;
    let q = p.push(parent);
    assert(is_walk(g, ends, first_parent_only, q));
}

/// What is reachable is no end.
pub proof fn lemma_reachable_is_no_end(
    g: Graph,
    heads: Set<Oid>,
    ends: Set<Oid>,
    first_parent_only: bool,
    id: Oid,
)
    requires
        reachable(g, heads, ends, first_parent_only, id),
    ensures
        !ends.contains(id),
{
}

/// What is reachable from a set of heads is reachable from one of them, and
/// the other way round.
pub proof fn lemma_reachable_from_one_head(
    g: Graph,
    heads: Set<Oid>,
    ends: Set<Oid>,
    first_parent_only: bool,
    id: Oid,
)
    ensures
        reachable(g, heads, ends, first_parent_only, id) <==> exists|head: Oid|
            heads.contains(head) && #[trigger] reachable(
                g,
                only(head),
                ends,
                first_parent_only,
                id,
            ),
{
    if reachable(g, heads, ends, first_parent_only, id) {
        let p = choose|p: Seq<Oid>|
            #![trigger is_walk(g, ends, first_parent_only, p)]
            is_walk(g, ends, first_parent_only, p) && heads.contains(p[0]) && p.last() == id;
        assert(reachable(g, only(p[0]), ends, first_parent_only, id));
    }
    if exists|head: Oid|
        heads.contains(head) && #[trigger] reachable(g, only(head), ends, first_parent_only, id) {
        let head = choose|head: Oid|
            heads.contains(head) && #[trigger] reachable(
                g,
                only(head),
                ends,
                first_parent_only,
                id,
            );
        lemma_reachable_more_heads(g, only(head), heads, ends, first_parent_only, id);
    }
}

/// Whether `s` holds the heads that are no ends, and with each of its ids
/// the parents that are no ends.
pub open spec fn is_saturated(
    g: Graph,
    heads: Set<Oid>,
    ends: Set<Oid>,
    first_parent_only: bool,
    s: Set<Oid>,
) -> bool {
    &&& forall|h: Oid| heads.contains(h) && !ends.contains(h) ==> s.contains(h)
    &&& forall|a: Oid, b: Oid|
        s.contains(a) && #[trigger] is_parent(g, first_parent_only, a, b) && !ends.contains(b)
            ==> s.contains(b)
}

/// Every id on a path from a head lies in a saturated set.
proof fn lemma_walk_in_saturated(
    g: Graph,
    heads: Set<Oid>,
    ends: Set<Oid>,
    first_parent_only: bool,
    s: Set<Oid>,
    p: Seq<Oid>,
    k: int,
)
    requires
        is_saturated(g, heads, ends, first_parent_only, s),
        is_walk(g, ends, first_parent_only, p),
        heads.contains(p[0]),
        0 <= k < p.len(),
    ensures
        s.contains(p[k]),
    decreases k,
{
    if k > 0 {
        lemma_walk_in_saturated(g, heads, ends, first_parent_only, s, p, k - 1);
    }
}

/// A saturated set holds every reachable id.
pub proof fn lemma_reachable_in_saturated(
    g: Graph,
    heads: Set<Oid>,
    ends: Set<Oid>,
    first_parent_only: bool,
    s: Set<Oid>,
    id: Oid,
)
    requires
        is_saturated(g, heads, ends, first_parent_only, s),
        reachable(g, heads, ends, first_parent_only, id),
    ensures
        s.contains(id),
{
    let p = choose|p: Seq<Oid>|
        #![trigger is_walk(g, ends, first_parent_only, p)]
        is_walk(g, ends, first_parent_only, p) && heads.contains(p[0]) && p.last() == id;
    lemma_walk_in_saturated(g, heads, ends, first_parent_only, s, p, p.len() - 1);
}

/// What is reachable from some heads stays reachable from more heads.
pub proof fn lemma_reachable_more_heads(
    g: Graph,
    heads: Set<Oid>,
    more: Set<Oid>,
    ends: Set<Oid>,
    first_parent_only: bool,
    id: Oid,
)
    requires
        heads.subset_of(more),
        reachable(g, heads, ends, first_parent_only, id),
    ensures
        reachable(g, more, ends, first_parent_only, id),
{
}

/// What a traversal walks: the graph, its boundaries and its mode.
#[verifier::ext_equal]
pub struct Plan {
    /// The graph that is walked.
    pub graph: Graph,
    /// The ids from which the walk starts.
    pub heads: Set<Oid>,
    /// The ids at which the walk stops.
    pub ends: Set<Oid>,
    /// Whether only first parents are followed.
    pub first_parent_only: bool,
    /// Whether lookups fail only for ids that are not in the graph.
    pub reliable: bool,
}

impl Plan {
    /// Whether the walk reaches `id`: it is reachable from a head without
    /// passing through an end.
    pub open spec fn reaches(self, id: Oid) -> bool {
        reachable(self.graph, self.heads, self.ends, self.first_parent_only, id)
    }

    /// Whether every id that the walk reaches is a known message.
    pub open spec fn closed(self) -> bool {
        is_closed(self.graph, self.heads, self.ends, self.first_parent_only)
    }

    /// The plan with more heads.
    pub open spec fn add_heads(self, heads: Set<Oid>) -> Plan {
        Plan { heads: self.heads.union(heads), ..self }
    }

    /// The plan with more ends.
    pub open spec fn add_ends(self, ends: Set<Oid>) -> Plan {
        Plan { ends: self.ends.union(ends), ..self }
    }

    /// The plan that follows first parents only.
    pub open spec fn first_parents(self) -> Plan {
        Plan { first_parent_only: true, ..self }
    }

    /// The plan of a walk of `graph` without heads and ends.
    pub open spec fn empty(graph: Graph, reliable: bool) -> Plan {
        Plan {
            graph,
            heads: Set::empty(),
            ends: Set::empty(),
            first_parent_only: false,
            reliable,
        }
    }
}

/// Whether every id of a list is a known message.
pub open spec fn all_known(g: Graph, ids: Seq<Oid>) -> bool {
    forall|i: int| 0 <= i < ids.len() ==> g.contains_key(#[trigger] ids[i])
}

/// The set that holds one id.
pub open spec fn only(id: Oid) -> Set<Oid> {
    Set::empty().insert(id)
}

/// Whether `e` is the error of a walk that came to a message that cannot be
/// retrieved: it names the message, which the walk reaches. Where lookups
/// are reliable, the message is not known.
pub open spec fn is_walk_error(plan: Plan, e: Error) -> bool {
    &&& e.kind == Kind::CannotGetCommit
    &&& exists|id: Oid|
        #![trigger plan.reaches(id)]
        plan.reaches(id) && e.subject@ == id.hex() && (plan.reliable ==> !plan.graph.contains_key(
            id,
        ))
}

/// Whether `e` is the error of a builder for one of the ids `ids` that
/// cannot be resolved: it names the id. Where lookups are reliable, the id
/// is not known.
pub open spec fn is_unknown_error(g: Graph, reliable: bool, ids: Set<Oid>, e: Error) -> bool {
    &&& e.kind == Kind::CannotConstructRevwalk
    &&& exists|id: Oid|
        #![trigger ids.contains(id)]
        ids.contains(id) && e.subject@ == id.hex() && (reliable ==> !g.contains_key(id))
}

/// Whether `e` is the error of a builder for a boundary that cannot be
/// resolved: it names one of the ids. Where lookups are reliable, that id
/// is not known.
pub open spec fn is_boundary_error(plan: Plan, ids: Seq<Oid>, e: Error) -> bool {
    &&& e.kind == Kind::CannotConstructRevwalk
    &&& exists|i: int|
        0 <= i < ids.len() && e.subject@ == (#[trigger] ids[i]).hex() && (plan.reliable
            ==> !plan.graph.contains_key(ids[i]))
}

/// A reliable walk fails only if it reaches a message that is not known.
pub proof fn lemma_walk_error(plan: Plan, e: Error)
    requires
        is_walk_error(plan, e),
        plan.reliable,
    ensures
        !plan.closed(),
{
}

/// The ids with which a walk starts: the heads that are no ends.
pub open spec fn start(plan: Plan) -> Set<Oid> {
    Set::new(|h: Oid| plan.heads.contains(h) && !plan.ends.contains(h))
}

/// The ids that are pending after `id` was yielded: those that were, but
/// for `id`, and the parents of `id` that are followed, are no ends and
/// were not yielded.
pub open spec fn step(plan: Plan, visited: Seq<Oid>, pending: Set<Oid>, id: Oid) -> Set<Oid> {
    Set::new(
        |b: Oid|
            b != id && (pending.contains(b) || (is_parent(
                plan.graph,
                plan.first_parent_only,
                id,
                b,
            ) && !plan.ends.contains(b) && !visited.contains(b))),
    )
}

/// A bounded backward walk of the commit graph that has been built: it
/// yields ids one by one.
pub trait Traversal: Sized {
    /// What is walked.
    spec fn plan(&self) -> Plan;

    /// The ids yielded so far, in the order in which they were yielded.
    spec fn visited(&self) -> Seq<Oid>;

    /// The ids that are reached and not yet yielded.
    spec fn pending(&self) -> Set<Oid>;

    /// Whether the walk has ended with an error.
    spec fn failed(&self) -> bool;

    /// A bound on the number of ids that can still be yielded.
    spec fn remaining(&self) -> nat;

    /// Validity of the walk's state.
    spec fn wf(&self) -> bool;

    /// Yield the next id.
    ///
    /// Each id that is yielded was pending, is reachable and was not yielded
    /// before; its parents become pending. The walk ends with `None` once
    /// nothing is pending: every reachable id has been yielded then. It ends
    /// with an error when a message cannot be retrieved, and must not be
    /// asked again after that.
    fn next(&mut self) -> (r: Option<Result<Oid, Error>>)
        requires
            old(self).wf(),
            !old(self).failed(),
        ensures
            final(self).wf(),
            final(self).plan() == old(self).plan(),
            r is None <==> old(self).pending() == Set::<Oid>::empty(),
            match r {
                Some(Ok(id)) => {
                    &&& old(self).pending().contains(id)
                    &&& final(self).pending() == step(
                        old(self).plan(),
                        old(self).visited(),
                        old(self).pending(),
                        id,
                    )
                    &&& old(self).plan().reaches(id)
                    &&& old(self).plan().graph.contains_key(id)
                    &&& !old(self).visited().contains(id)
                    &&& final(self).visited() == old(self).visited().push(id)
                    &&& !final(self).failed()
                    &&& final(self).remaining() < old(self).remaining()
                },
                Some(Err(e)) => {
                    &&& final(self).visited() == old(self).visited()
                    &&& final(self).pending() == old(self).pending()
                    &&& final(self).failed()
                    &&& is_walk_error(old(self).plan(), e)
                },
                None => {
                    &&& final(self).visited() == old(self).visited()
                    &&& final(self).pending() == old(self).pending()
                    &&& !final(self).failed()
                    &&& forall|id: Oid| #[trigger]
                        old(self).plan().reaches(id) ==> old(self).visited().contains(id)
                },
            },
    ;
}

/// Builder for a commit/message traversing walk
///
/// Heads and ends are added one by one or several at a time. Once the walk
/// is built no more can be added.
pub trait TraversalBuilder: Sized {
    /// The walk built by this builder
    type Iter: Traversal;

    /// What will be walked.
    spec fn plan(&self) -> Plan;

    /// Validity of the builder's state.
    spec fn wf(&self) -> bool;

    /// Add one head to the resulting walk
    ///
    /// The walk will yield this id and all its ancestors until an end.
    fn with_head(self, head: Oid) -> (r: Result<Self, Error>)
        requires
            self.wf(),
        ensures
            r matches Ok(b) ==> b.wf() && b.plan() == self.plan().add_heads(only(head))
                && self.plan().graph.contains_key(head),
            r matches Err(e) ==> e.kind == Kind::CannotConstructRevwalk && e.subject@ == head.hex()
                && (self.plan().reliable ==> !self.plan().graph.contains_key(head)),
            self.plan().reliable && self.plan().graph.contains_key(head) ==> r is Ok,
    {
        let mut heads: Vec<Oid> = Vec::new();
        heads.push(head);
        proof {
            lemma_single(heads@, head);
        }
        self.with_heads(&heads)
    }

    /// Add heads to the resulting walk
    ///
    /// The walk will yield these ids and all their ancestors until an end.
    /// Every head has to be a known message.
    fn with_heads(self, heads: &Vec<Oid>) -> (r: Result<Self, Error>)
        requires
            self.wf(),
        ensures
            r matches Ok(b) ==> b.wf() && b.plan() == self.plan().add_heads(heads@.to_set())
                && all_known(self.plan().graph, heads@),
            r matches Err(e) ==> is_boundary_error(self.plan(), heads@, e),
            self.plan().reliable && all_known(self.plan().graph, heads@) ==> r is Ok,
    ;

    /// Add one end to the resulting walk
    ///
    /// The walk will never yield this id and will not follow its parents.
    fn with_end(self, end: Oid) -> (r: Result<Self, Error>)
        requires
            self.wf(),
        ensures
            r matches Ok(b) ==> b.wf() && b.plan() == self.plan().add_ends(only(end))
                && self.plan().graph.contains_key(end),
            r matches Err(e) ==> e.kind == Kind::CannotConstructRevwalk && e.subject@ == end.hex()
                && (self.plan().reliable ==> !self.plan().graph.contains_key(end)),
            self.plan().reliable && self.plan().graph.contains_key(end) ==> r is Ok,
    {
        let mut ends: Vec<Oid> = Vec::new();
        ends.push(end);
        proof {
            lemma_single(ends@, end);
        }
        self.with_ends(&ends)
    }

    /// Add ends to the resulting walk
    ///
    /// The walk will never yield these ids and will not follow their
    /// parents. Every end has to be a known message.
    fn with_ends(self, ends: &Vec<Oid>) -> (r: Result<Self, Error>)
        requires
            self.wf(),
        ensures
            r matches Ok(b) ==> b.wf() && b.plan() == self.plan().add_ends(ends@.to_set())
                && all_known(self.plan().graph, ends@),
            r matches Err(e) ==> is_boundary_error(self.plan(), ends@, e),
            self.plan().reliable && all_known(self.plan().graph, ends@) ==> r is Ok,
    ;

    /// Make the resulting walk follow first parents only
    fn first_parent_only(self) -> (r: Self)
        requires
            self.wf(),
        ensures
            r.wf(),
            r.plan() == self.plan().first_parents(),
    ;

    /// Build the walk
    fn build(self) -> (r: Result<Self::Iter, Error>)
        requires
            self.wf(),
        ensures
            r matches Ok(w) ==> {
                &&& w.wf()
                &&& w.plan() == self.plan()
                &&& w.visited() == Seq::<Oid>::empty()
                &&& w.pending() == start(self.plan())
                &&& !w.failed()
            },
            r matches Err(e) ==> e.kind == Kind::CannotConstructRevwalk && !self.plan().reliable,
    ;
}

/// A list of one id holds that id and no other.
pub proof fn lemma_single(ids: Seq<Oid>, id: Oid)
    requires
        ids.len() == 1,
        ids[0] == id,
    ensures
        ids.to_set() == only(id),
        forall|g: Graph| all_known(g, ids) <==> g.contains_key(id),
{
}

/// Entity containing commit graph information
///
/// A [Traversible] allows constructing a walk of its commit graph via a
/// [TraversalBuilder].
pub trait Traversible<'t>: Base {
    /// [TraversalBuilder] type for this repository
    type TraversalBuilder: TraversalBuilder;

    /// Create a [TraversalBuilder]
    ///
    /// The builder starts without heads and ends, and follows all parents.
    fn traversal_builder(&'t self) -> (r: Result<Self::TraversalBuilder, Error>)
        ensures
            r matches Ok(b) ==> b.wf() && b.plan() == Plan::empty(self.commits(), self.reliable()),
            r matches Err(e) ==> e.kind == Kind::CannotConstructRevwalk && !self.reliable(),
    ;

    /// Get a walk yielding commits, following the chain of first parents
    ///
    /// The walk starts at `id` and follows first parents only.
    fn first_parent_messages(&'t self, id: Oid) -> (r: Result<
        <Self::TraversalBuilder as TraversalBuilder>::Iter,
        Error,
    >)
        ensures
            r matches Ok(w) ==> {
                &&& w.wf()
                &&& w.plan() == Plan::empty(self.commits(), self.reliable()).first_parents().add_heads(
                    only(id),
                )
                &&& w.visited() == Seq::<Oid>::empty()
                &&& w.pending() == start(w.plan())
                &&& !w.failed()
                &&& self.commits().contains_key(id)
            },
            r matches Err(e) ==> e.kind == Kind::CannotConstructRevwalk && (self.reliable()
                ==> e.subject@ == id.hex() && !self.commits().contains_key(id)),
            self.reliable() && self.commits().contains_key(id) ==> r is Ok,
    {
        let builder = match self.traversal_builder() {
            Ok(b) => b,
            Err(e) => {
                return Err(e);
            },
        };
        let builder = builder.first_parent_only();
        let builder = match builder.with_head(id) {
            Ok(b) => b,
            Err(e) => {
                return Err(e);
            },
        };
        builder.build()
    }
}

/// Walk to the end and collect the ids that are yielded.
///
/// The walk succeeds if and only if no lookup fails. It then yields every
/// reachable id once.
pub fn collect<T: Traversal>(walk: T) -> (r: Result<Vec<Oid>, Error>)
    requires
        walk.wf(),
        !walk.failed(),
        walk.visited() == Seq::<Oid>::empty(),
    ensures
        r matches Ok(v) ==> v@.no_duplicates() && walk.plan().closed() && forall|id: Oid|
            v@.contains(id) <==> #[trigger] walk.plan().reaches(id),
        r matches Err(e) ==> is_walk_error(walk.plan(), e),
{
    let ghost plan = walk.plan();
    let mut w = walk;
    let mut out: Vec<Oid> = Vec::new();
    loop
        invariant
            w.wf(),
            !w.failed(),
            w.plan() == plan,
            walk.plan() == plan,
            w.visited() == out@,
            out@.no_duplicates(),
            forall|i: int| 0 <= i < out.len() ==> plan.reaches(#[trigger] out@[i]),
            forall|i: int| 0 <= i < out.len() ==> plan.graph.contains_key(#[trigger] out@[i]),
        decreases w.remaining(),
    {
        match w.next() {
            None => {
                proof {
                    assert forall|id: Oid| #[trigger]
                        reachable(
                            plan.graph,
                            plan.heads,
                            plan.ends,
                            plan.first_parent_only,
                            id,
                        ) implies plan.graph.contains_key(id) by {
                        assert(plan.reaches(id));
                    }
                }
                return Ok(out);
            },
            Some(Ok(id)) => {
                out.push(id);
            },
            Some(Err(e)) => {
                return Err(e);
            },
        }
    }
}

/// Walk until `target` is yielded or the walk ends, and tell which.
///
/// The answer is whether the walk reaches `target`.
pub fn finds<T: Traversal>(walk: T, target: Oid) -> (r: Result<bool, Error>)
    requires
        walk.wf(),
        !walk.failed(),
        walk.visited() == Seq::<Oid>::empty(),
    ensures
        r matches Ok(found) ==> found == walk.plan().reaches(target),
        r matches Ok(found) ==> !found ==> walk.plan().closed(),
        r matches Err(e) ==> is_walk_error(walk.plan(), e),
{
    let ghost plan = walk.plan();
    let mut w = walk;
    loop
        invariant
            w.wf(),
            !w.failed(),
            w.plan() == plan,
            walk.plan() == plan,
            !w.visited().contains(target),
            forall|i: int| 0 <= i < w.visited().len() ==> plan.graph.contains_key(
                #[trigger] w.visited()[i],
            ),
        decreases w.remaining(),
    {
        let ghost before = w.visited();
        match w.next() {
            None => {
                proof {
                    assert forall|id: Oid| #[trigger]
                        reachable(
                            plan.graph,
                            plan.heads,
                            plan.ends,
                            plan.first_parent_only,
                            id,
                        ) implies plan.graph.contains_key(id) by {
                        assert(plan.reaches(id));
                        let i = choose|i: int| 0 <= i < before.len() && before[i] == id;
                    }
                }
                return Ok(false);
            },
            Some(Ok(id)) => {
                if id.same(&target) {
                    return Ok(true);
                }
            },
            Some(Err(e)) => {
                return Err(e);
            },
        }
    }
}

} // verus!
