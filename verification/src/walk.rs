//! A traversal engine for any object database.
//!
//! The engine keeps a frontier of ids that are reached and not yet yielded.
//! Each step yields the greatest id of the frontier and adds to the frontier
//! those of its parents that are new and no ends.

use vstd::prelude::*;
use crate::base::{contains_id, Oid};
use crate::error::{Error, Kind};
use crate::object::Database;
use crate::traversal::{
    all_known,
    edges,
    is_boundary_error,
    lemma_reachable_head,
    lemma_reachable_in_saturated,
    lemma_reachable_step,
    reachable,
    start,
    step,
    Plan,
    Traversal,
    TraversalBuilder,
};

verus! {

/// Builder of a [Walk].
pub struct WalkBuilder<'a, D: Database> {
    db: &'a D,
    heads: Vec<Oid>,
    ends: Vec<Oid>,
    first_parent_only: bool,
}

/// A walk of the commit graph of an object database.
pub struct Walk<'a, D: Database> {
    db: &'a D,
    heads: Ghost<Set<Oid>>,
    ends: Vec<Oid>,
    first_parent_only: bool,
    frontier: Vec<Oid>,
    seen: Vec<Oid>,
    failed: bool,
}

/// Whether the parents of `a` that are followed, up to the place `upto`, are
/// ends, seen or in the frontier.
pub open spec fn expanded(
    plan: Plan,
    seen: Seq<Oid>,
    frontier: Seq<Oid>,
    a: Oid,
    upto: int,
) -> bool {
    forall|i: int|
        0 <= i < upto && i < edges(plan.graph[a], plan.first_parent_only).len() ==> {
            let b = #[trigger] edges(plan.graph[a], plan.first_parent_only)[i];
            plan.ends.contains(b) || seen.contains(b) || frontier.contains(b)
        }
}

/// What holds of the ids seen and of the frontier throughout a walk, but for
/// the parents of the ids seen.
pub open spec fn is_sound(plan: Plan, seen: Seq<Oid>, frontier: Seq<Oid>) -> bool {
    &&& seen.no_duplicates()
    &&& frontier.no_duplicates()
    &&& forall|i: int, j: int|
        0 <= i < seen.len() && 0 <= j < frontier.len() ==> #[trigger] seen[i] != #[trigger] frontier[j]
    &&& forall|i: int| 0 <= i < seen.len() ==> plan.graph.contains_key(#[trigger] seen[i])
    &&& forall|i: int| 0 <= i < seen.len() ==> plan.reaches(#[trigger] seen[i])
    &&& forall|j: int| 0 <= j < frontier.len() ==> plan.reaches(#[trigger] frontier[j])
    &&& forall|h: Oid|
        plan.heads.contains(h) && !plan.ends.contains(h) ==> seen.contains(h) || frontier.contains(
            h,
        )
}

/// What holds of the ids seen and of the frontier between two steps of a
/// walk.
pub open spec fn is_settled(plan: Plan, seen: Seq<Oid>, frontier: Seq<Oid>) -> bool {
    &&& is_sound(plan, seen, frontier)
    &&& forall|i: int|
        0 <= i < seen.len() ==> expanded(
            plan,
            seen,
            frontier,
            #[trigger] seen[i],
            edges(plan.graph[seen[i]], plan.first_parent_only).len() as int,
        )
}

/// Once the frontier is empty, every reachable id has been seen.
pub proof fn lemma_exhausted(plan: Plan, seen: Seq<Oid>, id: Oid)
    requires
        is_settled(plan, seen, Seq::empty()),
        plan.reaches(id),
    ensures
        seen.contains(id),
{
    let s = seen.to_set();
    lemma_reachable_in_saturated(plan.graph, plan.heads, plan.ends, plan.first_parent_only, s, id);
}

/// A list without duplicates of elements of a finite set is no longer than
/// the set is large.
pub proof fn lemma_distinct_within(ids: Seq<Oid>, all: Set<Oid>)
    requires
        ids.no_duplicates(),
        all.finite(),
        forall|i: int| 0 <= i < ids.len() ==> all.contains(#[trigger] ids[i]),
    ensures
        ids.len() <= all.len(),
{
    ids.unique_seq_to_set();
    vstd::set_lib::lemma_len_subset(ids.to_set(), all);
}

/// Whether `id` is the greatest of the pending ids.
pub open spec fn is_greatest(pending: Set<Oid>, id: Oid) -> bool {
    pending.contains(id) && forall|o: Oid| pending.contains(o) ==> !id.precedes_spec(o)
}

/// Whether a walk starts with `id`.
pub open spec fn origin(plan: Plan, id: Oid) -> bool {
    start(plan).contains(id)
}

/// The place of the greatest id of a list.
fn greatest(ids: &Vec<Oid>) -> (k: usize)
    requires
        ids.len() > 0,
    ensures
        k < ids.len(),
        forall|j: int| 0 <= j < ids.len() ==> !ids@[k as int].precedes_spec(#[trigger] ids@[j]),
{
    let mut k: usize = 0;
    let mut i: usize = 1;
    proof {
        Oid::lemma_order_total(ids@[0], ids@[0]);
    }
    while i < ids.len()
        invariant
            1 <= i <= ids.len(),
            k < i,
            forall|j: int| 0 <= j < i ==> !ids@[k as int].precedes_spec(#[trigger] ids@[j]),
        decreases ids.len() - i,
    {
        if ids[k].precedes(&ids[i]) {
            k = i;
        }
        i += 1;
    }
    k
}

impl<'a, D: Database> WalkBuilder<'a, D> {
    /// A builder of walks of the commit graph of `db`, without heads and
    /// ends.
    pub fn new(db: &'a D) -> (r: Self)
        ensures
            r.wf(),
            r.plan() == Plan::empty(db.commits(), db.reliable()),
    {
        let r = WalkBuilder { db, heads: Vec::new(), ends: Vec::new(), first_parent_only: false };
        r
    }

    /// Check that every id of a list is a known message.
    fn check_known(&self, ids: &Vec<Oid>) -> (r: Result<(), Error>)
        ensures
            r is Ok ==> all_known(self.db.commits(), ids@),
            r matches Err(e) ==> is_boundary_error(self.plan(), ids@, e),
    {
        let mut i: usize = 0;
        while i < ids.len()
            invariant
                i <= ids.len(),
                forall|j: int| 0 <= j < i ==> self.db.commits().contains_key(#[trigger] ids@[j]),
            decreases ids.len() - i,
        {
            match self.db.find_commit(ids[i]) {
                Ok(_) => {},
                Err(e) => {
                    let e = e.wrap_with_kind(Kind::CannotConstructRevwalk);
                    return Err(e);
                },
            }
            i += 1;
        }
        Ok(())
    }
}

/// Append the ids of `more` to `ids`.
fn append_ids(ids: &mut Vec<Oid>, more: &Vec<Oid>)
    ensures
        final(ids)@ == old(ids)@ + more@,
        final(ids)@.to_set() == old(ids)@.to_set().union(more@.to_set()),
{
    let mut i: usize = 0;
    while i < more.len()
        invariant
            i <= more.len(),
            ids@ == old(ids)@ + more@.take(i as int),
        decreases more.len() - i,
    {
        ids.push(more[i]);
        assert(ids@ =~= old(ids)@ + more@.take(i + 1));
        i += 1;
    }
    proof {
        let a = old(ids)@;
        let b = more@;
        assert forall|o: Oid| (a + b).to_set().contains(o) <==> a.to_set().union(
            b.to_set(),
        ).contains(o) by {
            if (a + b).contains(o) {
                let k = choose|k: int| 0 <= k < (a + b).len() && (a + b)[k] == o;
                assert(a.contains(o) || b.contains(o)) by {
                    if k < a.len() {
                        assert(a[k] == o);
                    } else {
                        assert(b[k - a.len()] == o);
                    }
                }
            }
            if a.contains(o) {
                let k = choose|k: int| 0 <= k < a.len() && a[k] == o;
                assert((a + b)[k] == o);
            }
            if b.contains(o) {
                let k = choose|k: int| 0 <= k < b.len() && b[k] == o;
                assert((a + b)[a.len() + k] == o);
            }
        }
    }
}

impl<'a, D: Database> TraversalBuilder for WalkBuilder<'a, D> {
    type Iter = Walk<'a, D>;

    closed spec fn plan(&self) -> Plan {
        Plan {
            graph: self.db.commits(),
            heads: self.heads@.to_set(),
            ends: self.ends@.to_set(),
            first_parent_only: self.first_parent_only,
            reliable: self.db.reliable(),
        }
    }

    closed spec fn wf(&self) -> bool {
        all_known(self.db.commits(), self.heads@)
    }

    fn with_heads(self, heads: &Vec<Oid>) -> (r: Result<Self, Error>) {
        match self.check_known(heads) {
            Ok(()) => {},
            Err(e) => {
                return Err(e);
            },
        }
        let mut all = self.heads;
        append_ids(&mut all, heads);
        let b = WalkBuilder {
            db: self.db,
            heads: all,
            ends: self.ends,
            first_parent_only: self.first_parent_only,
        };
        Ok(b)
    }

    fn with_ends(self, ends: &Vec<Oid>) -> (r: Result<Self, Error>) {
        match self.check_known(ends) {
            Ok(()) => {},
            Err(e) => {
                return Err(e);
            },
        }
        let mut all = self.ends;
        append_ids(&mut all, ends);
        let b = WalkBuilder {
            db: self.db,
            heads: self.heads,
            ends: all,
            first_parent_only: self.first_parent_only,
        };
        Ok(b)
    }

    fn first_parent_only(self) -> (r: Self) {
        WalkBuilder { db: self.db, heads: self.heads, ends: self.ends, first_parent_only: true }
    }

    fn build(self) -> (r: Result<Self::Iter, Error>)
        ensures
            r is Ok,
    {
        let ghost plan = self.plan();
        let mut frontier: Vec<Oid> = Vec::new();
        let mut i: usize = 0;
        while i < self.heads.len()
            invariant
                i <= self.heads.len(),
                plan == self.plan(),
                frontier@.no_duplicates(),
                forall|j: int| 0 <= j < frontier.len() ==> plan.reaches(#[trigger] frontier@[j]),
                forall|j: int| 0 <= j < frontier.len() ==> origin(plan, #[trigger] frontier@[j]),
                forall|j: int|
                    0 <= j < i && !plan.ends.contains(self.heads@[j]) ==> frontier@.contains(
                        #[trigger] self.heads@[j],
                    ),
            decreases self.heads.len() - i,
        {
            let h = self.heads[i];
            if !contains_id(&self.ends, &h) && !contains_id(&frontier, &h) {
                let ghost before = frontier@;
                frontier.push(h);
                proof {
                    lemma_reachable_head(
                        plan.graph,
                        plan.heads,
                        plan.ends,
                        plan.first_parent_only,
                        h,
                    );
                    assert forall|j: int|
                        0 <= j < i + 1 && !plan.ends.contains(
                            self.heads@[j],
                        ) implies frontier@.contains(#[trigger] self.heads@[j]) by {
                        if j < i {
                            let k = choose|k: int|
                                0 <= k < before.len() && before[k] == self.heads@[j];
                            assert(frontier@[k] == self.heads@[j]);
                        } else {
                            assert(frontier@[before.len() as int] == h);
                        }
                    }
                }
            }
            i += 1;
        }
        let w = Walk {
            db: self.db,
            heads: Ghost(plan.heads),
            ends: self.ends,
            first_parent_only: self.first_parent_only,
            frontier,
            seen: Vec::new(),
            failed: false,
        };
        proof {
            assert(w.plan() =~= plan);
            assert forall|o: Oid| w.frontier@.to_set().contains(o) <==> start(plan).contains(
                o,
            ) by {
                if w.frontier@.contains(o) {
                    let j = choose|j: int| 0 <= j < w.frontier@.len() && w.frontier@[j] == o;
                    assert(origin(plan, w.frontier@[j]));
                }
                if start(plan).contains(o) {
                    let j = choose|j: int| 0 <= j < self.heads@.len() && self.heads@[j] == o;
                    assert(w.frontier@.contains(self.heads@[j]));
                }
            }
            assert(w.frontier@.to_set() =~= start(plan));
        }
        Ok(w)
    }
}

impl<'a, D: Database> Traversal for Walk<'a, D> {
    closed spec fn plan(&self) -> Plan {
        Plan {
            graph: self.db.commits(),
            heads: self.heads@,
            ends: self.ends@.to_set(),
            first_parent_only: self.first_parent_only,
            reliable: self.db.reliable(),
        }
    }

    closed spec fn visited(&self) -> Seq<Oid> {
        self.seen@
    }

    closed spec fn pending(&self) -> Set<Oid> {
        self.frontier@.to_set()
    }

    closed spec fn failed(&self) -> bool {
        self.failed
    }

    closed spec fn remaining(&self) -> nat {
        (self.db.commits().dom().len() - self.seen@.len()) as nat
    }

    closed spec fn wf(&self) -> bool {
        is_settled(self.plan(), self.seen@, self.frontier@)
    }

    /// Yield the greatest of the pending ids.
    fn next(&mut self) -> (r: Option<Result<Oid, Error>>)
        ensures
            r matches Some(Ok(id)) ==> is_greatest(old(self).pending(), id),
            r matches Some(Err(e)) ==> exists|id: Oid|
                #![trigger id.hex()]
                is_greatest(old(self).pending(), id) && e.subject@ == id.hex(),
    {
        let ghost plan = self.plan();
        if self.frontier.len() == 0 {
            proof {
                assert(self.frontier@.to_set() =~= Set::<Oid>::empty());
                assert forall|id: Oid| #[trigger] plan.reaches(id) implies self.seen@.contains(
                    id,
                ) by {
                    lemma_exhausted(plan, self.seen@, id);
                }
            }
            return None;
        }
        let k = greatest(&self.frontier);
        let id = self.frontier[k];
        proof {
            assert(self.frontier@.to_set().contains(self.frontier@[k as int]));
            assert forall|o: Oid| self.frontier@.to_set().contains(o) implies !id.precedes_spec(
                o,
            ) by {
                let i = choose|i: int| 0 <= i < self.frontier@.len() && self.frontier@[i] == o;
                assert(!self.frontier@[k as int].precedes_spec(self.frontier@[i]));
            }
            assert(is_greatest(self.frontier@.to_set(), id));
        }
        let commit = match self.db.find_commit(id) {
            Ok(c) => c,
            Err(e) => {
                self.failed = true;
                proof {
                    assert(e.subject@ == id.hex());
                }
                return Some(Err(e));
            },
        };
        let ghost seen0 = self.seen@;
        let ghost frontier0 = self.frontier@;
        self.frontier.remove(k);
        self.seen.push(id);
        let parents = commit.parent_ids();
        let count: usize = if self.first_parent_only && parents.len() > 1 {
            1
        } else {
            parents.len()
        };
        let ghost es = edges(plan.graph[id], plan.first_parent_only);
        proof {
            let seen1 = self.seen@;
            let frontier1 = self.frontier@;
            // the id has moved from the frontier to the ids seen
            assert forall|o: Oid| frontier0.contains(o) implies o == id || frontier1.contains(
                o,
            ) by {
                let j = choose|j: int| 0 <= j < frontier0.len() && frontier0[j] == o;
                if j < k {
                    assert(frontier1[j] == o);
                } else if j > k {
                    assert(frontier1[j - 1] == o);
                }
            }
            assert forall|o: Oid| seen0.contains(o) implies seen1.contains(o) by {
                let j = choose|j: int| 0 <= j < seen0.len() && seen0[j] == o;
                assert(seen1[j] == o);
            }
            assert(seen1[seen0.len() as int] == id);
            assert forall|o: Oid| frontier1.contains(o) implies frontier0.contains(o) && o != id by {
                let i = choose|i: int| 0 <= i < frontier1.len() && frontier1[i] == o;
                let i0 = if i < k {
                    i
                } else {
                    i + 1
                };
                assert(frontier0[i0] == o);
                assert(frontier0[k as int] == id);
            }
        }
        let mut j: usize = 0;
        while j < count
            invariant
                j <= count,
                count <= parents.len(),
                es == parents@.take(count as int),
                es == edges(plan.graph[id], plan.first_parent_only),
                plan == self.plan(),
                self.seen@ == seen0.push(id),
                !self.failed,
                is_sound(plan, self.seen@, self.frontier@),
                forall|i: int|
                    0 <= i < seen0.len() ==> expanded(
                        plan,
                        self.seen@,
                        self.frontier@,
                        #[trigger] self.seen@[i],
                        edges(plan.graph[self.seen@[i]], plan.first_parent_only).len() as int,
                    ),
                expanded(plan, self.seen@, self.frontier@, id, j as int),
                forall|o: Oid|
                    self.frontier@.contains(o) <==> (frontier0.contains(o) && o != id) || (exists|
                        i: int,
                    |
                        0 <= i < j && #[trigger] es[i] == o && !plan.ends.contains(o)
                            && !seen0.contains(o) && o != id),
            decreases count - j,
        {
            let p = parents[j];
            let ghost frontier_before = self.frontier@;
            assert(es[j as int] == p);
            if !contains_id(&self.ends, &p) && !contains_id(&self.seen, &p) && !contains_id(
                &self.frontier,
                &p,
            ) {
                self.frontier.push(p);
                proof {
                    assert(self.seen@[seen0.len() as int] == id);
                    lemma_reachable_step(
                        plan.graph,
                        plan.heads,
                        plan.ends,
                        plan.first_parent_only,
                        id,
                        p,
                    );
                    assert(self.frontier@[frontier_before.len() as int] == p);
                }
            }
            proof {
                let frontier_after = self.frontier@;
                let seen1 = self.seen@;
                assert forall|o: Oid| frontier_before.contains(o) implies frontier_after.contains(
                    o,
                ) by {
                    let i = choose|i: int| 0 <= i < frontier_before.len() && frontier_before[i] == o;
                    assert(frontier_after[i] == o);
                }
                assert(seen1[seen0.len() as int] == id);
                assert forall|o: Oid| seen1.contains(o) <==> seen0.contains(o) || o == id by {
                    if seen1.contains(o) {
                        let i = choose|i: int| 0 <= i < seen1.len() && seen1[i] == o;
                        if i < seen0.len() {
                            assert(seen0[i] == o);
                        }
                    }
                    if seen0.contains(o) {
                        let i = choose|i: int| 0 <= i < seen0.len() && seen0[i] == o;
                        assert(seen1[i] == o);
                    }
                }
                assert forall|o: Oid|
                    frontier_after.contains(o) <==> (frontier0.contains(o) && o != id) || (exists|
                        i: int,
                    |
                        0 <= i < j + 1 && #[trigger] es[i] == o && !plan.ends.contains(o)
                            && !seen0.contains(o) && o != id) by {
                    if frontier_after.contains(o) {
                        let i = choose|i: int|
                            0 <= i < frontier_after.len() && frontier_after[i] == o;
                        if i < frontier_before.len() {
                            assert(frontier_before[i] == o);
                            assert(frontier_before.contains(o));
                        } else {
                            assert(o == p);
                            assert(es[j as int] == o);
                        }
                    }
                    if exists|i: int|
                        0 <= i < j + 1 && #[trigger] es[i] == o && !plan.ends.contains(o)
                            && !seen0.contains(o) && o != id {
                        let i = choose|i: int|
                            0 <= i < j + 1 && #[trigger] es[i] == o && !plan.ends.contains(o)
                                && !seen0.contains(o) && o != id;
                        if i < j {
                            assert(frontier_before.contains(o));
                        } else {
                            assert(o == p);
                            if !(frontier_before.contains(p)) {
                                assert(frontier_after[frontier_before.len() as int] == p);
                            }
                        }
                    }
                }
            }
            j += 1;
        }
        proof {
            self.db.lemma_finite();
            lemma_distinct_within(self.seen@, plan.graph.dom());
            let pending0 = frontier0.to_set();
            assert forall|o: Oid|
                self.frontier@.to_set().contains(o) <==> step(plan, seen0, pending0, id).contains(
                    o,
                ) by {
                if es.contains(o) {
                    let i = choose|i: int| 0 <= i < es.len() && es[i] == o;
                    assert(es[i] == o);
                }
            }
            assert(self.frontier@.to_set() =~= step(plan, seen0, pending0, id));
            assert(frontier0[k as int] == id);
        }
        Some(Ok(id))
    }
}

} // verus!
