//! Issues
//!
//! An issue is a tree of messages, identified by the id of its initial
//! message. Its state is recorded by references: at most one head and any
//! number of leaves in the local namespace and in that of each remote.

use vstd::prelude::*;
use vstd::string::*;
use crate::base::{Base, Oid};
use crate::error::{Error, Kind};
use crate::object::commit::{Commit, CommitView};
use crate::object::Database;
use vstd::utf8::decode_utf8;
use crate::remote::remote_ref_path;
use crate::reference::{
    distinct_names,
    in_store,
    lemma_selection_merge,
    lemma_selection_same,
    merge,
    lemma_selection_union,
    lists,
    names_valid,
    head_path,
    head_ref_path,
    is_listing,
    is_lookup,
    is_selection,
    is_store_error,
    is_under,
    keep_marked,
    leaf_path,
    leaf_ref_path,
    lemma_format_parse,
    lemma_parse_format,
    lemma_pick_selection,
    parse,
    str_eq,
    Kind as RefKind,
    PartsView,
    Reference,
    ReferenceView,
    Store,
};
use crate::traversal::{
    all_known,
    is_unknown_error,
    only,
    start,
    Plan,
    Traversal,
    TraversalBuilder,
    Traversible,
};

verus! {

/// Kind of the references of an issue to look for.
#[derive(Clone, Copy, Debug, PartialEq, Eq, Structural)]
pub enum IssueRefType {
    Any,
    Head,
    Leaf,
}

impl IssueRefType {
    /// The text that stands for the kind in a glob.
    pub open spec fn glob_part_of(self) -> Seq<char> {
        match self {
            IssueRefType::Any => "**"@,
            IssueRefType::Head => "head"@,
            IssueRefType::Leaf => "leaves/*"@,
        }
    }

    /// What the kind is called.
    pub open spec fn label_of(self) -> Seq<char> {
        match self {
            IssueRefType::Any => "Any ref"@,
            IssueRefType::Head => "Head ref"@,
            IssueRefType::Leaf => "Leaf ref"@,
        }
    }

    /// Get the name of the type, for messages
    pub fn label(&self) -> (r: &'static str)
        ensures
            r@ == self.label_of(),
    {
        match *self {
            IssueRefType::Any => "Any ref",
            IssueRefType::Head => "Head ref",
            IssueRefType::Leaf => "Leaf ref",
        }
    }

    /// Get the part of a glob specific to the type
    pub fn glob_part(&self) -> (r: &'static str)
        ensures
            r@ == self.glob_part_of(),
    {
        match *self {
            IssueRefType::Any => "**",
            IssueRefType::Head => "head",
            IssueRefType::Leaf => "leaves/*",
        }
    }
}

/// The prefix of the local namespace.
pub open spec fn local_prefix() -> Seq<char> {
    "refs/dit"@
}

/// The prefix of the namespace of the remote whose reference prefix is
/// `remote`.
pub open spec fn remote_prefix(remote: Seq<char>) -> Seq<char> {
    remote + "/dit"@
}

/// The name below which the references of an issue reside in a namespace.
pub open spec fn issue_base(prefix: Seq<char>, issue: Oid) -> Seq<char> {
    prefix + seq!['/'] + issue.hex()
}

/// Whether `path` names a leaf of the issue in the namespace.
pub open spec fn is_leaf_of(path: Seq<char>, prefix: Seq<char>, issue: Oid) -> bool {
    exists|leaf: Oid| path == #[trigger] leaf_path(prefix, issue, leaf)
}

/// Whether `path` names a reference of the issue in the namespace: its head
/// or one of its leaves.
pub open spec fn is_ref_of(path: Seq<char>, prefix: Seq<char>, issue: Oid) -> bool {
    path == head_path(prefix, issue) || is_leaf_of(path, prefix, issue)
}

/// The references of an issue reside below its base name.
pub proof fn lemma_ref_under_base(path: Seq<char>, prefix: Seq<char>, issue: Oid)
    requires
        is_ref_of(path, prefix, issue),
    ensures
        is_under(issue_base(prefix, issue), path),
{
    let base = issue_base(prefix, issue);
    if path == head_path(prefix, issue) {
        assert(path.subrange(0, base.len() as int) =~= base);
    } else {
        assert(path.subrange(0, base.len() as int) =~= base);
    }
}

/// A name is that of a leaf of the issue in the namespace if and only if
/// its parts say so.
pub proof fn lemma_leaf_of_parse(path: Seq<char>, prefix: Seq<char>, issue: Oid)
    ensures
        is_leaf_of(path, prefix, issue) <==> (parse(path) matches Some(p) && p.prefix == prefix
            && p.issue == issue && p.kind is Leaf),
{
    if is_leaf_of(path, prefix, issue) {
        let leaf = choose|leaf: Oid| path == #[trigger] leaf_path(prefix, issue, leaf);
        lemma_parse_format(PartsView { prefix, issue, kind: RefKind::Leaf(leaf) });
    }
    if parse(path) matches Some(p) && p.prefix == prefix && p.issue == issue && p.kind is Leaf {
        lemma_format_parse(path);
    }
}

/// A leaf resides in one namespace and belongs to one issue.
pub proof fn lemma_leaf_of_unique(
    path: Seq<char>,
    prefix: Seq<char>,
    issue: Oid,
    other_prefix: Seq<char>,
    other_issue: Oid,
)
    requires
        is_leaf_of(path, prefix, issue),
        is_leaf_of(path, other_prefix, other_issue),
    ensures
        prefix == other_prefix,
        issue == other_issue,
{
    lemma_leaf_of_parse(path, prefix, issue);
    lemma_leaf_of_parse(path, other_prefix, other_issue);
}

/// A head resides in one namespace and belongs to one issue, and is no leaf.
pub proof fn lemma_head_unique(
    prefix: Seq<char>,
    issue: Oid,
    other_prefix: Seq<char>,
    other_issue: Oid,
)
    ensures
        head_path(prefix, issue) == head_path(other_prefix, other_issue) ==> prefix == other_prefix
            && issue == other_issue,
        !is_leaf_of(head_path(prefix, issue), other_prefix, other_issue),
{
    lemma_parse_format(PartsView { prefix, issue, kind: RefKind::Head });
    lemma_parse_format(PartsView { prefix: other_prefix, issue: other_issue, kind: RefKind::Head });
    lemma_leaf_of_parse(head_path(prefix, issue), other_prefix, other_issue);
}

/// The namespace of the remote with the given name.
pub open spec fn namespace_of(remote: Seq<u8>) -> Seq<char> {
    remote_prefix(remote_ref_path(decode_utf8(remote)))
}

/// The namespaces of the remotes with the given names.
pub open spec fn remote_namespaces_of(remotes: Seq<Seq<u8>>) -> Seq<Seq<char>> {
    remotes.map_values(|name: Seq<u8>| namespace_of(name))
}

/// The texts of a list of strings.
pub open spec fn texts(v: Seq<String>) -> Seq<Seq<char>> {
    v.map_values(|s: String| s@)
}

/// Whether `path` names a leaf of the issue in one of the namespaces.
pub open spec fn is_leaf_among(path: Seq<char>, namespaces: Seq<Seq<char>>, issue: Oid) -> bool {
    exists|k: int| 0 <= k < namespaces.len() && is_leaf_of(path, #[trigger] namespaces[k], issue)
}

/// Whether `path` names the head of the issue in one of the namespaces.
pub open spec fn is_head_among(path: Seq<char>, namespaces: Seq<Seq<char>>, issue: Oid) -> bool {
    exists|k: int| 0 <= k < namespaces.len() && path == head_path(#[trigger] namespaces[k], issue)
}

/// Whether `path` names a reference of the issue in the namespace, of the
/// given kind: any reference below the name of the issue, its head, or one
/// of its leaves.
pub open spec fn is_ref_of_type(
    path: Seq<char>,
    prefix: Seq<char>,
    issue: Oid,
    ref_type: IssueRefType,
) -> bool {
    match ref_type {
        IssueRefType::Any => is_under(issue_base(prefix, issue), path),
        IssueRefType::Head => path == head_path(prefix, issue),
        IssueRefType::Leaf => is_leaf_of(path, prefix, issue),
    }
}

/// Whether `path` names a reference of the issue of the given kind in one
/// of the namespaces.
pub open spec fn is_ref_among(
    path: Seq<char>,
    namespaces: Seq<Seq<char>>,
    issue: Oid,
    ref_type: IssueRefType,
) -> bool {
    exists|k: int|
        0 <= k < namespaces.len() && is_ref_of_type(path, #[trigger] namespaces[k], issue, ref_type)
}

/// Whether `v` lists the heads of the issue in the namespaces, each once.
pub open spec fn is_head_listing(
    refs: Map<Seq<char>, Option<Oid>>,
    namespaces: Seq<Seq<char>>,
    issue: Oid,
    v: Seq<Reference>,
) -> bool {
    &&& distinct_names(v)
    &&& forall|x: ReferenceView| #[trigger]
        lists(v, x) <==> in_store(refs, x) && is_head_among(x.name, namespaces, issue)
}

/// All namespaces: the local one and those of the remotes.
pub open spec fn all_namespaces_of(remotes: Seq<Seq<u8>>) -> Seq<Seq<char>> {
    seq![local_prefix()] + remote_namespaces_of(remotes)
}

/// The targets of the references of an issue, heads and leaves, in the given
/// namespaces.
pub open spec fn all_targets(
    refs: Map<Seq<char>, Option<Oid>>,
    namespaces: Seq<Seq<char>>,
    issue: Oid,
) -> Set<Oid> {
    Set::new(
        |t: Oid|
            exists|path: Seq<char>|
                #![trigger refs[path]]
                refs.contains_key(path) && refs[path] == Some(t) && (is_leaf_among(
                    path,
                    namespaces,
                    issue,
                ) || is_head_among(path, namespaces, issue)),
    )
}

/// The targets of a list of references.
pub fn targets_of(list: &Vec<Reference>) -> (r: Vec<Oid>)
    ensures
        forall|t: Oid|
            r@.contains(t) <==> exists|i: int|
                0 <= i < list.len() && (#[trigger] list@[i])@.target == Some(t),
{
    let mut out: Vec<Oid> = Vec::new();
    let mut i: usize = 0;
    while i < list.len()
        invariant
            i <= list.len(),
            forall|t: Oid|
                out@.contains(t) <==> exists|k: int|
                    0 <= k < i && (#[trigger] list@[k])@.target == Some(t),
        decreases list.len() - i,
    {
        let ghost before = out@;
        if let Some(t) = list[i].target() {
            out.push(t);
            assert(out@[before.len() as int] == t);
        }
        proof {
            let after = out@;
            assert forall|t: Oid|
                after.contains(t) <==> exists|k: int|
                    0 <= k < i + 1 && (#[trigger] list@[k])@.target == Some(t) by {
                if before.contains(t) {
                    let j = choose|j: int| 0 <= j < before.len() && before[j] == t;
                    assert(after[j] == t);
                }
            }
        }
        i += 1;
    }
    out
}

/// The messages that end the walks of an issue: the parents of its initial
/// message.
pub open spec fn issue_ends(g: Map<Oid, CommitView>, issue: Oid) -> Set<Oid> {
    g[issue].parents.to_set()
}

/// What a walk of an issue walks before heads are added: it ends at the
/// parents of the initial message.
pub open spec fn issue_plan(g: Map<Oid, CommitView>, reliable: bool, issue: Oid) -> Plan {
    Plan::empty(g, reliable).add_ends(issue_ends(g, issue))
}

/// Whether `e` is the error of a walk of an issue that cannot be prepared:
/// the initial message cannot be retrieved, a builder cannot be had from a
/// store that is not reliable, or a parent of the initial message does not
/// resolve. The error names the message that does not resolve.
pub open spec fn is_issue_walk_error(
    g: Map<Oid, CommitView>,
    reliable: bool,
    issue: Oid,
    e: Error,
) -> bool {
    ||| e.kind == Kind::CannotGetCommit && e.subject@ == issue.hex() && (reliable
        ==> !g.contains_key(issue))
    ||| e.kind == Kind::CannotConstructRevwalk && !reliable
    ||| g.contains_key(issue) && is_unknown_error(g, reliable, issue_ends(g, issue), e)
}

/// An error of a walk of an issue shows that the store is not reliable or
/// that the initial message or one of its parents is not known.
pub proof fn lemma_issue_walk_error(
    g: Map<Oid, CommitView>,
    reliable: bool,
    issue: Oid,
    e: Error,
)
    requires
        is_issue_walk_error(g, reliable, issue, e),
    ensures
        e.kind == Kind::CannotGetCommit || e.kind == Kind::CannotConstructRevwalk,
        !(reliable && issue_known(g, issue)),
{
    if reliable && issue_known(g, issue) {
        let ends = issue_ends(g, issue);
        let id = choose|id: Oid|
            #![trigger ends.contains(id)]
            ends.contains(id) && e.subject@ == id.hex() && (reliable ==> !g.contains_key(id));
        let i = choose|i: int| 0 <= i < g[issue].parents.len() && g[issue].parents[i] == id;
        assert(g.contains_key(g[issue].parents[i]));
    }
}

/// Whether the initial message of an issue and its parents are known.
pub open spec fn issue_known(g: Map<Oid, CommitView>, issue: Oid) -> bool {
    g.contains_key(issue) && all_known(g, g[issue].parents)
}

/// Issue handle
///
/// Instances of this type represent single issues. Issues reside in
/// repositories and are uniquely identified by an id.
#[derive(Clone, Copy, Debug, PartialEq, Eq, Hash)]
pub struct Issue {
    id: Oid,
}

impl View for Issue {
    type V = Oid;

    closed spec fn view(&self) -> Oid {
        self.id
    }
}

impl Issue {
    /// Create a new handle for an issue with a given id
    ///
    /// This fn creates a new issue handle, without checking whether the issue
    /// itself exists.
    pub fn new_unchecked(id: Oid) -> (r: Issue)
        ensures
            r@ == id,
    {
        Issue { id }
    }

    /// Get the issue's id
    pub fn id(&self) -> (r: &Oid)
        ensures
            *r == self@,
    {
        &self.id
    }

    /// Write the issue as text: its id in canonical form
    pub fn to_text(&self) -> (r: String)
        ensures
            r@ == self@.hex(),
    {
        self.id.to_hex()
    }

    /// Get the issue's initial message
    pub fn initial_message<R: Database>(&self, repo: &R) -> (r: Result<Commit, Error>)
        ensures
            r matches Ok(c) ==> repo.commits().contains_key(self@) && c.id == self@ && c@
                == repo.commits()[self@],
            r matches Err(e) ==> e.kind == Kind::CannotGetCommit && e.subject@ == self@.hex(),
            repo.reliable() && repo.commits().contains_key(self@) ==> r is Ok,
    {
        repo.find_commit(self.id)
    }

    /// Get the head of the issue in a namespace
    ///
    /// That the issue has no head there is no error.
    pub fn head_in<R: Store>(&self, repo: &R, prefix: &str) -> (r: Result<
        Option<Reference>,
        Error,
    >)
        ensures
            is_lookup(repo.refs(), head_path(prefix@, self@), repo.reliable(), r),
    {
        let path = head_ref_path(prefix, &self.id);
        repo.get_reference(path.as_str())
    }

    /// Get the local issue head for the issue
    ///
    /// Returns the head reference of the issue from the local repository, if
    /// present.
    pub fn local_head<R: Store>(&self, repo: &R) -> (r: Result<Option<Reference>, Error>)
        ensures
            is_lookup(repo.refs(), head_path(local_prefix(), self@), repo.reliable(), r),
    {
        self.head_in(repo, "refs/dit")
    }

    /// Get the references below the issue's name in a namespace
    pub fn refs_in<R: Store>(&self, repo: &R, prefix: &str) -> (r: Result<Vec<Reference>, Error>)
        ensures
            r matches Ok(v) ==> is_listing(repo.refs(), issue_base(prefix@, self@), v@),
            r matches Err(e) ==> e.kind == Kind::CannotGetReferences && e.subject@ == issue_base(
                prefix@,
                self@,
            ),
            repo.reliable() ==> r is Ok,
    {
        let mut base = String::from_str(prefix);
        let hex = self.id.to_hex();
        proof {
            reveal_strlit("/");
        }
        base.append("/");
        base.append(hex.as_str());
        assert(base@ =~= issue_base(prefix@, self@));
        repo.listing(base.as_str())
    }

    /// Whether a reference is a leaf of the issue in a namespace.
    pub fn owns_leaf(&self, reference: &Reference, prefix: &str) -> (r: bool)
        ensures
            r == is_leaf_of(reference@.name, prefix@, self@),
    {
        proof {
            lemma_leaf_of_parse(reference@.name, prefix@, self@);
        }
        match reference.parts() {
            Some(p) => match p.kind {
                RefKind::Leaf(_) => p.issue.same(&self.id) && str_eq(p.prefix, prefix),
                RefKind::Head => false,
            },
            None => false,
        }
    }

    /// Get the leaves of the issue in a namespace
    pub fn leaves_in<R: Store>(&self, repo: &R, prefix: &str) -> (r: Result<Vec<Reference>, Error>)
        ensures
            r matches Ok(v) ==> is_selection(
                repo.refs(),
                |path: Seq<char>| is_leaf_of(path, prefix@, self@),
                v@,
            ),
            r matches Err(e) ==> e.kind == Kind::CannotGetReferences && e.subject@ == issue_base(
                prefix@,
                self@,
            ),
            repo.reliable() ==> r is Ok,
    {
        let all = match self.refs_in(repo, prefix) {
            Ok(v) => v,
            Err(e) => {
                return Err(e);
            },
        };
        let mut marks: Vec<bool> = Vec::new();
        let mut i: usize = 0;
        while i < all.len()
            invariant
                i <= all.len(),
                marks.len() == i,
                forall|k: int|
                    0 <= k < i ==> (marks@[k] <==> is_leaf_of(
                        (#[trigger] all@[k])@.name,
                        prefix@,
                        self@,
                    )),
            decreases all.len() - i,
        {
            let m = self.owns_leaf(&all[i], prefix);
            marks.push(m);
            i += 1;
        }
        let out = keep_marked(&all, &marks);
        proof {
            let base = issue_base(prefix@, self@);
            let listed = |path: Seq<char>| is_under(base, path);
            let wanted = |path: Seq<char>| is_leaf_of(path, prefix@, self@);
            assert forall|path: Seq<char>| #[trigger] wanted(path) implies listed(path) by {
                lemma_ref_under_base(path, prefix@, self@);
            }
            lemma_pick_selection(repo.refs(), listed, wanted, all@, marks@, out@);
        }
        Ok(out)
    }

    /// Get the local leaves of the issue
    pub fn local_leaves<R: Store>(&self, repo: &R) -> (r: Result<Vec<Reference>, Error>)
        ensures
            r matches Ok(v) ==> is_selection(
                repo.refs(),
                |path: Seq<char>| is_leaf_of(path, local_prefix(), self@),
                v@,
            ),
            r matches Err(e) ==> e.kind == Kind::CannotGetReferences && e.subject@ == issue_base(
                local_prefix(),
                self@,
            ),
            repo.reliable() ==> r is Ok,
    {
        self.leaves_in(repo, "refs/dit")
    }

    /// Get the leaves of the issue in several namespaces
    pub fn leaves_across<R: Store>(&self, repo: &R, namespaces: &Vec<String>) -> (r: Result<
        Vec<Reference>,
        Error,
    >)
        ensures
            r matches Ok(v) ==> is_selection(
                repo.refs(),
                |path: Seq<char>| is_leaf_among(path, texts(namespaces@), self@),
                v@,
            ),
            r matches Err(e) ==> e.kind == Kind::CannotGetReferences,
            repo.reliable() ==> r is Ok,
    {
        let ghost refs = repo.refs();
        let ghost names = texts(namespaces@);
        let mut out: Vec<Reference> = Vec::new();
        let mut k: usize = 0;
        while k < namespaces.len()
            invariant
                k <= namespaces.len(),
                refs == repo.refs(),
                names == texts(namespaces@),
                is_selection(
                    refs,
                    |path: Seq<char>| is_leaf_among(path, names.take(k as int), self@),
                    out@,
                ),
            decreases namespaces.len() - k,
        {
            let ghost before = |path: Seq<char>| is_leaf_among(path, names.take(k as int), self@);
            let ghost after = |path: Seq<char>| is_leaf_among(path, names.take(k + 1), self@);
            let ghost this = |path: Seq<char>| is_leaf_of(path, names[k as int], self@);
            let ns = namespaces[k].as_str();
            // a namespace that occurs twice is listed once
            let mut known = false;
            let mut j: usize = 0;
            while j < k
                invariant
                    j <= k,
                    k < namespaces.len(),
                    names == texts(namespaces@),
                    ns@ == names[k as int],
                    known <==> exists|i: int| 0 <= i < j && names[i] == ns@,
                decreases k - j,
            {
                assert(namespaces@[j as int]@ == names[j as int]);
                if str_eq(namespaces[j].as_str(), ns) {
                    known = true;
                }
                j += 1;
            }
            if known {
                proof {
                    let i = choose|i: int| 0 <= i < k && names[i] == ns@;
                    assert forall|path: Seq<char>| #[trigger]
                        after(path) <==> before(path) by {
                        if after(path) {
                            let m = choose|m: int|
                                0 <= m < k + 1 && is_leaf_of(
                                    path,
                                    #[trigger] names.take(k + 1)[m],
                                    self@,
                                );
                            if m == k {
                                assert(names.take(k as int)[i] == names[i]);
                            }
                        }
                    }
                    lemma_selection_same(refs, before, after, out@);
                }
            } else {
                let mut more = match self.leaves_in(repo, ns) {
                    Ok(v) => v,
                    Err(e) => {
                        return Err(e);
                    },
                };
                let ghost first = out@;
                let ghost second = more@;
                out.append(&mut more);
                proof {
                    assert forall|path: Seq<char>| !(#[trigger] before(path) && #[trigger] this(
                        path,
                    )) by {
                        if before(path) && this(path) {
                            let m = choose|m: int|
                                0 <= m < k && is_leaf_of(
                                    path,
                                    #[trigger] names.take(k as int)[m],
                                    self@,
                                );
                            lemma_leaf_of_unique(path, names[m], self@, names[k as int], self@);
                        }
                    }
                    assert forall|path: Seq<char>| #[trigger]
                        after(path) <==> before(path) || this(path) by {
                        if this(path) {
                            assert(names.take(k + 1)[k as int] == names[k as int]);
                        }
                    }
                    lemma_selection_same(
                        refs,
                        |path: Seq<char>| is_leaf_of(path, ns@, self@),
                        this,
                        second,
                    );
                    lemma_selection_union(refs, before, this, after, first, second);
                }
            }
            k += 1;
        }
        proof {
            assert(names.take(namespaces.len() as int) =~= names);
        }
        Ok(out)
    }

    /// Get the heads of the issue in several namespaces
    pub fn heads_across<R: Store>(&self, repo: &R, namespaces: &Vec<String>) -> (r: Result<
        Vec<Reference>,
        Error,
    >)
        ensures
            r matches Ok(v) ==> is_head_listing(repo.refs(), texts(namespaces@), self@, v@),
            r matches Err(e) ==> e.kind == Kind::CannotGetReference,
            repo.reliable() ==> r is Ok,
    {
        let ghost refs = repo.refs();
        let ghost names = texts(namespaces@);
        let mut out: Vec<Reference> = Vec::new();
        let mut k: usize = 0;
        while k < namespaces.len()
            invariant
                k <= namespaces.len(),
                refs == repo.refs(),
                names == texts(namespaces@),
                is_head_listing(refs, names.take(k as int), self@, out@),
            decreases namespaces.len() - k,
        {
            let ns = namespaces[k].as_str();
            let ghost before = out@;
            let found = match self.head_in(repo, ns) {
                Ok(f) => f,
                Err(e) => {
                    return Err(e);
                },
            };
            if let Some(head) = found {
                let ghost hv = head@;
                // a namespace that occurs twice gives its head once
                let mut known = false;
                let mut j: usize = 0;
                while j < out.len()
                    invariant
                        j <= out.len(),
                        head@ == hv,
                        known <==> exists|i: int| 0 <= i < j && (#[trigger] out@[i])@.name == hv.name,
                    decreases out.len() - j,
                {
                    if str_eq(out[j].name(), head.name()) {
                        known = true;
                    }
                    j += 1;
                }
                if !known {
                    out.push(head);
                    proof {
                        assert(out@[before.len() as int]@ == hv);
                        assert forall|a: int, b: int| 0 <= a < b < out@.len() implies (
                        #[trigger] out@[a])@.name != (#[trigger] out@[b])@.name by {
                            if b < before.len() {
                                assert(out@[a] == before[a] && out@[b] == before[b]);
                            } else {
                                assert(out@[a] == before[a]);
                            }
                        }
                    }
                } else {
                    proof {
                        let i = choose|i: int|
                            0 <= i < before.len() && (#[trigger] before[i])@.name == hv.name;
                        assert(lists(before, before[i]@));
                        assert(before[i]@ == hv);
                    }
                }
                proof {
                    assert(lists(out@, hv)) by {
                        if known {
                            let i = choose|i: int|
                                0 <= i < before.len() && (#[trigger] before[i])@.name == hv.name;
                            assert(out@[i]@ == hv);
                        } else {
                            assert(out@[before.len() as int]@ == hv);
                        }
                    }
                }
            }
            proof {
                let after = out@;
                assert forall|x: ReferenceView| #[trigger]
                    lists(after, x) <==> in_store(refs, x) && is_head_among(
                        x.name,
                        names.take(k + 1),
                        self@,
                    ) by {
                    if lists(after, x) {
                        let i = choose|i: int| 0 <= i < after.len() && (#[trigger] after[i])@ == x;
                        if i < before.len() {
                            assert(after[i] == before[i]);
                            assert(lists(before, x));
                            let m = choose|m: int|
                                0 <= m < k && x.name == head_path(
                                    #[trigger] names.take(k as int)[m],
                                    self@,
                                );
                            assert(names.take(k + 1)[m] == names[m]);
                        } else {
                            assert(names.take(k + 1)[k as int] == names[k as int]);
                        }
                    }
                    if in_store(refs, x) && is_head_among(x.name, names.take(k + 1), self@) {
                        let m = choose|m: int|
                            0 <= m < k + 1 && x.name == head_path(
                                #[trigger] names.take(k + 1)[m],
                                self@,
                            );
                        if m < k {
                            assert(names.take(k as int)[m] == names[m]);
                            assert(lists(before, x));
                            let i = choose|i: int|
                                0 <= i < before.len() && (#[trigger] before[i])@ == x;
                            assert(after[i] == before[i]);
                        }
                    }
                }
            }
            k += 1;
        }
        proof {
            assert(names.take(namespaces.len() as int) =~= names);
        }
        Ok(out)
    }

    /// Get the namespaces of all remotes
    ///
    /// The call fails if the name of a remote is not valid UTF-8.
    pub fn remote_namespaces<R: Store>(repo: &R) -> (r: Result<Vec<String>, Error>)
        ensures
            r matches Ok(v) ==> names_valid(repo.remotes()) && texts(v@) == remote_namespaces_of(
                repo.remotes(),
            ),
            r matches Err(e) ==> is_store_error(e, repo.reliable(), names_valid(repo.remotes())),
    {
        let paths = match repo.remote_ref_paths() {
            Ok(v) => v,
            Err(e) => {
                return Err(e);
            },
        };
        let mut out: Vec<String> = Vec::new();
        let mut i: usize = 0;
        while i < paths.len()
            invariant
                i <= paths.len(),
                out@.len() == i,
                paths@.len() == repo.remotes().len(),
                forall|k: int|
                    0 <= k < paths@.len() ==> (#[trigger] paths@[k])@ == remote_ref_path(
                        decode_utf8(repo.remotes()[k]),
                    ),
                forall|k: int| 0 <= k < i ==> (#[trigger] out@[k])@ == namespace_of(
                    repo.remotes()[k],
                ),
            decreases paths.len() - i,
        {
            let mut ns = String::from_str(paths[i].as_str());
            ns.append("/dit");
            out.push(ns);
            i += 1;
        }
        Ok(out)
    }

    /// Get the heads of the issue in all remotes
    pub fn all_remote_heads<R: Store>(&self, repo: &R) -> (r: Result<Vec<Reference>, Error>)
        ensures
            r matches Ok(v) ==> names_valid(repo.remotes()) && is_head_listing(
                repo.refs(),
                remote_namespaces_of(repo.remotes()),
                self@,
                v@,
            ),
            r matches Err(e) ==> is_store_error(e, repo.reliable(), names_valid(repo.remotes())),
    {
        let namespaces = match Self::remote_namespaces(repo) {
            Ok(v) => v,
            Err(e) => {
                return Err(e);
            },
        };
        self.heads_across(repo, &namespaces)
    }

    /// Get the leaves of the issue in all remotes
    pub fn all_remote_leaves<R: Store>(&self, repo: &R) -> (r: Result<Vec<Reference>, Error>)
        ensures
            r matches Ok(v) ==> names_valid(repo.remotes()) && is_selection(
                repo.refs(),
                |path: Seq<char>| is_leaf_among(path, remote_namespaces_of(repo.remotes()), self@),
                v@,
            ),
            r matches Err(e) ==> is_store_error(e, repo.reliable(), names_valid(repo.remotes())),
    {
        let namespaces = match Self::remote_namespaces(repo) {
            Ok(v) => v,
            Err(e) => {
                return Err(e);
            },
        };
        self.leaves_across(repo, &namespaces)
    }

    /// Prepare a walk which will terminate at the initial message
    ///
    /// The walk ends at the parents of the initial message: it does not
    /// leave the issue.
    pub fn terminated_messages<'r, R: Traversible<'r> + Database>(&self, repo: &'r R) -> (r:
        Result<R::TraversalBuilder, Error>)
        ensures
            r matches Ok(b) ==> b.wf() && b.plan() == issue_plan(
                repo.commits(),
                repo.reliable(),
                self@,
            ) && issue_known(repo.commits(), self@),
            r matches Err(e) ==> is_issue_walk_error(
                repo.commits(),
                repo.reliable(),
                self@,
                e,
            ),
            repo.reliable() && issue_known(repo.commits(), self@) ==> r is Ok,
    {
        let initial = match repo.find_commit(self.id) {
            Ok(c) => c,
            Err(e) => {
                return Err(e);
            },
        };
        let builder = match repo.traversal_builder() {
            Ok(b) => b,
            Err(e) => {
                return Err(e);
            },
        };
        let r = builder.with_ends(initial.parent_ids());
        proof {
            if r is Err {
                let e = r->Err_0;
                let ends = initial.parents@;
                let i = choose|i: int|
                    0 <= i < ends.len() && e.subject@ == (#[trigger] ends[i]).hex() && (
                    repo.reliable() ==> !repo.commits().contains_key(ends[i]));
                assert(issue_ends(repo.commits(), self@).contains(ends[i]));
            }
        }
        r
    }

    /// Get messages of the issue starting from a specific one
    ///
    /// The walk yields `message` and its first parents up to and including
    /// the initial message of the issue.
    pub fn messages_from<'r, R: Traversible<'r> + Database>(
        &self,
        repo: &'r R,
        message: Oid,
    ) -> (r: Result<<R::TraversalBuilder as TraversalBuilder>::Iter, Error>)
        ensures
            r matches Ok(w) ==> {
                &&& w.wf()
                &&& w.plan() == issue_plan(
                    repo.commits(),
                    repo.reliable(),
                    self@,
                ).first_parents().add_heads(only(message))
                &&& w.visited() == Seq::<Oid>::empty()
                &&& w.pending() == start(w.plan())
                &&& !w.failed()
                &&& issue_known(repo.commits(), self@)
                &&& repo.commits().contains_key(message)
            },
            r matches Err(e) ==> is_issue_walk_error(repo.commits(), repo.reliable(), self@, e)
                || (issue_known(repo.commits(), self@) && is_unknown_error(
                repo.commits(),
                repo.reliable(),
                only(message),
                e,
            )),
            repo.reliable() && issue_known(repo.commits(), self@) && repo.commits().contains_key(
                message,
            ) ==> r is Ok,
    {
        let builder = match self.terminated_messages(repo) {
            Ok(b) => b,
            Err(e) => {
                return Err(e);
            },
        };
        let builder = builder.first_parent_only();
        let builder = match builder.with_head(message) {
            Ok(b) => b,
            Err(e) => {
                proof {
                    assert(only(message).contains(message));
                }
                return Err(e);
            },
        };
        builder.build()
    }

    /// Update the local head reference of the issue
    ///
    /// Updates the local head reference of the issue to the provided
    /// message, even if that is no fast-forward. Without `replace`, the call
    /// fails if the issue has a local head.
    pub fn update_head<R: Store>(&self, repo: &mut R, message: Oid, replace: bool) -> (r: Result<
        Reference,
        Error,
    >)
        ensures
            r matches Ok(x) ==> x@ == (ReferenceView {
                name: head_path(local_prefix(), self@),
                target: Some(message),
            }) && final(repo).refs() == old(repo).refs().insert(
                head_path(local_prefix(), self@),
                Some(message),
            ),
            r matches Err(e) ==> e.kind == Kind::CannotSetReference && e.subject@ == head_path(
                local_prefix(),
                self@,
            ) && final(repo).refs() == old(repo).refs(),
            !replace && old(repo).refs().contains_key(head_path(local_prefix(), self@)) ==> r is Err,
            old(repo).reliable() && (replace || !old(repo).refs().contains_key(
                head_path(local_prefix(), self@),
            )) ==> r is Ok,
            final(repo).commits() == old(repo).commits(),
            final(repo).remotes() == old(repo).remotes(),
            final(repo).reliable() == old(repo).reliable(),
    {
        let name = head_ref_path("refs/dit", &self.id);
        let mut log = String::from_str("git-dit: set head reference of ");
        log.append(self.id.to_hex().as_str());
        log.append(" to ");
        log.append(message.to_hex().as_str());
        repo.set_reference(name.as_str(), message, replace, log.as_str())
    }

    /// Add a new leaf reference associated with the issue
    ///
    /// Creates a new leaf reference for the message provided in the issue.
    /// The call fails if that leaf exists.
    pub fn add_leaf<R: Store>(&self, repo: &mut R, message: Oid) -> (r: Result<Reference, Error>)
        ensures
            r matches Ok(x) ==> x@ == (ReferenceView {
                name: leaf_path(local_prefix(), self@, message),
                target: Some(message),
            }) && final(repo).refs() == old(repo).refs().insert(
                leaf_path(local_prefix(), self@, message),
                Some(message),
            ),
            r matches Err(e) ==> e.kind == Kind::CannotSetReference && e.subject@ == leaf_path(
                local_prefix(),
                self@,
                message,
            ) && final(repo).refs() == old(repo).refs(),
            old(repo).refs().contains_key(leaf_path(local_prefix(), self@, message)) ==> r is Err,
            old(repo).reliable() && !old(repo).refs().contains_key(
                leaf_path(local_prefix(), self@, message),
            ) ==> r is Ok,
            final(repo).commits() == old(repo).commits(),
            final(repo).remotes() == old(repo).remotes(),
            final(repo).reliable() == old(repo).reliable(),
    {
        let name = leaf_ref_path("refs/dit", &self.id, &message);
        let mut log = String::from_str("git-dit: new leaf for ");
        log.append(self.id.to_hex().as_str());
        log.append(": ");
        log.append(message.to_hex().as_str());
        repo.set_reference(name.as_str(), message, false, log.as_str())
    }

    /// Add a new message to the issue
    ///
    /// Adds a new message to the issue and creates a leaf reference for it.
    /// Returns the id of the message. If the leaf cannot be created, the
    /// message stays in the object database without a reference.
    pub fn add_message<R: Store + Database>(
        &self,
        repo: &mut R,
        author: &str,
        committer: &str,
        message: &str,
        tree: Oid,
        parents: &Vec<Oid>,
    ) -> (r: Result<Oid, Error>)
        ensures
            r matches Ok(id) ==> !old(repo).commits().contains_key(id) && final(repo).commits()
                == old(repo).commits().insert(
                id,
                CommitView {
                    author: author@,
                    committer: committer@,
                    message: message@,
                    tree,
                    parents: parents@,
                },
            ) && final(repo).refs() == old(repo).refs().insert(
                leaf_path(local_prefix(), self@, id),
                Some(id),
            ),
            r matches Err(e) ==> final(repo).refs() == old(repo).refs() && ((e.kind
                == Kind::CannotCreateMessage && final(repo).commits() == old(repo).commits()) || (
            e.kind == Kind::CannotSetReference && exists|id: Oid|
                !old(repo).commits().contains_key(id) && final(repo).commits() == #[trigger] old(
                    repo,
                ).commits().insert(
                    id,
                    CommitView {
                        author: author@,
                        committer: committer@,
                        message: message@,
                        tree,
                        parents: parents@,
                    },
                ))),
            final(repo).remotes() == old(repo).remotes(),
            final(repo).reliable() == old(repo).reliable(),
    {
        let id = match repo.commit(author, committer, message, tree, parents) {
            Ok(id) => id,
            Err(e) => {
                return Err(e);
            },
        };
        match self.add_leaf(repo, id) {
            Ok(_) => Ok(id),
            Err(e) => Err(e),
        }
    }

    /// Get all namespaces: the local one and those of the remotes
    ///
    /// The call fails if the name of a remote is not valid UTF-8.
    pub fn all_namespaces<R: Store>(repo: &R) -> (r: Result<Vec<String>, Error>)
        ensures
            r matches Ok(v) ==> names_valid(repo.remotes()) && texts(v@) == all_namespaces_of(
                repo.remotes(),
            ),
            r matches Err(e) ==> is_store_error(e, repo.reliable(), names_valid(repo.remotes())),
    {
        let mut out: Vec<String> = Vec::new();
        out.push(String::from_str("refs/dit"));
        let mut remote = match Self::remote_namespaces(repo) {
            Ok(v) => v,
            Err(e) => {
                return Err(e);
            },
        };
        out.append(&mut remote);
        Ok(out)
    }

    /// Get all messages of the issue
    ///
    /// The walk starts at the targets of all references of the issue, heads
    /// and leaves, local and of remotes, and ends at the parents of the
    /// initial message.
    pub fn messages<'r, R: Store + Traversible<'r> + Database>(&self, repo: &'r R) -> (r: Result<
        <R::TraversalBuilder as TraversalBuilder>::Iter,
        Error,
    >)
        ensures
            r matches Ok(w) ==> {
                &&& w.wf()
                &&& w.plan() == issue_plan(repo.commits(), repo.reliable(), self@).add_heads(
                    all_targets(repo.refs(), all_namespaces_of(repo.remotes()), self@),
                )
                &&& w.visited() == Seq::<Oid>::empty()
                &&& w.pending() == start(w.plan())
                &&& !w.failed()
            },
            r matches Err(e) ==> {
                ||| is_store_error(e, repo.reliable(), names_valid(repo.remotes()))
                ||| is_issue_walk_error(repo.commits(), repo.reliable(), self@, e)
                ||| is_unknown_error(
                    repo.commits(),
                    repo.reliable(),
                    all_targets(repo.refs(), all_namespaces_of(repo.remotes()), self@),
                    e,
                )
            },
            repo.reliable() && names_valid(repo.remotes()) && issue_known(repo.commits(), self@)
                && (forall|t: Oid|
                all_targets(repo.refs(), all_namespaces_of(repo.remotes()), self@).contains(t)
                    ==> repo.commits().contains_key(t)) ==> r is Ok,
    {
        let ghost refs = repo.refs();
        let ghost names = all_namespaces_of(repo.remotes());
        let ghost wanted = all_targets(refs, names, self@);
        let namespaces = match Self::all_namespaces(repo) {
            Ok(v) => v,
            Err(e) => {
                return Err(e);
            },
        };
        let mut tips = match self.leaves_across(repo, &namespaces) {
            Ok(v) => v,
            Err(e) => {
                return Err(e);
            },
        };
        let mut heads = match self.heads_across(repo, &namespaces) {
            Ok(v) => v,
            Err(e) => {
                return Err(e);
            },
        };
        let ghost leaves = tips@;
        let ghost tops = heads@;
        let ghost given = |path: Seq<char>| is_leaf_among(path, texts(namespaces@), self@);
        tips.append(&mut heads);
        let targets = targets_of(&tips);
        proof {
            assert forall|t: Oid| targets@.to_set().contains(t) <==> wanted.contains(t) by {
                if targets@.contains(t) {
                    let i = choose|i: int|
                        0 <= i < tips.len() && (#[trigger] tips@[i])@.target == Some(t);
                    let x = tips@[i]@;
                    if !(i < leaves.len()) {
                        assert(lists(tops, x));
                    }
                }
                if wanted.contains(t) {
                    let path = choose|path: Seq<char>|
                        #![trigger refs[path]]
                        refs.contains_key(path) && refs[path] == Some(t) && (is_leaf_among(
                            path,
                            names,
                            self@,
                        ) || is_head_among(path, names, self@));
                    let x = ReferenceView { name: path, target: refs[path] };
                    if is_leaf_among(path, names, self@) {
                        assert(given(path));
                        let i = choose|i: int| 0 <= i < leaves.len() && (#[trigger] leaves[i])@ == x;
                        assert(tips@[i] == leaves[i]);
                    } else {
                        assert(lists(tops, x));
                        let i = choose|i: int| 0 <= i < tops.len() && (#[trigger] tops[i])@ == x;
                        assert(tips@[leaves.len() + i] == tops[i]);
                    }
                }
            }
            assert(targets@.to_set() =~= wanted);
        }
        let builder = match self.terminated_messages(repo) {
            Ok(b) => b,
            Err(e) => {
                return Err(e);
            },
        };
        let builder = match builder.with_heads(&targets) {
            Ok(b) => b,
            Err(e) => {
                proof {
                    let i = choose|i: int|
                        0 <= i < targets@.len() && e.subject@ == (#[trigger] targets@[i]).hex() && (
                        repo.reliable() ==> !repo.commits().contains_key(targets@[i]));
                    assert(targets@.to_set().contains(targets@[i]));
                    assert(wanted.contains(targets@[i]));
                }
                return Err(e);
            },
        };
        builder.build()
    }

    /// Get possible heads of the issue
    ///
    /// Returns the head references from both the local repository and
    /// remotes for this issue.
    pub fn heads<R: Store>(&self, repo: &R) -> (r: Result<Vec<Reference>, Error>)
        ensures
            r matches Ok(v) ==> names_valid(repo.remotes()) && is_head_listing(
                repo.refs(),
                all_namespaces_of(repo.remotes()),
                self@,
                v@,
            ),
            r matches Err(e) ==> is_store_error(e, repo.reliable(), names_valid(repo.remotes())),
    {
        let namespaces = match Self::all_namespaces(repo) {
            Ok(v) => v,
            Err(e) => {
                return Err(e);
            },
        };
        self.heads_across(repo, &namespaces)
    }

    /// Get the references of the issue of a kind in a namespace
    pub fn refs_of_type<R: Store>(&self, repo: &R, prefix: &str, ref_type: IssueRefType) -> (r:
        Result<Vec<Reference>, Error>)
        ensures
            r matches Ok(v) ==> is_selection(
                repo.refs(),
                |path: Seq<char>| is_ref_of_type(path, prefix@, self@, ref_type),
                v@,
            ),
            r matches Err(e) ==> is_store_error(e, repo.reliable(), true),
    {
        let ghost refs = repo.refs();
        let ghost wanted = |path: Seq<char>| is_ref_of_type(path, prefix@, self@, ref_type);
        match ref_type {
            IssueRefType::Any => {
                let found = match self.refs_in(repo, prefix) {
                    Ok(v) => v,
                    Err(e) => {
                        return Err(e);
                    },
                };
                proof {
                    lemma_selection_same(
                        refs,
                        |path: Seq<char>| is_under(issue_base(prefix@, self@), path),
                        wanted,
                        found@,
                    );
                }
                Ok(found)
            },
            IssueRefType::Leaf => {
                let found = match self.leaves_in(repo, prefix) {
                    Ok(v) => v,
                    Err(e) => {
                        return Err(e);
                    },
                };
                proof {
                    lemma_selection_same(
                        refs,
                        |path: Seq<char>| is_leaf_of(path, prefix@, self@),
                        wanted,
                        found@,
                    );
                }
                Ok(found)
            },
            IssueRefType::Head => {
                let found = match self.head_in(repo, prefix) {
                    Ok(h) => h,
                    Err(e) => {
                        return Err(e);
                    },
                };
                let mut out: Vec<Reference> = Vec::new();
                if let Some(head) = found {
                    out.push(head);
                    assert(out@[0]@ == (ReferenceView {
                        name: head_path(prefix@, self@),
                        target: refs[head_path(prefix@, self@)],
                    }));
                }
                Ok(out)
            },
        }
    }

    /// Get the references of the issue of a kind in several namespaces
    ///
    /// A reference that resides in several of the namespaces is listed
    /// once.
    pub fn refs_across<R: Store>(
        &self,
        repo: &R,
        namespaces: &Vec<String>,
        ref_type: IssueRefType,
    ) -> (r: Result<Vec<Reference>, Error>)
        ensures
            r matches Ok(v) ==> is_selection(
                repo.refs(),
                |path: Seq<char>| is_ref_among(path, texts(namespaces@), self@, ref_type),
                v@,
            ),
            r matches Err(e) ==> is_store_error(e, repo.reliable(), true),
    {
        let ghost refs = repo.refs();
        let ghost names = texts(namespaces@);
        let mut out: Vec<Reference> = Vec::new();
        let mut k: usize = 0;
        while k < namespaces.len()
            invariant
                k <= namespaces.len(),
                refs == repo.refs(),
                names == texts(namespaces@),
                is_selection(
                    refs,
                    |path: Seq<char>| is_ref_among(path, names.take(k as int), self@, ref_type),
                    out@,
                ),
            decreases namespaces.len() - k,
        {
            let ghost before = |path: Seq<char>|
                is_ref_among(path, names.take(k as int), self@, ref_type);
            let ghost after = |path: Seq<char>| is_ref_among(path, names.take(k + 1), self@, ref_type);
            let ghost this = |path: Seq<char>| is_ref_of_type(path, names[k as int], self@, ref_type);
            let ns = namespaces[k].as_str();
            let more = match self.refs_of_type(repo, ns, ref_type) {
                Ok(v) => v,
                Err(e) => {
                    return Err(e);
                },
            };
            let ghost first = out@;
            out = merge(out, &more);
            proof {
                assert forall|path: Seq<char>| #[trigger]
                    after(path) <==> before(path) || this(path) by {
                    if this(path) {
                        assert(names.take(k + 1)[k as int] == names[k as int]);
                    }
                }
                lemma_selection_same(
                    refs,
                    |path: Seq<char>| is_ref_of_type(path, ns@, self@, ref_type),
                    this,
                    more@,
                );
                lemma_selection_merge(refs, before, this, after, first, more@, out@);
            }
            k += 1;
        }
        proof {
            assert(names.take(namespaces.len() as int) =~= names);
        }
        Ok(out)
    }

    /// Get local references for the issue
    ///
    /// Return all references of a specific type associated with the issue
    /// from the local repository.
    pub fn local_refs<R: Store>(&self, repo: &R, ref_type: IssueRefType) -> (r: Result<
        Vec<Reference>,
        Error,
    >)
        ensures
            r matches Ok(v) ==> is_selection(
                repo.refs(),
                |path: Seq<char>| is_ref_of_type(path, local_prefix(), self@, ref_type),
                v@,
            ),
            r matches Err(e) ==> is_store_error(e, repo.reliable(), true),
    {
        self.refs_of_type(repo, "refs/dit", ref_type)
    }

    /// Get remote references for the issue
    ///
    /// Return all references of a specific type associated with the issue
    /// from all remote repositories.
    pub fn remote_refs<R: Store>(&self, repo: &R, ref_type: IssueRefType) -> (r: Result<
        Vec<Reference>,
        Error,
    >)
        ensures
            r matches Ok(v) ==> names_valid(repo.remotes()) && is_selection(
                repo.refs(),
                |path: Seq<char>|
                    is_ref_among(path, remote_namespaces_of(repo.remotes()), self@, ref_type),
                v@,
            ),
            r matches Err(e) ==> is_store_error(e, repo.reliable(), names_valid(repo.remotes())),
    {
        let namespaces = match Self::remote_namespaces(repo) {
            Ok(v) => v,
            Err(e) => {
                return Err(e);
            },
        };
        self.refs_across(repo, &namespaces, ref_type)
    }

    /// Get references for the issue
    ///
    /// Return all references of a specific type associated with the issue
    /// from both the local and remote repositories.
    pub fn all_refs<R: Store>(&self, repo: &R, ref_type: IssueRefType) -> (r: Result<
        Vec<Reference>,
        Error,
    >)
        ensures
            r matches Ok(v) ==> names_valid(repo.remotes()) && is_selection(
                repo.refs(),
                |path: Seq<char>|
                    is_ref_among(path, all_namespaces_of(repo.remotes()), self@, ref_type),
                v@,
            ),
            r matches Err(e) ==> is_store_error(e, repo.reliable(), names_valid(repo.remotes())),
    {
        let namespaces = match Self::all_namespaces(repo) {
            Ok(v) => v,
            Err(e) => {
                return Err(e);
            },
        };
        self.refs_across(repo, &namespaces, ref_type)
    }

    /// Write the namespace of the remote with the given name
    pub fn remote_namespace(remote: &str) -> (r: String)
        ensures
            r@ == remote_prefix(remote_ref_path(remote@)),
    {
        let mut out = String::from_str("refs/remotes");
        proof {
            reveal_strlit("/");
        }
        out.append("/");
        out.append(remote);
        out.append("/dit");
        assert(out@ =~= remote_prefix(remote_ref_path(remote@)));
        out
    }

    /// Get the head of the issue in the namespace of one remote
    ///
    /// That the issue has no head there is no error.
    pub fn remote_head<R: Store>(&self, repo: &R, remote: &str) -> (r: Result<
        Option<Reference>,
        Error,
    >)
        ensures
            is_lookup(
                repo.refs(),
                head_path(remote_prefix(remote_ref_path(remote@)), self@),
                repo.reliable(),
                r,
            ),
    {
        let namespace = Self::remote_namespace(remote);
        self.head_in(repo, namespace.as_str())
    }

    /// Get the leaves of the issue in the namespace of one remote
    pub fn remote_leaves<R: Store>(&self, repo: &R, remote: &str) -> (r: Result<
        Vec<Reference>,
        Error,
    >)
        ensures
            r matches Ok(v) ==> is_selection(
                repo.refs(),
                |path: Seq<char>| is_leaf_of(path, remote_prefix(remote_ref_path(remote@)), self@),
                v@,
            ),
            r matches Err(e) ==> e.kind == Kind::CannotGetReferences && e.subject@ == issue_base(
                remote_prefix(remote_ref_path(remote@)),
                self@,
            ),
            repo.reliable() ==> r is Ok,
    {
        let namespace = Self::remote_namespace(remote);
        self.leaves_in(repo, namespace.as_str())
    }
}

} // verus!
