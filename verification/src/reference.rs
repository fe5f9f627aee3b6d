//! References and the grammar of their names.
//!
//! A head reference is named `<prefix>/<issue-id>/head`, a leaf reference
//! `<prefix>/<issue-id>/leaves/<message-id>`. The prefix is opaque; ids are
//! written in their canonical form.

use vstd::prelude::*;
use vstd::string::*;
use vstd::utf8::{decode_utf8, valid_utf8};
use crate::remote::{remote_ref_path, Name};
use crate::base::{Base, Oid, chars_of, is_hex_id};
use crate::error::{Error, Kind as ErrorKind};

verus! {

/// Kind of reference
#[derive(Clone, Copy, Debug, PartialEq, Eq, Hash)]
pub enum Kind {
    /// The reference is a head reference for an issue
    Head,
    /// The reference is a leaf reference for an issue
    Leaf(Oid),
}

/// Parts of a reference associated to an issue
#[derive(Clone, Copy, Debug, PartialEq, Eq, Hash)]
pub struct Parts<'p> {
    /// Path or namespace under which the issue resides
    pub prefix: &'p str,
    /// Id of the associated issue
    pub issue: Oid,
    /// Kind of reference
    pub kind: Kind,
}

/// The parts of a reference name as mathematical values.
pub struct PartsView {
    pub prefix: Seq<char>,
    pub issue: Oid,
    pub kind: Kind,
}

impl<'p> View for Parts<'p> {
    type V = PartsView;

    open spec fn view(&self) -> PartsView {
        PartsView { prefix: self.prefix@, issue: self.issue, kind: self.kind }
    }
}

/// The text `/head` that ends the name of a head reference.
pub open spec fn head_suffix() -> Seq<char> {
    seq!['/', 'h', 'e', 'a', 'd']
}

/// The text `/leaves/` between issue id and message id in the name of a leaf
/// reference.
pub open spec fn leaves_infix() -> Seq<char> {
    seq!['/', 'l', 'e', 'a', 'v', 'e', 's', '/']
}

/// Name of the head reference of an issue under a prefix.
pub open spec fn head_path(prefix: Seq<char>, issue: Oid) -> Seq<char> {
    prefix + seq!['/'] + issue.hex() + head_suffix()
}

/// Name of the leaf reference for a message of an issue under a prefix.
pub open spec fn leaf_path(prefix: Seq<char>, issue: Oid, leaf: Oid) -> Seq<char> {
    prefix + seq!['/'] + issue.hex() + leaves_infix() + leaf.hex()
}

/// The name that encodes the given parts.
pub open spec fn format(parts: PartsView) -> Seq<char> {
    match parts.kind {
        Kind::Head => head_path(parts.prefix, parts.issue),
        Kind::Leaf(leaf) => leaf_path(parts.prefix, parts.issue, leaf),
    }
}

/// Whether `path` has the shape of a head reference name.
pub open spec fn is_head_path(path: Seq<char>) -> bool {
    let n = path.len() as int;
    &&& n >= 46
    &&& path.subrange(n - 5, n) == head_suffix()
    &&& is_hex_id(path.subrange(n - 45, n - 5))
    &&& path[n - 46] == '/'
}

/// Whether `path` has the shape of a leaf reference name.
pub open spec fn is_leaf_path(path: Seq<char>) -> bool {
    let n = path.len() as int;
    &&& n >= 89
    &&& is_hex_id(path.subrange(n - 40, n))
    &&& path.subrange(n - 48, n - 40) == leaves_infix()
    &&& is_hex_id(path.subrange(n - 88, n - 48))
    &&& path[n - 89] == '/'
}

/// The parts that a reference name encodes, if it matches the grammar.
pub open spec fn parse(path: Seq<char>) -> Option<PartsView> {
    let n = path.len() as int;
    if is_head_path(path) {
        Some(
            PartsView {
                prefix: path.subrange(0, n - 46),
                issue: Oid::parse_hex(path.subrange(n - 45, n - 5))->0,
                kind: Kind::Head,
            },
        )
    } else if is_leaf_path(path) {
        Some(
            PartsView {
                prefix: path.subrange(0, n - 89),
                issue: Oid::parse_hex(path.subrange(n - 88, n - 48))->0,
                kind: Kind::Leaf(Oid::parse_hex(path.subrange(n - 40, n))->0),
            },
        )
    } else {
        None
    }
}

/// Formatting the parts of a name that matches the grammar gives the name
/// back.
pub proof fn lemma_format_parse(path: Seq<char>)
    requires
        parse(path) is Some,
    ensures
        format(parse(path)->0) == path,
{
    let n = path.len() as int;
    if is_head_path(path) {
        let h = path.subrange(n - 45, n - 5);
        Oid::lemma_parse_hex_some(h);
    } else {
        let h = path.subrange(n - 88, n - 48);
        let l = path.subrange(n - 40, n);
        Oid::lemma_parse_hex_some(h);
        Oid::lemma_parse_hex_some(l);
    }
}

/// Parsing the name that encodes some parts gives those parts back.
pub proof fn lemma_parse_format(parts: PartsView)
    ensures
        parse(format(parts)) == Some(parts),
{
    let path = format(parts);
    let n = path.len() as int;
    parts.issue.lemma_parse_hex_of_hex();
    match parts.kind {
        Kind::Head => {
            assert(path.subrange(n - 5, n) =~= head_suffix());
            assert(path.subrange(n - 45, n - 5) =~= parts.issue.hex());
            assert(path.subrange(0, n - 46) =~= parts.prefix);
        },
        Kind::Leaf(leaf) => {
            leaf.lemma_parse_hex_of_hex();
            assert(path.subrange(n - 40, n) =~= leaf.hex());
            assert(path.subrange(n - 48, n - 40) =~= leaves_infix());
            assert(path.subrange(n - 88, n - 48) =~= parts.issue.hex());
            assert(path.subrange(0, n - 89) =~= parts.prefix);
            // the last five characters are hexadecimal digits, not `/head`
            leaf.lemma_hex_is_hex_id();
        },
    }
}

/// Two sets of parts with the same name are the same parts.
pub proof fn lemma_format_injective(a: PartsView, b: PartsView)
    requires
        format(a) == format(b),
    ensures
        a == b,
{
    lemma_parse_format(a);
    lemma_parse_format(b);
}

/// Write the name of the head reference of an issue under a prefix.
pub fn head_ref_path(prefix: &str, issue: &Oid) -> (r: String)
    ensures
        r@ == head_path(prefix@, *issue),
{
    let mut out = String::from_str(prefix);
    let hex = issue.to_hex();
    proof {
        reveal_strlit("/");
        reveal_strlit("/head");
    }
    out.append("/");
    out.append(hex.as_str());
    out.append("/head");
    out
}

/// Write the name of the leaf reference for a message of an issue under a
/// prefix.
pub fn leaf_ref_path(prefix: &str, issue: &Oid, leaf: &Oid) -> (r: String)
    ensures
        r@ == leaf_path(prefix@, *issue, *leaf),
{
    let mut out = String::from_str(prefix);
    let hex = issue.to_hex();
    let leaf_hex = leaf.to_hex();
    proof {
        reveal_strlit("/");
        reveal_strlit("/leaves/");
    }
    out.append("/");
    out.append(hex.as_str());
    out.append("/leaves/");
    out.append(leaf_hex.as_str());
    out
}

impl<'p> Parts<'p> {
    /// Write the name that encodes these parts.
    pub fn path(&self) -> (r: String)
        ensures
            r@ == format(self@),
    {
        match self.kind {
            Kind::Head => head_ref_path(self.prefix, &self.issue),
            Kind::Leaf(leaf) => leaf_ref_path(self.prefix, &self.issue, &leaf),
        }
    }
}

/// Whether the five characters of `chars` from `at` on are `/head`.
fn has_head_suffix(chars: &Vec<char>, at: usize) -> (r: bool)
    requires
        at + 5 <= chars.len(),
    ensures
        r == (chars@.subrange(at as int, at + 5) == head_suffix()),
{
    let r = chars[at] == '/' && chars[at + 1] == 'h' && chars[at + 2] == 'e' && chars[at + 3] == 'a'
        && chars[at + 4] == 'd';
    proof {
        let s = chars@.subrange(at as int, at + 5);
        if r {
            assert(s =~= head_suffix());
        }
    }
    r
}

/// Whether the eight characters of `chars` from `at` on are `/leaves/`.
fn has_leaves_infix(chars: &Vec<char>, at: usize) -> (r: bool)
    requires
        at + 8 <= chars.len(),
    ensures
        r == (chars@.subrange(at as int, at + 8) == leaves_infix()),
{
    let r = chars[at] == '/' && chars[at + 1] == 'l' && chars[at + 2] == 'e' && chars[at + 3] == 'a'
        && chars[at + 4] == 'v' && chars[at + 5] == 'e' && chars[at + 6] == 's' && chars[at + 7]
        == '/';
    proof {
        let s = chars@.subrange(at as int, at + 8);
        if r {
            assert(s =~= leaves_infix());
        }
    }
    r
}

/// Extract the parts that a reference name encodes.
///
/// A name that does not match the grammar has no parts.
pub fn parse_path<'p>(path: &'p str) -> (r: Option<Parts<'p>>)
    ensures
        r matches Some(p) ==> parse(path@) == Some(p@),
        r is None ==> parse(path@) is None,
{
    let chars = chars_of(path);
    let n = chars.len();
    if n >= 46 && has_head_suffix(&chars, n - 5) && chars[n - 46] == '/' {
        if let Some(issue) = Oid::from_hex_chars(&chars, n - 45) {
            let prefix = path.substring_char(0, n - 46);
            return Some(Parts { prefix, issue, kind: Kind::Head });
        }
    }
    if n >= 89 && has_leaves_infix(&chars, n - 48) && chars[n - 89] == '/' {
        if let Some(leaf) = Oid::from_hex_chars(&chars, n - 40) {
            if let Some(issue) = Oid::from_hex_chars(&chars, n - 88) {
                let prefix = path.substring_char(0, n - 89);
                return Some(Parts { prefix, issue, kind: Kind::Leaf(leaf) });
            }
        }
    }
    None
}

/// A named pointer to a message.
///
/// A reference without a target is symbolic or broken.
#[derive(Debug)]
pub struct Reference {
    name: String,
    target: Option<Oid>,
}

/// A reference as mathematical values: its name and its target.
pub struct ReferenceView {
    pub name: Seq<char>,
    pub target: Option<Oid>,
}

impl View for Reference {
    type V = ReferenceView;

    closed spec fn view(&self) -> ReferenceView {
        ReferenceView { name: self.name@, target: self.target }
    }
}

impl Clone for Reference {
    fn clone(&self) -> (r: Reference)
        ensures
            r@ == self@,
    {
        Reference { name: self.name.clone(), target: self.target }
    }
}

impl Reference {
    /// A reference with the given name and target.
    pub fn new(name: String, target: Option<Oid>) -> (r: Reference)
        ensures
            r@ == (ReferenceView { name: name@, target }),
    {
        Reference { name, target }
    }

    /// A reference with the given name and no target.
    pub fn from_name(name: &str) -> (r: Reference)
        ensures
            r@ == (ReferenceView { name: name@, target: None }),
    {
        Reference { name: String::from_str(name), target: None }
    }

    /// The same reference, pointing to `target`.
    pub fn with_target(self, target: Oid) -> (r: Reference)
        ensures
            r@ == (ReferenceView { name: self@.name, target: Some(target) }),
    {
        Reference { name: self.name, target: Some(target) }
    }

    /// Retrieve the name of the reference
    pub fn name(&self) -> (r: &str)
        ensures
            r@ == self@.name,
    {
        self.name.as_str()
    }

    /// Retrieve the target of this reference
    ///
    /// A symbolic or broken reference has no target.
    pub fn target(&self) -> (r: Option<Oid>)
        ensures
            r == self@.target,
    {
        self.target
    }

    /// Extract the defining parts of this reference regarding the issue
    pub fn parts(&self) -> (r: Option<Parts<'_>>)
        ensures
            r matches Some(p) ==> parse(self@.name) == Some(p@),
            r is None ==> parse(self@.name) is None,
    {
        parse_path(self.name.as_str())
    }

    /// Check whether this is an issue head reference
    pub fn is_head(&self) -> (r: bool)
        ensures
            r == is_head_path(self@.name),
    {
        match self.parts() {
            Some(p) => match p.kind {
                Kind::Head => true,
                Kind::Leaf(_) => false,
            },
            None => false,
        }
    }

    /// Check whether this is an issue leaf reference
    pub fn is_leaf(&self) -> (r: bool)
        ensures
            r == (is_leaf_path(self@.name) && !is_head_path(self@.name)),
    {
        match self.parts() {
            Some(p) => match p.kind {
                Kind::Head => false,
                Kind::Leaf(_) => true,
            },
            None => false,
        }
    }
}

/// Whether `path` names something below `prefix`: the prefix, a slash, and
/// at least one more character.
pub open spec fn is_under(prefix: Seq<char>, path: Seq<char>) -> bool {
    &&& path.len() > prefix.len() + 1
    &&& path.subrange(0, prefix.len() as int) == prefix
    &&& path[prefix.len() as int] == '/'
}

/// Whether `x` is a reference of `refs`: its name with its target.
pub open spec fn in_store(refs: Map<Seq<char>, Option<Oid>>, x: ReferenceView) -> bool {
    refs.contains_key(x.name) && refs[x.name] == x.target
}

/// Whether the list `v` holds the reference `x`.
pub open spec fn lists(v: Seq<Reference>, x: ReferenceView) -> bool {
    exists|i: int| 0 <= i < v.len() && (#[trigger] v[i])@ == x
}

/// Whether no two references of a list have the same name.
pub open spec fn distinct_names(v: Seq<Reference>) -> bool {
    forall|i: int, j: int|
        0 <= i < j < v.len() ==> (#[trigger] v[i])@.name != (#[trigger] v[j])@.name
}

/// Whether `v` lists exactly the references of `refs` whose names satisfy
/// `wanted`, each once.
pub open spec fn is_selection(
    refs: Map<Seq<char>, Option<Oid>>,
    wanted: spec_fn(Seq<char>) -> bool,
    v: Seq<Reference>,
) -> bool {
    &&& distinct_names(v)
    &&& forall|i: int| 0 <= i < v.len() ==> in_store(refs, (#[trigger] v[i])@) && wanted(v[i]@.name)
    &&& forall|path: Seq<char>|
        refs.contains_key(path) && #[trigger] wanted(path) ==> lists(
            v,
            ReferenceView { name: path, target: refs[path] },
        )
}

/// Whether `v` lists exactly the references of `refs` below `prefix`, each
/// once.
pub open spec fn is_listing(
    refs: Map<Seq<char>, Option<Oid>>,
    prefix: Seq<char>,
    v: Seq<Reference>,
) -> bool {
    is_selection(refs, |path: Seq<char>| is_under(prefix, path), v)
}

/// The references of `all` that are marked, in the same order.
pub open spec fn pick(all: Seq<Reference>, marks: Seq<bool>) -> Seq<ReferenceView>
    decreases all.len(),
{
    if all.len() == 0 {
        Seq::empty()
    } else if marks.last() {
        pick(all.drop_last(), marks.drop_last()).push(all.last()@)
    } else {
        pick(all.drop_last(), marks.drop_last())
    }
}

/// The references of a list as mathematical values.
pub open spec fn views(v: Seq<Reference>) -> Seq<ReferenceView> {
    v.map_values(|r: Reference| r@)
}

/// What is picked was marked, and what was marked is picked.
pub proof fn lemma_pick_contains(all: Seq<Reference>, marks: Seq<bool>, x: ReferenceView)
    requires
        marks.len() == all.len(),
    ensures
        pick(all, marks).contains(x) <==> exists|k: int|
            0 <= k < all.len() && marks[k] && (#[trigger] all[k])@ == x,
    decreases all.len(),
{
    if all.len() > 0 {
        let rest = pick(all.drop_last(), marks.drop_last());
        lemma_pick_contains(all.drop_last(), marks.drop_last(), x);
        let n = all.len() - 1;
        if exists|k: int| 0 <= k < all.len() && marks[k] && (#[trigger] all[k])@ == x {
            let k = choose|k: int| 0 <= k < all.len() && marks[k] && (#[trigger] all[k])@ == x;
            if k == n {
                assert(pick(all, marks)[rest.len() as int] == x);
            } else {
                assert(marks.drop_last()[k] && all.drop_last()[k]@ == x);
                let i = choose|i: int| 0 <= i < rest.len() && rest[i] == x;
                assert(pick(all, marks)[i] == x);
            }
        }
    }
}

/// What is picked from a list with distinct names has distinct names.
pub proof fn lemma_pick_distinct(all: Seq<Reference>, marks: Seq<bool>)
    requires
        marks.len() == all.len(),
        distinct_names(all),
    ensures
        forall|i: int, j: int|
            0 <= i < j < pick(all, marks).len() ==> (#[trigger] pick(all, marks)[i]).name != (
            #[trigger] pick(all, marks)[j]).name,
    decreases all.len(),
{
    if all.len() > 0 {
        let rest = pick(all.drop_last(), marks.drop_last());
        lemma_pick_distinct(all.drop_last(), marks.drop_last());
        assert forall|i: int, j: int| 0 <= i < j < pick(all, marks).len() implies (#[trigger] pick(
            all,
            marks,
        )[i]).name != (#[trigger] pick(all, marks)[j]).name by {
            if j == rest.len() {
                lemma_pick_contains(all.drop_last(), marks.drop_last(), rest[i]);
            }
        }
    }
}

/// Copy the marked references of a list.
pub fn keep_marked(all: &Vec<Reference>, marks: &Vec<bool>) -> (out: Vec<Reference>)
    requires
        marks.len() == all.len(),
    ensures
        views(out@) == pick(all@, marks@),
{
    let mut out: Vec<Reference> = Vec::new();
    let mut i: usize = 0;
    while i < all.len()
        invariant
            i <= all.len(),
            marks.len() == all.len(),
            views(out@) == pick(all@.take(i as int), marks@.take(i as int)),
        decreases all.len() - i,
    {
        proof {
            assert(all@.take(i + 1).drop_last() =~= all@.take(i as int));
            assert(marks@.take(i + 1).drop_last() =~= marks@.take(i as int));
        }
        if marks[i] {
            let kept = all[i].clone();
            out.push(kept);
        }
        i += 1;
    }
    proof {
        assert(all@.take(all.len() as int) =~= all@);
        assert(marks@.take(marks.len() as int) =~= marks@);
    }
    out
}

/// The marked references of a listing are a selection: of the references
/// that are wanted, if those are the ones that are marked.
pub proof fn lemma_pick_selection(
    refs: Map<Seq<char>, Option<Oid>>,
    listed: spec_fn(Seq<char>) -> bool,
    wanted: spec_fn(Seq<char>) -> bool,
    all: Seq<Reference>,
    marks: Seq<bool>,
    out: Seq<Reference>,
)
    requires
        is_selection(refs, listed, all),
        marks.len() == all.len(),
        views(out) == pick(all, marks),
        forall|k: int| 0 <= k < all.len() ==> (marks[k] <==> wanted((#[trigger] all[k])@.name)),
        forall|path: Seq<char>| #[trigger] wanted(path) ==> listed(path),
    ensures
        is_selection(refs, wanted, out),
{
    lemma_pick_distinct(all, marks);
    assert forall|i: int| 0 <= i < out.len() implies in_store(refs, (#[trigger] out[i])@) && wanted(
        out[i]@.name,
    ) by {
        assert(views(out)[i] == out[i]@);
        lemma_pick_contains(all, marks, out[i]@);
    }
    assert(distinct_names(out)) by {
        assert forall|i: int, j: int| 0 <= i < j < out.len() implies (#[trigger] out[i])@.name != (
        #[trigger] out[j])@.name by {
            assert(views(out)[i] == out[i]@);
            assert(views(out)[j] == out[j]@);
        }
    }
    assert forall|path: Seq<char>| refs.contains_key(path) && #[trigger] wanted(path) implies lists(
        out,
        ReferenceView { name: path, target: refs[path] },
    ) by {
        let x = ReferenceView { name: path, target: refs[path] };
        lemma_pick_contains(all, marks, x);
    }
}

/// Two selections of references that no name is wanted by both make one
/// selection, of what either wants.
pub proof fn lemma_selection_union(
    refs: Map<Seq<char>, Option<Oid>>,
    first: spec_fn(Seq<char>) -> bool,
    second: spec_fn(Seq<char>) -> bool,
    both: spec_fn(Seq<char>) -> bool,
    a: Seq<Reference>,
    b: Seq<Reference>,
)
    requires
        is_selection(refs, first, a),
        is_selection(refs, second, b),
        forall|path: Seq<char>| !(#[trigger] first(path) && #[trigger] second(path)),
        forall|path: Seq<char>| #[trigger] both(path) <==> first(path) || second(path),
    ensures
        is_selection(refs, both, a + b),
{
    let c = a + b;
    assert forall|path: Seq<char>| refs.contains_key(path) && #[trigger] both(path) implies lists(
        c,
        ReferenceView { name: path, target: refs[path] },
    ) by {
        let x = ReferenceView { name: path, target: refs[path] };
        if first(path) {
            let i = choose|i: int| 0 <= i < a.len() && (#[trigger] a[i])@ == x;
            assert(c[i] == a[i]);
        } else {
            let i = choose|i: int| 0 <= i < b.len() && (#[trigger] b[i])@ == x;
            assert(c[a.len() + i] == b[i]);
        }
    }
}

/// A selection of what is wanted is a selection of whatever is wanted for
/// the same names.
pub proof fn lemma_selection_same(
    refs: Map<Seq<char>, Option<Oid>>,
    wanted: spec_fn(Seq<char>) -> bool,
    same: spec_fn(Seq<char>) -> bool,
    v: Seq<Reference>,
)
    requires
        is_selection(refs, wanted, v),
        forall|path: Seq<char>| #[trigger] same(path) <==> wanted(path),
    ensures
        is_selection(refs, same, v),
{
}

/// Whether a list of references holds one with the given name.
pub open spec fn lists_name(v: Seq<Reference>, name: Seq<char>) -> bool {
    exists|i: int| 0 <= i < v.len() && (#[trigger] v[i])@.name == name
}

/// For each reference of `b`, whether `a` holds none of its name.
pub open spec fn new_marks(a: Seq<Reference>, b: Seq<Reference>) -> Seq<bool> {
    Seq::new(b.len(), |k: int| !lists_name(a, b[k]@.name))
}

/// Append to `a` the references of `b` whose names `a` does not hold.
pub fn merge(a: Vec<Reference>, b: &Vec<Reference>) -> (out: Vec<Reference>)
    ensures
        views(out@) == views(a@) + pick(b@, new_marks(a@, b@)),
{
    let mut marks: Vec<bool> = Vec::new();
    let mut k: usize = 0;
    while k < b.len()
        invariant
            k <= b.len(),
            marks@ == new_marks(a@, b@).take(k as int),
        decreases b.len() - k,
    {
        let name = b[k].name();
        let mut known = false;
        let mut i: usize = 0;
        while i < a.len()
            invariant
                i <= a.len(),
                name@ == b@[k as int]@.name,
                known <==> exists|j: int| 0 <= j < i && (#[trigger] a@[j])@.name == name@,
            decreases a.len() - i,
        {
            if str_eq(a[i].name(), name) {
                known = true;
            }
            i += 1;
        }
        marks.push(!known);
        k += 1;
    }
    assert(marks@ =~= new_marks(a@, b@));
    let mut more = keep_marked(b, &marks);
    let mut out = a;
    out.append(&mut more);
    out
}

/// Two selections of references, merged, make one selection, of what either
/// wants.
pub proof fn lemma_selection_merge(
    refs: Map<Seq<char>, Option<Oid>>,
    first: spec_fn(Seq<char>) -> bool,
    second: spec_fn(Seq<char>) -> bool,
    both: spec_fn(Seq<char>) -> bool,
    a: Seq<Reference>,
    b: Seq<Reference>,
    out: Seq<Reference>,
)
    requires
        is_selection(refs, first, a),
        is_selection(refs, second, b),
        views(out) == views(a) + pick(b, new_marks(a, b)),
        forall|path: Seq<char>| #[trigger] both(path) <==> first(path) || second(path),
    ensures
        is_selection(refs, both, out),
{
    let marks = new_marks(a, b);
    let picked = pick(b, marks);
    lemma_pick_distinct(b, marks);
    assert(out.len() == a.len() + picked.len()) by {
        assert(views(out).len() == out.len());
    }
    assert forall|i: int| 0 <= i < out.len() implies (if i < a.len() {
        (#[trigger] out[i])@ == a[i]@
    } else {
        out[i]@ == picked[i - a.len()]
    }) by {
        assert(views(out)[i] == out[i]@);
    }
    assert forall|i: int| 0 <= i < out.len() implies in_store(refs, (#[trigger] out[i])@) && both(
        out[i]@.name,
    ) by {
        if !(i < a.len()) {
            let x = picked[i - a.len()];
            lemma_pick_contains(b, marks, x);
        }
    }
    assert forall|i: int, j: int| 0 <= i < j < out.len() implies (#[trigger] out[i])@.name != (
    #[trigger] out[j])@.name by {
        if j >= a.len() && i < a.len() {
            let x = picked[j - a.len()];
            lemma_pick_contains(b, marks, x);
        }
    }
    assert forall|path: Seq<char>| refs.contains_key(path) && #[trigger] both(path) implies lists(
        out,
        ReferenceView { name: path, target: refs[path] },
    ) by {
        let x = ReferenceView { name: path, target: refs[path] };
        if first(path) {
            let i = choose|i: int| 0 <= i < a.len() && (#[trigger] a[i])@ == x;
            assert(out[i]@ == x);
        } else {
            let k = choose|k: int| 0 <= k < b.len() && (#[trigger] b[k])@ == x;
            if marks[k] {
                lemma_pick_contains(b, marks, x);
                let j = choose|j: int| 0 <= j < picked.len() && picked[j] == x;
                assert(out[a.len() + j]@ == x);
            }
        }
    }
}

/// Whether `e` is an error of a store: a failure of a store that is not
/// reliable, or the name of a remote that is not valid UTF-8.
pub open spec fn is_store_error(e: Error, reliable: bool, names_ok: bool) -> bool {
    if e.kind == ErrorKind::ReferenceNameError {
        !names_ok
    } else {
        !reliable && (e.kind == ErrorKind::CannotGetRemotes || e.kind
            == ErrorKind::CannotGetReference || e.kind == ErrorKind::CannotGetReferences)
    }
}

/// Whether the name of every remote is valid UTF-8.
pub open spec fn names_valid(remotes: Seq<Seq<u8>>) -> bool {
    forall|i: int| 0 <= i < remotes.len() ==> valid_utf8(#[trigger] remotes[i])
}

/// One entry of a listing of references: the name of a reference, and its
/// target or the error that says why the target does not resolve.
#[derive(Debug)]
pub struct Entry {
    pub name: String,
    pub target: Result<Oid, Error>,
}

impl View for Entry {
    type V = ReferenceView;

    open spec fn view(&self) -> ReferenceView {
        ReferenceView {
            name: self.name@,
            target: match self.target {
                Ok(id) => Some(id),
                Err(_) => None,
            },
        }
    }
}

/// Whether `v` lists exactly the references of `refs` below `prefix`, each
/// once: with its target, or with an error that names it if it has none.
pub open spec fn is_entry_listing(
    refs: Map<Seq<char>, Option<Oid>>,
    prefix: Seq<char>,
    v: Seq<Entry>,
) -> bool {
    &&& forall|i: int, j: int|
        0 <= i < j < v.len() ==> (#[trigger] v[i])@.name != (#[trigger] v[j])@.name
    &&& forall|i: int|
        0 <= i < v.len() ==> in_store(refs, (#[trigger] v[i])@) && is_under(prefix, v[i]@.name)
    &&& forall|i: int|
        0 <= i < v.len() ==> ((#[trigger] v[i]).target matches Err(e) ==> e.kind
            == ErrorKind::CannotGetReference && e.subject@ == v[i]@.name)
    &&& forall|path: Seq<char>|
        refs.contains_key(path) && #[trigger] is_under(prefix, path) ==> exists|i: int|
            0 <= i < v.len() && (#[trigger] v[i])@ == (ReferenceView {
                name: path,
                target: refs[path],
            })
}

/// Turn the entries of a listing into references: an entry whose target
/// does not resolve becomes a reference without a target.
pub fn collapse(entries: &Vec<Entry>) -> (out: Vec<Reference>)
    ensures
        out@.len() == entries@.len(),
        forall|i: int| 0 <= i < out@.len() ==> (#[trigger] out@[i])@ == entries@[i]@,
{
    let mut out: Vec<Reference> = Vec::new();
    let mut i: usize = 0;
    while i < entries.len()
        invariant
            i <= entries.len(),
            out@.len() == i,
            forall|k: int| 0 <= k < i ==> (#[trigger] out@[k])@ == entries@[k]@,
        decreases entries.len() - i,
    {
        let target = match &entries[i].target {
            Ok(id) => Some(*id),
            Err(_) => None,
        };
        out.push(Reference::new(entries[i].name.clone(), target));
        i += 1;
    }
    out
}

/// The references that the entries of a listing turn into are a listing.
pub proof fn lemma_collapsed(
    refs: Map<Seq<char>, Option<Oid>>,
    prefix: Seq<char>,
    entries: Seq<Entry>,
    out: Seq<Reference>,
)
    requires
        is_entry_listing(refs, prefix, entries),
        out.len() == entries.len(),
        forall|i: int| 0 <= i < out.len() ==> (#[trigger] out[i])@ == entries[i]@,
    ensures
        is_listing(refs, prefix, out),
{
    let wanted = |path: Seq<char>| is_under(prefix, path);
    assert forall|i: int, j: int| 0 <= i < j < out.len() implies (#[trigger] out[i])@.name != (
    #[trigger] out[j])@.name by {
        assert(entries[i]@.name != entries[j]@.name);
    }
    assert forall|i: int| 0 <= i < out.len() implies in_store(refs, (#[trigger] out[i])@) && wanted(
        out[i]@.name,
    ) by {
        assert(in_store(refs, entries[i]@));
    }
    assert forall|path: Seq<char>| refs.contains_key(path) && #[trigger] wanted(path) implies lists(
        out,
        ReferenceView { name: path, target: refs[path] },
    ) by {
        let x = ReferenceView { name: path, target: refs[path] };
        assert(is_under(prefix, path));
        let i = choose|i: int| 0 <= i < entries.len() && (#[trigger] entries[i])@ == x;
        assert(out[i]@ == x);
    }
}

/// Whether `r` answers the question which reference of `refs` has the name
/// `path`. A reliable store always answers.
pub open spec fn is_lookup(
    refs: Map<Seq<char>, Option<Oid>>,
    path: Seq<char>,
    reliable: bool,
    r: Result<Option<Reference>, Error>,
) -> bool {
    &&& r matches Ok(Some(x)) ==> refs.contains_key(path) && x@ == (ReferenceView {
        name: path,
        target: refs[path],
    })
    &&& r matches Ok(None) ==> !refs.contains_key(path)
    &&& r matches Err(e) ==> e.kind == ErrorKind::CannotGetReference && e.subject@ == path
    &&& reliable ==> r is Ok
}

/// Whether two strings are equal.
pub fn str_eq(a: &str, b: &str) -> (r: bool)
    ensures
        r == (a@ == b@),
{
    let x = String::from_str(a);
    let y = String::from_str(b);
    x == y
}

/// Some entity that stores references
pub trait Store: Base {
    /// Retrieve a specific reference
    ///
    /// That no reference has the name is no error.
    fn get_reference(&self, path: &str) -> (r: Result<Option<Reference>, Error>)
        ensures
            is_lookup(self.refs(), path@, self.reliable(), r),
    ;

    /// Retrieve the references below a prefix
    ///
    /// Each reference is listed once, with its target or with the error
    /// that says that its target does not resolve: a failure of one entry
    /// is no failure of the listing.
    fn references(&self, prefix: &str) -> (r: Result<Vec<Entry>, Error>)
        ensures
            r matches Ok(v) ==> is_entry_listing(self.refs(), prefix@, v@),
            r matches Err(e) ==> e.kind == ErrorKind::CannotGetReferences && e.subject@ == prefix@,
            self.reliable() ==> r is Ok,
    ;

    /// Retrieve the references below a prefix, those with a target that
    /// does not resolve as references without a target
    fn listing(&self, prefix: &str) -> (r: Result<Vec<Reference>, Error>)
        ensures
            r matches Ok(v) ==> is_listing(self.refs(), prefix@, v@),
            r matches Err(e) ==> e.kind == ErrorKind::CannotGetReferences && e.subject@ == prefix@,
            self.reliable() ==> r is Ok,
    {
        let entries = match self.references(prefix) {
            Ok(v) => v,
            Err(e) => {
                return Err(e);
            },
        };
        let out = collapse(&entries);
        proof {
            lemma_collapsed(self.refs(), prefix@, entries@, out@);
        }
        Ok(out)
    }

    /// Update or create a new reference
    ///
    /// Without `overwrite`, the call fails if a reference of that name
    /// exists. A failed call changes nothing.
    fn set_reference(&mut self, name: &str, target: Oid, overwrite: bool, reflog_msg: &str) -> (r:
        Result<Reference, Error>)
        ensures
            r matches Ok(x) ==> x@ == (ReferenceView { name: name@, target: Some(target) })
                && final(self).refs() == old(self).refs().insert(name@, Some(target)),
            r matches Err(e) ==> e.kind == ErrorKind::CannotSetReference && e.subject@ == name@
                && final(self).refs() == old(self).refs(),
            !overwrite && old(self).refs().contains_key(name@) ==> r is Err,
            old(self).reliable() && (overwrite || !old(self).refs().contains_key(name@)) ==> r is Ok,
            final(self).commits() == old(self).commits(),
            final(self).remotes() == old(self).remotes(),
            final(self).reliable() == old(self).reliable(),
    ;

    /// Delete a reference
    ///
    /// A failed call changes nothing.
    fn delete_reference(&mut self, reference: &Reference) -> (r: Result<(), Error>)
        ensures
            r is Ok ==> old(self).refs().contains_key(reference@.name) && final(self).refs() == old(
                self,
            ).refs().remove(reference@.name),
            r matches Err(e) ==> e.kind == ErrorKind::CannotDeleteReference && e.subject@
                == reference@.name && final(self).refs() == old(self).refs(),
            old(self).reliable() && old(self).refs().contains_key(reference@.name) ==> r is Ok,
            final(self).commits() == old(self).commits(),
            final(self).remotes() == old(self).remotes(),
            final(self).reliable() == old(self).reliable(),
    ;

    /// Retrieve the names of all remotes
    fn remote_names(&self) -> (r: Result<Vec<Vec<u8>>, Error>)
        ensures
            r matches Ok(v) ==> v@.len() == self.remotes().len() && forall|i: int|
                0 <= i < v@.len() ==> (#[trigger] v@[i])@ == self.remotes()[i],
            r matches Err(e) ==> e.kind == ErrorKind::CannotGetRemotes,
            self.reliable() ==> r is Ok,
    ;

    /// Retrieve all git remote references' ref paths
    ///
    /// The call fails if the name of a remote is not valid UTF-8.
    fn remote_ref_paths(&self) -> (r: Result<Vec<String>, Error>)
        ensures
            r matches Ok(v) ==> names_valid(self.remotes()) && v@.len() == self.remotes().len()
                && forall|i: int|
                0 <= i < v@.len() ==> (#[trigger] v@[i])@ == remote_ref_path(
                    decode_utf8(self.remotes()[i]),
                ),
            r matches Err(e) ==> is_store_error(e, self.reliable(), names_valid(self.remotes()))
                && e.kind != ErrorKind::CannotGetReference && e.kind
                != ErrorKind::CannotGetReferences,
    {
        let names = match self.remote_names() {
            Ok(v) => v,
            Err(e) => {
                return Err(e);
            },
        };
        let mut out: Vec<String> = Vec::new();
        let mut i: usize = 0;
        while i < names.len()
            invariant
                i <= names.len(),
                out@.len() == i,
                names@.len() == self.remotes().len(),
                forall|k: int| 0 <= k < names@.len() ==> (#[trigger] names@[k])@ == self.remotes()[k],
                forall|k: int| 0 <= k < i ==> valid_utf8(#[trigger] self.remotes()[k]),
                forall|k: int|
                    0 <= k < i ==> (#[trigger] out@[k])@ == remote_ref_path(
                        decode_utf8(self.remotes()[k]),
                    ),
            decreases names.len() - i,
        {
            let name: &[u8] = names[i].as_slice();
            match name.ref_path() {
                Ok(path) => {
                    out.push(path);
                },
                Err(_) => {
                    return Err(Error::about(ErrorKind::ReferenceNameError, ""));
                },
            }
            i += 1;
        }
        Ok(out)
    }
}

/// For each reference of a list, whether it is a head reference.
pub open spec fn head_marks(v: Seq<Reference>) -> Seq<bool> {
    Seq::new(v.len(), |i: int| is_head_path(v[i]@.name))
}

/// For each reference of a list, whether it is a leaf reference.
pub open spec fn leaf_marks(v: Seq<Reference>) -> Seq<bool> {
    Seq::new(v.len(), |i: int| is_leaf_path(v[i]@.name) && !is_head_path(v[i]@.name))
}

/// Extension trait for lists of references
pub trait References {
    /// The references of the list.
    spec fn items(&self) -> Seq<Reference>;

    /// Yield only head references
    fn heads(self) -> (r: Vec<Reference>)
        ensures
            views(r@) == pick(self.items(), head_marks(self.items())),
    ;

    /// Yield only leaf references
    fn leaves(self) -> (r: Vec<Reference>)
        ensures
            views(r@) == pick(self.items(), leaf_marks(self.items())),
    ;
}

impl References for Vec<Reference> {
    open spec fn items(&self) -> Seq<Reference> {
        self@
    }

    fn heads(self) -> (r: Vec<Reference>) {
        let mut marks: Vec<bool> = Vec::new();
        let mut i: usize = 0;
        while i < self.len()
            invariant
                i <= self.len(),
                marks@ == head_marks(self@).take(i as int),
            decreases self.len() - i,
        {
            let m = self[i].is_head();
            marks.push(m);
            i += 1;
        }
        assert(marks@ =~= head_marks(self@));
        keep_marked(&self, &marks)
    }

    fn leaves(self) -> (r: Vec<Reference>) {
        let mut marks: Vec<bool> = Vec::new();
        let mut i: usize = 0;
        while i < self.len()
            invariant
                i <= self.len(),
                marks@ == leaf_marks(self@).take(i as int),
            decreases self.len() - i,
        {
            let m = self[i].is_leaf();
            marks.push(m);
            i += 1;
        }
        assert(marks@ =~= leaf_marks(self@));
        keep_marked(&self, &marks)
    }
}

} // verus!
