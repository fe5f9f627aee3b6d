//! Messages, as stored in the object database.

use vstd::prelude::*;
use crate::base::Oid;

verus! {

/// A message: one immutable node of the commit graph.
///
/// The first parent is the primary lineage of the message.
#[derive(Debug)]
pub struct Commit {
    pub id: Oid,
    pub author: String,
    pub committer: String,
    pub message: String,
    pub tree: Oid,
    pub parents: Vec<Oid>,
}

/// What a message holds, as mathematical values.
pub struct CommitView {
    pub author: Seq<char>,
    pub committer: Seq<char>,
    pub message: Seq<char>,
    pub tree: Oid,
    pub parents: Seq<Oid>,
}

impl View for Commit {
    type V = CommitView;

    open spec fn view(&self) -> CommitView {
        CommitView {
            author: self.author@,
            committer: self.committer@,
            message: self.message@,
            tree: self.tree,
            parents: self.parents@,
        }
    }
}

/// Copy a list of ids.
pub fn copy_ids(ids: &Vec<Oid>) -> (r: Vec<Oid>)
    ensures
        r@ == ids@,
{
    let mut out: Vec<Oid> = Vec::new();
    let mut i: usize = 0;
    while i < ids.len()
        invariant
            i <= ids.len(),
            out@ == ids@.take(i as int),
        decreases ids.len() - i,
    {
        out.push(ids[i]);
        i += 1;
    }
    out
}

impl Clone for Commit {
    fn clone(&self) -> (r: Commit)
        ensures
            r.id == self.id,
            r@ == self@,
    {
        Commit {
            id: self.id,
            author: self.author.clone(),
            committer: self.committer.clone(),
            message: self.message.clone(),
            tree: self.tree,
            parents: copy_ids(&self.parents),
        }
    }
}

impl Commit {
    /// Retrieve the commit id
    pub fn id(&self) -> (r: Oid)
        ensures
            r == self.id,
    {
        self.id
    }

    /// Retrieve the author of the commit
    pub fn author(&self) -> (r: &str)
        ensures
            r@ == self@.author,
    {
        self.author.as_str()
    }

    /// Retrieve the committer of the commit
    pub fn committer(&self) -> (r: &str)
        ensures
            r@ == self@.committer,
    {
        self.committer.as_str()
    }

    /// Retrieve the full commit message
    pub fn message(&self) -> (r: &str)
        ensures
            r@ == self@.message,
    {
        self.message.as_str()
    }

    /// Retrieve the ids of this commit's parents
    pub fn parent_ids(&self) -> (r: &Vec<Oid>)
        ensures
            r@ == self@.parents,
    {
        &self.parents
    }

    /// Retrieve this commit's tree's id
    pub fn tree_id(&self) -> (r: Oid)
        ensures
            r == self@.tree,
    {
        self.tree
    }
}

} // verus!
