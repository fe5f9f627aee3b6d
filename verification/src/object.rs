//! Object related facilities

use vstd::prelude::*;
use crate::base::{Base, Oid};
use crate::error::{Error, Kind};

pub mod commit;

use commit::{Commit, CommitView};

verus! {

/// An object database
pub trait Database: Base {
    /// Retrieve a specific commit
    ///
    /// The lookup succeeds only for the ids of known messages. A store that
    /// is reliable fails for no other id.
    fn find_commit(&self, oid: Oid) -> (r: Result<Commit, Error>)
        ensures
            r matches Ok(c) ==> self.commits().contains_key(oid) && c.id == oid && c@
                == self.commits()[oid],
            r matches Err(e) ==> e.kind == Kind::CannotGetCommit && e.subject@ == oid.hex(),
            self.reliable() && self.commits().contains_key(oid) ==> r is Ok,
    ;

    /// Create a new commit
    ///
    /// The new message gets an id that no known message has. Nothing else
    /// changes, and nothing changes at all on failure.
    fn commit(
        &mut self,
        author: &str,
        committer: &str,
        message: &str,
        tree: Oid,
        parents: &Vec<Oid>,
    ) -> (r: Result<Oid, Error>)
        ensures
            r matches Ok(id) ==> !old(self).commits().contains_key(id) && final(self).commits()
                == old(self).commits().insert(
                id,
                CommitView {
                    author: author@,
                    committer: committer@,
                    message: message@,
                    tree,
                    parents: parents@,
                },
            ),
            r matches Err(e) ==> e.kind == Kind::CannotCreateMessage && final(self).commits()
                == old(self).commits(),
            final(self).refs() == old(self).refs(),
            final(self).remotes() == old(self).remotes(),
            final(self).reliable() == old(self).reliable(),
    ;
}

} // verus!
