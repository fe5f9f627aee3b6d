//! Names of remotes and what is derived from them.

use vstd::prelude::*;
use vstd::string::*;
use vstd::utf8::{decode_utf8, encode_utf8, valid_utf8};
use core::str::Utf8Error;
use crate::base::Oid;

verus! {

/// The error of a conversion from bytes to a string.
#[verifier::external_type_specification]
#[verifier::external_body]
pub struct ExUtf8Error(Utf8Error);

/// `std::str::from_utf8`: the bytes as a string, if they are valid UTF-8.
/// The string is the one that the bytes encode.
#[verifier::external_body]
fn str_from_utf8(bytes: &[u8]) -> (r: Result<&str, Utf8Error>)
    ensures
        r is Ok <==> valid_utf8(bytes@),
        r matches Ok(s) ==> s@ == decode_utf8(bytes@),
{
    std::str::from_utf8(bytes)
}

/// The text `refs/remotes` below which the references of remotes reside.
pub open spec fn remotes_ref_base() -> Seq<char> {
    "refs/remotes"@
}

/// Reference prefix of the remote with the given name.
pub open spec fn remote_ref_path(name: Seq<char>) -> Seq<char> {
    remotes_ref_base() + seq!['/'] + name
}

/// Refspec for fetching one issue from the remote with the given name.
pub open spec fn issue_refspec_of(name: Seq<char>, issue: Oid) -> Seq<char> {
    "+refs/dit/"@ + issue.hex() + "/*:refs/remotes/"@ + name + "/dit/"@ + issue.hex() + "/*"@
}

/// Refspec for fetching all issues from the remote with the given name.
pub open spec fn all_issues_refspec_of(name: Seq<char>) -> Seq<char> {
    "+refs/dit/*:refs/remotes/"@ + name + "/dit/*"@
}

/// Name of a remote git repository
pub trait Name {
    /// The bytes of the name.
    spec fn bytes(&self) -> Seq<u8>;

    /// Representation of this name as a `&str`
    ///
    /// If this name can be represented as a `&str` without loss of
    /// information, this fn will return that representation.
    fn as_str(&self) -> (r: Result<&str, Utf8Error>)
        ensures
            r is Ok <==> valid_utf8(self.bytes()),
            r matches Ok(s) ==> s@ == decode_utf8(self.bytes()),
    ;

    /// Reference prefix for this repository
    ///
    /// This fn will return the reference prefix of this remote in the form
    /// of a path, like `refs/remotes/<remote-name>`. It fails where `as_str`
    /// fails.
    fn ref_path(&self) -> (r: Result<String, Utf8Error>)
        ensures
            r is Ok <==> valid_utf8(self.bytes()),
            r matches Ok(s) ==> s@ == remote_ref_path(decode_utf8(self.bytes())),
    {
        match self.as_str() {
            Ok(s) => {
                let mut out = String::from_str("refs/remotes");
                proof {
                    reveal_strlit("/");
                }
                out.append("/");
                out.append(s);
                Ok(out)
            },
            Err(e) => Err(e),
        }
    }
}

impl Name for &[u8] {
    open spec fn bytes(&self) -> Seq<u8> {
        self@
    }

    fn as_str(&self) -> (r: Result<&str, Utf8Error>) {
        str_from_utf8(*self)
    }
}

/// Container for remote names
pub trait Names {
    /// The names, as bytes.
    spec fn all(&self) -> Seq<Seq<u8>>;

    /// Get all remotes' names
    fn names(&self) -> (r: Vec<&[u8]>)
        ensures
            r@.len() == self.all().len(),
            forall|i: int| 0 <= i < r@.len() ==> (#[trigger] r@[i])@ == self.all()[i],
    ;
}

impl Names for Vec<Vec<u8>> {
    open spec fn all(&self) -> Seq<Seq<u8>> {
        self@.map_values(|n: Vec<u8>| n@)
    }

    fn names(&self) -> (r: Vec<&[u8]>) {
        let mut out: Vec<&[u8]> = Vec::new();
        let mut i: usize = 0;
        while i < self.len()
            invariant
                i <= self.len(),
                out@.len() == i,
                forall|k: int| 0 <= k < i ==> (#[trigger] out@[k])@ == self@[k]@,
            decreases self.len() - i,
        {
            out.push(self[i].as_slice());
            i += 1;
        }
        out
    }
}

impl Names for Vec<String> {
    open spec fn all(&self) -> Seq<Seq<u8>> {
        self@.map_values(|n: String| encode_utf8(n@))
    }

    fn names(&self) -> (r: Vec<&[u8]>) {
        let mut out: Vec<&[u8]> = Vec::new();
        let mut i: usize = 0;
        while i < self.len()
            invariant
                i <= self.len(),
                out@.len() == i,
                forall|k: int| 0 <= k < i ==> (#[trigger] out@[k])@ == encode_utf8(self@[k]@),
            decreases self.len() - i,
        {
            out.push(self[i].as_str().as_bytes());
            i += 1;
        }
        out
    }
}

/// Extension trait for remotes
pub trait RemoteExt {
    /// The bytes of the remote's name.
    spec fn name_bytes(&self) -> Seq<u8>;

    /// Get the refspec for a specific issue for this remote
    ///
    /// A refspec will only be returned if the remote has a (valid) name.
    fn issue_refspec(&self, issue: &Oid) -> (r: Option<String>)
        ensures
            r is Some <==> valid_utf8(self.name_bytes()),
            r matches Some(s) ==> s@ == issue_refspec_of(decode_utf8(self.name_bytes()), *issue),
    ;

    /// Get the refspec for all issue for this remote
    ///
    /// A refspec will only be returned if the remote has a (valid) name.
    fn all_issues_refspec(&self) -> (r: Option<String>)
        ensures
            r is Some <==> valid_utf8(self.name_bytes()),
            r matches Some(s) ==> s@ == all_issues_refspec_of(decode_utf8(self.name_bytes())),
    ;
}

impl RemoteExt for &[u8] {
    open spec fn name_bytes(&self) -> Seq<u8> {
        self@
    }

    fn issue_refspec(&self, issue: &Oid) -> (r: Option<String>) {
        match str_from_utf8(*self) {
            Ok(name) => {
                let hex = issue.to_hex();
                let mut out = String::from_str("+refs/dit/");
                out.append(hex.as_str());
                out.append("/*:refs/remotes/");
                out.append(name);
                out.append("/dit/");
                out.append(hex.as_str());
                out.append("/*");
                Some(out)
            },
            Err(_) => None,
        }
    }

    fn all_issues_refspec(&self) -> (r: Option<String>) {
        match str_from_utf8(*self) {
            Ok(name) => {
                let mut out = String::from_str("+refs/dit/*:refs/remotes/");
                out.append(name);
                out.append("/dit/*");
                Some(out)
            },
            Err(_) => None,
        }
    }
}

} // verus!
