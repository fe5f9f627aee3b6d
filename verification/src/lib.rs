//! A distributed issue tracker layered on an immutable, content-addressed
//! commit graph and a hierarchical namespace of named references.
//!
//! Issues are trees of immutable messages. Their state is recorded by "head"
//! and "leaf" references, which may exist in the local namespace and in one
//! namespace per remote. The crate provides the grammar of those reference
//! names, a bounded backward traversal of the message graph, and a garbage
//! collector that finds the references made redundant by others.
//!
//! Every function is stated against an abstract model of a repository: a map
//! from message ids to messages and a map from reference names to targets.
//! The capabilities of a repository are traits: [`object::Database`] for
//! looking up and creating messages, [`reference::Store`] for reading and
//! writing references, [`traversal::Traversible`] for walking the graph. The
//! issue handle and the garbage collector are written against these traits
//! only. [`memory::MemoryRepository`] offers all of them in memory.

pub mod base;
pub mod error;
pub mod gc;
pub mod issue;
pub mod iter;
pub mod memory;
pub mod object;
pub mod order;
pub mod reference;
pub mod remote;
pub mod repository;
pub mod traversal;
pub mod walk;

// A selection of types are reexported for more convenient access.
pub use base::Oid;
pub use error::Error;
pub use issue::Issue;
pub use memory::MemoryRepository;
pub use remote::RemoteExt;
pub use repository::RepositoryExt;
