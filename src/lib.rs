//! Persistent records of virtual branches: the ownership model over line
//! ranges of files, the textual encodings of every stored field, and the
//! tolerant loading protocol with per-field defaults.
use vstd::prelude::*;

pub mod branch;
pub mod decimal;
pub mod file_ownership;
pub mod hex;
pub mod hunk;
pub mod id;
pub mod ownership;
pub mod record;
pub mod refname;
pub mod text;

pub use branch::{Branch, BranchCreateRequest, BranchUpdateRequest};
pub use file_ownership::FileOwnership;
pub use hex::Oid;
pub use hunk::{Hunk, HunkError};
pub use id::{BranchId, IdError};
pub use ownership::{Ownership, OwnershipParseError};
pub use record::{Cause, Content, Entry, Field, LoadError, Reader};
pub use refname::{RemoteRefname, VirtualRefname};

verus! {

} // verus!
