//! A braid: a directed acyclic graph of beads in which a bead names only
//! its direct predecessors as parents, with the relations derived from it.

pub mod ancestry;
pub mod bead;
pub mod braid;
pub mod dag;
pub mod derived;
pub mod error;
pub mod hash;
pub mod index;
pub mod laws;
pub mod model;

pub use bead::{Bead, Payload};
pub use braid::Braid;
pub use derived::Derived;
pub use error::{BeadNotFound, BraidError, ErrorKind};
