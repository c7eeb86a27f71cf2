//! An exclusive, transferable lease on a single value.
//!
//! A [`Chain`] is an arena of links. [`Pass::new`] puts a value in a fresh
//! link; [`Pass::pass`] moves the value forward into a new link and leaves the
//! old handle empty but alive; [`Pass::discard`] hands a held value back to
//! the nearest living predecessor, or splices an empty link out of its chain.
//! At every moment at most one link of a chain holds the value.


pub mod model;
pub mod chain;

pub use model::{Link, LinkId};
pub use chain::{Chain, Pass};

