//! Tape format, CPU reference builder, and navigator.

pub(crate) mod builder;
pub(crate) mod diff;
pub mod escape;
pub(crate) mod document;
pub mod events;
mod error;
mod storage;
pub(crate) mod text;
pub(crate) mod visit;

pub use builder::{build_tape_cpu, Mode};
pub use diff::{diff_tapes, DiffField, TapeDiff};
pub use document::{Document, Kind, Node, NodeRepr, Resolved};
pub use error::Error;
pub use storage::{Tape, TapeStorage};
pub use visit::{Event, SpecEvent, Visitor};

use vstd::prelude::*;

verus! {

} // verus!
