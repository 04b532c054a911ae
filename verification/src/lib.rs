//! Agent Illustrator: the verified core of a declarative illustration language.
//!
//! The library holds the document model, reference validation, constraint
//! collection and partitioning, keyframe state computation, the lint rules that
//! read the document, connection-routing options and the label markup parser.
//! Geometry in floating point (bounding boxes, routing paths, text measuring,
//! rotations) is left out; of the Cassowary solver only a thin adapter stands
//! outside the verified crate, and the error wording it reports is verified
//! here.

use vstd::prelude::*;

pub mod strings;
pub mod num;
pub mod ast;
pub mod collections;
pub mod error;
pub mod layout;

verus! {
}
