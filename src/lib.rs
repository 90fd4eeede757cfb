//! Operational transformation for rich text: attributed delta operations, their
//! composition, transformation, inversion and application, the editing rules run on a
//! keystroke, and the bookkeeping of a document's revisions.

pub mod attributes;
pub mod delta;
pub mod document;
pub mod extensions;
pub mod json;
pub mod laws;
pub mod operation;
pub mod rev;
pub mod sync;
pub mod text;
