//! Registry of named backup items: the item model with its derived
//! environment-variable scan, a canonical JSON metadata codec with a proved
//! round trip, a name resolver, on-demand category grouping, and the
//! per-item outcome engine for batch backup, restore and clean runs.
//!
//! Filesystem work (copying, removing, size queries, permission probes) is
//! left to the surrounding program; this crate decides what is attempted and
//! what each observed result means, and proves those decisions correct.

pub mod batch;
pub mod category;
pub mod codec;
pub mod decode;
pub mod error;
pub mod resolver;
pub mod item;
pub mod text;
pub mod tolerant;
