//! Exact edit-distance alignment of byte sequences.
//!
//! A query is aligned with a target under one of three modes: against the
//! whole target, against a stretch that starts at the first target symbol,
//! or against any stretch. The distance is the least number of single-symbol
//! insertions, deletions and substitutions; on request the places of the
//! optimal alignments and the operations of one optimal path are reported
//! too. The matrix behind it is computed 64 rows at a time, in machine
//! words, and only inside the band that a distance bound leaves open.

pub mod align;
pub mod alphabet;
pub mod band;
pub mod block;
pub mod cover;
pub mod distance;
pub mod edit;
pub mod laws;
pub mod locate;
pub mod matrix;
pub mod pattern;
pub mod report;
pub mod runs;
pub mod semantics;
pub mod sweep;
pub mod text;
pub mod traceback;

pub use crate::align::{align, align_within, compute_alignment, AlignError, Alignment};
pub use crate::edit::{replays, Operation};
pub use crate::runs::{decode_runs, encode_runs, Run};
pub use crate::semantics::{AlignMode, AlignTask};
pub use crate::text::{encode_operations_as_text, runs_to_text, text_to_runs};
