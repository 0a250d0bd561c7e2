//! A regular expression engine that runs compiled patterns over text or bytes.
use vstd::prelude::*;

pub mod constants;
pub mod chars;
pub mod charset;
pub mod strdrive;
pub mod state;
pub mod drive;
pub mod ops_spec;
pub mod ops;
pub mod engine;
pub mod in_step;
pub mod bounds;
pub mod rerun;
pub mod semantics;

verus! {

/// The largest repeat count that a pattern can express; it stands for "no upper bound".
pub const MAXREPEAT: usize = 4294967295;

} // verus!
