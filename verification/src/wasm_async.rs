//! States of the asyncify-based sleep of the wasm build.
use vstd::prelude::*;

verus! {

/// Where the asyncify machinery stands: running normally, unwinding the stack
/// to sleep, or rewinding it to resume.
#[derive(Debug, Clone, Copy, PartialEq, Eq)]
pub enum AsyncState {
    Normal,
    Unwind,
    Rewind,
}

} // verus!
