//! Key Script: the statement scanner and the standard prelude, verified.

pub mod intern;
pub mod primitive;
pub mod report;
pub mod scan;
pub mod wasm_async;
