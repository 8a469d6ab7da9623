//! The save of the first format: every note in one record.
use vstd::prelude::*;

verus! {

/// The whole save of the first format.
#[derive(Debug)]
pub struct PersistentState {
    pub notes: Vec<String>,
    pub selected_note: u32,
}

} // verus!
