//! A stored document: its id, its encoded payload and whether that payload
//! has reached the log.
use vstd::prelude::*;

verus! {

/// Whether a document's current payload has been written to the log.
#[derive(PartialEq, Eq, Structural, Clone, Copy, Debug)]
pub enum Status {
    Saved,
    NotSaved,
}

/// A document: an id and the encoded payload stored under it.
#[derive(Debug)]
pub struct Document {
    pub id: u128,
    pub data: Vec<u8>,
    pub status: Status,
}

} // verus!
