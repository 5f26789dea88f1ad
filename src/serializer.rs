//! The encodings a store can be kept in. The payloads the store holds are
//! already encoded; the format decides how callers encode them and the file
//! extension of the log.
use vstd::prelude::*;

verus! {

/// An encoding, with the file extension its log is kept under.
#[derive(Debug, Clone)]
pub enum Serializers {
    Bin(String),
    Json(String),
    Yaml(String),
    Ron(String),
}

impl Serializers {
    /// The file extension carried by the format.
    pub fn extension(&self) -> (r: &String)
        ensures
            r == match self {
                Serializers::Bin(s) => s,
                Serializers::Json(s) => s,
                Serializers::Yaml(s) => s,
                Serializers::Ron(s) => s,
            },
    {
        match self {
            Serializers::Bin(s) => s,
            Serializers::Json(s) => s,
            Serializers::Yaml(s) => s,
            Serializers::Ron(s) => s,
        }
    }
}

} // verus!
