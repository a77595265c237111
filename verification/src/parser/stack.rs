use vstd::prelude::*;

use crate::enums::bencode::{BencodeDict, BencodeValue, Datum};

verus! {

/// A single frame on the parse stack, tracking one open container.
/// Each frame holds the container being built and its current state.
#[derive(Debug)]
pub enum ParseFrame {
    /// Collecting items into a list (terminated by 'e').
    List { items: Vec<BencodeValue> },
    /// Collecting key-value pairs into a dictionary (terminated by 'e').
    Dict {
        entries: BencodeDict,
        /// Temporarily holds the decoded key before its value arrives.
        pending_key: Option<Vec<u8>>,
    },
}

/// A heap-allocated stack of parse frames.
/// Every container (list/dict) pushes a frame; completing it pops and produces a value.
pub type ParseStack = Vec<ParseFrame>;

/// What an open container holds so far.
pub enum Partial {
    /// The items of a list read so far.
    List(Seq<Datum>),
    /// The pairs of a dictionary read so far, and a key still waiting for its value.
    Dict(Seq<(Seq<u8>, Datum)>, Option<Seq<u8>>),
}

/// The meanings of a sequence of values.
pub open spec fn values_model(items: Seq<BencodeValue>) -> Seq<Datum> {
    items.map_values(|v: BencodeValue| v@)
}

impl ParseFrame {
    /// What this frame holds so far.
    pub open spec fn model(self) -> Partial {
        match self {
            ParseFrame::List { items } => Partial::List(values_model(items@)),
            ParseFrame::Dict { entries, pending_key } => Partial::Dict(
                entries@,
                match pending_key {
                    Some(k) => Some(k@),
                    None => None,
                },
            ),
        }
    }
}

/// What each frame of a stack holds, bottom first.
pub open spec fn frames_model(stack: Seq<ParseFrame>) -> Seq<Partial> {
    stack.map_values(|f: ParseFrame| f.model())
}

} // verus!
