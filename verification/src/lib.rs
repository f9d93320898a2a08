//! A compact, self-describing binary encoding for dynamically typed data:
//! the value model, the encoder and decoder, the variable-length integers
//! they are built on, conversions to and from JSON values, and a cache that
//! interns repeated strings for a stream of values.

use vstd::prelude::*;

pub mod define;
pub mod encoded_data;
pub mod json;
pub mod locality;
pub mod roundtrip;
pub mod stream_compressor;
pub mod varint;

use encoded_data::EncodedData;

verus! {

pub struct Conf {}

pub struct Compressor {
    aliases: Vec<EncodedData>,
}

impl Compressor {
    /// The values that aliases stand for, by identifier.
    pub closed spec fn aliases(&self) -> Seq<EncodedData> {
        self.aliases@
    }

    /// A compressor that has defined no alias yet.
    pub fn new(conf: Conf) -> (r: Self)
        ensures
            r.aliases().len() == 0,
    {
        Self { aliases: Vec::new() }
    }

    pub fn compress() {
    }
}

} // verus!
