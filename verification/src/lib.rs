//! tickpack: a lossless codec for tick data columns.
//!
//! * [`price`]: finds the decimal scale and tick size of each block of prices
//!   and bit-packs tick deltas, falling back to Gorilla XOR per block. Prices
//!   are doubles, held as their IEEE 754 bit patterns (`f64::to_bits`), and come
//!   back bit for bit.
//! * [`timestamp`]: Gorilla delta-of-delta.
//! * [`size`]: frame-of-reference varints.
//! * [`gorilla`]: the reference Gorilla implementation used as the baseline.
//! * [`gen`]: deterministic synthetic tick generator for tests and benchmarks.
//! * [`report`]: what the benchmark and the inspection say of an encoded column.
//!
//! Below them stand [`bits`] (bit streams, varints, zigzag), [`grid`] (one grid
//! block), [`float`] (double precision arithmetic on bit patterns), [`gcd`], and
//! what the proofs rest on: [`bitseq`] (bit sequences as numbers) and [`words`]
//! (machine words).
//!
//! What holds of all this is stated in [`rounding`] and [`decimal`] (what double
//! precision does, and why detection finds a grid), [`cost`] (what a block of
//! prices costs, and so how it is written), [`wire`] and [`blocks`] (where each
//! field stands in the encoded bits) and [`walk`] (how the generator walks).

pub mod bits;
pub mod bitseq;
pub mod blocks;
pub mod cost;
pub mod decimal;
pub mod float;
pub mod gcd;
pub mod gen;
pub mod gorilla;
pub mod grid;
pub mod price;
pub mod report;
pub mod rounding;
pub mod size;
pub mod timestamp;
pub mod walk;
pub mod wire;
pub mod words;

use vstd::prelude::*;
use vstd::string::StringExecFns;

verus! {

/// Why a column could not be decoded.
#[derive(Debug, Clone, PartialEq, Eq)]
pub enum DecodeError {
    /// The input ended before the column did.
    UnexpectedEof,
    /// The input holds something no encoder writes.
    Corrupt(&'static str),
}

impl DecodeError {
    /// The error in words.
    pub fn message(&self) -> (text: String)
        ensures
            match *self {
                DecodeError::UnexpectedEof => text@ == "unexpected end of input"@,
                DecodeError::Corrupt(why) => text@ == "corrupt input: "@ + why@,
            },
    {
        match self {
            DecodeError::UnexpectedEof => "unexpected end of input".to_owned(),
            DecodeError::Corrupt(why) => {
                let mut text: String = "corrupt input: ".to_owned();
                text.append(why);
                text
            },
        }
    }
}

} // verus!
