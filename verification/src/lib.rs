//! A compact geographic-coordinate codec.
//!
//! A position is held as a pair of 56-bit fixed-point integers, one per axis.
//! A code is a short string over a 32-symbol alphabet; each symbol carries five
//! bits, split unevenly between latitude and longitude, the split alternating
//! from one position to the next. Decoding a code gives back the cell that the
//! code names: its lower corner, its centre, and its half-extent on each axis.

pub mod alphabet;
pub mod interleave;
pub mod layout;
pub mod codec;
pub mod laws;

pub use crate::codec::{CodecError, Coordinates, Decoded};
pub use crate::interleave::{de_interleave, interleave};
