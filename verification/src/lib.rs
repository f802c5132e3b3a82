//! A lattice-inspired public-key scheme in the learning-with-errors style.
//!
//! A randomly drawn [`keys::secret::Secret`] derives a noisy
//! [`keys::public::Public`]; the public key encrypts Unicode text one
//! character at a time, and the secret key recovers it.

use vstd::prelude::*;

pub mod b64;
pub mod bytes;
pub mod keys;
mod rng;
mod text;

verus! {

/// The recoverable failures of the scheme: a byte buffer whose length does
/// not fit the fixed layout, text that is not valid base64, and a decoded
/// value that is not a Unicode scalar.
#[derive(Clone, Copy, Debug, PartialEq, Eq, Structural)]
pub enum Error {
    InvalidLength,
    InvalidBase64,
    InvalidChar,
}

} // verus!
