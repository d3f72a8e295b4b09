//! Finding look-alike images in a directory: perceptual hashes of the image
//! files, a cache of them kept as text, and the grouping of the files whose
//! hashes are within a Hamming distance of each other.
use vstd::prelude::*;

pub mod text;
pub mod cheetah;
pub mod imagehash;
pub mod cookiejar;
pub mod kitty;
pub mod lynx;
pub mod options;
pub mod path;

pub use options::Options;

verus! {
}
