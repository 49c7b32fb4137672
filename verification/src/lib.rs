//! A verified block-compression codec for the fixed 16-byte texture block
//! format with eight layouts ("modes"): a software encoder that searches
//! modes, partitions and quantization levels per 4x4 tile, a bit-exact
//! software decoder used to verify reconstructions, the shared read-only
//! tables, the bit-stream primitives both sides use, and the planning
//! logic of the batch dispatcher that offloads the same transform to a
//! parallel compute device.

use vstd::prelude::*;

pub mod bits;
pub mod decode;
pub mod dispatch;
pub mod encode;
pub mod optimize;
pub mod settings;
pub mod tables;
pub mod variant;

verus! {

/// A rejected call: the caller broke one of the documented preconditions.
#[derive(Copy, Clone, Debug, Eq, PartialEq)]
pub enum CodecError {
    /// A width or height that is not a multiple of four.
    InvalidDimensions,
    /// A source or destination buffer whose length does not match.
    InvalidBufferSize,
    /// A settings bundle outside the accepted shape.
    InvalidSettings,
}

} // verus!
