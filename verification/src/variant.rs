//! The supported block-compression variants and their size arithmetic.

use vstd::prelude::*;
use crate::settings::BC7Settings;

verus! {

/// A block-compression variant together with its encoder settings.
#[derive(Copy, Clone)]
pub enum CompressionVariant {
    /// The 16-byte-per-block format with full RGBA support.
    BC7(BC7Settings),
}

/// Blocks per row for a width rounded up to whole 4-texel columns.
pub open spec fn spec_blocks_x(width: int) -> int {
    (width + 3) / 4
}

/// Byte size of the compressed blocks of a `width` by `height` image:
/// one 16-byte block per 4x4 tile, dimensions rounded up.
pub open spec fn spec_blocks_byte_size(width: int, height: int) -> int {
    ((width + 3) / 4) * (((height + 3) / 4) * 16)
}

impl CompressionVariant {
    /// Byte size of one compressed block.
    pub fn block_byte_size(self) -> (r: u32)
        ensures
            r == 16,
    {
        match self {
            Self::BC7(..) => 16,
        }
    }

    /// Bytes per row of blocks for the given width, rounded up to whole
    /// 4-texel columns.
    pub fn bytes_per_row(self, width: u32) -> (r: u32)
        requires
            width <= 0x3FFF_FF00,
        ensures
            r == spec_blocks_x(width as int) * 16,
    {
        let blocks_per_row = (width + 3) / 4;
        blocks_per_row * self.block_byte_size()
    }

    /// Byte size required for all compressed blocks of the given
    /// dimensions, rounded up to whole 4x4 tiles.
    pub fn blocks_byte_size(self, width: u32, height: u32) -> (r: usize)
        requires
            width <= 0xFFFF_FF00,
            height <= 0xFFFF_FF00,
            spec_blocks_byte_size(width as int, height as int) <= usize::MAX,
        ensures
            r == spec_blocks_byte_size(width as int, height as int),
    {
        let block_width = ((width + 3) / 4) as usize;
        let block_height = ((height + 3) / 4) as usize;
        proof {
            assert(block_width as int == (width as int + 3) / 4);
            assert(block_height as int == (height as int + 3) / 4);
            assert(block_width * (block_height * 16) <= usize::MAX);
            assert((block_width as int * block_height as int) * 16 == block_width as int * (
            block_height as int * 16)) by (nonlinear_arith);
            assert(block_width * block_height <= usize::MAX) by (nonlinear_arith)
                requires
                    (block_width as int * block_height as int) * 16 <= usize::MAX,
                    0 <= block_height,
                    0 <= block_width,
            ;
        }
        let block_count = block_width * block_height;
        let block_size = self.block_byte_size() as usize;
        block_count * block_size
    }
}

} // verus!
