//! Planning half of the batch dispatcher: task validation, slot alignment,
//! per-task resource offsets, uniform contents and dispatch sizes.
//!
//! The dispatcher accumulates independent block-compression tasks and later
//! issues them as one parallel-device job.  Everything the device consumes
//! is computed here from plain values; the owner performs the actual
//! resource creation and submission and owns their lifetime.

use vstd::prelude::*;
use crate::settings::BC7Settings;
use crate::variant::{CompressionVariant, spec_blocks_byte_size};
use crate::CodecError;

verus! {

/// One accepted compression task: a source texture region and a
/// destination storage region, both described by plain values.
pub struct CompressionTask {
    /// Source width in texels, a multiple of four.
    pub width: u32,
    /// Source height in texels, a multiple of four.
    pub height: u32,
    /// First source row, a multiple of four.
    pub texture_y_offset: u32,
    /// Byte offset of the blocks inside the destination region.
    pub blocks_offset: u32,
}

/// Accumulates tasks until a batch is planned; the task list drains with
/// every plan.
pub struct DispatchPlanner {
    /// Accepted, not yet planned tasks.
    pub tasks: Vec<CompressionTask>,
}

/// One planned dispatch: per-task slot offsets, uniform words and the
/// work-group grid covering the task's blocks with 8x8-texel groups.
pub struct PlannedDispatch {
    /// Byte offset of the dispatch's slot in the shared uniform region.
    pub uniform_offset: u32,
    /// Byte offset of the dispatch's slot in the shared settings region.
    pub setting_offset: u32,
    /// The four uniform words: width, height, first row, blocks offset in
    /// 32-bit units.
    pub uniforms: [u32; 4],
    /// Work groups along x.
    pub groups_x: u32,
    /// Work groups along y.
    pub groups_y: u32,
}

/// The size a shared region grows to: large enough for the batch, and
/// never smaller than it already is.
pub fn grown_region_size(current: u64, required: u64) -> (r: u64)
    ensures
        r >= current,
        r >= required,
        r == current || r == required,
{
    if required > current {
        required
    } else {
        current
    }
}

/// The least multiple of `alignment` that holds `size` bytes.
pub fn aligned_slot_size(size: usize, alignment: usize) -> (r: usize)
    requires
        1 <= alignment,
        size + alignment <= usize::MAX,
    ensures
        r as int % alignment as int == 0,
        size <= r < size + alignment,
{
    let q = (size + alignment - 1) / alignment;
    proof {
        vstd::arithmetic::div_mod::lemma_fundamental_div_mod(
            (size + alignment - 1) as int,
            alignment as int,
        );
        let s1: int = size as int + alignment as int - 1;
        let qi: int = q as int;
        let al: int = alignment as int;
        let rm: int = s1 % al;
        assert(s1 == al * qi + rm);
        assert(qi * al <= s1) by (nonlinear_arith)
            requires
                s1 == al * qi + rm,
                0 <= rm,
        ;
        assert(size <= qi * al) by (nonlinear_arith)
            requires
                s1 == al * qi + rm,
                rm < al,
                s1 == size + al - 1,
        ;
        vstd::arithmetic::div_mod::lemma_mod_multiples_basic(q as int, alignment as int);
    }
    q * alignment
}

/// Number of 8x8-texel work groups needed along one axis of `texels`.
pub fn workgroups_along(texels: u32) -> (r: u32)
    requires
        texels <= 0x3FFF_FF00,
    ensures
        r == ((texels as int + 3) / 4 + 7) / 8,
{
    let blocks = (texels + 3) / 4;
    (blocks + 7) / 8
}

/// The settings as the nineteen 32-bit words of their device layout, field
/// by field in declaration order.
pub fn settings_words(s: &BC7Settings) -> (r: [u32; 19])
    ensures
        forall|i: int| 0 <= i < 8 ==> r[i] == s.refine_iterations[i],
        forall|i: int| 8 <= i < 12 ==> r[i] == s.mode_selection[i - 8],
        r[12] == s.skip_mode2,
        r[13] == s.fast_skip_threshold_mode1,
        r[14] == s.fast_skip_threshold_mode3,
        r[15] == s.fast_skip_threshold_mode7,
        r[16] == s.mode45_channel0,
        r[17] == s.refine_iterations_channel,
        r[18] == s.channels,
{
    [
        s.refine_iterations[0],
        s.refine_iterations[1],
        s.refine_iterations[2],
        s.refine_iterations[3],
        s.refine_iterations[4],
        s.refine_iterations[5],
        s.refine_iterations[6],
        s.refine_iterations[7],
        s.mode_selection[0],
        s.mode_selection[1],
        s.mode_selection[2],
        s.mode_selection[3],
        s.skip_mode2,
        s.fast_skip_threshold_mode1,
        s.fast_skip_threshold_mode3,
        s.fast_skip_threshold_mode7,
        s.mode45_channel0,
        s.refine_iterations_channel,
        s.channels,
    ]
}

impl DispatchPlanner {
    /// An empty planner.
    pub fn new() -> (r: Self)
        ensures
            r.tasks@.len() == 0,
    {
        DispatchPlanner { tasks: Vec::new() }
    }

    /// Accepts one task after checking its preconditions: dimensions and
    /// row offset multiples of four, a device-writable destination, and a
    /// destination region large enough for the task's blocks at its
    /// offset.  A violation is reported at once and queues nothing.  The
    /// dimension bound is a machine limit: it keeps the block byte size
    /// inside 32-bit size arithmetic on every platform.
    pub fn add_compression_task(
        &mut self,
        variant: CompressionVariant,
        width: u32,
        height: u32,
        dest_buffer_size: u64,
        dest_is_storage: bool,
        texture_y_offset: u32,
        blocks_offset: u32,
    ) -> (r: Result<(), CodecError>)
        requires
            width <= 0x8000,
            height <= 0x8000,
        ensures
            r == Err::<(), CodecError>(CodecError::InvalidDimensions) <==> (width % 4 != 0
                || height % 4 != 0 || texture_y_offset % 4 != 0),
            r == Err::<(), CodecError>(CodecError::InvalidBufferSize) <==> (width % 4 == 0
                && height % 4 == 0 && texture_y_offset % 4 == 0 && (!dest_is_storage
                || blocks_offset as int + spec_blocks_byte_size(width as int, height as int)
                > dest_buffer_size)),
            r is Ok <==> (width % 4 == 0 && height % 4 == 0 && texture_y_offset % 4 == 0
                && dest_is_storage && blocks_offset as int + spec_blocks_byte_size(
                width as int,
                height as int,
            ) <= dest_buffer_size),
            r is Ok ==> final(self).tasks@ == old(self).tasks@.push(
                CompressionTask { width, height, texture_y_offset, blocks_offset },
            ),
            r is Err ==> final(self).tasks@ == old(self).tasks@,
    {
        if width % 4 != 0 || height % 4 != 0 || texture_y_offset % 4 != 0 {
            return Err(CodecError::InvalidDimensions);
        }
        if !dest_is_storage {
            return Err(CodecError::InvalidBufferSize);
        }
        proof {
            assert(spec_blocks_byte_size(width as int, height as int) <= 0x2001 * (0x2001 * 16))
                by (nonlinear_arith)
                requires
                    0 <= (width as int + 3) / 4 <= 0x2001,
                    0 <= (height as int + 3) / 4 <= 0x2001,
            ;
        }
        let required = variant.blocks_byte_size(width, height);
        if (blocks_offset as u64) + (required as u64) > dest_buffer_size {
            return Err(CodecError::InvalidBufferSize);
        }
        let task = CompressionTask { width, height, texture_y_offset, blocks_offset };
        self.tasks.push(task);
        Ok(())
    }

    /// Plans the accumulated batch: each task gets consecutive aligned
    /// slots in the two shared regions, its four uniform words, and a
    /// work-group grid of 8x8-texel groups covering its blocks.  The task
    /// list drains.
    pub fn plan(&mut self, uniform_slot: u32, setting_slot: u32) -> (r: Vec<PlannedDispatch>)
        requires
            uniform_slot <= 0x1_0000,
            setting_slot <= 0x1_0000,
            old(self).tasks@.len() <= 0x1000,
            forall|i: int|
                0 <= i < old(self).tasks@.len() ==> (#[trigger] old(self).tasks@[i]).width
                    <= 0x3FFF_F000 && old(self).tasks@[i].height <= 0x3FFF_F000,
        ensures
            final(self).tasks@.len() == 0,
            r@.len() == old(self).tasks@.len(),
            forall|i: int|
                0 <= i < r@.len() ==> (#[trigger] r@[i]).uniform_offset == i * uniform_slot
                    && r@[i].setting_offset == i * setting_slot,
            forall|i: int|
                0 <= i < r@.len() ==> (#[trigger] r@[i]).uniforms[0] == old(self).tasks@[i].width
                    && r@[i].uniforms[1] == old(self).tasks@[i].height && r@[i].uniforms[2] == old(
                    self,
                ).tasks@[i].texture_y_offset && r@[i].uniforms[3] == old(
                    self,
                ).tasks@[i].blocks_offset / 4,
            forall|i: int|
                0 <= i < r@.len() ==> (#[trigger] r@[i]).groups_x == ((old(
                    self,
                ).tasks@[i].width as int + 3) / 4 + 7) / 8 && r@[i].groups_y == ((old(
                    self,
                ).tasks@[i].height as int + 3) / 4 + 7) / 8,
    {
        let mut out: Vec<PlannedDispatch> = Vec::new();
        let n = self.tasks.len();
        let mut i: usize = 0;
        while i < n
            invariant
                i <= n,
                n == self.tasks@.len(),
                self.tasks@ == old(self).tasks@,
                uniform_slot <= 0x1_0000,
                setting_slot <= 0x1_0000,
                n <= 0x1000,
                forall|j: int|
                    0 <= j < n ==> (#[trigger] self.tasks@[j]).width <= 0x3FFF_F000
                        && self.tasks@[j].height <= 0x3FFF_F000,
                out@.len() == i,
                forall|j: int|
                    0 <= j < i ==> (#[trigger] out@[j]).uniform_offset == j * uniform_slot
                        && out@[j].setting_offset == j * setting_slot,
                forall|j: int|
                    0 <= j < i ==> (#[trigger] out@[j]).uniforms[0] == self.tasks@[j].width
                        && out@[j].uniforms[1] == self.tasks@[j].height && out@[j].uniforms[2]
                        == self.tasks@[j].texture_y_offset && out@[j].uniforms[3]
                        == self.tasks@[j].blocks_offset / 4,
                forall|j: int|
                    0 <= j < i ==> (#[trigger] out@[j]).groups_x == ((self.tasks@[j].width as int
                        + 3) / 4 + 7) / 8 && out@[j].groups_y == ((self.tasks@[j].height as int
                        + 3) / 4 + 7) / 8,
            decreases n - i,
        {
            let t = &self.tasks[i];
            proof {
                assert(i * uniform_slot <= 0x1000 * 0x1_0000) by (nonlinear_arith)
                    requires
                        0 <= i <= 0x1000,
                        0 <= uniform_slot <= 0x1_0000,
                ;
                assert(i * setting_slot <= 0x1000 * 0x1_0000) by (nonlinear_arith)
                    requires
                        0 <= i <= 0x1000,
                        0 <= setting_slot <= 0x1_0000,
                ;
            }
            let planned = PlannedDispatch {
                uniform_offset: (i as u32) * uniform_slot,
                setting_offset: (i as u32) * setting_slot,
                uniforms: [t.width, t.height, t.texture_y_offset, t.blocks_offset / 4],
                groups_x: workgroups_along(t.width),
                groups_y: workgroups_along(t.height),
            };
            out.push(planned);
            i = i + 1;
        }
        self.tasks = Vec::new();
        out
    }
}

} // verus!
