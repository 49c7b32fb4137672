//! Per-session encoder configuration: which modes run, how many refinement
//! iterations each gets, and how many ranked partition candidates the
//! partitioned modes try.  The array lengths are fixed at one slot per mode
//! whatever subset of modes is enabled.

use vstd::prelude::*;

verus! {

/// Immutable per-compression-session settings.
#[derive(Copy, Clone, Debug, Eq, PartialEq)]
pub struct BC7Settings {
    /// Refinement iterations per mode.
    pub refine_iterations: [u32; 8],
    /// Enables mode groups: 0 and 2; 1, 3 and 7; 4 and 5; 6.
    pub mode_selection: [u32; 4],
    /// Skips the costly three-subset mode 2 when nonzero.
    pub skip_mode2: u32,
    /// Ranked partition candidates tried by mode 1; 0 disables the mode.
    pub fast_skip_threshold_mode1: u32,
    /// Ranked partition candidates tried by mode 3; 0 disables the mode.
    pub fast_skip_threshold_mode3: u32,
    /// Ranked partition candidates tried by mode 7; 0 disables the mode.
    pub fast_skip_threshold_mode7: u32,
    /// First rotation candidate of the dual-index modes.
    pub mode45_channel0: u32,
    /// Refinement iterations of the scalar channel of modes 4 and 5.
    pub refine_iterations_channel: u32,
    /// Channels the input carries: 3 for opaque content, 4 with alpha.
    pub channels: u32,
}

/// A settings bundle the encoder accepts: candidate counts fit the 64
/// partitions and the channel count is 3 or 4.
pub open spec fn spec_settings_valid(s: BC7Settings) -> bool {
    &&& s.fast_skip_threshold_mode1 <= 64
    &&& s.fast_skip_threshold_mode3 <= 64
    &&& s.fast_skip_threshold_mode7 <= 64
    &&& (s.channels == 3 || s.channels == 4)
    &&& s.mode45_channel0 <= 4
}

impl BC7Settings {
    /// The fastest preset for opaque content: mode 6 only.
    pub fn opaque_ultra_fast() -> (r: Self)
        ensures
            spec_settings_valid(r),
            r == (BC7Settings {
                channels: 3,
                mode_selection: [0, 0, 0, 1],
                skip_mode2: 1,
                fast_skip_threshold_mode1: 3,
                fast_skip_threshold_mode3: 1,
                fast_skip_threshold_mode7: 0,
                mode45_channel0: 0,
                refine_iterations_channel: 0,
                refine_iterations: [2, 2, 2, 1, 2, 2, 1, 0],
            }),
    {
        Self {
            channels: 3,
            mode_selection: [0, 0, 0, 1],
            skip_mode2: 1,
            fast_skip_threshold_mode1: 3,
            fast_skip_threshold_mode3: 1,
            fast_skip_threshold_mode7: 0,
            mode45_channel0: 0,
            refine_iterations_channel: 0,
            refine_iterations: [2, 2, 2, 1, 2, 2, 1, 0],
        }
    }

    /// A very fast preset for opaque content.
    pub fn opaque_very_fast() -> (r: Self)
        ensures
            spec_settings_valid(r),
            r == (BC7Settings {
                channels: 3,
                mode_selection: [0, 1, 0, 1],
                skip_mode2: 1,
                fast_skip_threshold_mode1: 3,
                fast_skip_threshold_mode3: 1,
                fast_skip_threshold_mode7: 0,
                mode45_channel0: 0,
                refine_iterations_channel: 0,
                refine_iterations: [2, 2, 2, 1, 2, 2, 1, 0],
            }),
    {
        Self {
            channels: 3,
            mode_selection: [0, 1, 0, 1],
            skip_mode2: 1,
            fast_skip_threshold_mode1: 3,
            fast_skip_threshold_mode3: 1,
            fast_skip_threshold_mode7: 0,
            mode45_channel0: 0,
            refine_iterations_channel: 0,
            refine_iterations: [2, 2, 2, 1, 2, 2, 1, 0],
        }
    }

    /// A fast preset for opaque content.
    pub fn opaque_fast() -> (r: Self)
        ensures
            spec_settings_valid(r),
            r == (BC7Settings {
                channels: 3,
                mode_selection: [0, 1, 0, 1],
                skip_mode2: 1,
                fast_skip_threshold_mode1: 12,
                fast_skip_threshold_mode3: 4,
                fast_skip_threshold_mode7: 0,
                mode45_channel0: 0,
                refine_iterations_channel: 0,
                refine_iterations: [2, 2, 2, 1, 2, 2, 2, 0],
            }),
    {
        Self {
            channels: 3,
            mode_selection: [0, 1, 0, 1],
            skip_mode2: 1,
            fast_skip_threshold_mode1: 12,
            fast_skip_threshold_mode3: 4,
            fast_skip_threshold_mode7: 0,
            mode45_channel0: 0,
            refine_iterations_channel: 0,
            refine_iterations: [2, 2, 2, 1, 2, 2, 2, 0],
        }
    }

    /// The balanced preset for opaque content.
    pub fn opaque_basic() -> (r: Self)
        ensures
            spec_settings_valid(r),
            r == (BC7Settings {
                channels: 3,
                mode_selection: [1, 1, 1, 1],
                skip_mode2: 1,
                fast_skip_threshold_mode1: 12,
                fast_skip_threshold_mode3: 8,
                fast_skip_threshold_mode7: 0,
                mode45_channel0: 0,
                refine_iterations_channel: 2,
                refine_iterations: [2, 2, 2, 2, 2, 2, 2, 0],
            }),
    {
        Self {
            channels: 3,
            mode_selection: [1, 1, 1, 1],
            skip_mode2: 1,
            fast_skip_threshold_mode1: 12,
            fast_skip_threshold_mode3: 8,
            fast_skip_threshold_mode7: 0,
            mode45_channel0: 0,
            refine_iterations_channel: 2,
            refine_iterations: [2, 2, 2, 2, 2, 2, 2, 0],
        }
    }

    /// The most exhaustive preset for opaque content.
    pub fn opaque_slow() -> (r: Self)
        ensures
            spec_settings_valid(r),
            r == (BC7Settings {
                channels: 3,
                mode_selection: [1, 1, 1, 1],
                skip_mode2: 0,
                fast_skip_threshold_mode1: 64,
                fast_skip_threshold_mode3: 64,
                fast_skip_threshold_mode7: 0,
                mode45_channel0: 0,
                refine_iterations_channel: 4,
                refine_iterations: [4, 4, 4, 4, 4, 4, 4, 0],
            }),
    {
        Self {
            channels: 3,
            mode_selection: [1, 1, 1, 1],
            skip_mode2: 0,
            fast_skip_threshold_mode1: 64,
            fast_skip_threshold_mode3: 64,
            fast_skip_threshold_mode7: 0,
            mode45_channel0: 0,
            refine_iterations_channel: 4,
            refine_iterations: [4, 4, 4, 4, 4, 4, 4, 0],
        }
    }

    /// The fastest preset for content with alpha.
    pub fn alpha_ultrafast() -> (r: Self)
        ensures
            spec_settings_valid(r),
            r == (BC7Settings {
                channels: 4,
                mode_selection: [0, 0, 1, 1],
                skip_mode2: 1,
                fast_skip_threshold_mode1: 0,
                fast_skip_threshold_mode3: 0,
                fast_skip_threshold_mode7: 4,
                mode45_channel0: 3,
                refine_iterations_channel: 1,
                refine_iterations: [2, 1, 2, 1, 1, 1, 2, 2],
            }),
    {
        Self {
            channels: 4,
            mode_selection: [0, 0, 1, 1],
            skip_mode2: 1,
            fast_skip_threshold_mode1: 0,
            fast_skip_threshold_mode3: 0,
            fast_skip_threshold_mode7: 4,
            mode45_channel0: 3,
            refine_iterations_channel: 1,
            refine_iterations: [2, 1, 2, 1, 1, 1, 2, 2],
        }
    }

    /// A very fast preset for content with alpha.
    pub fn alpha_very_fast() -> (r: Self)
        ensures
            spec_settings_valid(r),
            r == (BC7Settings {
                channels: 4,
                mode_selection: [0, 1, 1, 1],
                skip_mode2: 1,
                fast_skip_threshold_mode1: 0,
                fast_skip_threshold_mode3: 0,
                fast_skip_threshold_mode7: 4,
                mode45_channel0: 3,
                refine_iterations_channel: 2,
                refine_iterations: [2, 1, 2, 1, 2, 2, 2, 2],
            }),
    {
        Self {
            channels: 4,
            mode_selection: [0, 1, 1, 1],
            skip_mode2: 1,
            fast_skip_threshold_mode1: 0,
            fast_skip_threshold_mode3: 0,
            fast_skip_threshold_mode7: 4,
            mode45_channel0: 3,
            refine_iterations_channel: 2,
            refine_iterations: [2, 1, 2, 1, 2, 2, 2, 2],
        }
    }

    /// A fast preset for content with alpha.
    pub fn alpha_fast() -> (r: Self)
        ensures
            spec_settings_valid(r),
            r == (BC7Settings {
                channels: 4,
                mode_selection: [0, 1, 1, 1],
                skip_mode2: 1,
                fast_skip_threshold_mode1: 4,
                fast_skip_threshold_mode3: 4,
                fast_skip_threshold_mode7: 8,
                mode45_channel0: 3,
                refine_iterations_channel: 2,
                refine_iterations: [2, 1, 2, 1, 2, 2, 2, 2],
            }),
    {
        Self {
            channels: 4,
            mode_selection: [0, 1, 1, 1],
            skip_mode2: 1,
            fast_skip_threshold_mode1: 4,
            fast_skip_threshold_mode3: 4,
            fast_skip_threshold_mode7: 8,
            mode45_channel0: 3,
            refine_iterations_channel: 2,
            refine_iterations: [2, 1, 2, 1, 2, 2, 2, 2],
        }
    }

    /// The balanced preset for content with alpha.
    pub fn alpha_basic() -> (r: Self)
        ensures
            spec_settings_valid(r),
            r == (BC7Settings {
                channels: 4,
                mode_selection: [1, 1, 1, 1],
                skip_mode2: 1,
                fast_skip_threshold_mode1: 12,
                fast_skip_threshold_mode3: 8,
                fast_skip_threshold_mode7: 8,
                mode45_channel0: 0,
                refine_iterations_channel: 2,
                refine_iterations: [2, 2, 2, 2, 2, 2, 2, 2],
            }),
    {
        Self {
            channels: 4,
            mode_selection: [1, 1, 1, 1],
            skip_mode2: 1,
            fast_skip_threshold_mode1: 12,
            fast_skip_threshold_mode3: 8,
            fast_skip_threshold_mode7: 8,
            mode45_channel0: 0,
            refine_iterations_channel: 2,
            refine_iterations: [2, 2, 2, 2, 2, 2, 2, 2],
        }
    }

    /// The most exhaustive preset for content with alpha.
    pub fn alpha_slow() -> (r: Self)
        ensures
            spec_settings_valid(r),
            r == (BC7Settings {
                channels: 4,
                mode_selection: [1, 1, 1, 1],
                skip_mode2: 0,
                fast_skip_threshold_mode1: 64,
                fast_skip_threshold_mode3: 64,
                fast_skip_threshold_mode7: 64,
                mode45_channel0: 0,
                refine_iterations_channel: 4,
                refine_iterations: [4, 4, 4, 4, 4, 4, 4, 4],
            }),
    {
        Self {
            channels: 4,
            mode_selection: [1, 1, 1, 1],
            skip_mode2: 0,
            fast_skip_threshold_mode1: 64,
            fast_skip_threshold_mode3: 64,
            fast_skip_threshold_mode7: 64,
            mode45_channel0: 0,
            refine_iterations_channel: 4,
            refine_iterations: [4, 4, 4, 4, 4, 4, 4, 4],
        }
    }
}

} // verus!
