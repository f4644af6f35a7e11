//! Build options for the tile index.
//!
//! These are the knobs that drive the split controller's decisions. The
//! simplification tolerance, a floating-point quantity, belongs to the
//! geometric pipeline around the index and is deliberately not part of it.

use vstd::prelude::*;

verus! {

/// Integer build options of the tile index.
#[derive(Debug, Clone, Copy, PartialEq, Eq, Structural)]
pub struct Options {
    /// Maximum zoom at which tiles may be produced; must lie in (0, 24].
    pub max_zoom: u8,
    /// During the initial build, do not descend past this zoom.
    pub index_max_zoom: u8,
    /// Stop the initial descent once a tile's source point count drops to
    /// this value or below.
    pub index_max_points: u32,
    /// Size of the tile-local integer grid.
    pub extent: u16,
    /// Overlap around each tile, in integer tile units.
    pub buffer: u16,
    /// Whether clipped lines carry start/end metrics.
    pub line_metrics: bool,
    /// Whether input ids are overridden by sequential 0-based ids.
    pub generate_id: bool,
}

impl Options {
    /// The configuration rule: the maximum zoom must lie in (0, 24].
    pub open spec fn valid(self) -> bool {
        0 < self.max_zoom <= 24
    }

    /// Checks the configuration rule, true exactly on valid options.
    pub fn is_valid(&self) -> (r: bool)
        ensures
            r == self.valid(),
    {
        0 < self.max_zoom && self.max_zoom <= 24
    }
}

impl Default for Options {
    /// The documented defaults.
    fn default() -> (r: Options)
        ensures
            r.max_zoom == 18,
            r.index_max_zoom == 5,
            r.index_max_points == 100000,
            r.extent == 4096,
            r.buffer == 64,
            !r.line_metrics,
            !r.generate_id,
            r.valid(),
    {
        Options {
            max_zoom: 18,
            index_max_zoom: 5,
            index_max_points: 100000,
            extent: 4096,
            buffer: 64,
            line_metrics: false,
            generate_id: false,
        }
    }
}

} // verus!
