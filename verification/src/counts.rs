//! The two counts a built tile reports.
//!
//! A tile counts the vertices its source features had at projection time
//! (`point_count`) and the vertices actually emitted after tolerance
//! filtering (`simplified_count`). A builder registers each source feature's
//! vertices before it emits any of them, and emission never outruns the
//! source, so every tile built through this type reports
//! `simplified_count <= point_count`.

use vstd::prelude::*;

verus! {

/// Emission counters of a tile under construction.
#[derive(Debug, Clone, Copy)]
pub struct TileCounts {
    point_count: u32,
    simplified_count: u32,
}

impl TileCounts {
    /// The registered source vertices.
    pub closed spec fn points(self) -> u32 {
        self.point_count
    }

    /// The emitted vertices.
    pub closed spec fn simplified(self) -> u32 {
        self.simplified_count
    }

    /// Emission never outruns the source.
    pub open spec fn wf(self) -> bool {
        self.simplified() <= self.points()
    }

    /// Fresh counters.
    pub fn new() -> (r: Self)
        ensures
            r.points() == 0,
            r.simplified() == 0,
            r.wf(),
    {
        TileCounts { point_count: 0, simplified_count: 0 }
    }

    /// Registers the vertices of one more source feature, before any of them
    /// is emitted.
    pub fn add_source_points(&mut self, n: u32)
        requires
            old(self).wf(),
            old(self).points() + n <= u32::MAX,
        ensures
            final(self).points() == old(self).points() + n,
            final(self).simplified() == old(self).simplified(),
            final(self).wf(),
    {
        self.point_count = self.point_count + n;
    }

    /// Counts one emitted vertex; only vertices of registered source features
    /// are ever emitted, so emission stays within the source.
    pub fn count_emitted(&mut self)
        requires
            old(self).wf(),
            old(self).simplified() < old(self).points(),
        ensures
            final(self).points() == old(self).points(),
            final(self).simplified() == old(self).simplified() + 1,
            final(self).wf(),
    {
        self.simplified_count = self.simplified_count + 1;
    }

    /// The registered source vertices.
    pub fn point_count(&self) -> (r: u32)
        ensures
            r == self.points(),
    {
        self.point_count
    }

    /// The emitted vertices.
    pub fn simplified_count(&self) -> (r: u32)
        ensures
            r == self.simplified(),
    {
        self.simplified_count
    }
}

} // verus!
