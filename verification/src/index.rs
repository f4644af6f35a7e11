//! The quadtree tile index and its split controller.
//!
//! The index maps packed tile keys to nodes. A node carries the tile payload
//! built for its coordinates, the pre-simplification point count of its
//! source features, and possibly those source features themselves, retained
//! so that a later on-demand request can resume the split from this node.
//! The payload and feature types are opaque to the index: it decides purely
//! on coordinates and counts, and never reads what it stores.

use vstd::prelude::*;
use vstd::arithmetic::power2::*;
use vstd::arithmetic::div_mod::*;
use vstd::bits::*;
use std::collections::HashMap;
use crate::key::{
    key_of, key_u64, legal_coords, lemma_key_fits, to_id, canonical_x, canon_col,
    lemma_canonical_wrap, TileCoord,
};
use crate::config::Options;

verus! {

broadcast use vstd::std_specs::hash::group_hash_axioms;

/// What the split controller tells the driver to do with a node.
#[derive(Debug, Clone, Copy, PartialEq, Eq, Structural)]
pub enum SplitAction {
    /// Keep the node's source features on the node and stop descending.
    Retain,
    /// Stop descending; nothing is kept.
    Stop,
    /// Drop the node's retained source and split into the four children.
    Descend,
}

/// The query failure: a zoom beyond the configured maximum.
#[derive(Debug, Clone, Copy, PartialEq, Eq, Structural)]
pub enum TileError {
    ZoomOutOfRange,
}

/// One materialized node of the quadtree.
#[derive(Debug)]
pub struct TileNode<F, T> {
    /// Zoom of this node.
    pub z: u8,
    /// Column of this node within zoom `z`.
    pub x: u32,
    /// Row of this node within zoom `z`.
    pub y: u32,
    /// Sum of the source features' vertex counts at projection time.
    pub point_count: u32,
    /// Source features retained for a later on-demand split; empty once the
    /// node has split, or when it never had any.
    pub source: Vec<F>,
    /// The tile payload built for these coordinates.
    pub tile: T,
}

/// Two nodes are equal exactly when their coordinates are equal: the payload
/// and the retained source play no part.
impl<F, T> PartialEq for TileNode<F, T> {
    fn eq(&self, other: &TileNode<F, T>) -> (r: bool) {
        self.z == other.z && self.x == other.x && self.y == other.y
    }
}

impl<F, T> vstd::std_specs::cmp::PartialEqSpecImpl for TileNode<F, T> {
    open spec fn obeys_eq_spec() -> bool {
        true
    }

    open spec fn eq_spec(&self, other: &TileNode<F, T>) -> bool {
        self.z == other.z && self.x == other.x && self.y == other.y
    }
}

/// How many of the coordinates in `s` sit at zoom `z`.
pub open spec fn count_at_zoom(s: Seq<TileCoord>, z: u8) -> nat
    decreases s.len(),
{
    if s.len() == 0 {
        0
    } else {
        count_at_zoom(s.drop_last(), z) + if s.last().zoom() == z {
            1nat
        } else {
            0nat
        }
    }
}

proof fn lemma_count_at_zoom_push(s: Seq<TileCoord>, c: TileCoord, z: u8)
    ensures
        count_at_zoom(s.push(c), z) == count_at_zoom(s, z) + if c.zoom() == z {
            1nat
        } else {
            0nat
        },
{
    assert(s.push(c).drop_last() =~= s);
    assert(s.push(c).last() == c);
}

proof fn lemma_count_at_zoom_le_len(s: Seq<TileCoord>, z: u8)
    ensures
        count_at_zoom(s, z) <= s.len(),
    decreases s.len(),
{
    if s.len() > 0 {
        lemma_count_at_zoom_le_len(s.drop_last(), z);
    }
}

/// The key a query for (z, x, y) resolves to: the column is first reduced to
/// its canonical world copy.
pub open spec fn query_key(z: u8, x: u32, y: u32) -> u64 {
    key_of(z as nat, canon_col(x, z), y as nat) as u64
}

/// The coordinates of the ancestor of (z, x, y) lying `d` levels up.
pub open spec fn ancestor_coords(z: u8, x: u32, y: u32, d: nat) -> (u8, u32, u32)
    recommends
        d <= z,
{
    (((z as nat) - d) as u8, ((x as nat) / pow2(d)) as u32, ((y as nat) / pow2(d)) as u32)
}

/// The split controller's rule. During the initial pass (target zoom 0) a
/// node retains its source at the index's maximum build zoom or once its
/// point count is within the threshold, and descends otherwise. On demand,
/// descent stops at the maximum zoom, the target node retains its source, a
/// node off the path to the target retains its source for later requests,
/// and the ancestor of the target descends.
pub open spec fn split_disposition_spec(
    opts: Options,
    z: u8,
    x: u32,
    y: u32,
    cz: u8,
    cx: u32,
    cy: u32,
    point_count: u32,
) -> SplitAction {
    if cz == 0 {
        if z == opts.index_max_zoom || point_count <= opts.index_max_points {
            SplitAction::Retain
        } else {
            SplitAction::Descend
        }
    } else if z == opts.max_zoom {
        SplitAction::Stop
    } else if z == cz {
        SplitAction::Retain
    } else if (x as nat) == (cx as nat) / pow2((cz - z) as nat) && (y as nat) == (cy as nat)
        / pow2((cz - z) as nat) {
        SplitAction::Descend
    } else {
        SplitAction::Retain
    }
}

/// Descending narrows the path to the target: the target's ancestor at the
/// next zoom is one of the four children of its ancestor at this zoom, so the
/// four clips of a split always cover the tile an on-demand request asked
/// for.
pub proof fn lemma_target_quadrant(z: u8, cz: u8, cx: u32, cy: u32)
    requires
        z < cz,
    ensures
        ({
            let a = (cx as nat) / pow2((cz - z) as nat);
            let a1 = (cx as nat) / pow2((cz - z - 1) as nat);
            a1 == 2 * a || a1 == 2 * a + 1
        }),
        ({
            let b = (cy as nat) / pow2((cz - z) as nat);
            let b1 = (cy as nat) / pow2((cz - z - 1) as nat);
            b1 == 2 * b || b1 == 2 * b + 1
        }),
{
    let d = (cz - z) as nat;
    lemma_pow2_pos((d - 1) as nat);
    lemma_pow2_adds((d - 1) as nat, 1);
    lemma2_to64();
    lemma_div_denominator(cx as int, pow2((d - 1) as nat) as int, 2);
    lemma_div_denominator(cy as int, pow2((d - 1) as nat) as int, 2);
    let a1 = (cx as nat) / pow2((d - 1) as nat);
    let b1 = (cy as nat) / pow2((d - 1) as nat);
    lemma_fundamental_div_mod(a1 as int, 2);
    lemma_fundamental_div_mod(b1 as int, 2);
}

/// The lazily materialized quadtree of tiles.
#[derive(Debug)]
pub struct TileIndex<F, T> {
    options: Options,
    tiles: HashMap<u64, TileNode<F, T>>,
    tile_coords: Vec<TileCoord>,
    total: u32,
    stats: HashMap<u8, u32>,
}

impl<F, T> TileIndex<F, T> {
    /// The build options the index was created with.
    pub closed spec fn opts(self) -> Options {
        self.options
    }

    /// The stored nodes, by packed key.
    pub closed spec fn tiles_map(self) -> Map<u64, TileNode<F, T>> {
        self.tiles@
    }

    /// The coordinates of the stored nodes, in creation order.
    pub closed spec fn coords_seq(self) -> Seq<TileCoord> {
        self.tile_coords@
    }

    /// The running number of stored nodes.
    pub closed spec fn total_spec(self) -> u32 {
        self.total
    }

    /// The per-zoom node counts.
    pub closed spec fn stats_map(self) -> Map<u8, u32> {
        self.stats@
    }

    /// Every recorded coordinate is legal and names a stored node with the
    /// same coordinates.
    pub open spec fn coords_ok(self) -> bool {
        forall|i: int|
            0 <= i < self.coords_seq().len() ==> {
                let c = #[trigger] self.coords_seq()[i];
                &&& legal_coords(c.zoom(), c.col(), c.row())
                &&& self.tiles_map().contains_key(key_u64(c.zoom(), c.col(), c.row()))
                &&& self.tiles_map()[key_u64(c.zoom(), c.col(), c.row())].z == c.zoom()
                &&& self.tiles_map()[key_u64(c.zoom(), c.col(), c.row())].x == c.col()
                &&& self.tiles_map()[key_u64(c.zoom(), c.col(), c.row())].y == c.row()
            }
    }

    /// Every stored node sits under the key its own coordinates pack to.
    pub open spec fn nodes_ok(self) -> bool {
        forall|k: u64|
            #[trigger] self.tiles_map().contains_key(k) ==> {
                let n = self.tiles_map()[k];
                &&& legal_coords(n.z, n.x, n.y)
                &&& k == key_u64(n.z, n.x, n.y)
            }
    }

    /// The statistics agree with the recorded coordinates: a zoom appears in
    /// the statistics exactly when a node exists at it, and its entry counts
    /// those nodes.
    pub open spec fn stats_ok(self) -> bool {
        &&& forall|zz: u8|
            #[trigger] count_at_zoom(self.coords_seq(), zz) > 0 ==> self.stats_map().contains_key(
                zz,
            )
        &&& forall|zz: u8|
            #[trigger] self.stats_map().contains_key(zz) ==> (self.stats_map()[zz] as nat)
                == count_at_zoom(self.coords_seq(), zz) && count_at_zoom(self.coords_seq(), zz) > 0
    }

    /// The counters agree with the stores: as many recorded coordinates as
    /// stored nodes, and `total` counts them.
    pub open spec fn size_ok(self) -> bool {
        &&& self.tiles_map().dom().finite()
        &&& self.tiles_map().dom().len() == self.coords_seq().len()
        &&& self.total_spec() as nat == self.coords_seq().len()
    }

    /// The index invariant: valid options, and stores, coordinates, counters
    /// and statistics all in agreement.
    pub open spec fn wf(self) -> bool {
        &&& self.opts().valid()
        &&& self.coords_ok()
        &&& self.nodes_ok()
        &&& self.stats_ok()
        &&& self.size_ok()
    }

    /// An empty index over the given options.
    pub fn new(options: Options) -> (r: Self)
        requires
            options.valid(),
        ensures
            r.wf(),
            r.opts() == options,
            r.tiles_map() == Map::<u64, TileNode<F, T>>::empty(),
            r.coords_seq() == Seq::<TileCoord>::empty(),
            r.total_spec() == 0,
            r.stats_map() == Map::<u8, u32>::empty(),
    {
        let r = TileIndex {
            options,
            tiles: HashMap::new(),
            tile_coords: Vec::new(),
            total: 0,
            stats: HashMap::new(),
        };
        proof {
            assert(r.coords_seq() =~= Seq::<TileCoord>::empty());
            assert(r.tiles_map() =~= Map::<u64, TileNode<F, T>>::empty());
            assert(r.stats_map() =~= Map::<u8, u32>::empty());
            assert(r.tiles_map().dom() =~= Set::<u64>::empty());
        }
        r
    }

    /// Whether a node is stored at exactly (z, x, y).
    pub fn contains_tile(&self, z: u8, x: u32, y: u32) -> (r: bool)
        requires
            z <= 24,
        ensures
            r == self.tiles_map().contains_key(key_u64(z, x, y)),
    {
        proof {
            lemma_key_fits(z, x, y);
        }
        let id = to_id(z, x, y);
        self.tiles.contains_key(&id)
    }

    /// Later operations never lose a stored node, and never change its
    /// coordinates, its point count or its tile payload; only its retained
    /// source may change. Asking the index for a materialized tile therefore
    /// gives the same payload today and after any amount of further
    /// splitting.
    pub open spec fn preserves_tiles(pre: Self, post: Self) -> bool {
        forall|k: u64|
            #[trigger] pre.tiles_map().contains_key(k) ==> {
                &&& post.tiles_map().contains_key(k)
                &&& post.tiles_map()[k].z == pre.tiles_map()[k].z
                &&& post.tiles_map()[k].x == pre.tiles_map()[k].x
                &&& post.tiles_map()[k].y == pre.tiles_map()[k].y
                &&& post.tiles_map()[k].point_count == pre.tiles_map()[k].point_count
                &&& post.tiles_map()[k].tile == pre.tiles_map()[k].tile
            }
    }

    /// Tile preservation composes: holding across each operation of a
    /// sequence, it holds from the first state to the last.
    pub proof fn lemma_preserves_tiles_trans(a: Self, b: Self, c: Self)
        requires
            Self::preserves_tiles(a, b),
            Self::preserves_tiles(b, c),
        ensures
            Self::preserves_tiles(a, c),
    {
        assert forall|k: u64| #[trigger] a.tiles_map().contains_key(k) implies {
            &&& c.tiles_map().contains_key(k)
            &&& c.tiles_map()[k].z == a.tiles_map()[k].z
            &&& c.tiles_map()[k].x == a.tiles_map()[k].x
            &&& c.tiles_map()[k].y == a.tiles_map()[k].y
            &&& c.tiles_map()[k].point_count == a.tiles_map()[k].point_count
            &&& c.tiles_map()[k].tile == a.tiles_map()[k].tile
        } by {
            assert(b.tiles_map().contains_key(k));
        }
    }

    /// Stores the tile built for (z, x, y), records its coordinates, and
    /// counts it in the running total and the per-zoom statistics. The node
    /// starts with no retained source.
    pub fn insert_tile(&mut self, z: u8, x: u32, y: u32, point_count: u32, tile: T)
        requires
            old(self).wf(),
            legal_coords(z, x, y),
            !old(self).tiles_map().contains_key(key_u64(z, x, y)),
            old(self).total_spec() < u32::MAX,
        ensures
            final(self).wf(),
            final(self).opts() == old(self).opts(),
            Self::preserves_tiles(*old(self), *final(self)),
            final(self).tiles_map().dom() == old(self).tiles_map().dom().insert(key_u64(z, x, y)),
            final(self).tiles_map().contains_key(key_u64(z, x, y)),
            ({
                let n = final(self).tiles_map()[key_u64(z, x, y)];
                &&& n.z == z
                &&& n.x == x
                &&& n.y == y
                &&& n.point_count == point_count
                &&& n.tile == tile
                &&& n.source@.len() == 0
            }),
            forall|k: u64|
                k != key_u64(z, x, y) && #[trigger] final(self).tiles_map().contains_key(k) ==> old(
                    self,
                ).tiles_map().contains_key(k) && final(self).tiles_map()[k] == old(self).tiles_map()[k],
            final(self).coords_seq() == old(self).coords_seq().push(final(self).coords_seq().last()),
            final(self).coords_seq().last().zoom() == z,
            final(self).coords_seq().last().col() == x,
            final(self).coords_seq().last().row() == y,
            final(self).total_spec() == old(self).total_spec() + 1,
            final(self).stats_map() == if old(self).stats_map().contains_key(z) {
                old(self).stats_map().insert(z, (old(self).stats_map()[z] + 1) as u32)
            } else {
                old(self).stats_map().insert(z, 1u32)
            },
    {
        proof {
            lemma_key_fits(z, x, y);
            lemma_count_at_zoom_le_len(self.coords_seq(), z);
        }
        let id = to_id(z, x, y);
        let node = TileNode { z, x, y, point_count, source: Vec::new(), tile };
        self.tiles.insert(id, node);
        self.tile_coords.push(TileCoord::new(x, y, z));
        self.total = self.total + 1;
        let count: u32 = match self.stats.get(&z) {
            Some(v) => {
                proof {
                    assert(old(self).stats_map().contains_key(z));
                    assert(old(self).stats_map()[z] as nat == count_at_zoom(
                        old(self).coords_seq(),
                        z,
                    ));
                }
                *v + 1
            },
            None => 1,
        };
        self.stats.insert(z, count);
        proof {
            let key = key_u64(z, x, y);
            let oldi = *old(self);
            let c = self.coords_seq().last();
            assert forall|zz: u8|
                count_at_zoom(self.coords_seq(), zz) == count_at_zoom(oldi.coords_seq(), zz) + (
                if c.zoom() == zz {
                    1nat
                } else {
                    0nat
                }) by {
                lemma_count_at_zoom_push(oldi.coords_seq(), c, zz);
            }
            assert forall|i: int| 0 <= i < self.coords_seq().len() implies {
                let cc = #[trigger] self.coords_seq()[i];
                &&& legal_coords(cc.zoom(), cc.col(), cc.row())
                &&& self.tiles_map().contains_key(key_u64(cc.zoom(), cc.col(), cc.row()))
                &&& self.tiles_map()[key_u64(cc.zoom(), cc.col(), cc.row())].z == cc.zoom()
                &&& self.tiles_map()[key_u64(cc.zoom(), cc.col(), cc.row())].x == cc.col()
                &&& self.tiles_map()[key_u64(cc.zoom(), cc.col(), cc.row())].y == cc.row()
            } by {
                if i < oldi.coords_seq().len() {
                    let cc = oldi.coords_seq()[i];
                    assert(self.coords_seq()[i] == cc);
                }
            }
            assert(self.tiles_map().dom() =~= oldi.tiles_map().dom().insert(key));
            assert forall|zz: u8| #[trigger]
                count_at_zoom(self.coords_seq(), zz) > 0 implies self.stats_map().contains_key(
                zz,
            ) by {
                if zz != z {
                    assert(count_at_zoom(oldi.coords_seq(), zz) > 0);
                    assert(oldi.stats_map().contains_key(zz));
                }
            }
            assert forall|zz: u8| #[trigger]
                self.stats_map().contains_key(zz) implies (self.stats_map()[zz] as nat)
                == count_at_zoom(self.coords_seq(), zz) && count_at_zoom(
                self.coords_seq(),
                zz,
            ) > 0 by {
                if zz == z {
                    if !oldi.stats_map().contains_key(z) {
                        assert(count_at_zoom(oldi.coords_seq(), z) == 0);
                    }
                } else {
                    assert(oldi.stats_map().contains_key(zz));
                }
            }
        }
    }

    /// Puts the given source features on the node at (z, x, y), leaving its
    /// tile, coordinates and every other node untouched.
    pub fn retain_source(&mut self, z: u8, x: u32, y: u32, source: Vec<F>)
        requires
            old(self).wf(),
            z <= 24,
            old(self).tiles_map().contains_key(key_u64(z, x, y)),
        ensures
            final(self).wf(),
            final(self).opts() == old(self).opts(),
            Self::preserves_tiles(*old(self), *final(self)),
            final(self).coords_seq() == old(self).coords_seq(),
            final(self).total_spec() == old(self).total_spec(),
            final(self).stats_map() == old(self).stats_map(),
            final(self).tiles_map().dom() == old(self).tiles_map().dom(),
            forall|k: u64|
                k != key_u64(z, x, y) && #[trigger] final(self).tiles_map().contains_key(k)
                    ==> final(self).tiles_map()[k] == old(self).tiles_map()[k],
            ({
                let n = final(self).tiles_map()[key_u64(z, x, y)];
                let m = old(self).tiles_map()[key_u64(z, x, y)];
                &&& n.z == m.z
                &&& n.x == m.x
                &&& n.y == m.y
                &&& n.point_count == m.point_count
                &&& n.tile == m.tile
                &&& n.source == source
            }),
    {
        proof {
            lemma_key_fits(z, x, y);
        }
        let id = to_id(z, x, y);
        let node_opt = self.tiles.remove(&id);
        let mut node = node_opt.unwrap();
        node.source = source;
        self.tiles.insert(id, node);
        proof {
            let key = key_u64(z, x, y);
            let oldi = *old(self);
            assert(self.tiles_map().dom() =~= oldi.tiles_map().dom());
            assert forall|i: int| 0 <= i < self.coords_seq().len() implies {
                let cc = #[trigger] self.coords_seq()[i];
                &&& legal_coords(cc.zoom(), cc.col(), cc.row())
                &&& self.tiles_map().contains_key(key_u64(cc.zoom(), cc.col(), cc.row()))
                &&& self.tiles_map()[key_u64(cc.zoom(), cc.col(), cc.row())].z == cc.zoom()
                &&& self.tiles_map()[key_u64(cc.zoom(), cc.col(), cc.row())].x == cc.col()
                &&& self.tiles_map()[key_u64(cc.zoom(), cc.col(), cc.row())].y == cc.row()
            } by {
                let cc = oldi.coords_seq()[i];
                assert(self.coords_seq()[i] == cc);
            }
            assert forall|zz: u8| #[trigger]
                count_at_zoom(self.coords_seq(), zz) > 0 implies self.stats_map().contains_key(
                zz,
            ) by {
                assert(count_at_zoom(oldi.coords_seq(), zz) > 0);
                assert(oldi.stats_map().contains_key(zz));
            }
            assert forall|zz: u8| #[trigger]
                self.stats_map().contains_key(zz) implies (self.stats_map()[zz] as nat)
                == count_at_zoom(self.coords_seq(), zz) && count_at_zoom(
                self.coords_seq(),
                zz,
            ) > 0 by {
                assert(oldi.stats_map().contains_key(zz));
                assert(count_at_zoom(oldi.coords_seq(), zz) == count_at_zoom(
                    self.coords_seq(),
                    zz,
                ));
            }
        }
    }

    /// Drops the retained source of the node at (z, x, y): after a node has
    /// split, its features are reconstructible from an ancestor and need not
    /// be kept.
    pub fn clear_source(&mut self, z: u8, x: u32, y: u32)
        requires
            old(self).wf(),
            z <= 24,
            old(self).tiles_map().contains_key(key_u64(z, x, y)),
        ensures
            final(self).wf(),
            final(self).opts() == old(self).opts(),
            Self::preserves_tiles(*old(self), *final(self)),
            final(self).coords_seq() == old(self).coords_seq(),
            final(self).total_spec() == old(self).total_spec(),
            final(self).stats_map() == old(self).stats_map(),
            final(self).tiles_map().dom() == old(self).tiles_map().dom(),
            forall|k: u64|
                k != key_u64(z, x, y) && #[trigger] final(self).tiles_map().contains_key(k)
                    ==> final(self).tiles_map()[k] == old(self).tiles_map()[k],
            ({
                let n = final(self).tiles_map()[key_u64(z, x, y)];
                let m = old(self).tiles_map()[key_u64(z, x, y)];
                &&& n.z == m.z
                &&& n.x == m.x
                &&& n.y == m.y
                &&& n.point_count == m.point_count
                &&& n.tile == m.tile
                &&& n.source@.len() == 0
            }),
    {
        self.retain_source(z, x, y, Vec::new());
    }

    /// What a query for (z, x, y) denotes on the current state: a zoom error
    /// beyond the maximum zoom, else the node stored under the canonical form
    /// of the request, if any.
    pub open spec fn tile_query(self, z: u8, x: u32, y: u32) -> Result<
        Option<TileNode<F, T>>,
        TileError,
    > {
        if z > self.opts().max_zoom {
            Err(TileError::ZoomOutOfRange)
        } else if self.tiles_map().contains_key(query_key(z, x, y)) {
            Ok(Some(self.tiles_map()[query_key(z, x, y)]))
        } else {
            Ok(None)
        }
    }

    /// Looks up the tile payload materialized for (z, x, y), reducing the
    /// column to its canonical world copy; fails exactly when the zoom
    /// exceeds the configured maximum.
    pub fn find_tile(&self, z: u8, x: u32, y: u32) -> (r: Result<Option<&T>, TileError>)
        requires
            self.wf(),
        ensures
            match r {
                Err(e) => self.tile_query(z, x, y) == Err::<Option<TileNode<F, T>>, TileError>(e),
                Ok(Some(t)) => (self.tile_query(z, x, y) matches Ok(Some(n)) && *t == n.tile),
                Ok(None) => self.tile_query(z, x, y) == Ok::<Option<TileNode<F, T>>, TileError>(
                    None,
                ),
            },
    {
        if z > self.options.max_zoom {
            return Err(TileError::ZoomOutOfRange);
        }
        let xc = canonical_x(x, z);
        proof {
            lemma_key_fits(z, xc, y);
        }
        let id = to_id(z, xc, y);
        match self.tiles.get(&id) {
            Some(n) => Ok(Some(&n.tile)),
            None => Ok(None),
        }
    }

    /// Queries do not depend on which world copy of a column they name:
    /// shifting the requested column by the whole world width `2^z` returns
    /// the same result.
    pub proof fn lemma_query_wrap_invariant(self, z: u8, x: u32, x2: u32, y: u32)
        requires
            self.wf(),
            x2 as nat == x as nat + pow2(z as nat),
        ensures
            self.tile_query(z, x2, y) == self.tile_query(z, x, y),
    {
        if z <= self.opts().max_zoom {
            lemma_canonical_wrap(x as nat, z as nat);
        }
    }

    /// Asking twice gives the same tile: a query that found a tile finds a
    /// node with the same coordinates, point count and payload again after
    /// any operations that preserve tiles — which every index operation does.
    pub proof fn lemma_query_stable(pre: Self, post: Self, z: u8, x: u32, y: u32)
        requires
            Self::preserves_tiles(pre, post),
            post.opts() == pre.opts(),
        ensures
            match pre.tile_query(z, x, y) {
                Ok(opt) => match opt {
                    Some(n) => (post.tile_query(z, x, y) matches Ok(Some(m)) && m.tile == n.tile
                        && m.z == n.z && m.x == n.x && m.y == n.y && m.point_count
                        == n.point_count),
                    None => true,
                },
                Err(e) => post.tile_query(z, x, y) == Err::<Option<TileNode<F, T>>, TileError>(e),
            },
    {
        if z <= pre.opts().max_zoom {
            let k = query_key(z, x, y);
            if pre.tiles_map().contains_key(k) {
                assert(post.tiles_map().contains_key(k));
            }
        }
    }

    /// Whether the ancestor of (z, x, y) lying `d` levels up is stored.
    pub open spec fn ancestor_present(self, z: u8, x: u32, y: u32, d: nat) -> bool {
        let (az, ax, ay) = ancestor_coords(z, x, y, d);
        self.tiles_map().contains_key(key_u64(az, ax, ay))
    }

    /// The stored node at the ancestor of (z, x, y) lying `d` levels up.
    pub open spec fn ancestor_node(self, z: u8, x: u32, y: u32, d: nat) -> TileNode<F, T> {
        let (az, ax, ay) = ancestor_coords(z, x, y, d);
        self.tiles_map()[key_u64(az, ax, ay)]
    }

    /// Walks from (z, x, y) toward the root, one zoom at a time, and returns
    /// the nearest strict ancestor that is materialized, if any: the node an
    /// on-demand split resumes from.
    pub fn find_parent(&self, z: u8, x: u32, y: u32) -> (r: Option<&TileNode<F, T>>)
        requires
            self.wf(),
            z <= 24,
        ensures
            match r {
                Some(n) => exists|d: nat|
                    {
                        &&& 1 <= d <= z
                        &&& #[trigger] self.ancestor_present(z, x, y, d)
                        &&& *n == self.ancestor_node(z, x, y, d)
                        &&& forall|d2: nat|
                            1 <= d2 < d ==> !#[trigger] self.ancestor_present(z, x, y, d2)
                    },
                None => forall|d: nat|
                    1 <= d <= z ==> !#[trigger] self.ancestor_present(z, x, y, d),
            },
    {
        let mut z0: u8 = z;
        let mut x0: u32 = x;
        let mut y0: u32 = y;
        proof {
            lemma2_to64();
            lemma_div_basics(x as int);
            lemma_div_basics(y as int);
            assert(pow2(0) == 1);
        }
        while z0 > 0
            invariant
                self.wf(),
                z <= 24,
                z0 <= z,
                x0 as nat == (x as nat) / pow2((z - z0) as nat),
                y0 as nat == (y as nat) / pow2((z - z0) as nat),
                forall|d2: nat|
                    1 <= d2 <= (z - z0) as nat ==> !#[trigger] self.ancestor_present(z, x, y, d2),
            decreases z0,
        {
            proof {
                let dprev = (z - z0) as nat;
                lemma_pow2_pos(dprev);
                lemma_pow2_adds(dprev, 1);
                lemma2_to64();
                lemma_div_denominator(x as int, pow2(dprev) as int, 2);
                lemma_div_denominator(y as int, pow2(dprev) as int, 2);
            }
            z0 = z0 - 1;
            x0 = x0 / 2;
            y0 = y0 / 2;
            let id = to_id(z0, x0, y0);
            proof {
                lemma_key_fits(z0, x0, y0);
            }
            if let Some(n) = self.tiles.get(&id) {
                proof {
                    let d = (z - z0) as nat;
                    assert(ancestor_coords(z, x, y, d) == (z0, x0, y0));
                    assert(self.ancestor_present(z, x, y, d));
                }
                return Some(n);
            }
            proof {
                let d = (z - z0) as nat;
                assert(ancestor_coords(z, x, y, d) == (z0, x0, y0));
                assert(!self.ancestor_present(z, x, y, d));
            }
        }
        None
    }

    /// What the split controller does with the node at (z, x, y) holding
    /// `point_count` source points while materializing toward the target
    /// (cz, cx, cy); a target zoom of 0 means the initial indexing pass.
    pub fn split_disposition(
        &self,
        z: u8,
        x: u32,
        y: u32,
        cz: u8,
        cx: u32,
        cy: u32,
        point_count: u32,
    ) -> (r: SplitAction)
        requires
            self.wf(),
            cz == 0 || (z <= cz && cz <= self.opts().max_zoom),
        ensures
            r == split_disposition_spec(self.opts(), z, x, y, cz, cx, cy, point_count),
    {
        if cz == 0 {
            if z == self.options.index_max_zoom || point_count <= self.options.index_max_points {
                SplitAction::Retain
            } else {
                SplitAction::Descend
            }
        } else if z == self.options.max_zoom {
            SplitAction::Stop
        } else if z == cz {
            SplitAction::Retain
        } else {
            let shift: u8 = cz - z;
            proof {
                crate::key::lemma_pow2_le_24(shift as nat);
                lemma_u32_shl_is_mul(1u32, shift as u32);
            }
            let m: u32 = 1u32 << shift;
            let a: u32 = cx / m;
            let b: u32 = cy / m;
            if x == a && y == b {
                SplitAction::Descend
            } else {
                SplitAction::Retain
            }
        }
    }

    /// The number of materialized tiles.
    pub fn total(&self) -> (r: u32)
        ensures
            r == self.total_spec(),
    {
        self.total
    }

    /// The coordinates of the materialized tiles, in creation order.
    pub fn tile_coords(&self) -> (r: &Vec<TileCoord>)
        ensures
            r@ == self.coords_seq(),
    {
        &self.tile_coords
    }

    /// How many tiles were materialized at each zoom.
    pub fn stats(&self) -> (r: &HashMap<u8, u32>)
        ensures
            r@ == self.stats_map(),
    {
        &self.stats
    }

    /// The stored nodes, by packed key.
    pub fn internal_tiles(&self) -> (r: &HashMap<u64, TileNode<F, T>>)
        ensures
            r@ == self.tiles_map(),
    {
        &self.tiles
    }

    /// The node stored at exactly (z, x, y), if any.
    pub fn node_at(&self, z: u8, x: u32, y: u32) -> (r: Option<&TileNode<F, T>>)
        requires
            z <= 24,
        ensures
            match r {
                Some(n) => self.tiles_map().contains_key(key_u64(z, x, y)) && *n
                    == self.tiles_map()[key_u64(z, x, y)],
                None => !self.tiles_map().contains_key(key_u64(z, x, y)),
            },
    {
        proof {
            lemma_key_fits(z, x, y);
        }
        let id = to_id(z, x, y);
        self.tiles.get(&id)
    }
}

} // verus!
