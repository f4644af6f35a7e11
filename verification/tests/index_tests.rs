use geojson_vt::config::Options;
use geojson_vt::counts::TileCounts;
use geojson_vt::index::{SplitAction, TileError, TileIndex};
use geojson_vt::key::{canonical_x, from_id, to_id, TileCoord};

fn small_options() -> Options {
    Options { max_zoom: 14, index_max_zoom: 5, index_max_points: 100000, ..Options::default() }
}

#[test]
fn key_packs_documented_formula() {
    // ((2^z)*y + x)*32 + z
    assert_eq!(to_id(0, 0, 0), 0);
    assert_eq!(to_id(1, 1, 1), ((1u64 << 1) * 1 + 1) * 32 + 1);
    assert_eq!(to_id(7, 37, 48), ((1u64 << 7) * 48 + 37) * 32 + 7);
    assert_eq!(to_id(7, 37, 48), 197799);
    assert_eq!(to_id(24, 16777215, 16777215), ((1u64 << 24) * 16777215 + 16777215) * 32 + 24);
}

#[test]
fn key_decodes_back_to_coordinates() {
    for &(z, x, y) in &[
        (0u8, 0u32, 0u32),
        (1, 0, 1),
        (5, 19, 9),
        (7, 37, 48),
        (20, 167719, 405281),
        (24, 16777215, 0),
        (24, 0, 16777215),
    ] {
        assert_eq!(from_id(to_id(z, x, y)), (z, x, y));
    }
}

#[test]
fn canonical_x_reduces_world_copies() {
    assert_eq!(canonical_x(0, 0), 0);
    assert_eq!(canonical_x(5, 0), 0);
    assert_eq!(canonical_x(37, 7), 37);
    assert_eq!(canonical_x(37 + 128, 7), 37);
    assert_eq!(canonical_x(37 + 3 * 128, 7), 37);
    assert_eq!(canonical_x(3, 1), 1);
}

#[test]
fn options_default_values() {
    let o = Options::default();
    assert_eq!(o.max_zoom, 18);
    assert_eq!(o.index_max_zoom, 5);
    assert_eq!(o.index_max_points, 100000);
    assert_eq!(o.extent, 4096);
    assert_eq!(o.buffer, 64);
    assert!(!o.line_metrics);
    assert!(!o.generate_id);
    assert!(o.is_valid());
}

#[test]
fn options_validity_bounds() {
    assert!(!Options { max_zoom: 0, ..Options::default() }.is_valid());
    assert!(Options { max_zoom: 1, ..Options::default() }.is_valid());
    assert!(Options { max_zoom: 24, ..Options::default() }.is_valid());
    assert!(!Options { max_zoom: 25, ..Options::default() }.is_valid());
}

#[test]
fn tile_coord_carries_its_fields() {
    let c = TileCoord::new(3, 4, 2);
    assert_eq!(c, TileCoord::new(3, 4, 2));
    assert!(c != TileCoord::new(4, 3, 2));
}

#[test]
fn insert_then_find() {
    let mut idx: TileIndex<u32, u64> = TileIndex::new(small_options());
    assert!(!idx.contains_tile(0, 0, 0));
    idx.insert_tile(0, 0, 0, 12, 777);
    assert!(idx.contains_tile(0, 0, 0));
    assert_eq!(idx.find_tile(0, 0, 0), Ok(Some(&777)));
    assert_eq!(idx.find_tile(1, 0, 0), Ok(None));
    assert_eq!(idx.total(), 1);
    let n = idx.node_at(0, 0, 0).unwrap();
    assert_eq!(n.point_count, 12);
    assert_eq!(n.source.len(), 0);
}

#[test]
fn find_tile_rejects_zoom_beyond_max() {
    let idx: TileIndex<u32, u64> = TileIndex::new(small_options());
    assert_eq!(idx.find_tile(14, 0, 0), Ok(None));
    assert_eq!(idx.find_tile(15, 0, 0), Err(TileError::ZoomOutOfRange));
    assert_eq!(idx.find_tile(255, 0, 0), Err(TileError::ZoomOutOfRange));
}

#[test]
fn find_tile_wraps_world_copies() {
    let mut idx: TileIndex<u32, u64> = TileIndex::new(small_options());
    idx.insert_tile(1, 0, 0, 3, 42);
    // x + 2^z and x + 2*2^z name the same tile as x.
    assert_eq!(idx.find_tile(1, 0, 0), Ok(Some(&42)));
    assert_eq!(idx.find_tile(1, 2, 0), Ok(Some(&42)));
    assert_eq!(idx.find_tile(1, 4, 0), Ok(Some(&42)));
    assert_eq!(idx.find_tile(1, 1, 0), Ok(None));
    assert_eq!(idx.find_tile(1, 3, 0), Ok(None));
}

#[test]
fn find_tile_twice_gives_equal_results() {
    let mut idx: TileIndex<u32, u64> = TileIndex::new(small_options());
    idx.insert_tile(2, 1, 3, 9, 1001);
    let first = idx.find_tile(2, 1, 3).unwrap().copied();
    let second = idx.find_tile(2, 1, 3).unwrap().copied();
    assert_eq!(first, second);
    assert_eq!(first, Some(1001));
    // Later bookkeeping does not disturb a materialized tile.
    idx.retain_source(2, 1, 3, vec![5, 6, 7]);
    idx.insert_tile(3, 2, 6, 9, 2002);
    idx.clear_source(2, 1, 3);
    let third = idx.find_tile(2, 1, 3).unwrap().copied();
    assert_eq!(first, third);
}

#[test]
fn retain_and_clear_source() {
    let mut idx: TileIndex<u32, u64> = TileIndex::new(small_options());
    idx.insert_tile(0, 0, 0, 4, 5);
    idx.retain_source(0, 0, 0, vec![10, 20, 30]);
    assert_eq!(idx.node_at(0, 0, 0).unwrap().source, vec![10, 20, 30]);
    idx.clear_source(0, 0, 0);
    assert_eq!(idx.node_at(0, 0, 0).unwrap().source.len(), 0);
    // The payload survived both.
    assert_eq!(idx.node_at(0, 0, 0).unwrap().tile, 5);
}

#[test]
fn find_parent_walks_to_nearest_ancestor() {
    let mut idx: TileIndex<u32, u64> = TileIndex::new(small_options());
    assert!(idx.find_parent(3, 5, 2).is_none());
    idx.insert_tile(0, 0, 0, 1, 0);
    let root = idx.find_parent(3, 5, 2).unwrap();
    assert_eq!((root.z, root.x, root.y), (0, 0, 0));
    // A closer ancestor takes precedence: (3,5,2) -> (2,2,1) -> (1,1,0).
    idx.insert_tile(1, 1, 0, 1, 0);
    let p = idx.find_parent(3, 5, 2).unwrap();
    assert_eq!((p.z, p.x, p.y), (1, 1, 0));
    idx.insert_tile(2, 2, 1, 1, 0);
    let q = idx.find_parent(3, 5, 2).unwrap();
    assert_eq!((q.z, q.x, q.y), (2, 2, 1));
    // The node itself is never its own parent.
    let r = idx.find_parent(2, 2, 1).unwrap();
    assert_eq!((r.z, r.x, r.y), (1, 1, 0));
}

#[test]
fn key_decodes_a_plain_number() {
    assert_eq!(from_id(197799), (7, 37, 48));
    assert_eq!(from_id(0), (0, 0, 0));
    assert_eq!(from_id(97), (1, 1, 1));
}

#[test]
fn canonical_x_at_deep_zoom() {
    assert_eq!(canonical_x((1 << 24) + 5, 24), 5);
    assert_eq!(canonical_x(5, 24), 5);
}

#[test]
fn find_parent_outside_grid_finds_nothing() {
    let mut idx: TileIndex<u32, u64> = TileIndex::new(small_options());
    idx.insert_tile(0, 0, 0, 1, 0);
    // A row beyond the zoom-1 grid walks up to (0, 0, 2), which can never be
    // stored, so no ancestor is found.
    assert!(idx.find_parent(1, 0, 5).is_none());
    assert!(idx.find_parent(1, 0, 1).is_some());
}

#[test]
fn source_bookkeeping_leaves_counters_alone() {
    let mut idx: TileIndex<u32, u64> = TileIndex::new(small_options());
    idx.insert_tile(0, 0, 0, 1, 0);
    idx.insert_tile(1, 1, 1, 1, 0);
    let total = idx.total();
    let coords = idx.tile_coords().clone();
    idx.retain_source(1, 1, 1, vec![1, 2]);
    idx.clear_source(1, 1, 1);
    idx.retain_source(0, 0, 0, vec![9]);
    assert_eq!(idx.total(), total);
    assert_eq!(idx.tile_coords(), &coords);
    assert_eq!(idx.stats().get(&0), Some(&1));
    assert_eq!(idx.stats().get(&1), Some(&1));
}

#[test]
fn split_disposition_build_pass() {
    let idx: TileIndex<u32, u64> = TileIndex::new(small_options());
    // At the index build zoom the node keeps its source.
    assert_eq!(idx.split_disposition(5, 0, 0, 0, 0, 0, 999999), SplitAction::Retain);
    // Few enough points: keep the source and stop descending.
    assert_eq!(idx.split_disposition(2, 0, 0, 0, 0, 0, 100000), SplitAction::Retain);
    // Too many points above the build zoom: split further.
    assert_eq!(idx.split_disposition(2, 0, 0, 0, 0, 0, 100001), SplitAction::Descend);
}

#[test]
fn split_disposition_on_demand() {
    let idx: TileIndex<u32, u64> = TileIndex::new(small_options());
    // Descent stops at the maximum zoom.
    assert_eq!(idx.split_disposition(14, 0, 0, 14, 3, 1, 0), SplitAction::Stop);
    // Arrived at the requested tile: retain its source.
    assert_eq!(idx.split_disposition(3, 1, 0, 3, 1, 0, 0), SplitAction::Retain);
    // On the path to (4, 11, 6): its zoom-2 ancestor is (2, 2, 1).
    assert_eq!(idx.split_disposition(2, 2, 1, 4, 11, 6, 0), SplitAction::Descend);
    // Off the path: keep the source for a later request.
    assert_eq!(idx.split_disposition(2, 1, 1, 4, 11, 6, 0), SplitAction::Retain);
    assert_eq!(idx.split_disposition(2, 2, 2, 4, 11, 6, 0), SplitAction::Retain);
}

#[test]
fn tile_counts_track_source_and_emission() {
    let mut c = TileCounts::new();
    assert_eq!(c.point_count(), 0);
    assert_eq!(c.simplified_count(), 0);
    c.add_source_points(5);
    c.count_emitted();
    c.count_emitted();
    c.add_source_points(2);
    c.count_emitted();
    assert_eq!(c.point_count(), 7);
    assert_eq!(c.simplified_count(), 3);
    assert!(c.simplified_count() <= c.point_count());
}

#[test]
fn nodes_compare_by_coordinates_alone() {
    let mut a: TileIndex<u32, u64> = TileIndex::new(small_options());
    let mut b: TileIndex<u32, u64> = TileIndex::new(small_options());
    a.insert_tile(1, 1, 0, 7, 111);
    b.insert_tile(1, 1, 0, 9, 222);
    b.insert_tile(1, 0, 0, 7, 111);
    assert_eq!(a.node_at(1, 1, 0).unwrap(), b.node_at(1, 1, 0).unwrap());
    assert!(a.node_at(1, 1, 0).unwrap() != b.node_at(1, 0, 0).unwrap());
}

#[test]
fn stats_count_tiles_per_zoom() {
    let mut idx: TileIndex<u32, u64> = TileIndex::new(small_options());
    idx.insert_tile(0, 0, 0, 1, 0);
    idx.insert_tile(1, 0, 0, 1, 1);
    idx.insert_tile(1, 1, 0, 1, 2);
    idx.insert_tile(1, 0, 1, 1, 3);
    idx.insert_tile(2, 3, 3, 1, 4);
    assert_eq!(idx.total(), 5);
    assert_eq!(idx.stats().get(&0), Some(&1));
    assert_eq!(idx.stats().get(&1), Some(&3));
    assert_eq!(idx.stats().get(&2), Some(&1));
    assert_eq!(idx.stats().get(&3), None);
    let coords = idx.tile_coords();
    assert_eq!(coords.len(), 5);
    assert_eq!(coords[0], TileCoord::new(0, 0, 0));
    assert_eq!(coords[4], TileCoord::new(3, 3, 2));
    assert_eq!(idx.internal_tiles().len(), 5);
}
