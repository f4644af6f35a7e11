//! The packed 64-bit tile key.
//!
//! A tile is addressed by its zoom `z` and its column and row `(x, y)` within
//! that zoom. The index stores a tile under the single integer
//! `(2^z * y + x) * 32 + z`, which is injective for `z <= 24` and
//! `x, y < 2^z`; the three coordinates can be decoded back out of it.

use vstd::prelude::*;
use vstd::arithmetic::power2::*;
use vstd::arithmetic::div_mod::*;
use vstd::bits::*;

verus! {

/// The key under which tile (z, x, y) is stored.
pub open spec fn key_of(z: nat, x: nat, y: nat) -> nat {
    (pow2(z) * y + x) * 32 + z
}

/// Coordinates the quadtree can hold: zooms up to 24, column and row within
/// the zoom's grid.
pub open spec fn legal_coords(z: u8, x: u32, y: u32) -> bool {
    &&& z <= 24
    &&& (x as nat) < pow2(z as nat)
    &&& (y as nat) < pow2(z as nat)
}

/// The key of tile (z, x, y) as the 64-bit integer the index stores it under.
pub open spec fn key_u64(z: u8, x: u32, y: u32) -> u64 {
    key_of(z as nat, x as nat, y as nat) as u64
}

/// At zooms up to 24 every key fits in 64 bits, so `key_u64` loses nothing.
pub proof fn lemma_key_fits(z: u8, x: u32, y: u32)
    requires
        z <= 24,
    ensures
        key_of(z as nat, x as nat, y as nat) <= u64::MAX,
        key_u64(z, x, y) as nat == key_of(z as nat, x as nat, y as nat),
{
    lemma_pow2_le_24(z as nat);
    assert(pow2(z as nat) * (y as nat) <= 0x1000000 * 0xffffffff) by (nonlinear_arith)
        requires
            pow2(z as nat) <= 0x1000000,
            (y as nat) <= 0xffffffff,
    ;
}

/// Distinct legal coordinates give distinct keys.
pub proof fn lemma_key_injective(z1: u8, x1: u32, y1: u32, z2: u8, x2: u32, y2: u32)
    requires
        legal_coords(z1, x1, y1),
        legal_coords(z2, x2, y2),
        key_u64(z1, x1, y1) == key_u64(z2, x2, y2),
    ensures
        z1 == z2 && x1 == x2 && y1 == y2,
{
    lemma_key_fits(z1, x1, y1);
    lemma_key_fits(z2, x2, y2);
    lemma_key_roundtrip(z1 as nat, x1 as nat, y1 as nat);
    lemma_key_roundtrip(z2 as nat, x2 as nat, y2 as nat);
}

/// The zoom packed into a key.
pub open spec fn key_zoom(k: nat) -> nat {
    k % 32
}

/// The column packed into a key.
pub open spec fn key_col(k: nat) -> nat {
    (k / 32) % pow2(key_zoom(k))
}

/// The row packed into a key.
pub open spec fn key_row(k: nat) -> nat {
    (k / 32) / pow2(key_zoom(k))
}

/// Packs tile coordinates into their 64-bit key.
pub fn to_id(z: u8, x: u32, y: u32) -> (r: u64)
    requires
        z <= 24,
    ensures
        r as nat == key_of(z as nat, x as nat, y as nat),
{
    proof {
        lemma2_to64();
        lemma_pow2_le_24(z as nat);
        lemma_u64_shl_is_mul(1u64, z as u64);
        assert((1u64 << z) as nat == pow2(z as nat));
    }
    let z2: u64 = 1u64 << z;
    assert(z2 * (y as u64) <= 0x1000000u64 * 0xffffffffu64) by (nonlinear_arith)
        requires
            z2 <= 0x1000000u64,
            y <= 0xffffffffu32,
    ;
    (z2 * (y as u64) + (x as u64)) * 32 + (z as u64)
}

/// Unpacks a key into its tile coordinates.
///
/// A key made by `to_id` from coordinates with `y < 2^32` always satisfies the
/// precondition; an arbitrary 64-bit integer need not, since its row part can
/// exceed the column type.
pub fn from_id(id: u64) -> (r: (u8, u32, u32))
    requires
        key_row(id as nat) < 0x100000000,
    ensures
        r.0 as nat == key_zoom(id as nat),
        r.1 as nat == key_col(id as nat),
        r.2 as nat == key_row(id as nat),
{
    let z: u8 = (id % 32) as u8;
    let rest: u64 = id / 32;
    proof {
        lemma2_to64();
        lemma_u64_pow2_no_overflow(z as nat);
        lemma_u64_shl_is_mul(1u64, z as u64);
        lemma_mod_division_less_than_divisor(rest as int, (1u64 << z) as int);
    }
    let z2: u64 = 1u64 << z;
    let x: u32 = (rest % z2) as u32;
    let y: u32 = (rest / z2) as u32;
    (z, x, y)
}

/// Decoding a packed key recovers the coordinates exactly: the key is
/// injective over legal coordinates at zooms up to 24.
pub proof fn lemma_key_roundtrip(z: nat, x: nat, y: nat)
    requires
        z <= 24,
        x < pow2(z),
        y < pow2(z),
    ensures
        key_zoom(key_of(z, x, y)) == z,
        key_col(key_of(z, x, y)) == x,
        key_row(key_of(z, x, y)) == y,
{
    let p = pow2(z);
    let q = p * y + x;
    let k = key_of(z, x, y);
    lemma_pow2_pos(z);
    lemma_fundamental_div_mod_converse(k as int, 32, q as int, z as int);
    assert(key_zoom(k) == z);
    assert(k / 32 == q);
    vstd::arithmetic::mul::lemma_mul_is_commutative(p as int, y as int);
    lemma_fundamental_div_mod_converse(q as int, p as int, y as int, x as int);
}

/// Bounds `pow2` at zooms in range: at most `2^24`.
pub proof fn lemma_pow2_le_24(z: nat)
    requires
        z <= 24,
    ensures
        pow2(z) <= 0x1000000,
        pow2(z) >= 1,
{
    lemma2_to64();
    lemma_pow2_pos(z);
    if z < 24 {
        lemma_pow2_strictly_increases(z, 24);
    }
}

/// The canonical form of a requested column at zoom `z`: its remainder in the
/// zoom's grid width.
pub open spec fn canon_col(x: u32, z: u8) -> nat {
    (x as nat) % pow2(z as nat)
}

/// Reduces a requested column into `[0, 2^z)`, so every world copy of a tile
/// resolves to the same stored tile.
pub fn canonical_x(x: u32, z: u8) -> (r: u32)
    requires
        z <= 24,
    ensures
        r as nat == (x as nat) % pow2(z as nat),
        (r as nat) < pow2(z as nat),
{
    proof {
        lemma2_to64();
        lemma_pow2_le_24(z as nat);
        lemma_u32_shl_is_mul(1u32, z as u32);
    }
    let z2: u32 = 1u32 << z;
    proof {
        lemma_mod_division_less_than_divisor(x as int, z2 as int);
        lemma_mod_add_multiples_vanish((x as int) % (z2 as int), z2 as int);
        lemma_small_mod(((x as nat) % (z2 as nat)), z2 as nat);
    }
    ((x % z2) + z2) % z2
}

/// Shifting a column by a whole world width `2^z` does not change its
/// canonical form: requests for any world wrap of a tile name the same tile.
pub proof fn lemma_canonical_wrap(x: nat, z: nat)
    requires
        z <= 24,
    ensures
        (x + pow2(z)) % pow2(z) == x % pow2(z),
{
    lemma_pow2_pos(z);
    lemma_mod_add_multiples_vanish(x as int, pow2(z) as int);
}

/// Splitting a legal tile gives legal children: the four child coordinates at
/// the next zoom stay within the quadtree's bounds.
pub proof fn lemma_children_legal(z: u8, x: u32, y: u32)
    requires
        legal_coords(z, x, y),
        z < 24,
    ensures
        legal_coords((z + 1) as u8, (2 * x) as u32, (2 * y) as u32),
        legal_coords((z + 1) as u8, (2 * x + 1) as u32, (2 * y) as u32),
        legal_coords((z + 1) as u8, (2 * x) as u32, (2 * y + 1) as u32),
        legal_coords((z + 1) as u8, (2 * x + 1) as u32, (2 * y + 1) as u32),
{
    lemma_pow2_le_24((z + 1) as nat);
    lemma_pow2_unfold((z + 1) as nat);
}

/// A materialized tile's coordinates, in the order the index created them.
#[derive(Debug, Clone, Copy, PartialEq, Eq, Structural)]
pub struct TileCoord {
    pub(crate) x: u32,
    pub(crate) y: u32,
    pub(crate) z: u8,
}

impl TileCoord {
    /// The column.
    pub closed spec fn col(self) -> u32 {
        self.x
    }

    /// The row.
    pub closed spec fn row(self) -> u32 {
        self.y
    }

    /// The zoom.
    pub closed spec fn zoom(self) -> u8 {
        self.z
    }

    /// Bundles a column, row and zoom.
    pub fn new(x: u32, y: u32, z: u8) -> (r: TileCoord)
        ensures
            r.col() == x,
            r.row() == y,
            r.zoom() == z,
    {
        TileCoord { x, y, z }
    }
}

} // verus!
