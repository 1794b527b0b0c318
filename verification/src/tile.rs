//! Tiles and their composite keys.
//!
//! A tile is one occupied grid cell, a region seed, or a metadata record.
//! The live store indexes tiles by a single packed integer key; the textual
//! form of a key (`"{y}x{x}"`, `"v{n}"`, `"mapsize"`, `"player"`) is derived
//! only at the persistence boundary.

use vstd::prelude::*;
use vstd::arithmetic::div_mod::lemma_fundamental_div_mod_converse;

verus! {

/// One tile: a coordinate, a display symbol, and (for region seeds only)
/// the packed keys of up to two neighbouring regions.
#[derive(Debug)]
pub struct Tile {
    pub y: i32,
    pub x: i32,
    pub c: char,
    pub neighbors: Vec<u128>,
}

/// The mathematical value of a `Tile`.
pub struct TileView {
    pub y: int,
    pub x: int,
    pub c: char,
    pub neighbors: Seq<u128>,
}

impl View for Tile {
    type V = TileView;

    open spec fn view(&self) -> TileView {
        TileView { y: self.y as int, x: self.x as int, c: self.c, neighbors: self.neighbors@ }
    }
}

/// Keys with this value or above are region keys; below it, grid keys.
pub const REGION_KEY_BASE: u128 = 0x1_0000_0000_0000_0000;

/// The 32-bit span: grid keys pack the two coordinates in base `2^32`.
pub const COORD_SPAN: u128 = 0x1_0000_0000;

/// The unsigned 32-bit pattern that stands for the signed value `v`.
pub open spec fn wrap32(v: int) -> int {
    if v >= 0 {
        v
    } else {
        v + 0x1_0000_0000
    }
}

/// The signed value whose 32-bit pattern is `b`.
pub open spec fn unwrap32(b: int) -> int {
    if b < 0x8000_0000 {
        b
    } else {
        b - 0x1_0000_0000
    }
}

/// The packed key of the grid cell at `(y, x)`.
pub open spec fn grid_key(y: int, x: int) -> u128 {
    (wrap32(y) * 0x1_0000_0000 + wrap32(x)) as u128
}

/// The packed key of the region seed with index `n`.
pub open spec fn region_key(n: int) -> u128 {
    (0x1_0000_0000_0000_0000 + n) as u128
}

/// The packed key of the map-bounds metadata entry.
pub open spec fn mapsize_key() -> u128 {
    0x2_0000_0000_0000_0000
}

/// The packed key of the spawn-marker metadata entry.
pub open spec fn player_key() -> u128 {
    0x3_0000_0000_0000_0000
}

/// The y coordinate packed into a grid key.
pub open spec fn key_grid_y(k: u128) -> int {
    unwrap32(k as int / 0x1_0000_0000)
}

/// The x coordinate packed into a grid key.
pub open spec fn key_grid_x(k: u128) -> int {
    unwrap32(k as int % 0x1_0000_0000)
}

/// The region index packed into a region key.
pub open spec fn key_region_n(k: u128) -> int {
    k as int - 0x1_0000_0000_0000_0000
}

/// The keys the store may hold: a grid key for any pair of `i32`
/// coordinates, a region key with a 32-bit index, or a metadata key.
pub open spec fn valid_key(k: u128) -> bool {
    ||| k < 0x1_0000_0000_0000_0000
    ||| (0x1_0000_0000_0000_0000 <= k && k < 0x1_0000_0000_0000_0000 + 0x1_0000_0000)
    ||| k == mapsize_key()
    ||| k == player_key()
}

/// Is `k` the key of a grid cell?
pub open spec fn is_grid_key(k: u128) -> bool {
    k < 0x1_0000_0000_0000_0000
}

/// Is `k` the key of a region seed with a 32-bit index?
pub open spec fn is_region_key(k: u128) -> bool {
    0x1_0000_0000_0000_0000 <= k && k < 0x1_0000_0000_0000_0000 + 0x1_0000_0000
}

/// Grid keys decode back to the coordinates they were packed from.
pub proof fn lemma_grid_key_inverse(y: int, x: int)
    requires
        -0x8000_0000 <= y < 0x8000_0000,
        -0x8000_0000 <= x < 0x8000_0000,
    ensures
        is_grid_key(grid_key(y, x)),
        key_grid_y(grid_key(y, x)) == y,
        key_grid_x(grid_key(y, x)) == x,
{
    let wy = wrap32(y);
    let wx = wrap32(x);
    assert(0 <= wy < 0x1_0000_0000);
    assert(0 <= wx < 0x1_0000_0000);
    let k = wy * 0x1_0000_0000 + wx;
    assert(0 <= k < 0x1_0000_0000_0000_0000) by (nonlinear_arith)
        requires
            0 <= wy < 0x1_0000_0000,
            0 <= wx < 0x1_0000_0000,
            k == wy * 0x1_0000_0000 + wx,
    ;
    lemma_fundamental_div_mod_converse(k, 0x1_0000_0000, wy, wx);
    assert(k / 0x1_0000_0000 == wy);
    assert(k % 0x1_0000_0000 == wx);
    assert(grid_key(y, x) as int == k);
}

/// Distinct coordinate pairs always get distinct grid keys.
pub proof fn lemma_grid_key_injective(y1: int, x1: int, y2: int, x2: int)
    requires
        -0x8000_0000 <= y1 < 0x8000_0000,
        -0x8000_0000 <= x1 < 0x8000_0000,
        -0x8000_0000 <= y2 < 0x8000_0000,
        -0x8000_0000 <= x2 < 0x8000_0000,
        grid_key(y1, x1) == grid_key(y2, x2),
    ensures
        y1 == y2 && x1 == x2,
{
    lemma_grid_key_inverse(y1, x1);
    lemma_grid_key_inverse(y2, x2);
}

/// Region keys decode back to the index they were packed from.
pub proof fn lemma_region_key_inverse(n: int)
    requires
        0 <= n < 0x1_0000_0000,
    ensures
        is_region_key(region_key(n)),
        key_region_n(region_key(n)) == n,
        !is_grid_key(region_key(n)),
        region_key(n) != mapsize_key(),
        region_key(n) != player_key(),
{
}

/// Grid keys are never region or metadata keys.
pub proof fn lemma_grid_key_small(y: int, x: int)
    requires
        -0x8000_0000 <= y < 0x8000_0000,
        -0x8000_0000 <= x < 0x8000_0000,
    ensures
        is_grid_key(grid_key(y, x)),
        grid_key(y, x) != mapsize_key(),
        grid_key(y, x) != player_key(),
        !is_region_key(grid_key(y, x)),
{
    lemma_grid_key_inverse(y, x);
}

/// The unsigned 32-bit pattern of `v`, as an executable value.
pub fn bits32(v: i32) -> (b: u64)
    ensures
        b == wrap32(v as int),
{
    if v >= 0 {
        v as u64
    } else {
        ((v as i64) + 0x1_0000_0000i64) as u64
    }
}

/// The signed value whose unsigned 32-bit pattern is `b`.
pub fn unbits32(b: u64) -> (v: i32)
    requires
        b < 0x1_0000_0000,
    ensures
        v as int == unwrap32(b as int),
{
    if b < 0x8000_0000 {
        b as i32
    } else {
        ((b as i64) - 0x1_0000_0000i64) as i32
    }
}

/// The packed grid key for `(y, x)`, as an executable value.
pub fn grid_key_of(y: i32, x: i32) -> (k: u128)
    ensures
        k == grid_key(y as int, x as int),
{
    let yb: u64 = bits32(y);
    let xb: u64 = bits32(x);
    (yb as u128) * 0x1_0000_0000 + (xb as u128)
}

/// The packed region key for index `n`, as an executable value.
pub fn region_key_of(n: u32) -> (k: u128)
    ensures
        k == region_key(n as int),
{
    0x1_0000_0000_0000_0000u128 + (n as u128)
}

/// The views of a sequence of tiles.
pub open spec fn seed_views(s: Seq<Tile>) -> Seq<TileView> {
    s.map_values(|t: Tile| t@)
}

/// The integer square root: the largest `r` with `r * r <= n`.
pub open spec fn isqrt_rec(n: nat) -> nat
    decreases n,
{
    if n == 0 {
        0
    } else {
        let r = isqrt_rec((n - 1) as nat);
        if (r + 1) * (r + 1) <= n {
            r + 1
        } else {
            r
        }
    }
}

/// `isqrt_rec` really is the rounded-down square root.
pub proof fn lemma_isqrt_bounds(n: nat)
    ensures
        (isqrt_rec(n) as int) * (isqrt_rec(n) as int) <= n as int,
        (n as int) < (isqrt_rec(n) as int + 1) * (isqrt_rec(n) as int + 1),
    decreases n,
{
    let s = isqrt_rec(n) as int;
    if n == 0 {
        assert(isqrt_rec(0) == 0);
    } else {
        lemma_isqrt_bounds((n - 1) as nat);
        let r = isqrt_rec((n - 1) as nat) as int;
        assert(r >= 0);
        assert(r * r <= n - 1);
        assert(n - 1 < (r + 1) * (r + 1));
        if s == r + 1 {
            assert((r + 1) * (r + 1) <= n);
            assert((n as int) < (s + 1) * (s + 1)) by (nonlinear_arith)
                requires
                    n - 1 < (r + 1) * (r + 1),
                    r >= 0,
                    s == r + 1,
            ;
        } else {
            assert(s == r);
            assert(!((isqrt_rec((n - 1) as nat) + 1) * (isqrt_rec((n - 1) as nat) + 1) <= n));
            assert((n as int) < (r + 1) * (r + 1));
        }
    }
}

/// Any `r` within the square-root bounds is `isqrt_rec(n)`.
pub proof fn lemma_isqrt_unique(n: nat, r: nat)
    requires
        r * r <= n,
        n < (r + 1) * (r + 1),
    ensures
        r == isqrt_rec(n),
{
    lemma_isqrt_bounds(n);
    let s = isqrt_rec(n) as int;
    assert(r as int == s) by (nonlinear_arith)
        requires
            (r as int) * (r as int) <= n as int,
            (n as int) < (r as int + 1) * (r as int + 1),
            s * s <= n as int,
            (n as int) < (s + 1) * (s + 1),
            s >= 0,
    ;
}

/// The squared Euclidean distance between two tiles.
pub open spec fn dist_sq(a: TileView, b: TileView) -> int {
    (a.y - b.y) * (a.y - b.y) + (a.x - b.x) * (a.x - b.x)
}

/// The rounded-down Euclidean distance between two tiles.
pub open spec fn euclid_dist(a: TileView, b: TileView) -> int {
    isqrt_rec(dist_sq(a, b) as nat) as int
}

/// Executable integer square root, by binary search.
pub fn isqrt_u64(n: u64) -> (r: u64)
    ensures
        (r as int) * (r as int) <= n as int,
        (n as int) < (r as int + 1) * (r as int + 1),
{
    let mut lo: u64 = 0;
    let mut hi: u64 = 0x1_0000_0000;
    proof {
        assert((hi as int) * (hi as int) > n as int) by (nonlinear_arith)
            requires
                hi == 0x1_0000_0000u64,
                n <= u64::MAX,
        ;
    }
    while hi - lo > 1
        invariant
            lo < hi <= 0x1_0000_0000,
            (lo as int) * (lo as int) <= n as int,
            (n as int) < (hi as int) * (hi as int),
        decreases hi - lo,
    {
        let mid: u64 = lo + (hi - lo) / 2;
        assert(lo < mid < hi);
        assert(mid * mid <= (0x1_0000_0000u64 - 1) * (0x1_0000_0000u64 - 1)) by (nonlinear_arith)
            requires
                mid < 0x1_0000_0000u64,
        ;
        if mid * mid <= n {
            lo = mid;
        } else {
            hi = mid;
        }
    }
    lo
}

/// The absolute value of an integer.
pub open spec fn abs_of(v: int) -> int {
    if v >= 0 {
        v
    } else {
        -v
    }
}

/// Manhattan distance between two coordinates.
pub open spec fn manhattan(y1: int, x1: int, y2: int, x2: int) -> int {
    abs_of(y1 - y2) + abs_of(x1 - x2)
}

impl Tile {
    /// A fresh tile with the given fields.
    pub fn new(y: i32, x: i32, c: char, neighbors: Vec<u128>) -> (t: Tile)
        ensures
            t@.y == y as int,
            t@.x == x as int,
            t@.c == c,
            t@.neighbors == neighbors@,
    {
        Tile { y, x, c, neighbors }
    }

    /// The packed key of this tile's coordinate.
    pub fn get_tile_key(&self) -> (k: u128)
        ensures
            k == grid_key(self@.y, self@.x),
    {
        grid_key_of(self.y, self.x)
    }

    /// Manhattan distance between two tiles, used by the rasterizer.
    pub fn distance(v: &Tile, t: &Tile) -> (d: i32)
        requires
            -0x1FFF_FFFF <= v@.y <= 0x1FFF_FFFF,
            -0x1FFF_FFFF <= v@.x <= 0x1FFF_FFFF,
            -0x1FFF_FFFF <= t@.y <= 0x1FFF_FFFF,
            -0x1FFF_FFFF <= t@.x <= 0x1FFF_FFFF,
        ensures
            d == manhattan(v@.y, v@.x, t@.y, t@.x),
    {
        let dy: i32 = if v.y >= t.y {
            v.y - t.y
        } else {
            t.y - v.y
        };
        let dx: i32 = if v.x >= t.x {
            v.x - t.x
        } else {
            t.x - v.x
        };
        dy + dx
    }

    /// Rounded-down Euclidean distance between two tiles, used by the
    /// neighbour linker.
    pub fn distance_slow(v: &Tile, t: &Tile) -> (d: i32)
        requires
            -0x2000_0000 <= v@.y <= 0x2000_0000,
            -0x2000_0000 <= v@.x <= 0x2000_0000,
            -0x2000_0000 <= t@.y <= 0x2000_0000,
            -0x2000_0000 <= t@.x <= 0x2000_0000,
        ensures
            d == euclid_dist(v@, t@),
    {
        let dy: i64 = (v.y as i64) - (t.y as i64);
        let dx: i64 = (v.x as i64) - (t.x as i64);
        assert(dy * dy + dx * dx <= 0x2000_0000_0000_0000) by (nonlinear_arith)
            requires
                -0x4000_0000 <= dy <= 0x4000_0000,
                -0x4000_0000 <= dx <= 0x4000_0000,
        ;
        assert(dy * dy >= 0 && dx * dx >= 0) by (nonlinear_arith);
        let s: u64 = (dy * dy + dx * dx) as u64;
        let r = isqrt_u64(s);
        proof {
            assert((r as int) * (r as int) < 0x8000_0000 * 0x8000_0000) by (nonlinear_arith)
                requires
                    (r as int) * (r as int) <= s as int,
                    s <= 0x2000_0000_0000_0000u64,
            ;
            assert(r < 0x8000_0000) by (nonlinear_arith)
                requires
                    (r as int) * (r as int) < 0x8000_0000 * 0x8000_0000,
                    r >= 0,
            ;
            assert(s as int == dist_sq(v@, t@));
            lemma_isqrt_unique(s as nat, r as nat);
        }
        r as i32
    }
}

} // verus!
