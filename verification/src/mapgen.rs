//! Map generation: scatter typed region seeds, link each region to its two
//! nearest neighbours, then rasterize every grid cell to the symbol of its
//! nearest region (Manhattan distance), forcing the outer ring to wall.

use vstd::prelude::*;
use crate::tile::{
    Tile, TileView, grid_key, region_key, mapsize_key, player_key, grid_key_of, region_key_of,
    manhattan, euclid_dist, seed_views, lemma_grid_key_inverse, lemma_region_key_inverse,
    lemma_grid_key_small, lemma_grid_key_injective, valid_key,
};
use crate::store::{TileStore, TileMap, valid_neighbors};
use crate::MapError;

verus! {

/// The smallest accepted map height and width.
pub const MIN_MAP_SIZE: i32 = 50;

/// The largest accepted map height and width (a machine limit: it keeps
/// every coordinate and count comfortably inside the fixed-width types).
pub const MAX_MAP_SIZE: i32 = 10000;

/// Is `(y, x)` a cell of an `h` by `w` grid?
pub open spec fn in_grid(h: int, w: int, y: int, x: int) -> bool {
    0 <= y < h && 0 <= x < w
}

/// Is `(y, x)` on the outer ring of an `h` by `w` grid?
pub open spec fn on_border(h: int, w: int, y: int, x: int) -> bool {
    y == 0 || y == h - 1 || x == 0 || x == w - 1
}

/// The Manhattan distance from a seed to a grid cell.
pub open spec fn seed_dist(s: TileView, y: int, x: int) -> int {
    manhattan(s.y, s.x, y, x)
}

/// Seed `i` is the nearest seed to `(y, x)`, ties going to the lowest index:
/// no seed is nearer, and every earlier seed is strictly farther.
pub open spec fn is_nearest(seeds: Seq<TileView>, i: int, y: int, x: int) -> bool {
    &&& 0 <= i < seeds.len()
    &&& forall|j: int|
        0 <= j < seeds.len() ==> seed_dist(seeds[i], y, x) <= seed_dist(#[trigger] seeds[j], y, x)
    &&& forall|j: int| 0 <= j < i ==> seed_dist(#[trigger] seeds[j], y, x) > seed_dist(seeds[i], y, x)
}

/// Region `i` ranks strictly before region `j` as a neighbour of region
/// `v`: nearer by rounded Euclidean distance, or as near with a lower index.
pub open spec fn ranks_before(seeds: Seq<TileView>, v: int, i: int, j: int) -> bool {
    let di = euclid_dist(seeds[i], seeds[v]);
    let dj = euclid_dist(seeds[j], seeds[v]);
    di < dj || (di == dj && i < j)
}

/// Region `i` is the nearest other region to region `v` among the first
/// `cnt` seeds.
pub open spec fn is_closest(seeds: Seq<TileView>, cnt: int, v: int, i: int) -> bool {
    &&& 0 <= i < cnt
    &&& i != v
    &&& forall|j: int| 0 <= j < cnt && j != v && j != i ==> ranks_before(seeds, v, i, #[trigger] (j + 0))
}

/// Region `i` is the second-nearest other region to region `v`, after `i1`.
pub open spec fn is_second(seeds: Seq<TileView>, cnt: int, v: int, i1: int, i: int) -> bool {
    &&& 0 <= i < cnt
    &&& i != v
    &&& i != i1
    &&& forall|j: int|
        0 <= j < cnt && j != v && j != i1 && j != i ==> ranks_before(seeds, v, i, #[trigger] (j + 0))
}

/// A region seed for an `h` by `w` map: in bounds, typed wall or floor,
/// with no recorded neighbours.
pub open spec fn valid_seed(s: TileView, h: int, w: int, wall: char, floor: char) -> bool {
    &&& in_grid(h, w, s.y, s.x)
    &&& (s.c == wall || s.c == floor)
    &&& s.neighbors.len() == 0
}

/// The fixed spawn seed: a floor region appended after the random ones.
pub open spec fn spawn_seed(floor: char) -> TileView {
    TileView { y: 12, x: 35, c: floor, neighbors: Seq::empty() }
}

/// Relies on rand::random_range: a uniformly drawn value inside the
/// (non-empty) given range.
#[verifier::external_body]
fn rand_range(lo: i32, hi: i32) -> (r: i32)
    requires
        lo < hi,
    ensures
        lo <= r < hi,
{
    rand::random_range(lo..hi)
}

/// Scatter the random region seeds for an `h` by `w` map and append the
/// fixed spawn seed.  The number of random seeds is drawn uniformly from
/// `[(h + w) / 2, (h + w) * 2)`; each seed's coordinates are drawn
/// uniformly from the grid and its type is a coin flip between wall and
/// floor.
fn seed_regions(sizey: i32, sizex: i32, map_wall: char, map_floor: char) -> (seeds: Vec<Tile>)
    requires
        MIN_MAP_SIZE <= sizey <= MAX_MAP_SIZE,
        MIN_MAP_SIZE <= sizex <= MAX_MAP_SIZE,
    ensures
        (sizey + sizex) / 2 <= seeds@.len() - 1 < (sizey + sizex) * 2,
        forall|i: int|
            0 <= i < seeds@.len() ==> valid_seed(
                #[trigger] seed_views(seeds@)[i],
                sizey as int,
                sizex as int,
                map_wall,
                map_floor,
            ),
        seed_views(seeds@).last() == spawn_seed(map_floor),
{
    let count: i32 = rand_range((sizey + sizex) / 2, (sizey + sizex) * 2);
    let mut seeds: Vec<Tile> = Vec::new();
    let mut v: i32 = 0;
    while v < count
        invariant
            0 <= v <= count,
            seeds@.len() == v,
            MIN_MAP_SIZE <= sizey <= MAX_MAP_SIZE,
            MIN_MAP_SIZE <= sizex <= MAX_MAP_SIZE,
            forall|i: int|
                0 <= i < seeds@.len() ==> valid_seed(
                    #[trigger] seed_views(seeds@)[i],
                    sizey as int,
                    sizex as int,
                    map_wall,
                    map_floor,
                ),
        decreases count - v,
    {
        let y = rand_range(0, sizey);
        let x = rand_range(0, sizex);
        let tile_type = rand_range(0, 2);
        let c = if tile_type == 0 {
            map_wall
        } else {
            map_floor
        };
        let ghost prev = seeds@;
        seeds.push(Tile::new(y, x, c, Vec::new()));
        proof {
            assert(valid_seed(seeds@.last()@, sizey as int, sizex as int, map_wall, map_floor));
            assert forall|i: int| 0 <= i < seeds@.len() implies valid_seed(
                #[trigger] seed_views(seeds@)[i],
                sizey as int,
                sizex as int,
                map_wall,
                map_floor,
            ) by {
                if i < prev.len() {
                    assert(valid_seed(
                        seed_views(prev)[i],
                        sizey as int,
                        sizex as int,
                        map_wall,
                        map_floor,
                    ));
                    assert(seed_views(seeds@)[i] == seed_views(prev)[i]);
                } else {
                    assert(seed_views(seeds@)[i] == seeds@.last()@);
                }
            }
        }
        v = v + 1;
    }
    let ghost prev = seeds@;
    seeds.push(Tile::new(12, 35, map_floor, Vec::new()));
    proof {
        assert(seeds@.last()@ =~= spawn_seed(map_floor));
        assert(valid_seed(seeds@.last()@, sizey as int, sizex as int, map_wall, map_floor));
        assert forall|i: int| 0 <= i < seeds@.len() implies valid_seed(
            #[trigger] seed_views(seeds@)[i],
            sizey as int,
            sizex as int,
            map_wall,
            map_floor,
        ) by {
            if i < prev.len() {
                assert(valid_seed(
                    seed_views(prev)[i],
                    sizey as int,
                    sizex as int,
                    map_wall,
                    map_floor,
                ));
                assert(seed_views(seeds@)[i] == seed_views(prev)[i]);
            } else {
                assert(seed_views(seeds@)[i] == seeds@.last()@);
            }
        }
        assert(seed_views(seeds@).last() == seeds@.last()@);
    }
    seeds
}

/// Every seed lies inside the `h` by `w` grid.
pub open spec fn seeds_in_grid(s: Seq<TileView>, h: int, w: int) -> bool {
    forall|i: int| 0 <= i < s.len() ==> in_grid(h, w, (#[trigger] s[i]).y, s[i].x)
}

/// The index of the nearest seed to `(y, x)` by Manhattan distance, the
/// lowest index winning ties.
fn nearest_seed(seeds: &Vec<Tile>, y: i32, x: i32) -> (r: usize)
    requires
        seeds@.len() >= 1,
        seeds_in_grid(seed_views(seeds@), 0x8000, 0x8000),
        0 <= y < 0x8000,
        0 <= x < 0x8000,
    ensures
        is_nearest(seed_views(seeds@), r as int, y as int, x as int),
{
    let ghost sv = seed_views(seeds@);
    let target = Tile::new(y, x, ' ', Vec::new());
    let mut best: usize = 0;
    let mut j: usize = 1;
    while j < seeds.len()
        invariant
            1 <= j <= seeds@.len(),
            best < j,
            sv == seed_views(seeds@),
            seeds_in_grid(sv, 0x8000, 0x8000),
            0 <= y < 0x8000,
            0 <= x < 0x8000,
            target@.y == y as int && target@.x == x as int,
            forall|j2: int|
                0 <= j2 < j ==> seed_dist(sv[best as int], y as int, x as int) <= seed_dist(
                    #[trigger] sv[j2],
                    y as int,
                    x as int,
                ),
            forall|j2: int|
                0 <= j2 < best ==> seed_dist(#[trigger] sv[j2], y as int, x as int) > seed_dist(
                    sv[best as int],
                    y as int,
                    x as int,
                ),
        decreases seeds@.len() - j,
    {
        proof {
            assert(in_grid(0x8000, 0x8000, sv[j as int].y, sv[j as int].x));
            assert(in_grid(0x8000, 0x8000, sv[best as int].y, sv[best as int].x));
            assert(seeds@[j as int]@ == sv[j as int]);
            assert(seeds@[best as int]@ == sv[best as int]);
        }
        let dj = Tile::distance(&seeds[j], &target);
        let db = Tile::distance(&seeds[best], &target);
        if dj < db {
            best = j;
        }
        j = j + 1;
    }
    best
}

/// The lowest-ranked region as a neighbour of region `v` among the first
/// `count` seeds, excluding `v` itself, `skip`, and no others.
fn argmin_region(seeds: &Vec<Tile>, count: usize, v: usize, skip: usize) -> (r: usize)
    requires
        3 <= count <= seeds@.len(),
        v < count,
        seeds_in_grid(seed_views(seeds@), 0x8000, 0x8000),
    ensures
        r < count,
        r != v,
        r != skip,
        forall|j: int|
            0 <= j < count && j != v && j != skip && j != r ==> ranks_before(
                seed_views(seeds@),
                v as int,
                r as int,
                #[trigger] (j + 0),
            ),
{
    let ghost sv = seed_views(seeds@);
    let first: usize = if v != 0 && skip != 0 {
        0
    } else if v != 1 && skip != 1 {
        1
    } else {
        2
    };
    let mut best: usize = first;
    let mut j: usize = 0;
    while j < count
        invariant
            j <= count,
            3 <= count <= seeds@.len(),
            v < count,
            sv == seed_views(seeds@),
            seeds_in_grid(sv, 0x8000, 0x8000),
            best < count,
            best != v,
            best != skip,
            forall|j2: int|
                0 <= j2 < j && j2 != v && j2 != skip && j2 != best ==> ranks_before(
                    sv,
                    v as int,
                    best as int,
                    #[trigger] (j2 + 0),
                ),
        decreases count - j,
    {
        if j != v && j != skip {
            proof {
                assert(in_grid(0x8000, 0x8000, sv[j as int].y, sv[j as int].x));
                assert(in_grid(0x8000, 0x8000, sv[best as int].y, sv[best as int].x));
                assert(in_grid(0x8000, 0x8000, sv[v as int].y, sv[v as int].x));
                assert(seeds@[j as int]@ == sv[j as int]);
                assert(seeds@[best as int]@ == sv[best as int]);
                assert(seeds@[v as int]@ == sv[v as int]);
            }
            let dj = Tile::distance_slow(&seeds[j], &seeds[v]);
            let db = Tile::distance_slow(&seeds[best], &seeds[v]);
            if dj < db || (dj == db && j < best) {
                let ghost prev = best as int;
                best = j;
                proof {
                    assert forall|j2: int|
                        0 <= j2 < j + 1 && j2 != v && j2 != skip && j2 != best implies ranks_before(
                        sv,
                        v as int,
                        best as int,
                        #[trigger] (j2 + 0),
                    ) by {
                        if j2 != prev {
                            assert(ranks_before(sv, v as int, prev, j2 + 0));
                        }
                    }
                }
            } else {
                proof {
                    if j != best {
                        assert(ranks_before(sv, v as int, best as int, (j as int) + 0));
                    }
                }
            }
        }
        j = j + 1;
    }
    best
}

/// The keys of the first `v` region entries.
pub open spec fn region_dom(v: int) -> Set<u128> {
    Set::new(|k: u128| exists|i: int| 0 <= i < v && k == region_key(i))
}

/// The keys of the grid cells strictly before `(y, x)` in row-major order,
/// for rows of width `w`.
pub open spec fn grid_prefix_dom(w: int, y: int, x: int) -> Set<u128> {
    Set::new(
        |k: u128|
            exists|yy: int, xx: int|
                0 <= yy && 0 <= xx < w && (yy < y || (yy == y && xx < x)) && k == grid_key(yy, xx),
    )
}

/// The keys of all cells of an `h` by `w` grid.
pub open spec fn grid_dom(h: int, w: int) -> Set<u128> {
    Set::new(|k: u128| exists|yy: int, xx: int| in_grid(h, w, yy, xx) && k == grid_key(yy, xx))
}

/// Every key a generated store holds: the full grid, `n` region entries,
/// and the two metadata entries.
pub open spec fn store_dom(h: int, w: int, n: int) -> Set<u128> {
    grid_dom(h, w).union(region_dom(n)).insert(mapsize_key()).insert(player_key())
}

/// The region entry for index `i` copies seed `i`'s coordinate and symbol
/// and records the keys of the two nearest other regions, nearest first.
pub open spec fn region_entry_matches(
    m: Map<u128, TileView>,
    sv: Seq<TileView>,
    n: int,
    i: int,
) -> bool {
    let t = m[region_key(i)];
    &&& t.y == sv[i].y
    &&& t.x == sv[i].x
    &&& t.c == sv[i].c
    &&& exists|i1: int, i2: int|
        is_closest(sv, n, i, i1) && is_second(sv, n, i, i1, i2) && t.neighbors == seq![
            region_key(i1),
            region_key(i2),
        ]
}

/// The grid entry at `(y, x)` carries its own coordinate, no neighbours,
/// and the symbol of the nearest seed — except on the border, which is
/// always wall.
pub open spec fn grid_entry_matches(
    m: Map<u128, TileView>,
    sv: Seq<TileView>,
    h: int,
    w: int,
    wall: char,
    y: int,
    x: int,
) -> bool {
    let t = m[grid_key(y, x)];
    &&& t.y == y
    &&& t.x == x
    &&& t.neighbors.len() == 0
    &&& on_border(h, w, y, x) ==> t.c == wall
    &&& !on_border(h, w, y, x) ==> exists|i: int|
        is_nearest(sv, i, y, x) && t.c == sv[#[trigger] (i + 0)].c
}

/// The seeds a generated store determines: the `n` region entries it
/// holds, followed by the fixed spawn seed.
pub open spec fn gen_seeds(m: Map<u128, TileView>, n: int, floor: char) -> Seq<TileView> {
    Seq::new(
        (n + 1) as nat,
        |i: int|
            if i < n {
                m[region_key(i)]
            } else {
                spawn_seed(floor)
            },
    )
}

/// The complete shape of a generated `h` by `w` store with `n` random
/// regions: its exact key set and entry count, the linked region entries,
/// the rasterized grid with walls forced on the border, and the two
/// metadata entries.
pub open spec fn gen_shape(
    m: Map<u128, TileView>,
    h: int,
    w: int,
    n: int,
    wall: char,
    floor: char,
    pc: char,
) -> bool {
    let gs = gen_seeds(m, n, floor);
    &&& (h + w) / 2 <= n < (h + w) * 2
    &&& m.dom() == store_dom(h, w, n)
    &&& m.len() == h * w + n + 2
    &&& forall|i: int|
        0 <= i < n ==> in_grid(h, w, (#[trigger] m[region_key(i)]).y, m[region_key(i)].x) && (
        m[region_key(i)].c == wall || m[region_key(i)].c == floor) && region_entry_matches(
            m,
            gs,
            n,
            i,
        )
    &&& forall|y: int, x: int|
        in_grid(h, w, y, x) ==> grid_entry_matches(m, gs, h, w, wall, y, x) && m.dom().contains(
            #[trigger] grid_key(y, x),
        )
    &&& m[mapsize_key()] == (TileView { y: h, x: w, c: '$', neighbors: Seq::<u128>::empty() })
    &&& m[player_key()] == (TileView { y: 0, x: 0, c: pc, neighbors: Seq::<u128>::empty() })
}

/// Two seed sequences that agree on coordinates rank regions identically.
proof fn lemma_ranks_transfer(a: Seq<TileView>, b: Seq<TileView>, v: int, i: int, j: int)
    requires
        a.len() == b.len(),
        forall|q: int| 0 <= q < a.len() ==> (#[trigger] a[q]).y == b[q].y && a[q].x == b[q].x,
        0 <= v < a.len(),
        0 <= i < a.len(),
        0 <= j < a.len(),
        ranks_before(a, v, i, j),
    ensures
        ranks_before(b, v, i, j),
{
    assert(euclid_dist(a[i], a[v]) == euclid_dist(b[i], b[v]));
    assert(euclid_dist(a[j], a[v]) == euclid_dist(b[j], b[v]));
}

/// Two seed sequences that agree on coordinates pick the same nearest and
/// second-nearest regions.
proof fn lemma_closest_transfer(a: Seq<TileView>, b: Seq<TileView>, n: int, v: int, i1: int, i2: int)
    requires
        a.len() == b.len(),
        n <= a.len(),
        forall|q: int| 0 <= q < a.len() ==> (#[trigger] a[q]).y == b[q].y && a[q].x == b[q].x,
        0 <= v < n,
        is_closest(a, n, v, i1),
        is_second(a, n, v, i1, i2),
    ensures
        is_closest(b, n, v, i1),
        is_second(b, n, v, i1, i2),
{
    assert forall|j: int| 0 <= j < n && j != v && j != i1 implies ranks_before(
        b,
        v,
        i1,
        #[trigger] (j + 0),
    ) by {
        assert(ranks_before(a, v, i1, j + 0));
        lemma_ranks_transfer(a, b, v, i1, j);
    }
    assert forall|j: int| 0 <= j < n && j != v && j != i1 && j != i2 implies ranks_before(
        b,
        v,
        i2,
        #[trigger] (j + 0),
    ) by {
        assert(ranks_before(a, v, i2, j + 0));
        lemma_ranks_transfer(a, b, v, i2, j);
    }
}

/// Two seed sequences that agree on coordinates agree on the nearest seed
/// of every grid cell.
proof fn lemma_nearest_transfer(a: Seq<TileView>, b: Seq<TileView>, i: int, y: int, x: int)
    requires
        a.len() == b.len(),
        forall|q: int| 0 <= q < a.len() ==> (#[trigger] a[q]).y == b[q].y && a[q].x == b[q].x,
        is_nearest(a, i, y, x),
    ensures
        is_nearest(b, i, y, x),
{
    assert forall|j: int| 0 <= j < b.len() implies seed_dist(b[i], y, x) <= seed_dist(
        #[trigger] b[j],
        y,
        x,
    ) by {
        assert(seed_dist(a[i], y, x) <= seed_dist(a[j], y, x));
        assert(seed_dist(a[j], y, x) == seed_dist(b[j], y, x));
        assert(seed_dist(a[i], y, x) == seed_dist(b[i], y, x));
    }
    assert forall|j: int| 0 <= j < i implies seed_dist(#[trigger] b[j], y, x) > seed_dist(
        b[i],
        y,
        x,
    ) by {
        assert(seed_dist(a[j], y, x) > seed_dist(a[i], y, x));
        assert(seed_dist(a[j], y, x) == seed_dist(b[j], y, x));
        assert(seed_dist(a[i], y, x) == seed_dist(b[i], y, x));
    }
}

/// Link every region to its two nearest neighbours and insert the
/// enriched region entries into an empty store.
fn link_regions(store: &mut TileStore, seeds: &Vec<Tile>, count: usize)
    requires
        old(store).wf(),
        old(store)@ == Map::<u128, TileView>::empty(),
        3 <= count < 0x1_0000_0000,
        count + 1 == seeds@.len(),
        seeds_in_grid(seed_views(seeds@), 0x8000, 0x8000),
    ensures
        final(store).wf(),
        final(store)@.dom() == region_dom(count as int),
        final(store)@.len() == count,
        forall|i: int|
            0 <= i < count ==> region_entry_matches(
                final(store)@,
                seed_views(seeds@),
                count as int,
                #[trigger] (i + 0),
            ),
        forall|i: int|
            0 <= i < count ==> {
                let t = #[trigger] final(store)@[region_key(i)];
                let s = seed_views(seeds@)[i];
                t.y == s.y && t.x == s.x && t.c == s.c
            },
{
    let ghost sv = seed_views(seeds@);
    let mut v: usize = 0;
    proof {
        assert(store@.dom() =~= region_dom(0));
    }
    while v < count
        invariant
            v <= count,
            3 <= count < 0x1_0000_0000,
            count + 1 == seeds@.len(),
            sv == seed_views(seeds@),
            seeds_in_grid(sv, 0x8000, 0x8000),
            store.wf(),
            store@.dom() == region_dom(v as int),
            store@.len() == v,
            forall|i: int|
                0 <= i < v ==> region_entry_matches(store@, sv, count as int, #[trigger] (i + 0)),
            forall|i: int|
                0 <= i < v ==> (#[trigger] store@[region_key(i)]).y == sv[i].y
                    && store@[region_key(i)].x == sv[i].x && store@[region_key(i)].c == sv[i].c,
        decreases count - v,
    {
        let c1 = argmin_region(seeds, count, v, v);
        let c2 = argmin_region(seeds, count, v, c1);
        let mut nb: Vec<u128> = Vec::new();
        nb.push(region_key_of(c1 as u32));
        nb.push(region_key_of(c2 as u32));
        let sd = &seeds[v];
        let t = Tile::new(sd.y, sd.x, sd.c, nb);
        let k = region_key_of(v as u32);
        let ghost prevm = store@;
        proof {
            lemma_region_key_inverse(v as int);
            assert(valid_key(k));
            lemma_region_key_inverse(c1 as int);
            lemma_region_key_inverse(c2 as int);
            assert(valid_neighbors(t@)) by {
                assert(t@.neighbors[0] == region_key(c1 as int));
                assert(t@.neighbors[1] == region_key(c2 as int));
            }
            assert(!prevm.dom().contains(k)) by {
                if prevm.dom().contains(k) {
                    let i = choose|i: int| 0 <= i < v && k == region_key(i);
                    lemma_region_key_inverse(i);
                    assert(false);
                }
            }
        }
        store.insert(k, t);
        v = v + 1;
        proof {
            assert(store@.dom() =~= region_dom(v as int)) by {
                assert forall|k2: u128| store@.dom().contains(k2) implies region_dom(
                    v as int,
                ).contains(k2) by {
                    if k2 != k {
                        assert(prevm.dom().contains(k2));
                        let i = choose|i: int| 0 <= i < v - 1 && k2 == region_key(i);
                        assert(region_dom(v as int).contains(region_key(i)));
                    } else {
                        assert(k2 == region_key(v - 1));
                    }
                }
                assert forall|k2: u128| region_dom(v as int).contains(k2) implies store@.dom()
                    .contains(k2) by {
                    let i = choose|i: int| 0 <= i < v && k2 == region_key(i);
                    if i < v - 1 {
                        assert(region_dom((v - 1) as int).contains(k2));
                    }
                }
            }
            assert(store@[region_key((v - 1) as int)] == t@);
            assert(t@.y == sv[v - 1].y && t@.x == sv[v - 1].x && t@.c == sv[v - 1].c);
            assert(is_closest(sv, count as int, (v - 1) as int, c1 as int));
            assert(is_second(sv, count as int, (v - 1) as int, c1 as int, c2 as int));
            assert(t@.neighbors =~= seq![region_key(c1 as int), region_key(c2 as int)]);
            assert(region_entry_matches(store@, sv, count as int, (v - 1) as int));
            assert forall|i: int| 0 <= i < v implies region_entry_matches(
                store@,
                sv,
                count as int,
                #[trigger] (i + 0),
            ) by {
                if i < v - 1 {
                    lemma_region_key_inverse(i);
                    assert(store@[region_key(i)] == prevm[region_key(i)]);
                    assert(region_entry_matches(prevm, sv, count as int, i + 0));
                }
            }
            assert forall|i: int|
                0 <= i < v implies (#[trigger] store@[region_key(i)]).y == sv[i].y
                && store@[region_key(i)].x == sv[i].x && store@[region_key(i)].c == sv[i].c by {
                if i < v - 1 {
                    lemma_region_key_inverse(i);
                    assert(store@[region_key(i)] == prevm[region_key(i)]);
                }
            }
        }
    }
}

/// Rasterize every cell of the grid into the store: each gets the symbol
/// of its nearest seed by Manhattan distance, except the outer ring,
/// which is forced to wall.
fn rasterize_into(
    store: &mut TileStore,
    seeds: &Vec<Tile>,
    sizey: i32,
    sizex: i32,
    map_wall: char,
    count: usize,
)
    requires
        old(store).wf(),
        MIN_MAP_SIZE <= sizey <= MAX_MAP_SIZE,
        MIN_MAP_SIZE <= sizex <= MAX_MAP_SIZE,
        seeds@.len() >= 1,
        count < 0x1_0000_0000,
        seeds_in_grid(seed_views(seeds@), 0x8000, 0x8000),
        old(store)@.dom() == region_dom(count as int),
        old(store)@.len() == count,
    ensures
        final(store).wf(),
        final(store)@.dom() == region_dom(count as int).union(
            grid_dom(sizey as int, sizex as int),
        ),
        final(store)@.len() == count + (sizey as int) * (sizex as int),
        forall|i: int|
            0 <= i < count ==> final(store)@[#[trigger] region_key(i)] == old(
                store,
            )@[region_key(i)],
        forall|y: int, x: int|
            in_grid(sizey as int, sizex as int, y, x) ==> grid_entry_matches(
                final(store)@,
                seed_views(seeds@),
                sizey as int,
                sizex as int,
                map_wall,
                y,
                x,
            ) && final(store)@.dom().contains(#[trigger] grid_key(y, x)),
{
    let ghost sv = seed_views(seeds@);
    let ghost h = sizey as int;
    let ghost w = sizex as int;
    let ghost m0 = old(store)@;
    let mut y: i32 = 0;
    proof {
        assert(store@.dom() =~= region_dom(count as int).union(grid_prefix_dom(w, 0, 0)));
    }
    while y < sizey
        invariant
            0 <= y <= sizey,
            MIN_MAP_SIZE <= sizey <= MAX_MAP_SIZE,
            MIN_MAP_SIZE <= sizex <= MAX_MAP_SIZE,
            h == sizey as int,
            w == sizex as int,
            seeds@.len() >= 1,
            count < 0x1_0000_0000,
            sv == seed_views(seeds@),
            seeds_in_grid(sv, 0x8000, 0x8000),
            store.wf(),
            store@.dom() == region_dom(count as int).union(grid_prefix_dom(w, y as int, 0)),
            store@.len() == count + (y as int) * w,
            forall|i: int|
                0 <= i < count ==> store@[#[trigger] region_key(i)] == m0[region_key(i)],
            forall|yy: int, xx: int|
                in_grid(h, w, yy, xx) && yy < y ==> grid_entry_matches(
                    store@,
                    sv,
                    h,
                    w,
                    map_wall,
                    yy,
                    xx,
                ) && store@.dom().contains(#[trigger] grid_key(yy, xx)),
        decreases sizey - y,
    {
        let mut x: i32 = 0;
        while x < sizex
            invariant
                0 <= y < sizey,
                0 <= x <= sizex,
                MIN_MAP_SIZE <= sizey <= MAX_MAP_SIZE,
                MIN_MAP_SIZE <= sizex <= MAX_MAP_SIZE,
                h == sizey as int,
                w == sizex as int,
                seeds@.len() >= 1,
                count < 0x1_0000_0000,
                sv == seed_views(seeds@),
                seeds_in_grid(sv, 0x8000, 0x8000),
                store.wf(),
                store@.dom() == region_dom(count as int).union(
                    grid_prefix_dom(w, y as int, x as int),
                ),
                store@.len() == count + (y as int) * w + x as int,
                forall|i: int|
                    0 <= i < count ==> store@[#[trigger] region_key(i)] == m0[region_key(i)],
                forall|yy: int, xx: int|
                    in_grid(h, w, yy, xx) && (yy < y || (yy == y && xx < x)) ==> grid_entry_matches(
                        store@,
                        sv,
                        h,
                        w,
                        map_wall,
                        yy,
                        xx,
                    ) && store@.dom().contains(#[trigger] grid_key(yy, xx)),
            decreases sizex - x,
        {
            let i = nearest_seed(seeds, y, x);
            let border = y == 0 || y == sizey - 1 || x == 0 || x == sizex - 1;
            let c = if border {
                map_wall
            } else {
                let si = &seeds[i];
                si.c
            };
            let t = Tile::new(y, x, c, Vec::new());
            let k = grid_key_of(y, x);
            let ghost prevm = store@;
            proof {
                lemma_grid_key_small(y as int, x as int);
                assert(valid_key(k));
                assert(valid_neighbors(t@));
                assert(!prevm.dom().contains(k)) by {
                    if region_dom(count as int).contains(k) {
                        let q = choose|q: int| 0 <= q < count && k == region_key(q);
                        lemma_region_key_inverse(q);
                        assert(false);
                    }
                    if grid_prefix_dom(w, y as int, x as int).contains(k) {
                        let (yy, xx) = choose|yy: int, xx: int|
                            0 <= yy && 0 <= xx < w && (yy < y || (yy == y && xx < x)) && k
                                == grid_key(yy, xx);
                        lemma_grid_key_injective(yy, xx, y as int, x as int);
                        assert(false);
                    }
                }
            }
            store.insert(k, t);
            proof {
                assert(store@.dom() =~= region_dom(count as int).union(
                    grid_prefix_dom(w, y as int, x as int + 1),
                )) by {
                    assert forall|k2: u128|
                        grid_prefix_dom(w, y as int, x as int + 1).contains(k2) implies store@.dom()
                        .contains(k2) by {
                        let (yy, xx) = choose|yy: int, xx: int|
                            0 <= yy && 0 <= xx < w && (yy < y || (yy == y && xx < x + 1)) && k2
                                == grid_key(yy, xx);
                        if yy == y && xx == x {
                        } else {
                            assert(grid_prefix_dom(w, y as int, x as int).contains(k2));
                        }
                    }
                    assert forall|k2: u128|
                        store@.dom().contains(k2) && k2 != k implies region_dom(
                        count as int,
                    ).union(grid_prefix_dom(w, y as int, x as int + 1)).contains(k2) by {
                        assert(prevm.dom().contains(k2));
                        if grid_prefix_dom(w, y as int, x as int).contains(k2) {
                            let (yy, xx) = choose|yy: int, xx: int|
                                0 <= yy && 0 <= xx < w && (yy < y || (yy == y && xx < x)) && k2
                                    == grid_key(yy, xx);
                            assert(grid_prefix_dom(w, y as int, x as int + 1).contains(k2));
                        }
                    }
                    assert(grid_prefix_dom(w, y as int, x as int + 1).contains(k));
                }
                assert forall|i2: int| 0 <= i2 < count implies store@[#[trigger] region_key(i2)]
                    == m0[region_key(i2)] by {
                    lemma_region_key_inverse(i2);
                    assert(region_key(i2) != k);
                    assert(store@[region_key(i2)] == prevm[region_key(i2)]);
                }
                assert(grid_entry_matches(store@, sv, h, w, map_wall, y as int, x as int)) by {
                    assert(store@[grid_key(y as int, x as int)] == t@);
                    if !on_border(h, w, y as int, x as int) {
                        assert(is_nearest(sv, i as int, y as int, x as int));
                        assert(t@.c == sv[(i as int) + 0].c);
                    }
                }
                assert forall|yy: int, xx: int|
                    in_grid(h, w, yy, xx) && (yy < y || (yy == y && xx < x + 1)) implies
                    grid_entry_matches(store@, sv, h, w, map_wall, yy, xx) && store@.dom().contains(
                    #[trigger] grid_key(yy, xx),
                ) by {
                    if yy == y && xx == x {
                    } else {
                        if grid_key(yy, xx) == k {
                            lemma_grid_key_injective(yy, xx, y as int, x as int);
                        }
                        assert(grid_key(yy, xx) != k);
                        assert(store@[grid_key(yy, xx)] == prevm[grid_key(yy, xx)]);
                        assert(grid_entry_matches(prevm, sv, h, w, map_wall, yy, xx));
                    }
                }
            }
            x = x + 1;
        }
        proof {
            assert(grid_prefix_dom(w, y as int, w) =~= grid_prefix_dom(w, y as int + 1, 0)) by {
                assert forall|k2: u128|
                    grid_prefix_dom(w, y as int, w).contains(k2) implies grid_prefix_dom(
                    w,
                    y as int + 1,
                    0,
                ).contains(k2) by {
                    let (yy, xx) = choose|yy: int, xx: int|
                        0 <= yy && 0 <= xx < w && (yy < y || (yy == y && xx < w)) && k2 == grid_key(
                            yy,
                            xx,
                        );
                    assert(yy < y + 1);
                }
                assert forall|k2: u128|
                    grid_prefix_dom(w, y as int + 1, 0).contains(k2) implies grid_prefix_dom(
                    w,
                    y as int,
                    w,
                ).contains(k2) by {
                    let (yy, xx) = choose|yy: int, xx: int|
                        0 <= yy && 0 <= xx < w && yy < y + 1 && k2 == grid_key(yy, xx);
                    assert(yy < y || (yy == y && xx < w));
                }
            }
            assert((y as int) * w + w == (y as int + 1) * w) by (nonlinear_arith);
        }
        y = y + 1;
    }
    proof {
        assert(grid_prefix_dom(w, h, 0) =~= grid_dom(h, w)) by {
            assert forall|k2: u128| grid_prefix_dom(w, h, 0).contains(k2) implies grid_dom(
                h,
                w,
            ).contains(k2) by {
                let (yy, xx) = choose|yy: int, xx: int|
                    0 <= yy && 0 <= xx < w && yy < h && k2 == grid_key(yy, xx);
                assert(in_grid(h, w, yy, xx));
            }
            assert forall|k2: u128| grid_dom(h, w).contains(k2) implies grid_prefix_dom(
                w,
                h,
                0,
            ).contains(k2) by {
                let (yy, xx) = choose|yy: int, xx: int|
                    in_grid(h, w, yy, xx) && k2 == grid_key(yy, xx);
                assert(0 <= yy && 0 <= xx < w && yy < h);
            }
        }
        assert(store@.dom() =~= region_dom(count as int).union(grid_dom(h, w)));
    }
}

impl TileMap {
    /// Generate a fresh map: scatter seeds, link each region to its two
    /// nearest neighbours, rasterize the grid by nearest seed with a wall
    /// border, and record the map-bounds and spawn-marker metadata.
    pub fn new(sizey: i32, sizex: i32, map_wall: char, map_floor: char, map_player: char) -> (m:
        TileMap)
        requires
            MIN_MAP_SIZE <= sizey <= MAX_MAP_SIZE,
            MIN_MAP_SIZE <= sizex <= MAX_MAP_SIZE,
        ensures
            m.wf(),
            m.map_wall == map_wall,
            m.map_floor == map_floor,
            m.map_player == map_player,
            exists|n: int|
                gen_shape(
                    m.objects(),
                    sizey as int,
                    sizex as int,
                    n,
                    map_wall,
                    map_floor,
                    map_player,
                ),
    {
        let ghost h = sizey as int;
        let ghost w = sizex as int;
        let seeds = seed_regions(sizey, sizex, map_wall, map_floor);
        let count: usize = seeds.len() - 1;
        let ghost sv = seed_views(seeds@);
        let ghost n = count as int;
        proof {
            assert forall|i: int| 0 <= i < sv.len() implies in_grid(
                0x8000,
                0x8000,
                (#[trigger] sv[i]).y,
                sv[i].x,
            ) by {
                assert(valid_seed(sv[i], h, w, map_wall, map_floor));
            }
        }
        let mut store = TileStore::new();
        link_regions(&mut store, &seeds, count);
        let ghost m1 = store@;
        rasterize_into(&mut store, &seeds, sizey, sizex, map_wall, count);
        let ghost m2 = store@;
        let tms = Tile::new(sizey, sizex, '$', Vec::new());
        let tpl = Tile::new(0, 0, map_player, Vec::new());
        proof {
            assert(valid_key(mapsize_key()) && valid_key(player_key()));
            assert(!m2.dom().contains(mapsize_key())) by {
                if region_dom(n).contains(mapsize_key()) {
                    let q = choose|q: int| 0 <= q < n && mapsize_key() == region_key(q);
                    lemma_region_key_inverse(q);
                }
                if grid_dom(h, w).contains(mapsize_key()) {
                    let (yy, xx) = choose|yy: int, xx: int|
                        in_grid(h, w, yy, xx) && mapsize_key() == grid_key(yy, xx);
                    lemma_grid_key_small(yy, xx);
                }
            }
            assert(!m2.dom().contains(player_key())) by {
                if region_dom(n).contains(player_key()) {
                    let q = choose|q: int| 0 <= q < n && player_key() == region_key(q);
                    lemma_region_key_inverse(q);
                }
                if grid_dom(h, w).contains(player_key()) {
                    let (yy, xx) = choose|yy: int, xx: int|
                        in_grid(h, w, yy, xx) && player_key() == grid_key(yy, xx);
                    lemma_grid_key_small(yy, xx);
                }
            }
        }
        store.insert(0x2_0000_0000_0000_0000u128, tms);
        store.insert(0x3_0000_0000_0000_0000u128, tpl);
        let ghost m3 = store@;
        proof {
            assert(m3.dom() =~= store_dom(h, w, n));
            assert(m3.len() == h * w + n + 2);
            let gs = gen_seeds(m3, n, map_floor);
            assert forall|q: int| 0 <= q < sv.len() implies (#[trigger] gs[q]).y == sv[q].y
                && gs[q].x == sv[q].x && gs[q].c == sv[q].c by {
                if q < n {
                    lemma_region_key_inverse(q);
                    assert(m3[region_key(q)] == m2[region_key(q)]);
                    assert(m2[region_key(q)] == m1[region_key(q)]);
                } else {
                    assert(gs[q] == spawn_seed(map_floor));
                    assert(sv[q] == sv.last());
                }
            }
            assert forall|i: int|
                0 <= i < n implies in_grid(h, w, (#[trigger] m3[region_key(i)]).y, m3[region_key(
                i,
            )].x) && (m3[region_key(i)].c == map_wall || m3[region_key(i)].c == map_floor)
                && region_entry_matches(m3, gs, n, i) by {
                lemma_region_key_inverse(i);
                assert(m3[region_key(i)] == m1[region_key(i)]);
                assert(region_entry_matches(m1, sv, n, i + 0));
                assert(valid_seed(sv[i], h, w, map_wall, map_floor));
                let (i1, i2) = choose|i1: int, i2: int|
                    is_closest(sv, n, i, i1) && is_second(sv, n, i, i1, i2) && m1[region_key(
                        i,
                    )].neighbors == seq![region_key(i1), region_key(i2)];
                lemma_closest_transfer(sv, gs, n, i, i1, i2);
                assert(region_entry_matches(m3, gs, n, i));
            }
            assert forall|y: int, x: int| in_grid(h, w, y, x) implies grid_entry_matches(
                m3,
                gs,
                h,
                w,
                map_wall,
                y,
                x,
            ) && m3.dom().contains(#[trigger] grid_key(y, x)) by {
                lemma_grid_key_small(y, x);
                assert(m3[grid_key(y, x)] == m2[grid_key(y, x)]);
                assert(grid_entry_matches(m2, sv, h, w, map_wall, y, x));
                if !on_border(h, w, y, x) {
                    let i = choose|i: int|
                        is_nearest(sv, i, y, x) && m2[grid_key(y, x)].c == sv[#[trigger] (i + 0)].c;
                    lemma_nearest_transfer(sv, gs, i, y, x);
                    assert(is_nearest(gs, i, y, x) && m3[grid_key(y, x)].c == gs[i + 0].c);
                }
                assert(grid_entry_matches(m3, gs, h, w, map_wall, y, x));
            }
            assert(m3[mapsize_key()] =~= (TileView {
                y: h,
                x: w,
                c: '$',
                neighbors: Seq::<u128>::empty(),
            }));
            assert(m3[player_key()] =~= (TileView {
                y: 0,
                x: 0,
                c: map_player,
                neighbors: Seq::<u128>::empty(),
            }));
            assert(gen_shape(m3, h, w, n, map_wall, map_floor, map_player));
        }
        let result = TileMap { map_wall, map_floor, map_player, map_game_objects: store };
        proof {
            assert(result.objects() == m3);
            assert(gen_shape(result.objects(), h, w, n, map_wall, map_floor, map_player));
        }
        result
    }

    /// Generate a map with the standard symbols, rejecting dimensions
    /// outside the accepted range with a configuration error.
    pub fn generate(height: i32, width: i32) -> (r: Result<TileMap, MapError>)
        ensures
            r is Ok <==> (MIN_MAP_SIZE <= height <= MAX_MAP_SIZE && MIN_MAP_SIZE <= width
                <= MAX_MAP_SIZE),
            r is Err ==> r->Err_0 == MapError::Config,
            r is Ok ==> ({
                let m = r->Ok_0;
                &&& m.wf()
                &&& m.map_wall == '#'
                &&& m.map_floor == '.'
                &&& m.map_player == 'p'
                &&& exists|n: int|
                    gen_shape(m.objects(), height as int, width as int, n, '#', '.', 'p')
            }),
    {
        if height < MIN_MAP_SIZE || height > MAX_MAP_SIZE || width < MIN_MAP_SIZE || width
            > MAX_MAP_SIZE {
            return Err(MapError::Config);
        }
        Ok(TileMap::new(height, width, '#', '.', 'p'))
    }
}

/// The border law: every grid tile on the outer ring of a generated
/// store carries the wall symbol, whatever the nearest region would
/// have said.
pub proof fn lemma_generated_border(
    m: Map<u128, TileView>,
    h: int,
    w: int,
    n: int,
    wall: char,
    floor: char,
    pc: char,
)
    requires
        gen_shape(m, h, w, n, wall, floor, pc),
    ensures
        forall|y: int, x: int|
            in_grid(h, w, y, x) && on_border(h, w, y, x) ==> (#[trigger] m[grid_key(y, x)]).c
                == wall,
{
    assert forall|y: int, x: int|
        in_grid(h, w, y, x) && on_border(h, w, y, x) implies (#[trigger] m[grid_key(y, x)]).c
        == wall by {
        assert(grid_entry_matches(m, gen_seeds(m, n, floor), h, w, wall, y, x));
    }
}

/// The first `v` region keys form a set of exactly `v` keys.
proof fn lemma_region_dom_len(v: int)
    requires
        0 <= v < 0x1_0000_0000,
    ensures
        region_dom(v).finite(),
        region_dom(v).len() == v,
    decreases v,
{
    if v == 0 {
        assert(region_dom(0) =~= Set::<u128>::empty());
    } else {
        lemma_region_dom_len(v - 1);
        assert(region_dom(v) =~= region_dom(v - 1).insert(region_key(v - 1))) by {
            assert forall|k: u128| region_dom(v).contains(k) implies region_dom(v - 1).insert(
                region_key(v - 1),
            ).contains(k) by {
                let i = choose|i: int| 0 <= i < v && k == region_key(i);
                if i < v - 1 {
                    assert(region_dom(v - 1).contains(k));
                }
            }
            assert forall|k: u128|
                region_dom(v - 1).insert(region_key(v - 1)).contains(k) implies region_dom(
                v,
            ).contains(k) by {
                if k == region_key(v - 1) {
                } else {
                    let i = choose|i: int| 0 <= i < v - 1 && k == region_key(i);
                }
            }
        }
        assert(!region_dom(v - 1).contains(region_key(v - 1))) by {
            if region_dom(v - 1).contains(region_key(v - 1)) {
                let i = choose|i: int| 0 <= i < v - 1 && region_key(v - 1) == #[trigger] region_key(
                    i,
                );
                lemma_region_key_inverse(i);
                lemma_region_key_inverse(v - 1);
            }
        }
    }
}

/// The grid cells strictly before `(y, x)` in row-major order form a set
/// of exactly `y * w + x` keys.
proof fn lemma_grid_prefix_len(w: int, y: int, x: int)
    requires
        1 <= w < 0x8000,
        0 <= y <= 0x8000,
        0 <= x <= w,
    ensures
        grid_prefix_dom(w, y, x).finite(),
        grid_prefix_dom(w, y, x).len() == y * w + x,
    decreases y, x,
{
    if x > 0 {
        lemma_grid_prefix_len(w, y, x - 1);
        assert(grid_prefix_dom(w, y, x) =~= grid_prefix_dom(w, y, x - 1).insert(
            grid_key(y, x - 1),
        )) by {
            assert forall|k: u128| grid_prefix_dom(w, y, x).contains(k) implies grid_prefix_dom(
                w,
                y,
                x - 1,
            ).insert(grid_key(y, x - 1)).contains(k) by {
                let (yy, xx) = choose|yy: int, xx: int|
                    0 <= yy && 0 <= xx < w && (yy < y || (yy == y && xx < x)) && k == grid_key(
                        yy,
                        xx,
                    );
                if !(yy == y && xx == x - 1) {
                    assert(grid_prefix_dom(w, y, x - 1).contains(k));
                }
            }
            assert forall|k: u128|
                grid_prefix_dom(w, y, x - 1).insert(grid_key(y, x - 1)).contains(
                    k,
                ) implies grid_prefix_dom(w, y, x).contains(k) by {
                if k != grid_key(y, x - 1) {
                    let (yy, xx) = choose|yy: int, xx: int|
                        0 <= yy && 0 <= xx < w && (yy < y || (yy == y && xx < x - 1)) && k
                            == grid_key(yy, xx);
                }
            }
        }
        assert(!grid_prefix_dom(w, y, x - 1).contains(grid_key(y, x - 1))) by {
            if grid_prefix_dom(w, y, x - 1).contains(grid_key(y, x - 1)) {
                let (yy, xx) = choose|yy: int, xx: int|
                    0 <= yy && 0 <= xx < w && (yy < y || (yy == y && xx < x - 1)) && grid_key(
                        y,
                        x - 1,
                    ) == #[trigger] grid_key(yy, xx);
                lemma_grid_key_injective(yy, xx, y, x - 1);
            }
        }
    } else if y > 0 {
        lemma_grid_prefix_len(w, y - 1, w);
        assert(grid_prefix_dom(w, y, 0) =~= grid_prefix_dom(w, y - 1, w)) by {
            assert forall|k: u128| grid_prefix_dom(w, y, 0).contains(k) implies grid_prefix_dom(
                w,
                y - 1,
                w,
            ).contains(k) by {
                let (yy, xx) = choose|yy: int, xx: int|
                    0 <= yy && 0 <= xx < w && (yy < y || (yy == y && xx < 0)) && k == grid_key(
                        yy,
                        xx,
                    );
                assert(yy < y - 1 || (yy == y - 1 && xx < w));
            }
            assert forall|k: u128| grid_prefix_dom(w, y - 1, w).contains(k) implies grid_prefix_dom(
                w,
                y,
                0,
            ).contains(k) by {
                let (yy, xx) = choose|yy: int, xx: int|
                    0 <= yy && 0 <= xx < w && (yy < y - 1 || (yy == y - 1 && xx < w)) && k
                        == grid_key(yy, xx);
                assert(yy < y);
            }
        }
        assert((y - 1) * w + w == y * w) by (nonlinear_arith);
    } else {
        assert(grid_prefix_dom(w, 0, 0) =~= Set::<u128>::empty());
    }
}

/// The counting law: a generated `h` by `w` store with `n` random
/// regions holds exactly `h * w` grid-tile keys, exactly `n` region
/// keys, and the two metadata keys — and nothing else.
pub proof fn lemma_generated_counts(
    m: Map<u128, TileView>,
    h: int,
    w: int,
    n: int,
    wall: char,
    floor: char,
    pc: char,
)
    requires
        gen_shape(m, h, w, n, wall, floor, pc),
        1 <= h <= 0x8000,
        1 <= w < 0x8000,
        0 <= n < 0x1_0000_0000,
    ensures
        grid_dom(h, w).finite() && grid_dom(h, w).len() == h * w,
        region_dom(n).finite() && region_dom(n).len() == n,
        m.dom() == grid_dom(h, w) + region_dom(n) + set![mapsize_key(), player_key()],
        m.len() == h * w + n + 2,
{
    broadcast use vstd::set_lib::lemma_set_disjoint_lens;

    lemma_grid_prefix_len(w, h, 0);
    assert(grid_prefix_dom(w, h, 0) =~= grid_dom(h, w)) by {
        assert forall|k: u128| grid_prefix_dom(w, h, 0).contains(k) implies grid_dom(
            h,
            w,
        ).contains(k) by {
            let (yy, xx) = choose|yy: int, xx: int|
                0 <= yy && 0 <= xx < w && (yy < h || (yy == h && xx < 0)) && k == grid_key(yy, xx);
            assert(in_grid(h, w, yy, xx));
        }
        assert forall|k: u128| grid_dom(h, w).contains(k) implies grid_prefix_dom(w, h, 0).contains(
            k,
        ) by {
            let (yy, xx) = choose|yy: int, xx: int| in_grid(h, w, yy, xx) && k == grid_key(yy, xx);
        }
    }
    lemma_region_dom_len(n);
    assert(m.dom() =~= grid_dom(h, w) + region_dom(n) + set![mapsize_key(), player_key()]);
}

} // verus!
