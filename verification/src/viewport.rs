//! The viewport and collision logic: a moving viewpoint over a read-only
//! store, one-step movement gated by tile presence and passability, and a
//! fixed-size window of screen cells rendered around the viewpoint.

use vstd::prelude::*;
use crate::tile::grid_key;
use crate::tile::grid_key_of;
use crate::store::TileMap;

verus! {

/// The viewpoint: the map is drawn centred on this position.
pub struct Player {
    pub y: i32,
    pub x: i32,
    pub c: char,
}

/// One movement request, a single grid unit.
#[derive(Debug, Clone, Copy, PartialEq, Eq, Structural)]
pub enum Direction {
    Up,
    Down,
    Left,
    Right,
}

/// What a movement request came to: accepted; rejected by an impassable
/// tile whose key is reported for diagnostics; or silently rejected
/// because no tile is stored at the destination.
#[derive(Debug, Clone, Copy, PartialEq, Eq, Structural)]
pub enum MoveOutcome {
    Moved,
    Blocked(u128),
    Missing,
}

/// The y coordinate one step in the given direction.
pub open spec fn step_y(y: int, d: Direction) -> int {
    match d {
        Direction::Up => y - 1,
        Direction::Down => y + 1,
        _ => y,
    }
}

/// The x coordinate one step in the given direction.
pub open spec fn step_x(x: int, d: Direction) -> int {
    match d {
        Direction::Left => x - 1,
        Direction::Right => x + 1,
        _ => x,
    }
}

impl Player {
    /// A viewpoint at the given position, drawn with the given symbol.
    pub fn new(y: i32, x: i32, c: char) -> (p: Player)
        ensures
            p.y == y && p.x == x && p.c == c,
    {
        Player { y, x, c }
    }

    /// Move one unit up (towards smaller y).
    pub fn move_up(&mut self)
        requires
            old(self).y > i32::MIN,
        ensures
            final(self).y == old(self).y - 1,
            final(self).x == old(self).x && final(self).c == old(self).c,
    {
        self.y = self.y - 1;
    }

    /// Move one unit down (towards larger y).
    pub fn move_down(&mut self)
        requires
            old(self).y < i32::MAX,
        ensures
            final(self).y == old(self).y + 1,
            final(self).x == old(self).x && final(self).c == old(self).c,
    {
        self.y = self.y + 1;
    }

    /// Move one unit left (towards smaller x).
    pub fn move_left(&mut self)
        requires
            old(self).x > i32::MIN,
        ensures
            final(self).x == old(self).x - 1,
            final(self).y == old(self).y && final(self).c == old(self).c,
    {
        self.x = self.x - 1;
    }

    /// Move one unit right (towards larger x).
    pub fn move_right(&mut self)
        requires
            old(self).x < i32::MAX,
        ensures
            final(self).x == old(self).x + 1,
            final(self).y == old(self).y && final(self).c == old(self).c,
    {
        self.x = self.x + 1;
    }
}

/// Does the rendered window hold an entry for screen cell `(sy, sx)`?
pub open spec fn has_cell(r: Seq<(i32, i32, char)>, sy: int, sx: int) -> bool {
    exists|idx: int| 0 <= idx < r.len() && (#[trigger] r[idx]).0 == sy && r[idx].1 == sx
}

impl TileMap {
    /// Resolve one movement request against the store.
    ///
    /// A move onto a stored floor tile translates the viewpoint by exactly
    /// one unit.  A move onto any other stored tile leaves the viewpoint
    /// unchanged and reports the blocking key.  A move onto a coordinate
    /// with no stored tile is silently rejected, so sparse or malformed
    /// maps stay playable.
    pub fn try_move(&self, player: &mut Player, dir: Direction) -> (r: MoveOutcome)
        ensures
            final(player).c == old(player).c,
            ({
                let ty = step_y(old(player).y as int, dir);
                let tx = step_x(old(player).x as int, dir);
                let k = grid_key(ty, tx);
                let in_range = -0x8000_0000 <= ty < 0x8000_0000 && -0x8000_0000 <= tx
                    < 0x8000_0000;
                if in_range && self.objects().dom().contains(k) && self.objects()[k].c
                    == self.map_floor {
                    &&& final(player).y == ty
                    &&& final(player).x == tx
                    &&& r == MoveOutcome::Moved
                } else if in_range && self.objects().dom().contains(k) {
                    &&& final(player).y == old(player).y
                    &&& final(player).x == old(player).x
                    &&& r == MoveOutcome::Blocked(k)
                } else {
                    &&& final(player).y == old(player).y
                    &&& final(player).x == old(player).x
                    &&& r == MoveOutcome::Missing
                }
            }),
    {
        let ty: i32 = match dir {
            Direction::Up => {
                if player.y == i32::MIN {
                    return MoveOutcome::Missing;
                }
                player.y - 1
            },
            Direction::Down => {
                if player.y == i32::MAX {
                    return MoveOutcome::Missing;
                }
                player.y + 1
            },
            _ => player.y,
        };
        let tx: i32 = match dir {
            Direction::Left => {
                if player.x == i32::MIN {
                    return MoveOutcome::Missing;
                }
                player.x - 1
            },
            Direction::Right => {
                if player.x == i32::MAX {
                    return MoveOutcome::Missing;
                }
                player.x + 1
            },
            _ => player.x,
        };
        let k = grid_key_of(ty, tx);
        match self.map_game_objects.get(k) {
            Some(t) => {
                if t.c == self.map_floor {
                    player.y = ty;
                    player.x = tx;
                    MoveOutcome::Moved
                } else {
                    MoveOutcome::Blocked(k)
                }
            },
            None => MoveOutcome::Missing,
        }
    }

    /// Render the window of half-extents `(half_height, half_width)`
    /// around the viewpoint: one `(screen_y, screen_x, symbol)` entry for
    /// each stored grid tile in the window, in row-major order.  Screen
    /// coordinates are map coordinates translated by
    /// `half_extent - viewpoint`.  Coordinates with no stored tile emit
    /// nothing.
    pub fn render_window(&self, player: &Player, half_height: i32, half_width: i32) -> (r: Vec<
        (i32, i32, char),
    >)
        requires
            0 <= half_height <= 0x1000,
            0 <= half_width <= 0x1000,
            -0x3FFF_0000 <= player.y <= 0x3FFF_0000,
            -0x3FFF_0000 <= player.x <= 0x3FFF_0000,
        ensures
            forall|idx: int|
                0 <= idx < r@.len() ==> {
                    let sy = (#[trigger] r@[idx]).0 as int;
                    let sx = r@[idx].1 as int;
                    let k = grid_key(player.y - half_height + sy, player.x - half_width + sx);
                    &&& 0 <= sy < 2 * half_height
                    &&& 0 <= sx < 2 * half_width
                    &&& self.objects().dom().contains(k)
                    &&& r@[idx].2 == self.objects()[k].c
                },
            forall|sy: int, sx: int|
                0 <= sy < 2 * half_height && 0 <= sx < 2 * half_width && self.objects().dom()
                    .contains(
                    #[trigger] grid_key(player.y - half_height + sy, player.x - half_width + sx),
                ) ==> has_cell(r@, sy, sx),
            forall|i: int, j: int|
                0 <= i < j < r@.len() ==> (#[trigger] r@[i]).0 < (#[trigger] r@[j]).0 || (r@[i].0
                    == r@[j].0 && r@[i].1 < r@[j].1),
    {
        let mut r: Vec<(i32, i32, char)> = Vec::new();
        let height: i32 = 2 * half_height;
        let width: i32 = 2 * half_width;
        let mut sy: i32 = 0;
        while sy < height
            invariant
                0 <= sy <= height,
                height == 2 * half_height,
                width == 2 * half_width,
                0 <= half_height <= 0x1000,
                0 <= half_width <= 0x1000,
                -0x3FFF_0000 <= player.y <= 0x3FFF_0000,
                -0x3FFF_0000 <= player.x <= 0x3FFF_0000,
                forall|idx: int|
                    0 <= idx < r@.len() ==> {
                        let py = (#[trigger] r@[idx]).0 as int;
                        let px = r@[idx].1 as int;
                        let k = grid_key(player.y - half_height + py, player.x - half_width + px);
                        &&& 0 <= py < sy
                        &&& 0 <= px < width
                        &&& self.objects().dom().contains(k)
                        &&& r@[idx].2 == self.objects()[k].c
                    },
                forall|py: int, px: int|
                    0 <= py < sy && 0 <= px < width && self.objects().dom().contains(
                        #[trigger] grid_key(player.y - half_height + py, player.x - half_width + px),
                    ) ==> has_cell(r@, py, px),
                forall|i: int, j: int|
                    0 <= i < j < r@.len() ==> (#[trigger] r@[i]).0 < (#[trigger] r@[j]).0 || (
                    r@[i].0 == r@[j].0 && r@[i].1 < r@[j].1),
            decreases height - sy,
        {
            let mut sx: i32 = 0;
            while sx < width
                invariant
                    0 <= sy < height,
                    0 <= sx <= width,
                    height == 2 * half_height,
                    width == 2 * half_width,
                    0 <= half_height <= 0x1000,
                    0 <= half_width <= 0x1000,
                    -0x3FFF_0000 <= player.y <= 0x3FFF_0000,
                    -0x3FFF_0000 <= player.x <= 0x3FFF_0000,
                    forall|idx: int|
                        0 <= idx < r@.len() ==> {
                            let py = (#[trigger] r@[idx]).0 as int;
                            let px = r@[idx].1 as int;
                            let k = grid_key(
                                player.y - half_height + py,
                                player.x - half_width + px,
                            );
                            &&& 0 <= py <= sy
                            &&& (py == sy ==> 0 <= px < sx)
                            &&& (py < sy ==> 0 <= px < width)
                            &&& self.objects().dom().contains(k)
                            &&& r@[idx].2 == self.objects()[k].c
                        },
                    forall|py: int, px: int|
                        0 <= py < sy && 0 <= px < width && self.objects().dom().contains(
                            #[trigger] grid_key(
                                player.y - half_height + py,
                                player.x - half_width + px,
                            ),
                        ) ==> has_cell(r@, py, px),
                    forall|px: int|
                        0 <= px < sx && self.objects().dom().contains(
                            #[trigger] grid_key(
                                player.y - half_height + sy,
                                player.x - half_width + px,
                            ),
                        ) ==> has_cell(r@, sy as int, px),
                    forall|i: int, j: int|
                        0 <= i < j < r@.len() ==> (#[trigger] r@[i]).0 < (#[trigger] r@[j]).0 || (
                        r@[i].0 == r@[j].0 && r@[i].1 < r@[j].1),
                decreases width - sx,
            {
                let ty: i32 = player.y - half_height + sy;
                let tx: i32 = player.x - half_width + sx;
                let k = grid_key_of(ty, tx);
                let ghost prev = r@;
                match self.map_game_objects.get(k) {
                    Some(t) => {
                        r.push((sy, sx, t.c));
                        proof {
                            assert(r@[r@.len() - 1].0 == sy && r@[r@.len() - 1].1 == sx);
                            assert(forall|idx: int|
                                0 <= idx < prev.len() ==> r@[idx] == #[trigger] prev[idx]);
                            assert forall|py: int, px: int| has_cell(prev, py, px) implies has_cell(
                                r@,
                                py,
                                px,
                            ) by {
                                let idx = choose|idx: int|
                                    0 <= idx < prev.len() && (#[trigger] prev[idx]).0 == py
                                        && prev[idx].1 == px;
                                assert(r@[idx].0 == py && r@[idx].1 == px);
                            }
                            assert(has_cell(r@, sy as int, sx as int));
                        }
                    },
                    None => {
                        proof {
                            assert(!self.objects().dom().contains(
                                grid_key(
                                    player.y - half_height + sy,
                                    player.x - half_width + sx,
                                ),
                            ));
                        }
                    },
                }
                sx = sx + 1;
            }
            sy = sy + 1;
        }
        r
    }
}

} // verus!
