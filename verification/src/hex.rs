//! Hexagonal map geometry: axial hex coordinates, offset coordinates, the
//! rectangular (optionally wrapping) map they live on, and tile indices.
//!
//! A map is `width` columns by `height` rows of tiles; the tile at offset
//! coordinate `(x, y)` has index `x + y * width`.

use vstd::prelude::*;

verus! {

/// Whether hexes have a pointy top or a flat top.
#[derive(Clone, Copy, Debug, PartialEq, Eq, Structural)]
pub enum HexOrientation {
    Pointy,
    Flat,
}

/// Which rows (pointy) or columns (flat) are shoved by half a hex.
#[derive(Clone, Copy, Debug, PartialEq, Eq, Structural)]
pub enum Offset {
    Even,
    Odd,
}

/// A compass direction; `Unset` stands for "no direction chosen yet".
#[derive(Clone, Copy, Debug, PartialEq, Eq, Structural)]
pub enum Direction {
    North,
    NorthEast,
    East,
    SouthEast,
    South,
    SouthWest,
    West,
    NorthWest,
    Unset,
}

pub open spec fn spec_opposite(d: Direction) -> Direction {
    match d {
        Direction::North => Direction::South,
        Direction::NorthEast => Direction::SouthWest,
        Direction::East => Direction::West,
        Direction::SouthEast => Direction::NorthWest,
        Direction::South => Direction::North,
        Direction::SouthWest => Direction::NorthEast,
        Direction::West => Direction::East,
        Direction::NorthWest => Direction::SouthEast,
        Direction::Unset => Direction::Unset,
    }
}

impl Direction {
    /// The direction that points the other way.
    pub fn opposite_direction(&self) -> (r: Direction)
        ensures
            r == spec_opposite(*self),
    {
        match self {
            Direction::North => Direction::South,
            Direction::NorthEast => Direction::SouthWest,
            Direction::East => Direction::West,
            Direction::SouthEast => Direction::NorthWest,
            Direction::South => Direction::North,
            Direction::SouthWest => Direction::NorthEast,
            Direction::West => Direction::East,
            Direction::NorthWest => Direction::SouthEast,
            Direction::Unset => Direction::Unset,
        }
    }
}

/// The six edge directions of a hex, clockwise; index `i` is the edge shared
/// with the neighbor reached by step `i` of [`spec_hex_direction`].
pub open spec fn spec_edge_direction(o: HexOrientation, i: int) -> Direction {
    match o {
        HexOrientation::Pointy => if i == 0 {
            Direction::East
        } else if i == 1 {
            Direction::SouthEast
        } else if i == 2 {
            Direction::SouthWest
        } else if i == 3 {
            Direction::West
        } else if i == 4 {
            Direction::NorthWest
        } else {
            Direction::NorthEast
        },
        HexOrientation::Flat => if i == 0 {
            Direction::NorthEast
        } else if i == 1 {
            Direction::SouthEast
        } else if i == 2 {
            Direction::South
        } else if i == 3 {
            Direction::SouthWest
        } else if i == 4 {
            Direction::NorthWest
        } else {
            Direction::North
        },
    }
}

/// The six corner directions of a hex, clockwise.
pub open spec fn spec_corner_direction(o: HexOrientation, i: int) -> Direction {
    match o {
        HexOrientation::Pointy => spec_edge_direction(HexOrientation::Flat, i),
        HexOrientation::Flat => spec_edge_direction(HexOrientation::Pointy, i),
    }
}

/// The position of `d` among the edge directions of `o`, or -1 when `d` is not one.
pub open spec fn spec_edge_index(o: HexOrientation, d: Direction) -> int {
    if d == spec_edge_direction(o, 0) {
        0
    } else if d == spec_edge_direction(o, 1) {
        1
    } else if d == spec_edge_direction(o, 2) {
        2
    } else if d == spec_edge_direction(o, 3) {
        3
    } else if d == spec_edge_direction(o, 4) {
        4
    } else if d == spec_edge_direction(o, 5) {
        5
    } else {
        -1
    }
}

/// The position of `d` among the corner directions of `o`, or -1 when `d` is not one.
pub open spec fn spec_corner_index(o: HexOrientation, d: Direction) -> int {
    match o {
        HexOrientation::Pointy => spec_edge_index(HexOrientation::Flat, d),
        HexOrientation::Flat => spec_edge_index(HexOrientation::Pointy, d),
    }
}

/// The axial step from a hex to its neighbor across edge `i`.
pub open spec fn spec_hex_direction(i: int) -> (int, int) {
    if i == 0 {
        (1, 0)
    } else if i == 1 {
        (1, -1)
    } else if i == 2 {
        (0, -1)
    } else if i == 3 {
        (-1, 0)
    } else if i == 4 {
        (-1, 1)
    } else {
        (0, 1)
    }
}

impl HexOrientation {
    /// The position of an edge direction in [`HexOrientation::edge_direction_array`].
    pub fn edge_index(&self, direction: Direction) -> (r: usize)
        requires
            spec_edge_index(*self, direction) >= 0,
        ensures
            r == spec_edge_index(*self, direction),
            spec_edge_direction(*self, r as int) == direction,
    {
        match self {
            HexOrientation::Pointy => match direction {
                Direction::East => 0,
                Direction::SouthEast => 1,
                Direction::SouthWest => 2,
                Direction::West => 3,
                Direction::NorthWest => 4,
                _ => 5,
            },
            HexOrientation::Flat => match direction {
                Direction::NorthEast => 0,
                Direction::SouthEast => 1,
                Direction::South => 2,
                Direction::SouthWest => 3,
                Direction::NorthWest => 4,
                _ => 5,
            },
        }
    }

    /// The position of a corner direction in [`HexOrientation::corner_direction_array`].
    pub fn corner_index(&self, direction: Direction) -> (r: usize)
        requires
            spec_corner_index(*self, direction) >= 0,
        ensures
            r == spec_corner_index(*self, direction),
            spec_corner_direction(*self, r as int) == direction,
    {
        match self {
            HexOrientation::Pointy => HexOrientation::Flat.edge_index(direction),
            HexOrientation::Flat => HexOrientation::Pointy.edge_index(direction),
        }
    }

    /// The six edge directions, clockwise.
    pub fn edge_direction_array(&self) -> (r: [Direction; 6])
        ensures
            forall|i: int| 0 <= i < 6 ==> r@[i] == spec_edge_direction(*self, i),
    {
        match self {
            HexOrientation::Pointy => [
                Direction::East,
                Direction::SouthEast,
                Direction::SouthWest,
                Direction::West,
                Direction::NorthWest,
                Direction::NorthEast,
            ],
            HexOrientation::Flat => [
                Direction::NorthEast,
                Direction::SouthEast,
                Direction::South,
                Direction::SouthWest,
                Direction::NorthWest,
                Direction::North,
            ],
        }
    }

    /// The six corner directions, clockwise.
    pub fn corner_direction_array(&self) -> (r: [Direction; 6])
        ensures
            forall|i: int| 0 <= i < 6 ==> r@[i] == spec_corner_direction(*self, i),
    {
        match self {
            HexOrientation::Pointy => HexOrientation::Flat.edge_direction_array(),
            HexOrientation::Flat => HexOrientation::Pointy.edge_direction_array(),
        }
    }
}

/// Coordinates of this size or less (in absolute value) are handled without overflow.
pub open spec fn coord_bound() -> int {
    0x1000_0000
}

pub open spec fn in_bound(v: int) -> bool {
    -coord_bound() <= v <= coord_bound()
}

pub open spec fn offset_sign(o: Offset) -> int {
    match o {
        Offset::Even => 1,
        Offset::Odd => -1,
    }
}

/// The offset coordinate (column, row) of the axial hex `(x, y)`.
pub open spec fn spec_hex_to_offset(x: int, y: int, o: HexOrientation, off: Offset) -> (int, int) {
    match o {
        HexOrientation::Pointy => (x + (y + offset_sign(off) * (y % 2)) / 2, y),
        HexOrientation::Flat => (x, y + (x + offset_sign(off) * (x % 2)) / 2),
    }
}

/// The axial hex of the offset coordinate (column, row).
pub open spec fn spec_offset_to_hex(col: int, row: int, o: HexOrientation, off: Offset) -> (int, int) {
    match o {
        HexOrientation::Pointy => (col - (row + offset_sign(off) * (row % 2)) / 2, row),
        HexOrientation::Flat => (col, row - (col + offset_sign(off) * (col % 2)) / 2),
    }
}

/// The hex distance between two axial hexes.
pub open spec fn spec_hex_distance(a: (int, int), b: (int, int)) -> int {
    let dx = a.0 - b.0;
    let dy = a.1 - b.1;
    let dz = -dx - dy;
    (abs(dx) + abs(dy) + abs(dz)) / 2
}

pub open spec fn abs(v: int) -> int {
    if v < 0 {
        -v
    } else {
        v
    }
}

/// Returns `v / 2` for even `v`.
fn half_even(v: i32) -> (r: i32)
    requires
        v % 2 == 0,
        in_bound(v as int),
    ensures
        r * 2 == v,
        r == v / 2,
{
    v / 2
}

/// Returns `v % 2` (0 or 1, also for negative `v`).
fn parity(v: i32) -> (r: i32)
    ensures
        r == v % 2,
        0 <= r <= 1,
{
    v.checked_rem_euclid(2).unwrap()
}

fn offset_value(off: Offset) -> (r: i32)
    ensures
        r == offset_sign(off),
{
    match off {
        Offset::Even => 1,
        Offset::Odd => -1,
    }
}

/// A hex in axial coordinates.
#[derive(Clone, Copy, Debug, PartialEq, Eq, Structural)]
pub struct Hex {
    pub x: i32,
    pub y: i32,
}

impl Hex {
    pub open spec fn view_pair(self) -> (int, int) {
        (self.x as int, self.y as int)
    }

    pub open spec fn bounded(self) -> bool {
        in_bound(self.x as int) && in_bound(self.y as int)
    }

    pub fn new(x: i32, y: i32) -> (r: Hex)
        ensures
            r.x == x,
            r.y == y,
    {
        Hex { x, y }
    }

    /// The offset coordinate `[column, row]` of this hex.
    pub fn to_offset_coordinate(&self, offset: Offset, orientation: HexOrientation) -> (r: [i32; 2])
        requires
            self.bounded(),
        ensures
            (r@[0] as int, r@[1] as int) == spec_hex_to_offset(
                self.x as int,
                self.y as int,
                orientation,
                offset,
            ),
    {
        let s = offset_value(offset);
        match orientation {
            HexOrientation::Pointy => {
                let p = parity(self.y);
                assert((self.y + s * p) % 2 == 0) by {
                    assert(self.y == (self.y / 2) * 2 + p);
                }
                let h = half_even(self.y + s * p);
                [self.x + h, self.y]
            },
            HexOrientation::Flat => {
                let p = parity(self.x);
                assert((self.x + s * p) % 2 == 0) by {
                    assert(self.x == (self.x / 2) * 2 + p);
                }
                let h = half_even(self.x + s * p);
                [self.x, self.y + h]
            },
        }
    }

    /// The hex at the offset coordinate `[column, row]`.
    pub fn from_offset_coordinate(coordinate: [i32; 2], offset: Offset, orientation: HexOrientation) -> (r: Hex)
        requires
            in_bound(coordinate@[0] as int),
            in_bound(coordinate@[1] as int),
        ensures
            r.view_pair() == spec_offset_to_hex(
                coordinate@[0] as int,
                coordinate@[1] as int,
                orientation,
                offset,
            ),
    {
        let col = coordinate[0];
        let row = coordinate[1];
        let s = offset_value(offset);
        match orientation {
            HexOrientation::Pointy => {
                let p = parity(row);
                assert((row + s * p) % 2 == 0) by {
                    assert(row == (row / 2) * 2 + p);
                }
                let h = half_even(row + s * p);
                Hex { x: col - h, y: row }
            },
            HexOrientation::Flat => {
                let p = parity(col);
                assert((col + s * p) % 2 == 0) by {
                    assert(col == (col / 2) * 2 + p);
                }
                let h = half_even(col + s * p);
                Hex { x: col, y: row - h }
            },
        }
    }

    /// The neighboring hex across the edge in `direction`.
    pub fn neighbor(&self, orientation: HexOrientation, direction: Direction) -> (r: Hex)
        requires
            self.bounded(),
            spec_edge_index(orientation, direction) >= 0,
        ensures
            r.x == self.x + spec_hex_direction(spec_edge_index(orientation, direction)).0,
            r.y == self.y + spec_hex_direction(spec_edge_index(orientation, direction)).1,
    {
        let i = orientation.edge_index(direction);
        if i == 0 {
            Hex { x: self.x + 1, y: self.y }
        } else if i == 1 {
            Hex { x: self.x + 1, y: self.y - 1 }
        } else if i == 2 {
            Hex { x: self.x, y: self.y - 1 }
        } else if i == 3 {
            Hex { x: self.x - 1, y: self.y }
        } else if i == 4 {
            Hex { x: self.x - 1, y: self.y + 1 }
        } else {
            Hex { x: self.x, y: self.y + 1 }
        }
    }

    /// The number of steps between two hexes.
    pub fn hex_distance(a: Hex, b: Hex) -> (r: i32)
        requires
            a.bounded(),
            b.bounded(),
        ensures
            r == spec_hex_distance(a.view_pair(), b.view_pair()),
            r >= 0,
    {
        let dx = a.x as i64 - b.x as i64;
        let dy = a.y as i64 - b.y as i64;
        let dz = -dx - dy;
        let ax = if dx < 0 { -dx } else { dx };
        let ay = if dy < 0 { -dy } else { dy };
        let az = if dz < 0 { -dz } else { dz };
        ((ax + ay + az) / 2) as i32
    }
}


/// The hexes at exactly `d` steps from `(cx, cy)`, walked side by side:
/// side `s` starts at its corner and steps `d` times along direction `s`.
pub open spec fn ring_point(cx: int, cy: int, d: int, s: int, t: int) -> (int, int) {
    if s == 0 {
        (cx - d + t, cy + d)
    } else if s == 1 {
        (cx + t, cy + d - t)
    } else if s == 2 {
        (cx + d, cy - t)
    } else if s == 3 {
        (cx + d - t, cy - d)
    } else if s == 4 {
        (cx - t, cy - d + t)
    } else {
        (cx - d, cy + t)
    }
}

pub open spec fn ring_side(cx: int, cy: int, d: int, s: int) -> Seq<(int, int)> {
    Seq::new(d as nat, |t: int| ring_point(cx, cy, d, s, t))
}

pub open spec fn ring_sides(cx: int, cy: int, d: int, n: int) -> Seq<(int, int)>
    decreases n,
{
    if n <= 0 {
        Seq::empty()
    } else {
        ring_sides(cx, cy, d, n - 1) + ring_side(cx, cy, d, n - 1)
    }
}

/// The `6 * d` hexes at distance `d` from `(cx, cy)`, in walking order.
pub open spec fn spec_hexes_at_distance(cx: int, cy: int, d: int) -> Seq<(int, int)> {
    ring_sides(cx, cy, d, 6)
}

/// The lowest and highest row offset of column `q` in the disk of radius `rad`.
pub open spec fn disk_low(rad: int, q: int) -> int {
    if -rad > -q - rad {
        -rad
    } else {
        -q - rad
    }
}

pub open spec fn disk_high(rad: int, q: int) -> int {
    if rad < -q + rad {
        rad
    } else {
        -q + rad
    }
}

pub open spec fn disk_column(cx: int, cy: int, rad: int, q: int) -> Seq<(int, int)> {
    Seq::new(
        (disk_high(rad, q) - disk_low(rad, q) + 1) as nat,
        |k: int| (cx + q, cy + disk_low(rad, q) + k),
    )
}

pub open spec fn disk_columns(cx: int, cy: int, rad: int, n: int) -> Seq<(int, int)>
    decreases n,
{
    if n <= 0 {
        Seq::empty()
    } else {
        disk_columns(cx, cy, rad, n - 1) + disk_column(cx, cy, rad, -rad + n - 1)
    }
}

/// The hexes within `rad` steps of `(cx, cy)` (the center included), column by column.
pub open spec fn spec_hexes_in_distance(cx: int, cy: int, rad: int) -> Seq<(int, int)> {
    disk_columns(cx, cy, rad, 2 * rad + 1)
}

pub open spec fn hex_pairs(hs: Seq<Hex>) -> Seq<(int, int)> {
    hs.map_values(|h: Hex| h.view_pair())
}

impl Hex {
    /// The hexes at exactly `distance` steps, in walking order (none for distance 0).
    pub fn hexes_at_distance(&self, distance: u32) -> (r: Vec<Hex>)
        requires
            -coord_bound() <= self.x <= coord_bound(),
            -coord_bound() <= self.y <= coord_bound(),
            distance <= coord_bound(),
        ensures
            hex_pairs(r@) == spec_hexes_at_distance(self.x as int, self.y as int, distance as int),
    {
        let ghost cx = self.x as int;
        let ghost cy = self.y as int;
        let ghost dd = distance as int;
        let mut list: Vec<Hex> = Vec::new();
        if distance == 0 {
            assert(hex_pairs(list@) =~= spec_hexes_at_distance(cx, cy, dd)) by {
                reveal_with_fuel(ring_sides, 7);
            }
            return list;
        }
        let d = distance as i32;
        let mut s: usize = 0;
        while s < 6
            invariant
                0 <= s <= 6,
                d == dd,
                0 < dd <= coord_bound(),
                cx == self.x,
                cy == self.y,
                -coord_bound() <= cx <= coord_bound(),
                -coord_bound() <= cy <= coord_bound(),
                hex_pairs(list@) == ring_sides(cx, cy, dd, s as int),
            decreases 6 - s,
        {
            let mut h = if s == 0 {
                Hex { x: self.x - d, y: self.y + d }
            } else if s == 1 {
                Hex { x: self.x, y: self.y + d }
            } else if s == 2 {
                Hex { x: self.x + d, y: self.y }
            } else if s == 3 {
                Hex { x: self.x + d, y: self.y - d }
            } else if s == 4 {
                Hex { x: self.x, y: self.y - d }
            } else {
                Hex { x: self.x - d, y: self.y }
            };
            let ghost prefix = hex_pairs(list@);
            let mut t: i32 = 0;
            while t < d
                invariant
                    0 <= s < 6,
                    0 <= t <= d,
                    d == dd,
                    0 < dd <= coord_bound(),
                    cx == self.x,
                    cy == self.y,
                    -coord_bound() <= cx <= coord_bound(),
                    -coord_bound() <= cy <= coord_bound(),
                    prefix == ring_sides(cx, cy, dd, s as int),
                    h.view_pair() == ring_point(cx, cy, dd, s as int, t as int),
                    hex_pairs(list@) == prefix + ring_side(cx, cy, dd, s as int).take(t as int),
                decreases d - t,
            {
                let ghost before = list@;
                list.push(h);
                proof {
                    assert(hex_pairs(list@) =~= hex_pairs(before).push(h.view_pair()));
                    assert(hex_pairs(list@) =~= prefix + ring_side(cx, cy, dd, s as int).take(
                        t + 1,
                    ));
                }
                h = if s == 0 {
                    Hex { x: h.x + 1, y: h.y }
                } else if s == 1 {
                    Hex { x: h.x + 1, y: h.y - 1 }
                } else if s == 2 {
                    Hex { x: h.x, y: h.y - 1 }
                } else if s == 3 {
                    Hex { x: h.x - 1, y: h.y }
                } else if s == 4 {
                    Hex { x: h.x - 1, y: h.y + 1 }
                } else {
                    Hex { x: h.x, y: h.y + 1 }
                };
                t = t + 1;
            }
            proof {
                assert(ring_side(cx, cy, dd, s as int).take(dd) =~= ring_side(
                    cx,
                    cy,
                    dd,
                    s as int,
                ));
                assert(ring_sides(cx, cy, dd, s + 1) == ring_sides(cx, cy, dd, s as int)
                    + ring_side(cx, cy, dd, s as int));
            }
            s = s + 1;
        }
        list
    }

    /// The hexes within `distance` steps, the hex itself included, column by column.
    pub fn hexes_in_distance(&self, distance: u32) -> (r: Vec<Hex>)
        requires
            -coord_bound() <= self.x <= coord_bound(),
            -coord_bound() <= self.y <= coord_bound(),
            distance <= coord_bound(),
        ensures
            hex_pairs(r@) == spec_hexes_in_distance(self.x as int, self.y as int, distance as int),
    {
        let ghost cx = self.x as int;
        let ghost cy = self.y as int;
        let ghost rad = distance as int;
        let mut list: Vec<Hex> = Vec::new();
        let radius = distance as i32;
        let mut q: i32 = -radius;
        while q <= radius
            invariant
                radius == rad,
                0 <= rad <= coord_bound(),
                -rad <= q <= rad + 1,
                cx == self.x,
                cy == self.y,
                -coord_bound() <= cx <= coord_bound(),
                -coord_bound() <= cy <= coord_bound(),
                hex_pairs(list@) == disk_columns(cx, cy, rad, q + rad),
            decreases radius + 1 - q,
        {
            let low = if -radius > -q - radius {
                -radius
            } else {
                -q - radius
            };
            let high = if radius < -q + radius {
                radius
            } else {
                -q + radius
            };
            let ghost prefix = hex_pairs(list@);
            let mut r2: i32 = low;
            while r2 <= high
                invariant
                    radius == rad,
                    0 <= rad <= coord_bound(),
                    -rad <= q <= rad,
                    low == disk_low(rad, q as int),
                    high == disk_high(rad, q as int),
                    low <= r2 <= high + 1,
                    cx == self.x,
                    cy == self.y,
                    -coord_bound() <= cx <= coord_bound(),
                    -coord_bound() <= cy <= coord_bound(),
                    prefix == disk_columns(cx, cy, rad, q + rad),
                    hex_pairs(list@) == prefix + disk_column(cx, cy, rad, q as int).take(
                        r2 - low,
                    ),
                decreases high + 1 - r2,
            {
                let ghost before = list@;
                let nh = Hex { x: self.x + q, y: self.y + r2 };
                list.push(nh);
                proof {
                    assert(hex_pairs(list@) =~= hex_pairs(before).push(nh.view_pair()));
                    assert(hex_pairs(list@) =~= prefix + disk_column(cx, cy, rad, q as int).take(
                        r2 - low + 1,
                    ));
                }
                r2 = r2 + 1;
            }
            proof {
                let col = disk_column(cx, cy, rad, q as int);
                assert(col.take(r2 - low) =~= col);
                assert(disk_columns(cx, cy, rad, q + rad + 1) == disk_columns(cx, cy, rad, q + rad)
                    + disk_column(cx, cy, rad, -rad + (q + rad + 1) - 1));
            }
            q = q + 1;
        }
        list
    }
}


/// The shape of the map: its size in tiles, how its hexes are laid out and
/// whether it wraps around east-west (`wrap_x`) or north-south (`wrap_y`).
#[derive(Clone, Copy, Debug)]
pub struct MapParameters {
    pub width: u32,
    pub height: u32,
    pub orientation: HexOrientation,
    pub offset: Offset,
    pub wrap_x: bool,
    pub wrap_y: bool,
}

impl MapParameters {
    /// The map is not empty and its tile indices fit an `i32`.
    pub open spec fn well_formed(&self) -> bool {
        &&& 0 < self.width
        &&& 0 < self.height
        &&& self.width * self.height <= 0x1000_0000
    }

    pub open spec fn tile_count(&self) -> int {
        self.width * self.height
    }

    /// The offset coordinate brought onto the map along the wrapping axes,
    /// or `None` when it lies off the map.
    pub open spec fn spec_normalize(&self, c: (int, int)) -> Option<(int, int)> {
        let x = if self.wrap_x {
            c.0 % (self.width as int)
        } else {
            c.0
        };
        let y = if self.wrap_y {
            c.1 % (self.height as int)
        } else {
            c.1
        };
        if 0 <= x < self.width && 0 <= y < self.height {
            Some((x, y))
        } else {
            None
        }
    }

    /// The tile index of an offset coordinate, when it is on the map.
    pub open spec fn spec_cell(&self, c: (int, int)) -> Option<int> {
        match self.spec_normalize(c) {
            Some(n) => Some(n.0 + n.1 * self.width),
            None => None,
        }
    }

    /// The tile index of an axial hex, when it is on the map.
    pub open spec fn hex_cell(&self, h: (int, int)) -> Option<int> {
        self.spec_cell(spec_hex_to_offset(h.0, h.1, self.orientation, self.offset))
    }

    /// The tile indices of the listed hexes that lie on the map, in order.
    pub open spec fn spec_cells(&self, hs: Seq<(int, int)>) -> Seq<int>
        decreases hs.len(),
    {
        if hs.len() == 0 {
            Seq::empty()
        } else {
            let rest = self.spec_cells(hs.drop_last());
            match self.hex_cell(hs.last()) {
                Some(c) => rest.push(c),
                None => rest,
            }
        }
    }

    /// The six edge directions of the map's hexes, clockwise.
    pub fn edge_direction_array(&self) -> (r: [Direction; 6])
        ensures
            forall|i: int| 0 <= i < 6 ==> r@[i] == spec_edge_direction(self.orientation, i),
    {
        self.orientation.edge_direction_array()
    }

    /// The six corner directions of the map's hexes, clockwise.
    pub fn corner_direction_array(&self) -> (r: [Direction; 6])
        ensures
            forall|i: int| 0 <= i < 6 ==> r@[i] == spec_corner_direction(self.orientation, i),
    {
        self.orientation.corner_direction_array()
    }

    /// Brings an offset coordinate onto the map along the wrapping axes;
    /// `None` when it lies off the map.
    pub fn normalize_offset(&self, coordinate: [i32; 2]) -> (r: Option<[i32; 2]>)
        requires
            self.well_formed(),
        ensures
            match r {
                Some(n) => self.spec_normalize((coordinate@[0] as int, coordinate@[1] as int))
                    == Some((n@[0] as int, n@[1] as int)),
                None => self.spec_normalize((coordinate@[0] as int, coordinate@[1] as int))
                    is None,
            },
    {
        let mut x = coordinate[0];
        let mut y = coordinate[1];
        proof {
            assert(self.width <= 0x1000_0000) by (nonlinear_arith)
                requires
                    0 < self.width,
                    0 < self.height,
                    self.width * self.height <= 0x1000_0000,
            ;
            assert(self.height <= 0x1000_0000) by (nonlinear_arith)
                requires
                    0 < self.width,
                    0 < self.height,
                    self.width * self.height <= 0x1000_0000,
            ;
        }
        let w = self.width as i32;
        let h = self.height as i32;
        if self.wrap_x {
            x = x.checked_rem_euclid(w).unwrap();
        }
        if self.wrap_y {
            y = y.checked_rem_euclid(h).unwrap();
        }
        if 0 <= x && x < w && 0 <= y && y < h {
            Some([x, y])
        } else {
            None
        }
    }

    /// The tile index of an offset coordinate on the map (wrapping axes are wrapped first).
    pub fn offset_coordinate_to_index(&self, coordinate: [i32; 2]) -> (r: usize)
        requires
            self.well_formed(),
            self.spec_normalize((coordinate@[0] as int, coordinate@[1] as int)) is Some,
        ensures
            Some(r as int) == self.spec_cell((coordinate@[0] as int, coordinate@[1] as int)),
            r < self.tile_count(),
    {
        let n = self.normalize_offset(coordinate).unwrap();
        let x = n[0] as usize;
        let y = n[1] as usize;
        let w = self.width as usize;
        proof {
            assert(y * w + x < self.width * self.height) by (nonlinear_arith)
                requires
                    y < self.height,
                    x < self.width,
                    w == self.width,
            ;
        }
        x + y * w
    }

    /// The offset coordinate `[x, y]` of a tile index.
    pub fn index_to_offset_coordinate(&self, index: usize) -> (r: [i32; 2])
        requires
            self.well_formed(),
            index < self.tile_count(),
        ensures
            r@[0] == (index as int) % (self.width as int),
            r@[1] == (index as int) / (self.width as int),
            0 <= r@[0] < self.width,
            0 <= r@[1] < self.height,
            self.spec_cell((r@[0] as int, r@[1] as int)) == Some(index as int),
    {
        let w = self.width as usize;
        let x = index % w;
        let y = index / w;
        proof {
            assert(y < self.height) by (nonlinear_arith)
                requires
                    index < self.width * self.height,
                    y == (index as int) / (w as int),
                    w == self.width,
                    0 < w,
            ;
            assert(x + y * w == index) by (nonlinear_arith)
                requires
                    x == (index as int) % (w as int),
                    y == (index as int) / (w as int),
                    0 < w,
            ;
            assert((x as int) % (w as int) == x) by (nonlinear_arith)
                requires
                    x < w,
            ;
            assert((y as int) % (self.height as int) == y) by (nonlinear_arith)
                requires
                    y < self.height,
            ;
        }
        [x as i32, y as i32]
    }
}

/// The entities of all tiles, by tile index.
#[derive(Clone, Debug)]
pub struct TileStorage {
    pub tiles: Vec<u64>,
}

/// The position of a tile as an axial hex `[x, y]`.
#[derive(Clone, Copy, Debug, PartialEq, Eq, Hash)]
pub struct HexPosition(pub [i32; 2]);

/// A hex coordinate or a distance that the map computations take without overflow.
pub open spec fn small(v: int) -> bool {
    -0x100_0000 <= v <= 0x100_0000
}

impl HexPosition {
    pub open spec fn pair(&self) -> (int, int) {
        (self.0@[0] as int, self.0@[1] as int)
    }

    pub open spec fn small_pos(&self) -> bool {
        small(self.0@[0] as int) && small(self.0@[1] as int)
    }

    fn hex(&self) -> (r: Hex)
        ensures
            r.view_pair() == self.pair(),
    {
        Hex { x: self.0[0], y: self.0[1] }
    }

    /// The index of the tile at this position.
    pub fn index(&self, map_parameters: &MapParameters) -> (r: usize)
        requires
            map_parameters.well_formed(),
            self.small_pos(),
            map_parameters.hex_cell(self.pair()) is Some,
        ensures
            Some(r as int) == map_parameters.hex_cell(self.pair()),
            r < map_parameters.tile_count(),
    {
        let c = self.hex().to_offset_coordinate(map_parameters.offset, map_parameters.orientation);
        map_parameters.offset_coordinate_to_index(c)
    }

    /// The entity of the tile at this position.
    pub fn entity(&self, map_parameters: &MapParameters, tile_storage: &TileStorage) -> (r: u64)
        requires
            map_parameters.well_formed(),
            self.small_pos(),
            map_parameters.hex_cell(self.pair()) is Some,
            tile_storage.tiles.len() == map_parameters.tile_count(),
        ensures
            r == tile_storage.tiles@[map_parameters.hex_cell(self.pair())->0],
    {
        let index = self.index(map_parameters);
        tile_storage.tiles[index]
    }

    /// The tile index of a hex when it lies on the map.
    fn cell_of(h: Hex, map_parameters: &MapParameters) -> (r: Option<usize>)
        requires
            map_parameters.well_formed(),
            in_bound(h.x as int),
            in_bound(h.y as int),
        ensures
            match r {
                Some(i) => map_parameters.hex_cell(h.view_pair()) == Some(i as int) && i
                    < map_parameters.tile_count(),
                None => map_parameters.hex_cell(h.view_pair()) is None,
            },
    {
        let c = h.to_offset_coordinate(map_parameters.offset, map_parameters.orientation);
        match map_parameters.normalize_offset(c) {
            Some(_) => Some(map_parameters.offset_coordinate_to_index(c)),
            None => None,
        }
    }

    /// The tile indices of those listed hexes that lie on the map.
    fn cells_of(hexes: &Vec<Hex>, map_parameters: &MapParameters) -> (r: Vec<usize>)
        requires
            map_parameters.well_formed(),
            hexes_bounded(hexes@),
        ensures
            r@.map_values(|c: usize| c as int) == map_parameters.spec_cells(hex_pairs(hexes@)),
            forall|i: int| 0 <= i < r.len() ==> #[trigger] r@[i] < map_parameters.tile_count(),
    {
        let mut out: Vec<usize> = Vec::new();
        let mut i: usize = 0;
        while i < hexes.len()
            invariant
                0 <= i <= hexes.len(),
                map_parameters.well_formed(),
                hexes_bounded(hexes@),
                out@.map_values(|c: usize| c as int) == map_parameters.spec_cells(
                    hex_pairs(hexes@.take(i as int)),
                ),
                forall|j: int| 0 <= j < out.len() ==> #[trigger] out@[j]
                    < map_parameters.tile_count(),
            decreases hexes.len() - i,
        {
            let h = hexes[i];
            assert(in_bound(hexes@[i as int].x as int) && in_bound(hexes@[i as int].y as int));
            let ghost before = out@;
            proof {
                let hs = hex_pairs(hexes@.take(i + 1));
                assert(hs.drop_last() =~= hex_pairs(hexes@.take(i as int)));
                assert(hs.last() == h.view_pair());
            }
            match Self::cell_of(h, map_parameters) {
                Some(c) => {
                    out.push(c);
                    assert(out@.map_values(|c: usize| c as int) =~= before.map_values(
                        |c: usize| c as int,
                    ).push(c as int));
                },
                None => {},
            }
            i = i + 1;
        }
        assert(hexes@.take(hexes.len() as int) =~= hexes@);
        out
    }

    fn entities_of(cells: &Vec<usize>, tile_storage: &TileStorage) -> (r: Vec<u64>)
        requires
            forall|i: int| 0 <= i < cells.len() ==> #[trigger] cells@[i] < tile_storage.tiles.len(),
        ensures
            r@ == cells@.map_values(|c: usize| tile_storage.tiles@[c as int]),
    {
        let mut out: Vec<u64> = Vec::new();
        let mut i: usize = 0;
        while i < cells.len()
            invariant
                0 <= i <= cells.len(),
                forall|j: int| 0 <= j < cells.len() ==> #[trigger] cells@[j]
                    < tile_storage.tiles.len(),
                out@ == cells@.take(i as int).map_values(|c: usize| tile_storage.tiles@[c as int]),
            decreases cells.len() - i,
        {
            out.push(tile_storage.tiles[cells[i]]);
            i = i + 1;
            assert(out@ =~= cells@.take(i as int).map_values(
                |c: usize| tile_storage.tiles@[c as int],
            ));
        }
        assert(cells@.take(cells.len() as int) =~= cells@);
        out
    }

    /// The tile indices of the tiles at exactly `distance` steps, in walking order
    /// (tiles that would lie off a non-wrapping edge are left out).
    pub fn indices_at_distance(&self, distance: i32, map_parameters: &MapParameters) -> (r: Vec<usize>)
        requires
            map_parameters.well_formed(),
            self.small_pos(),
            0 <= distance <= 0x100_0000,
        ensures
            r@.map_values(|c: usize| c as int) == map_parameters.spec_cells(
                spec_hexes_at_distance(self.pair().0, self.pair().1, distance as int),
            ),
            forall|i: int| 0 <= i < r.len() ==> #[trigger] r@[i] < map_parameters.tile_count(),
    {
        let hexes = self.hex().hexes_at_distance(distance as u32);
        proof {
            assert forall|i: int| 0 <= i < hexes.len() implies in_bound(#[trigger] hexes@[i].x as int)
                && in_bound(hexes@[i].y as int) by {
                Self::lemma_ring_bounded(self.pair().0, self.pair().1, distance as int, i);
                assert(hex_pairs(hexes@)[i] == hexes@[i].view_pair());
            }
        }
        Self::cells_of(&hexes, map_parameters)
    }

    /// The tile indices of the tiles within `distance` steps, this one included.
    pub fn indices_in_distance(&self, distance: i32, map_parameters: &MapParameters) -> (r: Vec<usize>)
        requires
            map_parameters.well_formed(),
            self.small_pos(),
            0 <= distance <= 0x100_0000,
        ensures
            r@.map_values(|c: usize| c as int) == map_parameters.spec_cells(
                spec_hexes_in_distance(self.pair().0, self.pair().1, distance as int),
            ),
            forall|i: int| 0 <= i < r.len() ==> #[trigger] r@[i] < map_parameters.tile_count(),
    {
        let hexes = self.hex().hexes_in_distance(distance as u32);
        proof {
            assert forall|i: int| 0 <= i < hexes.len() implies in_bound(#[trigger] hexes@[i].x as int)
                && in_bound(hexes@[i].y as int) by {
                Self::lemma_disk_bounded(self.pair().0, self.pair().1, distance as int, i);
                assert(hex_pairs(hexes@)[i] == hexes@[i].view_pair());
            }
        }
        Self::cells_of(&hexes, map_parameters)
    }

    /// The entities of the tiles at exactly `distance` steps, in walking order.
    pub fn entities_at_distance(
        &self,
        distance: i32,
        tile_storage: &TileStorage,
        map_parameters: &MapParameters,
    ) -> (r: Vec<u64>)
        requires
            map_parameters.well_formed(),
            self.small_pos(),
            0 <= distance <= 0x100_0000,
            tile_storage.tiles.len() == map_parameters.tile_count(),
        ensures
            r@ == map_parameters.spec_cells(
                spec_hexes_at_distance(self.pair().0, self.pair().1, distance as int),
            ).map_values(|c: int| tile_storage.tiles@[c]),
    {
        let cells = self.indices_at_distance(distance, map_parameters);
        let r = Self::entities_of(&cells, tile_storage);
        proof {
            let s = map_parameters.spec_cells(
                spec_hexes_at_distance(self.pair().0, self.pair().1, distance as int),
            );
            assert(cells@.map_values(|c: usize| c as int) == s);
            assert(r@ =~= s.map_values(|c: int| tile_storage.tiles@[c])) by {
                assert forall|i: int| 0 <= i < r@.len() implies r@[i] == s.map_values(
                    |c: int| tile_storage.tiles@[c],
                )[i] by {
                    assert(cells@.map_values(|c: usize| c as int)[i] == cells@[i] as int);
                }
            }
        }
        r
    }

    /// The entities of the tiles within `distance` steps, this one included.
    pub fn entities_in_distance(
        &self,
        distance: i32,
        tile_storage: &TileStorage,
        map_parameters: &MapParameters,
    ) -> (r: Vec<u64>)
        requires
            map_parameters.well_formed(),
            self.small_pos(),
            0 <= distance <= 0x100_0000,
            tile_storage.tiles.len() == map_parameters.tile_count(),
        ensures
            r@ == map_parameters.spec_cells(
                spec_hexes_in_distance(self.pair().0, self.pair().1, distance as int),
            ).map_values(|c: int| tile_storage.tiles@[c]),
    {
        let cells = self.indices_in_distance(distance, map_parameters);
        let r = Self::entities_of(&cells, tile_storage);
        proof {
            let s = map_parameters.spec_cells(
                spec_hexes_in_distance(self.pair().0, self.pair().1, distance as int),
            );
            assert(r@ =~= s.map_values(|c: int| tile_storage.tiles@[c])) by {
                assert forall|i: int| 0 <= i < r@.len() implies r@[i] == s.map_values(
                    |c: int| tile_storage.tiles@[c],
                )[i] by {
                    assert(cells@.map_values(|c: usize| c as int)[i] == cells@[i] as int);
                }
            }
        }
        r
    }

    /// The entities of the adjacent tiles.
    pub fn entity_neighbors(&self, tile_storage: &TileStorage, map_parameters: &MapParameters) -> (r:
        Vec<u64>)
        requires
            map_parameters.well_formed(),
            self.small_pos(),
            tile_storage.tiles.len() == map_parameters.tile_count(),
        ensures
            r@ == map_parameters.spec_cells(
                spec_hexes_at_distance(self.pair().0, self.pair().1, 1),
            ).map_values(|c: int| tile_storage.tiles@[c]),
    {
        self.entities_at_distance(1, tile_storage, map_parameters)
    }

    /// The tile index of the neighbor across the edge in `direction`, if it is on the map.
    pub fn index_neighbor(&self, map_parameters: &MapParameters, direction: Direction) -> (r: Option<
        usize,
    >)
        requires
            map_parameters.well_formed(),
            self.small_pos(),
            spec_edge_index(map_parameters.orientation, direction) >= 0,
        ensures
            match r {
                Some(i) => map_parameters.hex_cell(spec_neighbor(self.pair(), map_parameters.orientation, direction))
                    == Some(i as int) && i < map_parameters.tile_count(),
                None => map_parameters.hex_cell(
                    spec_neighbor(self.pair(), map_parameters.orientation, direction),
                ) is None,
            },
    {
        let h = self.hex().neighbor(map_parameters.orientation, direction);
        Self::cell_of(h, map_parameters)
    }

    /// The entity of the neighbor across the edge in `direction`, if it is on the map.
    pub fn entity_neighbor(
        &self,
        tile_storage: &TileStorage,
        map_parameters: &MapParameters,
        direction: Direction,
    ) -> (r: Option<u64>)
        requires
            map_parameters.well_formed(),
            self.small_pos(),
            spec_edge_index(map_parameters.orientation, direction) >= 0,
            tile_storage.tiles.len() == map_parameters.tile_count(),
        ensures
            r == (match map_parameters.hex_cell(
                spec_neighbor(self.pair(), map_parameters.orientation, direction),
            ) {
                Some(c) => Some(tile_storage.tiles@[c]),
                None => None,
            }),
    {
        match self.index_neighbor(map_parameters, direction) {
            Some(i) => Some(tile_storage.tiles[i]),
            None => None,
        }
    }

    proof fn lemma_ring_bounded(cx: int, cy: int, d: int, i: int)
        requires
            small(cx),
            small(cy),
            0 <= d <= 0x100_0000,
            0 <= i < spec_hexes_at_distance(cx, cy, d).len(),
        ensures
            in_bound(spec_hexes_at_distance(cx, cy, d)[i].0),
            in_bound(spec_hexes_at_distance(cx, cy, d)[i].1),
    {
        Self::lemma_ring_sides_bounded(cx, cy, d, 6, i);
    }

    proof fn lemma_ring_sides_bounded(cx: int, cy: int, d: int, n: int, i: int)
        requires
            small(cx),
            small(cy),
            0 <= d <= 0x100_0000,
            0 <= n <= 6,
            0 <= i < ring_sides(cx, cy, d, n).len(),
        ensures
            -3 * 0x100_0000 <= ring_sides(cx, cy, d, n)[i].0 <= 3 * 0x100_0000,
            -3 * 0x100_0000 <= ring_sides(cx, cy, d, n)[i].1 <= 3 * 0x100_0000,
            ring_sides(cx, cy, d, n).len() == n * d,
        decreases n,
    {
        if n > 0 {
            let prev = ring_sides(cx, cy, d, n - 1);
            assert(ring_sides(cx, cy, d, n).len() == n * d) by {
                Self::lemma_ring_len(cx, cy, d, n - 1);
                assert(n * d == (n - 1) * d + d) by (nonlinear_arith);
            }
            if i < prev.len() {
                Self::lemma_ring_sides_bounded(cx, cy, d, n - 1, i);
            }
        }
    }

    pub(crate) proof fn lemma_ring_len(cx: int, cy: int, d: int, n: int)
        requires
            0 <= d,
            0 <= n,
        ensures
            ring_sides(cx, cy, d, n).len() == n * d,
        decreases n,
    {
        if n > 0 {
            Self::lemma_ring_len(cx, cy, d, n - 1);
            assert(ring_side(cx, cy, d, n - 1).len() == d);
            assert(ring_sides(cx, cy, d, n).len() == ring_sides(cx, cy, d, n - 1).len() + d);
            assert(n * d == (n - 1) * d + d) by (nonlinear_arith);
        } else {
            assert(n * d == 0) by (nonlinear_arith)
                requires
                    n == 0,
            ;
        }
    }

    proof fn lemma_disk_bounded(cx: int, cy: int, rad: int, i: int)
        requires
            small(cx),
            small(cy),
            0 <= rad <= 0x100_0000,
            0 <= i < spec_hexes_in_distance(cx, cy, rad).len(),
        ensures
            in_bound(spec_hexes_in_distance(cx, cy, rad)[i].0),
            in_bound(spec_hexes_in_distance(cx, cy, rad)[i].1),
    {
        Self::lemma_disk_columns_bounded(cx, cy, rad, 2 * rad + 1, i);
    }

    proof fn lemma_disk_columns_bounded(cx: int, cy: int, rad: int, n: int, i: int)
        requires
            small(cx),
            small(cy),
            0 <= rad <= 0x100_0000,
            0 <= n <= 2 * rad + 1,
            0 <= i < disk_columns(cx, cy, rad, n).len(),
        ensures
            -3 * 0x100_0000 <= disk_columns(cx, cy, rad, n)[i].0 <= 3 * 0x100_0000,
            -3 * 0x100_0000 <= disk_columns(cx, cy, rad, n)[i].1 <= 3 * 0x100_0000,
        decreases n,
    {
        if n > 0 {
            let prev = disk_columns(cx, cy, rad, n - 1);
            if i < prev.len() {
                Self::lemma_disk_columns_bounded(cx, cy, rad, n - 1, i);
            }
        }
    }
}

/// Converting a hex to its offset coordinate and back gives the hex again.
pub proof fn law_hex_offset_roundtrip(x: int, y: int, o: HexOrientation, off: Offset)
    ensures
        ({
            let c = spec_hex_to_offset(x, y, o, off);
            spec_offset_to_hex(c.0, c.1, o, off)
        }) == (x, y),
{
}

/// Converting an offset coordinate to a hex and back gives the coordinate again.
pub proof fn law_offset_hex_roundtrip(col: int, row: int, o: HexOrientation, off: Offset)
    ensures
        ({
            let h = spec_offset_to_hex(col, row, o, off);
            spec_hex_to_offset(h.0, h.1, o, off)
        }) == (col, row),
{
}

/// Stepping across an edge and then back across the opposite edge returns to the start.
pub proof fn law_neighbor_opposite(h: (int, int), o: HexOrientation, d: Direction)
    requires
        spec_edge_index(o, d) >= 0,
    ensures
        spec_edge_index(o, spec_opposite(d)) >= 0,
        spec_neighbor(spec_neighbor(h, o, d), o, spec_opposite(d)) == h,
        spec_hex_distance(spec_neighbor(h, o, d), h) == 1,
{
}

/// Every hex of the ring at distance `d` is exactly `d` steps away, and the ring holds `6 * d` hexes.
pub proof fn law_ring_distance(cx: int, cy: int, d: int, i: int)
    requires
        0 <= d,
        0 <= i < spec_hexes_at_distance(cx, cy, d).len(),
    ensures
        spec_hex_distance(spec_hexes_at_distance(cx, cy, d)[i], (cx, cy)) == d,
        spec_hexes_at_distance(cx, cy, d).len() == 6 * d,
{
    HexPosition::lemma_ring_len(cx, cy, d, 6);
    lemma_ring_sides_distance(cx, cy, d, 6, i);
}

proof fn lemma_ring_sides_distance(cx: int, cy: int, d: int, n: int, i: int)
    requires
        0 <= d,
        0 <= n <= 6,
        0 <= i < ring_sides(cx, cy, d, n).len(),
    ensures
        spec_hex_distance(ring_sides(cx, cy, d, n)[i], (cx, cy)) == d,
    decreases n,
{
    if n > 0 {
        let prev = ring_sides(cx, cy, d, n - 1);
        if i < prev.len() {
            lemma_ring_sides_distance(cx, cy, d, n - 1, i);
        } else {
            let t = i - prev.len();
            assert(ring_sides(cx, cy, d, n)[i] == ring_point(cx, cy, d, n - 1, t));
        }
    }
}

/// Every listed hex has coordinates that the conversions take without overflow.
pub open spec fn hexes_bounded(hs: Seq<Hex>) -> bool {
    forall|i: int| 0 <= i < hs.len() ==> in_bound(#[trigger] hs[i].x as int) && in_bound(hs[i].y as int)
}

/// The axial hex across the edge in direction `d`.
pub open spec fn spec_neighbor(h: (int, int), o: HexOrientation, d: Direction) -> (int, int) {
    let step = spec_hex_direction(spec_edge_index(o, d));
    (h.0 + step.0, h.1 + step.1)
}

} // verus!
