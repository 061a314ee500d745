//! Rivers: how a river runs from its source, edge by edge, along the tiles of the map,
//! and where the map generator starts rivers.
//!
//! A river is the list of its edges; an edge is the tile it belongs to (by index) and
//! the direction in which the water flows. The river with id `r` is entry `r` of the
//! list of rivers.

use crate::area::{lemma_i32_keys_ordered, AreaIdAndSize};
use crate::draws::{draw_at, extends, lemma_extends_push, lemma_extends_trans, lemma_new_draws_small};
use crate::hex::{
    spec_corner_direction, spec_corner_index, spec_edge_direction, spec_edge_index, spec_hexes_at_distance,
    spec_neighbor, spec_opposite, Direction, HexOrientation, MapParameters,
};
use crate::map_gen::{draw_below, entity_sorted, order_by_entity, RandomNumberGenerator};
use crate::terrain::{BaseTerrain, Feature, TerrainType};
use crate::tile_query::{river_lies_on, spec_has_river, River, TileQuery, TileQueryItem};
use rand::rngs::StdRng;
use vstd::prelude::*;

verus! {

/// The edges of all rivers, river by river.
pub open spec fn river_edges(river: &River) -> Seq<Seq<(usize, Direction)>> {
    Seq::new(river.0.len() as nat, |r: int| river.0@[r]@)
}

/// Some river has an edge of tile `t` along its `direction` edge.
pub open spec fn edge_in(rs: Seq<Seq<(usize, Direction)>>, o: HexOrientation, t: int, direction: Direction) -> bool {
    exists|r: int, k: int|
        0 <= r < rs.len() && 0 <= k < rs[r].len() && (#[trigger] rs[r][k]).0 == t && river_lies_on(
            o,
            direction,
            rs[r][k].1,
        )
}

/// The tile across the edge of tile `t` in `direction`, when it is on the map.
#[verifier::opaque]
pub open spec fn nbr(mp: &MapParameters, q: &TileQuery, t: int, direction: Direction) -> Option<int> {
    mp.hex_cell(spec_neighbor(q.tiles@[t].hex_position.pair(), mp.orientation, direction))
}

/// A river runs along the `direction` edge of tile `t` (see [`spec_has_river`]).
#[verifier::opaque]
pub open spec fn river_along(
    rs: Seq<Seq<(usize, Direction)>>,
    mp: &MapParameters,
    q: &TileQuery,
    t: int,
    direction: Direction,
) -> bool {
    let o = mp.orientation;
    if spec_edge_index(o, direction) < 3 {
        edge_in(rs, o, t, direction)
    } else {
        match nbr(mp, q, t, direction) {
            Some(n) => edge_in(rs, o, n, spec_opposite(direction)),
            None => false,
        }
    }
}

proof fn lemma_river_along(river: &River, mp: &MapParameters, q: &TileQuery, t: int, direction: Direction)
    ensures
        spec_has_river(river, mp, q, t, direction) == river_along(river_edges(river), mp, q, t, direction),
{
    reveal(river_along);
    reveal(nbr);
    let rs = river_edges(river);
    let o = mp.orientation;
    assert forall|tt: int, d: Direction|
        crate::tile_query::own_edge_has_river(river, o, tt, d) == edge_in(rs, o, tt, d) by {
        if crate::tile_query::own_edge_has_river(river, o, tt, d) {
            let (r, k) = choose|r: int, k: int|
                0 <= r < river.0.len() && 0 <= k < river.0@[r].len() && (#[trigger] river.0@[r]@[k]).0
                    == tt && river_lies_on(o, d, river.0@[r]@[k].1);
            assert(rs[r][k] == river.0@[r]@[k]);
        }
        if edge_in(rs, o, tt, d) {
            let (r, k) = choose|r: int, k: int|
                0 <= r < rs.len() && 0 <= k < rs[r].len() && (#[trigger] rs[r][k]).0 == tt
                    && river_lies_on(o, d, rs[r][k].1);
            assert(rs[r][k] == river.0@[r]@[k]);
        }
    }
}

/// The rivers after edge `e` joins river `id` (rivers up to `id` that do not exist yet
/// are made, empty).
pub open spec fn add_edge(rs: Seq<Seq<(usize, Direction)>>, id: int, e: (usize, Direction)) -> Seq<Seq<(usize, Direction)>> {
    let grown = if id < rs.len() {
        rs
    } else {
        rs + Seq::new((id + 1 - rs.len()) as nat, |i: int| Seq::<(usize, Direction)>::empty())
    };
    grown.update(id, grown[id].push(e))
}

/// How a river placed at its start tile and flowing in some direction is checked: the
/// tile that gets the edge (the start, or its neighbor across `base`), the neighbor
/// `look` of that tile that must be land, the river checks `first` and `also` (on the
/// tile itself when the flag holds, else on `look`'s tile), an optional second neighbor
/// check (direction, must be land, river check on it), and whether the river then goes
/// on from `look`'s tile.
#[derive(Clone, Copy, Debug)]
pub struct Recipe {
    pub base: Option<Direction>,
    pub look: Direction,
    pub first: (bool, Direction),
    pub also: Option<(bool, Direction)>,
    pub second: Option<(Direction, bool, Direction)>,
    pub moves: bool,
}

/// The directions a river may flow in: along the corners of the map's hexes.
pub open spec fn flow_ok(o: HexOrientation, flow: Direction) -> bool {
    match o {
        HexOrientation::Pointy => flow != Direction::East && flow != Direction::West,
        HexOrientation::Flat => flow != Direction::North && flow != Direction::South,
    }
}

/// The check for a river flowing in `flow` (not [`Direction::Unset`]).
#[verifier::opaque]
pub open spec fn spec_recipe(o: HexOrientation, flow: Direction) -> Recipe {
    match o {
        HexOrientation::Pointy => match flow {
            Direction::North => Recipe { base: None, look: Direction::NorthEast, first: (false, Direction::SouthEast), also: Some((false, Direction::SouthWest)), second: None, moves: true },
            Direction::NorthEast => Recipe { base: None, look: Direction::East, first: (true, Direction::East), also: Some((false, Direction::SouthWest)), second: None, moves: false },
            Direction::SouthEast => Recipe { base: Some(Direction::East), look: Direction::SouthEast, first: (true, Direction::SouthEast), also: None, second: Some((Direction::SouthWest, true, Direction::East)), moves: false },
            Direction::South => Recipe { base: Some(Direction::SouthWest), look: Direction::SouthEast, first: (true, Direction::SouthEast), also: None, second: Some((Direction::East, false, Direction::SouthWest)), moves: false },
            Direction::SouthWest => Recipe { base: None, look: Direction::SouthWest, first: (false, Direction::East), also: Some((true, Direction::SouthWest)), second: None, moves: false },
            _ => Recipe { base: None, look: Direction::West, first: (false, Direction::East), also: Some((false, Direction::SouthEast)), second: None, moves: true },
        },
        HexOrientation::Flat => match flow {
            Direction::NorthEast => Recipe { base: None, look: Direction::NorthEast, first: (true, Direction::NorthEast), also: Some((false, Direction::South)), second: None, moves: false },
            Direction::East => Recipe { base: Some(Direction::NorthEast), look: Direction::SouthEast, first: (true, Direction::SouthEast), also: None, second: Some((Direction::South, true, Direction::NorthEast)), moves: false },
            Direction::SouthEast => Recipe { base: Some(Direction::South), look: Direction::SouthEast, first: (true, Direction::SouthEast), also: None, second: Some((Direction::NorthEast, true, Direction::South)), moves: false },
            Direction::SouthWest => Recipe { base: None, look: Direction::South, first: (true, Direction::South), also: Some((false, Direction::NorthEast)), second: None, moves: false },
            Direction::West => Recipe { base: None, look: Direction::SouthWest, first: (false, Direction::NorthEast), also: Some((false, Direction::SouthEast)), second: None, moves: true },
            _ => Recipe { base: None, look: Direction::North, first: (false, Direction::South), also: Some((false, Direction::SouthEast)), second: None, moves: true },
        },
    }
}


/// Whether tile `t` is water.
pub open spec fn is_water(q: &TileQuery, t: int) -> bool {
    q.tiles@[t].terrain_type == TerrainType::Water
}

/// A river check on the tile itself (when the flag holds) or on its neighbor `n`.
pub open spec fn check_river(
    rs: Seq<Seq<(usize, Direction)>>,
    mp: &MapParameters,
    q: &TileQuery,
    plot: int,
    n: int,
    c: (bool, Direction),
) -> bool {
    river_along(rs, mp, q, if c.0 {
        plot
    } else {
        n
    }, c.1)
}

/// Placing the river's next edge as the river reaches `start` flowing in `flow`: the
/// rivers after the edge joins river `id`, and the tile the river goes on from, or
/// `None` when it ends there (off the map, at water, or where it would touch another
/// river). A river that has not started yet ([`Direction::Unset`]) places no edge.
pub open spec fn place_edge(
    rs: Seq<Seq<(usize, Direction)>>,
    mp: &MapParameters,
    q: &TileQuery,
    start: int,
    flow: Direction,
    id: int,
) -> (Seq<Seq<(usize, Direction)>>, Option<int>) {
    if flow == Direction::Unset {
        (rs, Some(start))
    } else {
        let rc = spec_recipe(mp.orientation, flow);
        let base = match rc.base {
            None => Some(start),
            Some(d) => nbr(mp, q, start, d),
        };
        match base {
            None => (rs, None),
            Some(plot) => {
                let rs1 = add_edge(rs, id, (plot as usize, flow));
                match nbr(mp, q, plot, rc.look) {
                    None => (rs1, None),
                    Some(n) => if is_water(q, n) || check_river(rs1, mp, q, plot, n, rc.first) || (
                    rc.also matches Some(c) && check_river(rs1, mp, q, plot, n, c)) {
                        (rs1, None)
                    } else {
                        match rc.second {
                            None => (rs1, Some(
                                if rc.moves {
                                    n
                                } else {
                                    plot
                                },
                            )),
                            Some(sc) => match nbr(mp, q, plot, sc.0) {
                                None => (rs1, None),
                                Some(n2) => if (sc.1 && is_water(q, n2)) || river_along(rs1, mp, q, n2, sc.2) {
                                    (rs1, None)
                                } else {
                                    (rs1, Some(plot))
                                },
                            },
                        }
                    },
                }
            },
        }
    }
}

/// How high a terrain lies, for rivers (which run downhill).
pub open spec fn elevation(t: TerrainType) -> int {
    match t {
        TerrainType::Water => 2,
        TerrainType::Flatland => 1,
        TerrainType::Mountain => 4,
        TerrainType::Hill => 3,
    }
}

/// What the first `i` edge neighbors of tile `p` add to its river value: their
/// elevation, 4 more for desert, and 40 for an edge off the map.
#[verifier::opaque]
pub open spec fn edge_sum(mp: &MapParameters, q: &TileQuery, p: int, i: int) -> int
    decreases i,
{
    if i <= 0 {
        0
    } else {
        edge_sum(mp, q, p, i - 1) + match nbr(mp, q, p, spec_edge_direction(mp.orientation, i - 1)) {
            Some(n) => elevation(q.tiles@[n].terrain_type) + if q.tiles@[n].base_terrain == BaseTerrain::Desert {
                4int
            } else {
                0int
            },
            None => 40,
        }
    }
}

/// Tile `p` holds a natural wonder or lies next to one.
#[verifier::opaque]
pub open spec fn near_wonder(mp: &MapParameters, q: &TileQuery, p: int) -> bool {
    ||| q.tiles@[p].natural_wonder is Some
    ||| exists|k: int|
        0 <= k < q.spec_neighbors(mp, p).len() && q.tiles@[#[trigger] q.spec_neighbors(mp, p)[k]].natural_wonder is Some
}

/// How little a river wants to flow onto tile `p` (it takes the lowest value), and the
/// position of the next draw: -1 next to a natural wonder (no draw), else 20 times the
/// tile's elevation, plus [`edge_sum`], plus a draw from 0..10.
pub open spec fn plot_value(mp: &MapParameters, q: &TileQuery, p: int, d: Seq<u32>, pos: int) -> (int, int) {
    if near_wonder(mp, q, p) {
        (-1, pos)
    } else {
        (elevation(q.tiles@[p].terrain_type) * 20 + edge_sum(mp, q, p, 6) + draw_at(d, pos), pos + 1)
    }
}

/// The `i`-th way on for a river: the flow direction, and the direction of the
/// neighbor the river then lies by.
pub open spec fn adj_pair(o: HexOrientation, i: int) -> (Direction, Direction) {
    match o {
        HexOrientation::Pointy => if i == 0 {
            (Direction::North, Direction::NorthWest)
        } else if i == 1 {
            (Direction::NorthEast, Direction::NorthEast)
        } else if i == 2 {
            (Direction::SouthEast, Direction::East)
        } else if i == 3 {
            (Direction::South, Direction::SouthWest)
        } else if i == 4 {
            (Direction::SouthWest, Direction::West)
        } else {
            (Direction::NorthWest, Direction::NorthWest)
        },
        HexOrientation::Flat => if i == 0 {
            (Direction::East, Direction::NorthEast)
        } else if i == 1 {
            (Direction::SouthEast, Direction::South)
        } else if i == 2 {
            (Direction::SouthWest, Direction::SouthWest)
        } else if i == 3 {
            (Direction::West, Direction::NorthWest)
        } else if i == 4 {
            (Direction::NorthWest, Direction::NorthWest)
        } else {
            (Direction::NorthEast, Direction::North)
        },
    }
}

/// A river flowing in `this_flow` may turn to `f`: it has not started, or `f` is the
/// corner direction just right or just left of `this_flow`.
pub open spec fn turns_ok(o: HexOrientation, this_flow: Direction, f: Direction) -> bool {
    this_flow == Direction::Unset || {
        let ci = spec_corner_index(o, this_flow);
        f == spec_corner_direction(o, (ci + 1) % 6) || f == spec_corner_direction(o, (ci + 5) % 6)
    }
}

/// The river may take flow `f`: it does not run against its first direction, and it
/// may turn to it.
pub open spec fn eligible(o: HexOrientation, this_flow: Direction, first_flow: Direction, f: Direction) -> bool {
    spec_opposite(f) != first_flow && turns_ok(o, this_flow, f)
}

/// A value scaled by three quarters (rounded toward zero) when the flow keeps the
/// river's first direction.
pub open spec fn scaled(v: int, f: Direction, first_flow: Direction) -> int {
    if f == first_flow {
        if v < 0 {
            -((-v * 3) / 4)
        } else {
            (v * 3) / 4
        }
    } else {
        v
    }
}

/// The best way on among the first `i` ways from tile `plot` (the flow with the lowest
/// value, the first among equals; [`Direction::Unset`] when there is none), its value,
/// and the position of the next draw.
pub open spec fn best_upto(
    mp: &MapParameters,
    q: &TileQuery,
    plot: int,
    this_flow: Direction,
    first_flow: Direction,
    d: Seq<u32>,
    pos0: int,
    i: int,
) -> (Direction, int, int)
    decreases i,
{
    if i <= 0 {
        (Direction::Unset, i32::MAX as int, pos0)
    } else {
        let prev = best_upto(mp, q, plot, this_flow, first_flow, d, pos0, i - 1);
        let (f, dir) = adj_pair(mp.orientation, i - 1);
        match nbr(mp, q, plot, dir) {
            None => prev,
            Some(a) => if eligible(mp.orientation, this_flow, first_flow, f) {
                let (v, pos2) = plot_value(mp, q, a, d, prev.2);
                let v2 = scaled(v, f, first_flow);
                if v2 < prev.1 {
                    (f, v2, pos2)
                } else {
                    (prev.0, prev.1, pos2)
                }
            } else {
                prev
            },
        }
    }
}

/// One step of a river: it places its edge ([`place_edge`]); unless it ends, it picks
/// its way on from the tile reached ([`best_upto`]). Gives the rivers, where and how
/// the river goes on (tile, flow, first flow) unless it ends, and the next draw position.
pub open spec fn river_step(
    rs: Seq<Seq<(usize, Direction)>>,
    mp: &MapParameters,
    q: &TileQuery,
    start: int,
    flow: Direction,
    first_flow: Direction,
    id: int,
    d: Seq<u32>,
    pos: int,
) -> (Seq<Seq<(usize, Direction)>>, Option<(int, Direction, Direction)>, int) {
    let (rs1, p) = place_edge(rs, mp, q, start, flow, id);
    match p {
        None => (rs1, None, pos),
        Some(plot) => if is_water(q, plot) {
            (rs1, None, pos)
        } else {
            let (bf, bv, pos2) = best_upto(mp, q, plot, flow, first_flow, d, pos, 6);
            if bf == Direction::Unset {
                (rs1, None, pos2)
            } else {
                (rs1, Some((plot, bf, if first_flow == Direction::Unset {
                    bf
                } else {
                    first_flow
                })), pos2)
            }
        },
    }
}

/// The rivers after river `id` runs on from `start` for at most `fuel` more steps after
/// this one, and the position of the next draw.
pub open spec fn river_course(
    rs: Seq<Seq<(usize, Direction)>>,
    mp: &MapParameters,
    q: &TileQuery,
    start: int,
    flow: Direction,
    first_flow: Direction,
    id: int,
    d: Seq<u32>,
    pos: int,
    fuel: nat,
) -> (Seq<Seq<(usize, Direction)>>, int)
    decreases fuel,
{
    let (rs1, next, pos1) = river_step(rs, mp, q, start, flow, first_flow, id, d, pos);
    match next {
        None => (rs1, pos1),
        Some(st) => if fuel == 0 {
            (rs1, pos1)
        } else {
            river_course(rs1, mp, q, st.0, st.1, st.2, id, d, pos1, (fuel - 1) as nat)
        },
    }
}

/// Some river has an edge on tile `t`.
pub open spec fn has_edge_on(rs: Seq<Seq<(usize, Direction)>>, t: int) -> bool {
    exists|r: int, k: int| 0 <= r < rs.len() && 0 <= k < rs[r].len() && (#[trigger] rs[r][k]).0 == t
}

/// The rivers after river `id` is run from `start` with the draws `d` from position
/// `pos` on, and the position of the next draw: nothing happens when a river already
/// touches `start`; else the river runs until it ends.
pub open spec fn do_river_from(
    rs: Seq<Seq<(usize, Direction)>>,
    mp: &MapParameters,
    q: &TileQuery,
    start: int,
    id: int,
    d: Seq<u32>,
    pos: int,
) -> (Seq<Seq<(usize, Direction)>>, int) {
    if has_edge_on(rs, start) {
        (rs, pos)
    } else {
        river_course(rs, mp, q, start, Direction::Unset, Direction::Unset, id, d, pos, usize::MAX as nat)
    }
}

/// The rivers after river `id` is run from `start` with the draws `d` (see [`do_river_from`]).
pub open spec fn spec_do_river(
    rs: Seq<Seq<(usize, Direction)>>,
    mp: &MapParameters,
    q: &TileQuery,
    start: int,
    id: int,
    d: Seq<u32>,
) -> Seq<Seq<(usize, Direction)>> {
    do_river_from(rs, mp, q, start, id, d, 0).0
}

/// The directions a recipe looks in are edge directions of the map's hexes.
pub open spec fn recipe_dirs_ok(o: HexOrientation, rc: Recipe) -> bool {
    &&& (rc.base matches Some(d) ==> spec_edge_index(o, d) >= 0)
    &&& spec_edge_index(o, rc.look) >= 0
    &&& spec_edge_index(o, rc.first.1) >= 0
    &&& (rc.also matches Some(c) ==> spec_edge_index(o, c.1) >= 0)
    &&& (rc.second matches Some(sc) ==> spec_edge_index(o, sc.0) >= 0 && spec_edge_index(o, sc.2) >= 0)
}

proof fn lemma_recipe_dirs(o: HexOrientation, flow: Direction)
    ensures
        recipe_dirs_ok(o, spec_recipe(o, flow)),
{
    reveal(spec_recipe);
}

proof fn lemma_adj_dirs(o: HexOrientation, i: int)
    requires
        0 <= i < 6,
    ensures
        spec_edge_index(o, adj_pair(o, i).1) >= 0,
        flow_ok(o, adj_pair(o, i).0),
        adj_pair(o, i).0 != Direction::Unset,
        spec_corner_index(o, adj_pair(o, i).0) >= 0,
{
}

fn recipe(o: HexOrientation, flow: Direction) -> (r: Recipe)
    ensures
        r == spec_recipe(o, flow),
{
    reveal(spec_recipe);
    match o {
        HexOrientation::Pointy => match flow {
            Direction::North => Recipe { base: None, look: Direction::NorthEast, first: (false, Direction::SouthEast), also: Some((false, Direction::SouthWest)), second: None, moves: true },
            Direction::NorthEast => Recipe { base: None, look: Direction::East, first: (true, Direction::East), also: Some((false, Direction::SouthWest)), second: None, moves: false },
            Direction::SouthEast => Recipe { base: Some(Direction::East), look: Direction::SouthEast, first: (true, Direction::SouthEast), also: None, second: Some((Direction::SouthWest, true, Direction::East)), moves: false },
            Direction::South => Recipe { base: Some(Direction::SouthWest), look: Direction::SouthEast, first: (true, Direction::SouthEast), also: None, second: Some((Direction::East, false, Direction::SouthWest)), moves: false },
            Direction::SouthWest => Recipe { base: None, look: Direction::SouthWest, first: (false, Direction::East), also: Some((true, Direction::SouthWest)), second: None, moves: false },
            _ => Recipe { base: None, look: Direction::West, first: (false, Direction::East), also: Some((false, Direction::SouthEast)), second: None, moves: true },
        },
        HexOrientation::Flat => match flow {
            Direction::NorthEast => Recipe { base: None, look: Direction::NorthEast, first: (true, Direction::NorthEast), also: Some((false, Direction::South)), second: None, moves: false },
            Direction::East => Recipe { base: Some(Direction::NorthEast), look: Direction::SouthEast, first: (true, Direction::SouthEast), also: None, second: Some((Direction::South, true, Direction::NorthEast)), moves: false },
            Direction::SouthEast => Recipe { base: Some(Direction::South), look: Direction::SouthEast, first: (true, Direction::SouthEast), also: None, second: Some((Direction::NorthEast, true, Direction::South)), moves: false },
            Direction::SouthWest => Recipe { base: None, look: Direction::South, first: (true, Direction::South), also: Some((false, Direction::NorthEast)), second: None, moves: false },
            Direction::West => Recipe { base: None, look: Direction::SouthWest, first: (false, Direction::NorthEast), also: Some((false, Direction::SouthEast)), second: None, moves: true },
            _ => Recipe { base: None, look: Direction::North, first: (false, Direction::South), also: Some((false, Direction::SouthEast)), second: None, moves: true },
        },
    }
}

fn adj_pair_exec(o: HexOrientation, i: usize) -> (r: (Direction, Direction))
    ensures
        r == adj_pair(o, i as int),
{
    match o {
        HexOrientation::Pointy => if i == 0 {
            (Direction::North, Direction::NorthWest)
        } else if i == 1 {
            (Direction::NorthEast, Direction::NorthEast)
        } else if i == 2 {
            (Direction::SouthEast, Direction::East)
        } else if i == 3 {
            (Direction::South, Direction::SouthWest)
        } else if i == 4 {
            (Direction::SouthWest, Direction::West)
        } else {
            (Direction::NorthWest, Direction::NorthWest)
        },
        HexOrientation::Flat => if i == 0 {
            (Direction::East, Direction::NorthEast)
        } else if i == 1 {
            (Direction::SouthEast, Direction::South)
        } else if i == 2 {
            (Direction::SouthWest, Direction::SouthWest)
        } else if i == 3 {
            (Direction::West, Direction::NorthWest)
        } else if i == 4 {
            (Direction::NorthWest, Direction::NorthWest)
        } else {
            (Direction::NorthEast, Direction::North)
        },
    }
}

/// The tile across the edge of tile `t` in `direction`, when it is on the map.
fn neighbor_of(mp: &MapParameters, q: &TileQuery, t: usize, direction: Direction) -> (r: Option<usize>)
    requires
        q.well_formed(mp),
        t < q.tiles.len(),
        spec_edge_index(mp.orientation, direction) >= 0,
    ensures
        match r {
            Some(i) => nbr(mp, q, t as int, direction) == Some(i as int) && i < q.tiles.len(),
            None => nbr(mp, q, t as int, direction) is None,
        },
{
    reveal(nbr);
    assert(q.tiles@[t as int].hex_position.small_pos());
    q.tiles[t].hex_position.index_neighbor(mp, direction)
}

/// Whether a river runs along the edge of tile `t` in `direction`.
fn river_at(river: &River, mp: &MapParameters, q: &TileQuery, t: usize, direction: Direction) -> (r: bool)
    requires
        q.well_formed(mp),
        t < q.tiles.len(),
        spec_edge_index(mp.orientation, direction) >= 0,
    ensures
        r == river_along(river_edges(river), mp, q, t as int, direction),
{
    proof {
        lemma_river_along(river, mp, q, t as int, direction);
    }
    q.tiles[t].has_river(t, direction, mp, river, q)
}

/// Adds edge `e` to river `id`, making the rivers up to `id` that do not exist yet.
fn push_edge(river: &mut River, id: usize, e: (usize, Direction))
    requires
        id < usize::MAX,
    ensures
        river_edges(final(river)) == add_edge(river_edges(old(river)), id as int, e),
{
    let ghost rs0 = river_edges(river);
    let ghost grown = if (id as int) < rs0.len() {
        rs0
    } else {
        rs0 + Seq::new((id + 1 - rs0.len()) as nat, |i: int| Seq::<(usize, Direction)>::empty())
    };
    while river.0.len() <= id
        invariant
            id < usize::MAX,
            rs0 == river_edges(&*old(river)),
            grown == (if (id as int) < rs0.len() {
                rs0
            } else {
                rs0 + Seq::new((id + 1 - rs0.len()) as nat, |i: int| Seq::<(usize, Direction)>::empty())
            }),
            rs0.len() <= river.0.len(),
            river.0.len() <= id + 1 || river.0.len() == rs0.len(),
            forall|r: int| 0 <= r < river.0.len() ==> (#[trigger] river.0@[r])@ == grown[r],
        decreases id + 1 - river.0.len(),
    {
        river.0.push(Vec::new());
    }
    assert(river_edges(river) =~= grown);
    let mut v = river.0.remove(id);
    v.push(e);
    river.0.insert(id, v);
    assert(river_edges(river) =~= grown.update(id as int, grown[id as int].push(e)));
}


/// Places the river's next edge as [`place_edge`] says, and gives the tile it goes on from.
#[verifier::spinoff_prover]
#[verifier::rlimit(40)]
fn place(river: &mut River, mp: &MapParameters, q: &TileQuery, start: usize, flow: Direction, id: usize) -> (r: Option<usize>)
    requires
        q.well_formed(mp),
        start < q.tiles.len(),
        flow == Direction::Unset || flow_ok(mp.orientation, flow),
        id < usize::MAX,
    ensures
        ({
            let (rs1, p) = place_edge(river_edges(old(river)), mp, q, start as int, flow, id as int);
            &&& river_edges(final(river)) == rs1
            &&& match r {
                Some(x) => p == Some(x as int) && x < q.tiles.len(),
                None => p is None,
            }
        }),
{
    if flow == Direction::Unset {
        return Some(start);
    }
    let o = mp.orientation;
    let rc = recipe(o, flow);
    proof {
        lemma_recipe_dirs(o, flow);
    }
    let base = match rc.base {
        None => Some(start),
        Some(d) => neighbor_of(mp, q, start, d),
    };
    let plot = match base {
        None => {
            return None;
        },
        Some(p) => p,
    };
    push_edge(river, id, (plot, flow));
    let n = match neighbor_of(mp, q, plot, rc.look) {
        None => {
            return None;
        },
        Some(n) => n,
    };
    let first_tile = if rc.first.0 {
        plot
    } else {
        n
    };
    let mut stop = q.tiles[n].terrain_type == TerrainType::Water || river_at(river, mp, q, first_tile, rc.first.1);
    if !stop {
        match rc.also {
            Some(c) => {
                let t = if c.0 {
                    plot
                } else {
                    n
                };
                stop = river_at(river, mp, q, t, c.1);
            },
            None => {},
        }
    }
    if stop {
        return None;
    }
    match rc.second {
        None => if rc.moves {
            Some(n)
        } else {
            Some(plot)
        },
        Some(sc) => {
            let n2 = match neighbor_of(mp, q, plot, sc.0) {
                None => {
                    return None;
                },
                Some(n2) => n2,
            };
            if (sc.1 && q.tiles[n2].terrain_type == TerrainType::Water) || river_at(river, mp, q, n2, sc.2) {
                None
            } else {
                Some(plot)
            }
        },
    }
}


fn elevation_of(t: TerrainType) -> (r: i32)
    ensures
        r == elevation(t),
{
    match t {
        TerrainType::Water => 2,
        TerrainType::Flatland => 1,
        TerrainType::Mountain => 4,
        TerrainType::Hill => 3,
    }
}

proof fn lemma_edge_sum_bounds(mp: &MapParameters, q: &TileQuery, p: int, i: int)
    requires
        0 <= i <= 6,
    ensures
        0 <= edge_sum(mp, q, p, i) <= 44 * i,
    decreases i,
{
    reveal(edge_sum);
    if i > 0 {
        lemma_edge_sum_bounds(mp, q, p, i - 1);
    }
}

/// What the edge neighbors of tile `p` add to its river value ([`edge_sum`]).
fn edge_sum_of(mp: &MapParameters, q: &TileQuery, p: usize) -> (r: i32)
    requires
        q.well_formed(mp),
        p < q.tiles.len(),
    ensures
        r == edge_sum(mp, q, p as int, 6),
        0 <= r <= 264,
{
    reveal(edge_sum);
    let directions = mp.edge_direction_array();
    let mut sum: i32 = 0;
    let mut i: usize = 0;
    while i < 6
        invariant
            q.well_formed(mp),
            p < q.tiles.len(),
            0 <= i <= 6,
            forall|k: int| 0 <= k < 6 ==> directions@[k] == spec_edge_direction(mp.orientation, k),
            sum == edge_sum(mp, q, p as int, i as int),
        decreases 6 - i,
    {
        proof {
            reveal(edge_sum);
            lemma_edge_sum_bounds(mp, q, p as int, i as int);
        }
        let d = directions[i];
        assert(spec_edge_index(mp.orientation, d) == i as int);
        match neighbor_of(mp, q, p, d) {
            Some(n) => {
                let e = elevation_of(q.tiles[n].terrain_type);
                let desert: i32 = if q.tiles[n].base_terrain == BaseTerrain::Desert {
                    4
                } else {
                    0
                };
                sum = sum + e + desert;
            },
            None => {
                sum = sum + 40;
            },
        }
        i = i + 1;
    }
    proof {
        lemma_edge_sum_bounds(mp, q, p as int, 6);
    }
    sum
}

/// Whether tile `p` holds a natural wonder or lies next to one.
fn near_wonder_at(mp: &MapParameters, q: &TileQuery, p: usize) -> (r: bool)
    requires
        q.well_formed(mp),
        p < q.tiles.len(),
    ensures
        r == near_wonder(mp, q, p as int),
{
    reveal(near_wonder);
    if q.tiles[p].natural_wonder.is_some() {
        return true;
    }
    assert(q.tiles@[p as int].hex_position.small_pos());
    let ns = q.tiles[p].neighbor_indices(mp);
    let ghost sn = q.spec_neighbors(mp, p as int);
    let mut k: usize = 0;
    while k < ns.len()
        invariant
            q.well_formed(mp),
            0 <= k <= ns.len(),
            ns@.map_values(|c: usize| c as int) == sn,
            sn == q.spec_neighbors(mp, p as int),
            forall|i: int| 0 <= i < ns.len() ==> #[trigger] ns@[i] < mp.tile_count(),
            forall|j: int| 0 <= j < k ==> q.tiles@[#[trigger] sn[j]].natural_wonder is None,
        decreases ns.len() - k,
    {
        assert(sn[k as int] == ns@[k as int] as int);
        if q.tiles[ns[k]].natural_wonder.is_some() {
            reveal(near_wonder);
            assert(q.tiles@[q.spec_neighbors(mp, p as int)[k as int]].natural_wonder is Some);
            return true;
        }
        k = k + 1;
    }
    false
}

/// The river value of tile `p` ([`plot_value`]); the draw made, if any, comes back too.
fn plot_value_of(rng: &mut StdRng, mp: &MapParameters, q: &TileQuery, p: usize) -> (r: (i32, Option<u32>))
    requires
        q.well_formed(mp),
        p < q.tiles.len(),
    ensures
        match r.1 {
            None => near_wonder(mp, q, p as int) && r.0 == -1,
            Some(x) => !near_wonder(mp, q, p as int) && x < 10 && r.0 == elevation(
                q.tiles@[p as int].terrain_type,
            ) * 20 + edge_sum(mp, q, p as int, 6) + x,
        },
        -1 <= r.0 <= 400,
{
    if near_wonder_at(mp, q, p) {
        return (-1, None);
    }
    let e = elevation_of(q.tiles[p].terrain_type);
    let s = edge_sum_of(mp, q, p);
    let x = draw_below(rng, 10);
    (e * 20 + s + x as i32, Some(x))
}


/// Whether a river flowing in `this_flow` may take flow `f` ([`eligible`]).
fn may_take(o: HexOrientation, this_flow: Direction, first_flow: Direction, f: Direction) -> (r: bool)
    requires
        this_flow == Direction::Unset || spec_corner_index(o, this_flow) >= 0,
    ensures
        r == eligible(o, this_flow, first_flow, f),
{
    if f.opposite_direction() == first_flow {
        return false;
    }
    if this_flow == Direction::Unset {
        return true;
    }
    let corners = o.corner_direction_array();
    let ci = o.corner_index(this_flow);
    f == corners[(ci + 1) % 6] || f == corners[(ci + 5) % 6]
}

/// Picks the river's way on from `plot` as [`best_upto`] says, drawing the random
/// numbers it needs; gives the flow, its value and the draws so far (`drawn` and the new ones).
#[verifier::spinoff_prover]
#[verifier::rlimit(40)]
fn best_way(
    rng: &mut StdRng,
    mp: &MapParameters,
    q: &TileQuery,
    plot: usize,
    this_flow: Direction,
    first_flow: Direction,
    Ghost(drawn): Ghost<Seq<u32>>,
) -> (r: (Direction, i32, Ghost<Seq<u32>>))
    requires
        q.well_formed(mp),
        plot < q.tiles.len(),
        this_flow == Direction::Unset || spec_corner_index(mp.orientation, this_flow) >= 0,
    ensures
        extends(r.2@, drawn),
        forall|k: int| drawn.len() <= k < r.2@.len() ==> r.2@[k] < 10,
        forall|ext: Seq<u32>|
            #[trigger] extends(ext, r.2@) ==> best_upto(mp, q, plot as int, this_flow, first_flow, ext, drawn.len() as int, 6)
                == (r.0, r.1 as int, r.2@.len() as int),
        r.0 == Direction::Unset || (flow_ok(mp.orientation, r.0) && spec_corner_index(mp.orientation, r.0) >= 0),
{
    let o = mp.orientation;
    let mut best = Direction::Unset;
    let mut best_v: i32 = i32::MAX;
    let ghost mut d = drawn;
    assert(drawn.take(drawn.len() as int) =~= drawn);
    let mut i: usize = 0;
    while i < 6
        invariant
            q.well_formed(mp),
            plot < q.tiles.len(),
            o == mp.orientation,
            this_flow == Direction::Unset || spec_corner_index(o, this_flow) >= 0,
            0 <= i <= 6,
            extends(d, drawn),
            forall|k: int| drawn.len() <= k < d.len() ==> d[k] < 10,
            forall|ext: Seq<u32>|
                #[trigger] extends(ext, d) ==> best_upto(mp, q, plot as int, this_flow, first_flow, ext, drawn.len() as int, i as int)
                    == (best, best_v as int, d.len() as int),
            best == Direction::Unset || (flow_ok(o, best) && spec_corner_index(o, best) >= 0),
            -1 <= best_v,
        decreases 6 - i,
    {
        let (f, dir) = adj_pair_exec(o, i);
        proof {
            lemma_adj_dirs(o, i as int);
        }
        let ghost d_before = d;
        let ghost best_before = (best, best_v as int);
        match neighbor_of(mp, q, plot, dir) {
            None => {},
            Some(a) => {
                if may_take(o, this_flow, first_flow, f) {
                    let (v, drew) = plot_value_of(rng, mp, q, a);
                    let v2: i32 = if f == first_flow {
                        if v < 0 {
                            -((-v * 3) / 4)
                        } else {
                            (v * 3) / 4
                        }
                    } else {
                        v
                    };
                    match drew {
                        Some(x) => {
                            proof {
                                assert(d.push(x).take(drawn.len() as int) =~= d.take(drawn.len() as int));
                                d = d.push(x);
                            }
                        },
                        None => {},
                    }
                    if v2 < best_v {
                        best = f;
                        best_v = v2;
                    }
                    proof {
                        assert forall|ext: Seq<u32>| #[trigger] extends(ext, d) implies best_upto(
                            mp,
                            q,
                            plot as int,
                            this_flow,
                            first_flow,
                            ext,
                            drawn.len() as int,
                            i + 1,
                        ) == (best, best_v as int, d.len() as int) by {
                            match drew {
                                Some(x) => {
                                    lemma_extends_push(ext, d_before, x);
                                },
                                None => {},
                            }
                            assert(best_upto(mp, q, plot as int, this_flow, first_flow, ext, drawn.len() as int, i as int)
                                == (best_before.0, best_before.1, d_before.len() as int));
                        }
                    }
                }
            },
        }
        i = i + 1;
    }
    (best, best_v, Ghost(d))
}


/// Whether some river has an edge on tile `t`.
fn touches_river(river: &River, t: usize) -> (r: bool)
    ensures
        r == has_edge_on(river_edges(river), t as int),
{
    let mut ri: usize = 0;
    while ri < river.0.len()
        invariant
            0 <= ri <= river.0.len(),
            forall|r: int, k: int| 0 <= r < ri && 0 <= k < river.0@[r].len() ==> (#[trigger] river.0@[r]@[k]).0 != t,
        decreases river.0.len() - ri,
    {
        let edges = &river.0[ri];
        let mut k: usize = 0;
        while k < edges.len()
            invariant
                0 <= ri < river.0.len(),
                edges@ == river.0@[ri as int]@,
                0 <= k <= edges.len(),
                forall|r: int, k2: int| 0 <= r < ri && 0 <= k2 < river.0@[r].len() ==> (#[trigger] river.0@[r]@[k2]).0 != t,
                forall|k2: int| 0 <= k2 < k ==> (#[trigger] river.0@[ri as int]@[k2]).0 != t,
            decreases edges.len() - k,
        {
            if edges[k].0 == t {
                assert(river_edges(river)[ri as int][k as int] == river.0@[ri as int]@[k as int]);
                return true;
            }
            k = k + 1;
        }
        ri = ri + 1;
    }
    proof {
        assert forall|r: int, k: int|
            0 <= r < river_edges(river).len() && 0 <= k < river_edges(river)[r].len() implies (
            #[trigger] river_edges(river)[r][k]).0 != t by {
            assert(river_edges(river)[r][k] == river.0@[r]@[k]);
        }
    }
    false
}

/// Runs river `river_id` from tile `start` as [`do_river_from`] says, drawing from
/// position `drawn.len()` on; gives the draws so far.
fn run_river(
    river: &mut River,
    rng: &mut StdRng,
    start: usize,
    river_id: usize,
    mp: &MapParameters,
    q: &TileQuery,
    Ghost(drawn): Ghost<Seq<u32>>,
) -> (r: Ghost<Seq<u32>>)
    requires
        q.well_formed(mp),
        start < q.tiles.len(),
        river_id < usize::MAX,
    ensures
        has_edge_on(river_edges(old(river)), start as int) ==> *final(rng) == *old(rng) && r@ == drawn,
        extends(r@, drawn),
        forall|k: int| drawn.len() <= k < r@.len() ==> r@[k] < 10,
        forall|ext: Seq<u32>|
            #[trigger] extends(ext, r@) ==> do_river_from(
                river_edges(old(river)),
                mp,
                q,
                start as int,
                river_id as int,
                ext,
                drawn.len() as int,
            ) == (river_edges(final(river)), r@.len() as int),
{
    let ghost rs0 = river_edges(river);
    assert(drawn.take(drawn.len() as int) =~= drawn);
    if touches_river(river, start) {
        return Ghost(drawn);
    }
    let mut cur = start;
    let mut flow = Direction::Unset;
    let mut first_flow = Direction::Unset;
    let ghost mut d: Seq<u32> = drawn;
    let mut fuel: usize = usize::MAX;
    loop
        invariant_except_break
            forall|ext: Seq<u32>|
                #[trigger] extends(ext, d) ==> river_course(
                    rs0,
                    mp,
                    q,
                    start as int,
                    Direction::Unset,
                    Direction::Unset,
                    river_id as int,
                    ext,
                    drawn.len() as int,
                    usize::MAX as nat,
                ) == river_course(
                    river_edges(river),
                    mp,
                    q,
                    cur as int,
                    flow,
                    first_flow,
                    river_id as int,
                    ext,
                    d.len() as int,
                    fuel as nat,
                ),
        invariant
            q.well_formed(mp),
            cur < q.tiles.len(),
            river_id < usize::MAX,
            flow == Direction::Unset || (flow_ok(mp.orientation, flow) && spec_corner_index(mp.orientation, flow) >= 0),
            extends(d, drawn),
            forall|k: int| drawn.len() <= k < d.len() ==> d[k] < 10,
        ensures
            forall|ext: Seq<u32>|
                #[trigger] extends(ext, d) ==> river_course(
                    rs0,
                    mp,
                    q,
                    start as int,
                    Direction::Unset,
                    Direction::Unset,
                    river_id as int,
                    ext,
                    drawn.len() as int,
                    usize::MAX as nat,
                ) == (river_edges(river), d.len() as int),
        decreases fuel,
    {
        let ghost d_b = d;
        let p = place(river, mp, q, cur, flow, river_id);
        let plot = match p {
            None => {
                break;
            },
            Some(plot) => plot,
        };
        if q.tiles[plot].terrain_type == TerrainType::Water {
            break;
        }
        let (best, _value, Ghost(d2)) = best_way(rng, mp, q, plot, flow, first_flow, Ghost(d));
        proof {
            assert forall|ext: Seq<u32>| #[trigger] extends(ext, d2) implies extends(ext, d_b) by {
                lemma_extends_trans(ext, d2, d_b);
            }
            lemma_extends_trans(d2, d_b, drawn);
            assert forall|k: int| drawn.len() <= k < d2.len() implies d2[k] < 10 by {
                if k < d_b.len() {
                    assert(d2.take(d_b.len() as int)[k] == d2[k]);
                }
            }
            d = d2;
        }
        if best == Direction::Unset || fuel == 0 {
            break;
        }
        let next_first_flow = if first_flow == Direction::Unset {
            best
        } else {
            first_flow
        };
        cur = plot;
        flow = best;
        first_flow = next_first_flow;
        fuel = fuel - 1;
    }
    Ghost(d)
}

/// Runs river `river_id` from tile `start`, edge by edge: the river first picks the
/// way it flows from `start`, then at each step places its edge and picks its way on,
/// toward the tile of lowest value (see [`river_step`]), until it reaches water, the
/// edge of the map or another river, or finds no way on. Nothing happens when a river
/// already touches `start`, and then no random number is drawn. The random numbers it draws (from 0..10) set tiles of
/// equal standing apart.
pub fn do_river(
    river: &mut River,
    random_number_generator: &mut RandomNumberGenerator,
    start: usize,
    river_id: usize,
    map_parameters: &MapParameters,
    query_tile: &TileQuery,
)
    requires
        query_tile.well_formed(map_parameters),
        start < query_tile.tiles.len(),
        river_id < usize::MAX,
    ensures
        has_edge_on(river_edges(old(river)), start as int) ==> *final(random_number_generator)
            == *old(random_number_generator),
        exists|d: Seq<u32>|
            (forall|k: int| 0 <= k < d.len() ==> d[k] < 10) && #[trigger] spec_do_river(
                river_edges(old(river)),
                map_parameters,
                query_tile,
                start as int,
                river_id as int,
                d,
            ) == river_edges(final(river)),
{
    let ghost rs0 = river_edges(river);
    let Ghost(d) = run_river(
        river,
        &mut random_number_generator.rng,
        start,
        river_id,
        map_parameters,
        query_tile,
        Ghost(Seq::empty()),
    );
    proof {
        assert(extends(d, d)) by {
            assert(d.take(d.len() as int) =~= d);
        }
        assert(spec_do_river(rs0, map_parameters, query_tile, start as int, river_id as int, d) == river_edges(river));
    }
}


/// A river may start at tile `t`: land without a natural wonder, with no natural wonder
/// next to it, and land without a wonder across each of its first three edges (the
/// edges a river of the tile runs along).
pub open spec fn start_candidate(mp: &MapParameters, q: &TileQuery, t: int) -> bool {
    &&& q.tiles@[t].natural_wonder is None
    &&& !is_water(q, t)
    &&& forall|k: int|
        0 <= k < q.spec_neighbors(mp, t).len() ==> q.tiles@[#[trigger] q.spec_neighbors(mp, t)[k]].natural_wonder is None
    &&& forall|e: int|
        #![trigger spec_edge_direction(mp.orientation, e)]
        0 <= e < 3 ==> match nbr(mp, q, t, spec_edge_direction(mp.orientation, e)) {
            Some(n) => q.tiles@[n].natural_wonder is None && !is_water(q, n),
            None => false,
        }
}

/// The tiles of `order` where a river may start, in order.
pub open spec fn candidates_of(mp: &MapParameters, q: &TileQuery, order: Seq<usize>) -> Seq<usize>
    decreases order.len(),
{
    if order.len() == 0 {
        Seq::empty()
    } else {
        let rest = candidates_of(mp, q, order.drop_last());
        if start_candidate(mp, q, order.last() as int) {
            rest.push(order.last())
        } else {
            rest
        }
    }
}

/// How many of the edges lie on a tile of area `a`.
pub open spec fn edges_in_area(edges: Seq<(usize, Direction)>, q: &TileQuery, a: i32) -> nat
    decreases edges.len(),
{
    if edges.len() == 0 {
        0
    } else {
        edges_in_area(edges.drop_last(), q, a) + if edges.last().0 < q.tiles.len() && q.tiles@[edges.last().0 as int].area_id
            == a {
            1nat
        } else {
            0nat
        }
    }
}

/// How many edges of the first `n` rivers lie on a tile of area `a`.
pub open spec fn river_edges_in_area(rs: Seq<Seq<(usize, Direction)>>, q: &TileQuery, a: i32, n: int) -> nat
    decreases n,
{
    if n <= 0 {
        0
    } else {
        river_edges_in_area(rs, q, a, n - 1) + edges_in_area(rs[n - 1], q, a)
    }
}

/// The number of river edges in area `a`: the edges of all rivers that lie on a tile
/// of the area.
pub open spec fn area_river_edges(rs: Seq<Seq<(usize, Direction)>>, q: &TileQuery, a: i32) -> int {
    river_edges_in_area(rs, q, a, rs.len() as int) as int
}

/// Which of the four passes would start a river at tile `t`, and the position of the
/// next draw: (hill or mountain; not coastal and a draw from 0..8 gives 0; hill or
/// mountain whose area has fewer river edges than a twelfth of its size plus one; an
/// area with fewer river edges than a twelfth of its size plus one).
pub open spec fn pass_conds(
    mp: &MapParameters,
    rs: Seq<Seq<(usize, Direction)>>,
    q: &TileQuery,
    sizes: Map<i32, u32>,
    t: int,
    d: Seq<u32>,
    pos: int,
) -> ((bool, bool, bool, bool), int) {
    let tile = q.tiles@[t];
    let num = sizes[tile.area_id] as int;
    let hm = tile.terrain_type == TerrainType::Hill || tile.terrain_type == TerrainType::Mountain;
    let ok = area_river_edges(rs, q, tile.area_id) < num / 12 + 1;
    let coastal = TileQueryItem::spec_is_coastal_land(mp, q, t);
    let (lucky, pos1) = if !coastal {
        (draw_at(d, pos) == 0, pos + 1)
    } else {
        (false, pos)
    };
    ((hm, lucky, hm && ok, ok), pos1)
}

/// The condition of pass `p`.
pub open spec fn cond_at(c: (bool, bool, bool, bool), p: int) -> bool {
    if p == 0 {
        c.0
    } else if p == 1 {
        c.1
    } else if p == 2 {
        c.2
    } else {
        c.3
    }
}

/// Land with a river along one of its edges, or next to a lake or an oasis (see
/// `TileQueryItem::spec_is_freshwater`).
pub open spec fn freshwater_in(rs: Seq<Seq<(usize, Direction)>>, mp: &MapParameters, q: &TileQuery, t: int) -> bool {
    &&& !is_water(q, t)
    &&& (exists|e: int| 0 <= e < 6 && #[trigger] river_along(rs, mp, q, t, spec_edge_direction(mp.orientation, e)))
        || (exists|k: int|
        0 <= k < q.spec_neighbors(mp, t).len() && ({
            let n = q.tiles@[#[trigger] q.spec_neighbors(mp, t)[k]];
            n.base_terrain == BaseTerrain::Lake || n.feature == Some(Feature::Oasis)
        }))
}

/// The tiles at distance `dist` from tile `t`.
pub open spec fn ring_of(mp: &MapParameters, q: &TileQuery, t: int, dist: int) -> Seq<int> {
    let p = q.tiles@[t].hex_position.pair();
    mp.spec_cells(spec_hexes_at_distance(p.0, p.1, dist))
}

/// Some tile at distance `dist` from `t` has fresh water.
pub open spec fn ring_fresh(rs: Seq<Seq<(usize, Direction)>>, mp: &MapParameters, q: &TileQuery, t: int, dist: int) -> bool {
    exists|k: int| 0 <= k < ring_of(mp, q, t, dist).len() && freshwater_in(rs, mp, q, #[trigger] ring_of(mp, q, t, dist)[k])
}

/// Some tile at distance `dist` from `t` is water.
pub open spec fn ring_water(mp: &MapParameters, q: &TileQuery, t: int, dist: int) -> bool {
    exists|k: int| 0 <= k < ring_of(mp, q, t, dist).len() && is_water(q, #[trigger] ring_of(mp, q, t, dist)[k])
}

/// The rivers, the next river id, the next draw position and the positions of the
/// draws taken from `0..8` (those of [`pass_conds`]; every other draw is one of a
/// river's course, from `0..10`) after pass `p` has looked at the first `k`
/// candidates: a river starts at a candidate that meets the pass's condition and has no
/// fresh water at distance 4 and no water at distance 3 (2 and 1 in the last two
/// passes).
pub open spec fn river_pass(
    st: (Seq<Seq<(usize, Direction)>>, int, int, Set<int>),
    mp: &MapParameters,
    q: &TileQuery,
    sizes: Map<i32, u32>,
    cands: Seq<usize>,
    p: int,
    k: int,
    d: Seq<u32>,
) -> (Seq<Seq<(usize, Direction)>>, int, int, Set<int>)
    decreases k,
{
    if k <= 0 {
        st
    } else {
        let prev = river_pass(st, mp, q, sizes, cands, p, k - 1, d);
        let t = cands[k - 1] as int;
        let (c, pos1) = pass_conds(mp, prev.0, q, sizes, t, d, prev.2);
        let eights = if pos1 > prev.2 {
            prev.3.insert(prev.2)
        } else {
            prev.3
        };
        let src: int = if p <= 1 {
            4
        } else {
            2
        };
        let sea: int = if p <= 1 {
            3
        } else {
            1
        };
        if cond_at(c, p) && !ring_fresh(prev.0, mp, q, t, src) && !ring_water(mp, q, t, sea) {
            let (rs2, pos2) = do_river_from(prev.0, mp, q, t, prev.1, d, pos1);
            (rs2, prev.1 + 1, pos2, eights)
        } else {
            (prev.0, prev.1, pos1, eights)
        }
    }
}

/// The rivers, next river id, next draw position and positions of the draws from
/// `0..8` after the first `p` passes over the candidates.
pub open spec fn river_passes(
    st: (Seq<Seq<(usize, Direction)>>, int, int, Set<int>),
    mp: &MapParameters,
    q: &TileQuery,
    sizes: Map<i32, u32>,
    cands: Seq<usize>,
    p: int,
    d: Seq<u32>,
) -> (Seq<Seq<(usize, Direction)>>, int, int, Set<int>)
    decreases p,
{
    if p <= 0 {
        st
    } else {
        let prev = river_passes(st, mp, q, sizes, cands, p - 1, d);
        river_pass(prev, mp, q, sizes, cands, p - 1, cands.len() as int, d)
    }
}


/// Whether a river may start at tile `t` ([`start_candidate`]).
fn start_candidate_at(mp: &MapParameters, q: &TileQuery, t: usize) -> (r: bool)
    requires
        q.well_formed(mp),
        t < q.tiles.len(),
    ensures
        r == start_candidate(mp, q, t as int),
{
    if q.tiles[t].natural_wonder.is_some() || q.tiles[t].terrain_type == TerrainType::Water {
        return false;
    }
    assert(q.tiles@[t as int].hex_position.small_pos());
    let ns = q.tiles[t].neighbor_indices(mp);
    let ghost sn = q.spec_neighbors(mp, t as int);
    let mut k: usize = 0;
    while k < ns.len()
        invariant
            q.well_formed(mp),
            0 <= k <= ns.len(),
            ns@.map_values(|c: usize| c as int) == sn,
            sn == q.spec_neighbors(mp, t as int),
            forall|i: int| 0 <= i < ns.len() ==> #[trigger] ns@[i] < mp.tile_count(),
            forall|j: int| 0 <= j < k ==> q.tiles@[#[trigger] sn[j]].natural_wonder is None,
        decreases ns.len() - k,
    {
        assert(sn[k as int] == ns@[k as int] as int);
        if q.tiles[ns[k]].natural_wonder.is_some() {
            assert(q.tiles@[q.spec_neighbors(mp, t as int)[k as int]].natural_wonder is Some);
            return false;
        }
        k = k + 1;
    }
    let directions = mp.edge_direction_array();
    let mut e: usize = 0;
    while e < 3
        invariant
            q.well_formed(mp),
            t < q.tiles.len(),
            0 <= e <= 3,
            forall|i: int| 0 <= i < 6 ==> directions@[i] == spec_edge_direction(mp.orientation, i),
            forall|j: int|
                #![trigger spec_edge_direction(mp.orientation, j)]
                0 <= j < e ==> match nbr(mp, q, t as int, spec_edge_direction(mp.orientation, j)) {
                    Some(n) => q.tiles@[n].natural_wonder is None && !is_water(q, n),
                    None => false,
                },
        decreases 3 - e,
    {
        let d = directions[e];
        assert(spec_edge_index(mp.orientation, d) == e as int);
        match neighbor_of(mp, q, t, d) {
            None => {
                return false;
            },
            Some(n) => {
                if q.tiles[n].natural_wonder.is_some() || q.tiles[n].terrain_type == TerrainType::Water {
                    return false;
                }
            },
        }
        e = e + 1;
    }
    true
}

/// The tiles of `order` where a river may start, in order ([`candidates_of`]).
fn start_candidates(mp: &MapParameters, q: &TileQuery, order: &Vec<usize>) -> (r: Vec<usize>)
    requires
        q.well_formed(mp),
        forall|k: int| 0 <= k < order.len() ==> #[trigger] order@[k] < q.tiles.len(),
    ensures
        r@ == candidates_of(mp, q, order@),
        forall|k: int| 0 <= k < r.len() ==> #[trigger] r@[k] < q.tiles.len(),
{
    let mut r: Vec<usize> = Vec::new();
    let mut i: usize = 0;
    while i < order.len()
        invariant
            q.well_formed(mp),
            0 <= i <= order.len(),
            forall|k: int| 0 <= k < order.len() ==> #[trigger] order@[k] < q.tiles.len(),
            r@ == candidates_of(mp, q, order@.take(i as int)),
            forall|k: int| 0 <= k < r.len() ==> #[trigger] r@[k] < q.tiles.len(),
        decreases order.len() - i,
    {
        proof {
            assert(order@.take(i + 1).drop_last() =~= order@.take(i as int));
            assert(order@.take(i + 1).last() == order@[i as int]);
        }
        if start_candidate_at(mp, q, order[i]) {
            r.push(order[i]);
        }
        i = i + 1;
    }
    assert(order@.take(order.len() as int) =~= order@);
    r
}

/// Whether area `a` has fewer than `limit` river edges ([`area_river_edges`]): the
/// edges of every river that lie on a tile of the area count; the count stops once it
/// reaches `limit`.
pub fn area_river_edges_below(river: &River, q: &TileQuery, a: i32, limit: usize) -> (r: bool)
    ensures
        r == (area_river_edges(river_edges(river), q, a) < limit),
{
    let ghost rs = river_edges(river);
    if limit == 0 {
        return false;
    }
    let mut count: usize = 0;
    let mut ri: usize = 0;
    while ri < river.0.len()
        invariant
            rs == river_edges(river),
            0 <= ri <= river.0.len(),
            count < limit,
            count == river_edges_in_area(rs, q, a, ri as int),
        decreases river.0.len() - ri,
    {
        let edges = &river.0[ri];
        let mut k: usize = 0;
        let ghost base = count as int;
        while k < edges.len()
            invariant
                rs == river_edges(river),
                0 <= ri < river.0.len(),
                edges@ == rs[ri as int],
                0 <= k <= edges.len(),
                count < limit,
                base == river_edges_in_area(rs, q, a, ri as int),
                count == base + edges_in_area(edges@.take(k as int), q, a),
            decreases edges.len() - k,
        {
            proof {
                assert(edges@.take(k + 1).drop_last() =~= edges@.take(k as int));
            }
            let t = edges[k].0;
            if t < q.tiles.len() && q.tiles[t].area_id == a {
                count = count + 1;
                if count == limit {
                    proof {
                        lemma_edges_in_area_prefix(edges@, q, a, k + 1);
                        lemma_river_edges_grow(rs, q, a, ri + 1, rs.len() as int);
                    }
                    return false;
                }
            }
            k = k + 1;
        }
        assert(edges@.take(edges.len() as int) =~= edges@);
        ri = ri + 1;
    }
    true
}

/// Counting fewer edges counts no more.
proof fn lemma_edges_in_area_prefix(edges: Seq<(usize, Direction)>, q: &TileQuery, a: i32, k: int)
    requires
        0 <= k <= edges.len(),
    ensures
        edges_in_area(edges.take(k), q, a) <= edges_in_area(edges, q, a),
    decreases edges.len() - k,
{
    if k < edges.len() {
        lemma_edges_in_area_prefix(edges, q, a, k + 1);
        assert(edges.take(k + 1).drop_last() =~= edges.take(k));
    } else {
        assert(edges.take(k) =~= edges);
    }
}

/// Counting over more rivers counts no fewer edges.
proof fn lemma_river_edges_grow(rs: Seq<Seq<(usize, Direction)>>, q: &TileQuery, a: i32, m: int, n: int)
    requires
        m <= n,
    ensures
        river_edges_in_area(rs, q, a, m) <= river_edges_in_area(rs, q, a, n),
    decreases n - m,
{
    if m < n {
        lemma_river_edges_grow(rs, q, a, m, n - 1);
    }
}

proof fn lemma_freshwater(river: &River, mp: &MapParameters, q: &TileQuery, t: int)
    ensures
        TileQueryItem::spec_is_freshwater(mp, river, q, t) == freshwater_in(river_edges(river), mp, q, t),
{
    let rs = river_edges(river);
    let o = mp.orientation;
    if exists|e: int| 0 <= e < 6 && #[trigger] spec_has_river(river, mp, q, t, spec_edge_direction(o, e)) {
        let e = choose|e: int| 0 <= e < 6 && #[trigger] spec_has_river(river, mp, q, t, spec_edge_direction(o, e));
        lemma_river_along(river, mp, q, t, spec_edge_direction(o, e));
        assert(river_along(rs, mp, q, t, spec_edge_direction(o, e)));
    }
    if exists|e: int| 0 <= e < 6 && #[trigger] river_along(rs, mp, q, t, spec_edge_direction(o, e)) {
        let e = choose|e: int| 0 <= e < 6 && #[trigger] river_along(rs, mp, q, t, spec_edge_direction(o, e));
        lemma_river_along(river, mp, q, t, spec_edge_direction(o, e));
        assert(spec_has_river(river, mp, q, t, spec_edge_direction(o, e)));
    }
}

/// Whether some tile at distance `dist` from tile `t` has fresh water ([`ring_fresh`]).
fn ring_fresh_at(river: &River, mp: &MapParameters, q: &TileQuery, t: usize, dist: i32) -> (r: bool)
    requires
        q.well_formed(mp),
        t < q.tiles.len(),
        0 <= dist <= 4,
    ensures
        r == ring_fresh(river_edges(river), mp, q, t as int, dist as int),
{
    assert(q.tiles@[t as int].hex_position.small_pos());
    let cells = q.tiles[t].hex_position.indices_at_distance(dist, mp);
    let ghost ring = ring_of(mp, q, t as int, dist as int);
    assert(cells@.map_values(|c: usize| c as int) == ring);
    let mut k: usize = 0;
    while k < cells.len()
        invariant
            q.well_formed(mp),
            0 <= k <= cells.len(),
            cells@.map_values(|c: usize| c as int) == ring,
            ring == ring_of(mp, q, t as int, dist as int),
            forall|i: int| 0 <= i < cells.len() ==> #[trigger] cells@[i] < mp.tile_count(),
            forall|j: int| 0 <= j < k ==> !freshwater_in(river_edges(river), mp, q, #[trigger] ring[j]),
        decreases cells.len() - k,
    {
        let c = cells[k];
        assert(ring[k as int] == c as int);
        proof {
            lemma_freshwater(river, mp, q, c as int);
        }
        if q.tiles[c].is_freshwater(c, mp, river, q) {
            assert(freshwater_in(river_edges(river), mp, q, ring_of(mp, q, t as int, dist as int)[k as int]));
            return true;
        }
        k = k + 1;
    }
    false
}

/// Whether some tile at distance `dist` from tile `t` is water ([`ring_water`]).
fn ring_water_at(mp: &MapParameters, q: &TileQuery, t: usize, dist: i32) -> (r: bool)
    requires
        q.well_formed(mp),
        t < q.tiles.len(),
        0 <= dist <= 4,
    ensures
        r == ring_water(mp, q, t as int, dist as int),
{
    assert(q.tiles@[t as int].hex_position.small_pos());
    let cells = q.tiles[t].hex_position.indices_at_distance(dist, mp);
    let ghost ring = ring_of(mp, q, t as int, dist as int);
    let mut k: usize = 0;
    while k < cells.len()
        invariant
            q.well_formed(mp),
            0 <= k <= cells.len(),
            cells@.map_values(|c: usize| c as int) == ring,
            ring == ring_of(mp, q, t as int, dist as int),
            forall|i: int| 0 <= i < cells.len() ==> #[trigger] cells@[i] < mp.tile_count(),
            forall|j: int| 0 <= j < k ==> !is_water(q, #[trigger] ring[j]),
        decreases cells.len() - k,
    {
        let c = cells[k];
        assert(ring[k as int] == c as int);
        if q.tiles[c].terrain_type == TerrainType::Water {
            assert(is_water(q, ring_of(mp, q, t as int, dist as int)[k as int]));
            return true;
        }
        k = k + 1;
    }
    false
}


/// Which passes would start a river at tile `t` ([`pass_conds`]), drawing from 0..8
/// when the tile is not coastal; gives the draws so far.
fn pass_conditions(
    rng: &mut StdRng,
    mp: &MapParameters,
    q: &TileQuery,
    sizes: &AreaIdAndSize,
    river: &River,
    t: usize,
    Ghost(drawn): Ghost<Seq<u32>>,
) -> (r: ((bool, bool, bool, bool), Ghost<Seq<u32>>))
    requires
        q.well_formed(mp),
        t < q.tiles.len(),
        sizes.0@.contains_key(q.tiles@[t as int].area_id),
    ensures
        extends(r.1@, drawn),
        r.1@.len() <= drawn.len() + 1,
        forall|k: int| drawn.len() <= k < r.1@.len() ==> r.1@[k] < 8,
        forall|ext: Seq<u32>|
            #[trigger] extends(ext, r.1@) ==> pass_conds(mp, river_edges(river), q, sizes.0@, t as int, ext, drawn.len() as int)
                == (r.0, r.1@.len() as int),
{
    broadcast use vstd::std_specs::btree::group_btree_axioms;

    proof {
        lemma_i32_keys_ordered();
    }
    let tile = &q.tiles[t];
    let num = *sizes.0.get(&tile.area_id).unwrap();
    let hm = tile.terrain_type == TerrainType::Hill || tile.terrain_type == TerrainType::Mountain;
    let limit: usize = (num / 12) as usize + 1;
    let ok = area_river_edges_below(river, q, tile.area_id, limit);
    let coastal = tile.is_coastal_land(t, mp, q);
    assert(drawn.take(drawn.len() as int) =~= drawn);
    if !coastal {
        let x = draw_below(rng, 8);
        let ghost d2 = drawn.push(x);
        proof {
            assert(d2.take(drawn.len() as int) =~= drawn);
            assert forall|ext: Seq<u32>| #[trigger] extends(ext, d2) implies pass_conds(
                mp,
                river_edges(river),
                q,
                sizes.0@,
                t as int,
                ext,
                drawn.len() as int,
            ) == ((hm, x == 0, hm && ok, ok), d2.len() as int) by {
                lemma_extends_push(ext, drawn, x);
            }
        }
        ((hm, x == 0, hm && ok, ok), Ghost(d2))
    } else {
        ((hm, false, hm && ok, ok), Ghost(drawn))
    }
}

/// Starts the rivers of a newly generated map. The tiles where a river may start
/// ([`start_candidate`]) are taken by increasing entity, in four passes: in each pass a
/// river starts at each candidate that meets the pass's condition ([`pass_conds`]) and
/// has no fresh water at distance 4 and no water at distance 3 (2 and 1 in the last two
/// passes); the rivers get ids 0, 1, 2, ... in the order they are started (see
/// [`river_passes`] and [`do_river`]). The random numbers decide among equals: those a
/// pass's condition draws are from 0..8, those of a river's course from 0..10.
pub fn add_rivers(
    map_parameters: &MapParameters,
    random_number_generator: &mut RandomNumberGenerator,
    area_id_and_size: &AreaIdAndSize,
    river: &mut River,
    query_tile: &TileQuery,
)
    requires
        query_tile.well_formed(map_parameters),
        forall|t: int|
            0 <= t < query_tile.tiles.len() && #[trigger] start_candidate(map_parameters, query_tile, t)
                ==> area_id_and_size.0@.contains_key(query_tile.tiles@[t].area_id),
    ensures
        exists|order: Seq<usize>, d: Seq<u32>|
            #![trigger entity_sorted(query_tile, order), river_passes((river_edges(old(river)), 0, 0, Set::empty()), map_parameters, query_tile, area_id_and_size.0@, candidates_of(map_parameters, query_tile, order), 4, d)]
            {
                &&& entity_sorted(query_tile, order)
                &&& forall|k: int| 0 <= k < d.len() ==> d[k] < 10
                &&& forall|k: int|
                    #[trigger] river_passes(
                        (river_edges(old(river)), 0, 0, Set::empty()),
                        map_parameters,
                        query_tile,
                        area_id_and_size.0@,
                        candidates_of(map_parameters, query_tile, order),
                        4,
                        d,
                    ).3.contains(k) ==> 0 <= k < d.len() && d[k] < 8
                &&& river_passes(
                    (river_edges(old(river)), 0, 0, Set::empty()),
                    map_parameters,
                    query_tile,
                    area_id_and_size.0@,
                    candidates_of(map_parameters, query_tile, order),
                    4,
                    d,
                ).0 == river_edges(final(river))
            },
{
    let mp = map_parameters;
    let q = query_tile;
    let sizes = area_id_and_size;
    let order = order_by_entity(q);
    let cands = start_candidates(mp, q, &order);
    let ghost rs0 = river_edges(river);
    let n = cands.len();
    assert(n <= q.tiles.len()) by {
        lemma_candidates_len(mp, q, order@);
    }
    assert(q.tiles.len() <= 0x1000_0000);
    let mut river_id: usize = 0;
    let ghost mut d: Seq<u32> = Seq::empty();
    let ghost mut eights: Set<int> = Set::empty();
    let mut p: usize = 0;
    while p < 4
        invariant
            q.well_formed(mp),
            n == cands.len(),
            n <= 0x1000_0000,
            forall|k: int| 0 <= k < cands.len() ==> #[trigger] cands@[k] < q.tiles.len(),
            cands@ == candidates_of(mp, q, order@),
            forall|t: int|
                0 <= t < q.tiles.len() && #[trigger] start_candidate(mp, q, t) ==> sizes.0@.contains_key(q.tiles@[t].area_id),
            0 <= p <= 4,
            river_id <= p * n,
            forall|k: int| 0 <= k < d.len() ==> d[k] < 10,
            forall|k: int| #[trigger] eights.contains(k) ==> 0 <= k < d.len() && d[k] < 8,
            forall|ext: Seq<u32>|
                #[trigger] extends(ext, d) ==> river_passes((rs0, 0, 0, Set::empty()), mp, q, sizes.0@, cands@, p as int, ext)
                    == (river_edges(river), river_id as int, d.len() as int, eights),
        decreases 4 - p,
    {
        let ghost d_pass = d;
        let ghost st_pass = (river_edges(river), river_id as int, d.len() as int, eights);
        let src: i32 = if p <= 1 {
            4
        } else {
            2
        };
        let sea: i32 = if p <= 1 {
            3
        } else {
            1
        };
        let mut k: usize = 0;
        assert(extends(d, d_pass)) by {
            assert(d.take(d.len() as int) =~= d);
        }
        while k < n
            invariant
                q.well_formed(mp),
                n == cands.len(),
                n <= 0x1000_0000,
                forall|j: int| 0 <= j < cands.len() ==> #[trigger] cands@[j] < q.tiles.len(),
                cands@ == candidates_of(mp, q, order@),
                forall|t: int|
                    0 <= t < q.tiles.len() && #[trigger] start_candidate(mp, q, t) ==> sizes.0@.contains_key(
                        q.tiles@[t].area_id,
                    ),
                0 <= p < 4,
                src == (if p <= 1 {
                    4int
                } else {
                    2int
                }),
                sea == (if p <= 1 {
                    3int
                } else {
                    1int
                }),
                0 <= k <= n,
                river_id <= p * n + k,
                forall|j: int| 0 <= j < d.len() ==> d[j] < 10,
                forall|j: int| #[trigger] eights.contains(j) ==> 0 <= j < d.len() && d[j] < 8,
                extends(d, d_pass),
                forall|ext: Seq<u32>|
                    #[trigger] extends(ext, d_pass) ==> river_passes((rs0, 0, 0, Set::empty()), mp, q, sizes.0@, cands@, p as int, ext)
                        == st_pass,
                forall|ext: Seq<u32>|
                    #[trigger] extends(ext, d) ==> river_pass(st_pass, mp, q, sizes.0@, cands@, p as int, k as int, ext)
                        == (river_edges(river), river_id as int, d.len() as int, eights),
            decreases n - k,
        {
            let t = cands[k];
            proof {
                lemma_candidate_of(mp, q, order@, k as int);
            }
            let ghost rs_b = river_edges(river);
            let ghost id_b = river_id as int;
            let ghost d_b = d;
            let ghost e_b = eights;
            let (c, Ghost(d1)) = pass_conditions(&mut random_number_generator.rng, mp, q, sizes, river, t, Ghost(d));
            proof {
                if d1.len() > d_b.len() {
                    eights = eights.insert(d_b.len() as int);
                    assert(d1[d_b.len() as int] < 8);
                }
                assert forall|j: int| #[trigger] eights.contains(j) implies 0 <= j < d1.len() && d1[j] < 8 by {
                    if e_b.contains(j) {
                        assert(d1.take(d_b.len() as int)[j] == d1[j]);
                    }
                }
                assert forall|j: int| 0 <= j < d1.len() implies d1[j] < 10 by {
                    if j < d_b.len() {
                        assert(d1.take(d_b.len() as int)[j] == d1[j]);
                    }
                }
            }
            let cond = if p == 0 {
                c.0
            } else if p == 1 {
                c.1
            } else if p == 2 {
                c.2
            } else {
                c.3
            };
            let start_here = cond && !ring_fresh_at(river, mp, q, t, src) && !ring_water_at(mp, q, t, sea);
            if start_here {
                assert(p * n + k < 4 * 0x1000_0000) by (nonlinear_arith)
                    requires
                        p < 4,
                        k < n,
                        n <= 0x1000_0000,
                ;
                let Ghost(d2) = run_river(river, &mut random_number_generator.rng, t, river_id, mp, q, Ghost(d1));
                river_id = river_id + 1;
                proof {
                    assert forall|ext: Seq<u32>| #[trigger] extends(ext, d2) implies river_pass(
                        st_pass,
                        mp,
                        q,
                        sizes.0@,
                        cands@,
                        p as int,
                        k + 1,
                        ext,
                    ) == (river_edges(river), river_id as int, d2.len() as int, eights) by {
                        lemma_extends_trans(ext, d2, d1);
                        lemma_extends_trans(ext, d1, d_b);
                    }
                    lemma_extends_trans(d2, d1, d_b);
                    lemma_extends_trans(d2, d_b, d_pass);
                    assert(d1.take(d1.len() as int) =~= d1);
                    lemma_new_draws_small(d2, d1, d1, 10);
                    assert forall|j: int| #[trigger] eights.contains(j) implies 0 <= j < d2.len() && d2[j] < 8 by {
                        assert(d2.take(d1.len() as int)[j] == d2[j]);
                    }
                    d = d2;
                }
            } else {
                proof {
                    assert forall|ext: Seq<u32>| #[trigger] extends(ext, d1) implies river_pass(
                        st_pass,
                        mp,
                        q,
                        sizes.0@,
                        cands@,
                        p as int,
                        k + 1,
                        ext,
                    ) == (river_edges(river), river_id as int, d1.len() as int, eights) by {
                        lemma_extends_trans(ext, d1, d_b);
                    }
                    lemma_extends_trans(d1, d_b, d_pass);
                    assert(d1.take(d1.len() as int) =~= d1);
                    d = d1;
                }
            }
            k = k + 1;
        }
        proof {
            assert forall|ext: Seq<u32>| #[trigger] extends(ext, d) implies river_passes(
                (rs0, 0, 0, Set::empty()),
                mp,
                q,
                sizes.0@,
                cands@,
                p + 1,
                ext,
            ) == (river_edges(river), river_id as int, d.len() as int, eights) by {
                lemma_extends_trans(ext, d, d_pass);
            }
            assert(river_id <= (p + 1) * n) by (nonlinear_arith)
                requires
                    river_id <= p * n + n,
            ;
        }
        p = p + 1;
    }
    proof {
        assert(extends(d, d)) by {
            assert(d.take(d.len() as int) =~= d);
        }
        assert(river_passes((rs0, 0, 0, Set::empty()), mp, q, sizes.0@, candidates_of(mp, q, order@), 4, d) == (river_edges(river), river_id as int, d.len() as int, eights));
        assert(entity_sorted(q, order@));
    }
}

proof fn lemma_candidates_len(mp: &MapParameters, q: &TileQuery, order: Seq<usize>)
    ensures
        candidates_of(mp, q, order).len() <= order.len(),
    decreases order.len(),
{
    if order.len() > 0 {
        lemma_candidates_len(mp, q, order.drop_last());
    }
}

/// Every candidate may start a river.
proof fn lemma_candidate_of(mp: &MapParameters, q: &TileQuery, order: Seq<usize>, k: int)
    requires
        0 <= k < candidates_of(mp, q, order).len(),
    ensures
        start_candidate(mp, q, candidates_of(mp, q, order)[k] as int),
    decreases order.len(),
{
    if order.len() > 0 {
        let rest = candidates_of(mp, q, order.drop_last());
        if k < rest.len() {
            lemma_candidate_of(mp, q, order.drop_last(), k);
        }
    }
}


/// The edges of `old_r` begin `new_r`.
pub open spec fn keeps(old_r: Seq<(usize, Direction)>, new_r: Seq<(usize, Direction)>) -> bool {
    old_r.len() <= new_r.len() && new_r.take(old_r.len() as int) == old_r
}

/// Every river of `old` is still there in `new`, its edges first in the same order.
pub open spec fn grows(old: Seq<Seq<(usize, Direction)>>, new: Seq<Seq<(usize, Direction)>>) -> bool {
    &&& old.len() <= new.len()
    &&& forall|r: int| 0 <= r < old.len() ==> #[trigger] keeps(old[r], new[r])
}

/// Every edge flows along a corner of the map's hexes.
pub open spec fn flows_valid(rs: Seq<Seq<(usize, Direction)>>, o: HexOrientation) -> bool {
    forall|r: int, k: int|
        0 <= r < rs.len() && 0 <= k < rs[r].len() ==> (#[trigger] rs[r][k]).1 != Direction::Unset
            && flow_ok(o, rs[r][k].1)
}

proof fn lemma_grows_refl(rs: Seq<Seq<(usize, Direction)>>)
    ensures
        grows(rs, rs),
{
    assert forall|r: int| 0 <= r < rs.len() implies #[trigger] keeps(rs[r], rs[r]) by {
        assert(rs[r].take(rs[r].len() as int) =~= rs[r]);
    }
}

proof fn lemma_grows_trans(a: Seq<Seq<(usize, Direction)>>, b: Seq<Seq<(usize, Direction)>>, c: Seq<Seq<(usize, Direction)>>)
    requires
        grows(a, b),
        grows(b, c),
    ensures
        grows(a, c),
{
    assert forall|r: int| 0 <= r < a.len() implies #[trigger] keeps(a[r], c[r]) by {
        assert(keeps(a[r], b[r]));
        assert(keeps(b[r], c[r]));
        assert(c[r].take(a[r].len() as int) =~= c[r].take(b[r].len() as int).take(a[r].len() as int));
    }
    assert(a.len() <= c.len());
}

proof fn lemma_add_edge(rs: Seq<Seq<(usize, Direction)>>, id: int, e: (usize, Direction), o: HexOrientation)
    requires
        0 <= id,
    ensures
        grows(rs, add_edge(rs, id, e)),
        flows_valid(rs, o) && e.1 != Direction::Unset && flow_ok(o, e.1) ==> flows_valid(add_edge(rs, id, e), o),
{
    let grown = if id < rs.len() {
        rs
    } else {
        rs + Seq::new((id + 1 - rs.len()) as nat, |i: int| Seq::<(usize, Direction)>::empty())
    };
    let new = add_edge(rs, id, e);
    assert forall|r: int| 0 <= r < rs.len() implies #[trigger] keeps(rs[r], new[r]) by {
        assert(grown[r] == rs[r]);
        if r == id {
            assert(new[r].take(rs[r].len() as int) =~= rs[r]);
        } else {
            assert(new[r].take(rs[r].len() as int) =~= rs[r]);
        }
    }
    if flows_valid(rs, o) && e.1 != Direction::Unset && flow_ok(o, e.1) {
        assert forall|r: int, k: int| 0 <= r < new.len() && 0 <= k < new[r].len() implies (#[trigger] new[r][k]).1
            != Direction::Unset && flow_ok(o, new[r][k].1) by {
            if r < rs.len() {
                assert(grown[r] == rs[r]);
                if r == id && k == rs[r].len() {
                } else if r == id {
                    assert(new[r][k] == rs[r][k]);
                } else {
                    assert(new[r][k] == rs[r][k]);
                }
            } else {
                assert(grown[r].len() == 0);
            }
        }
    }
}

proof fn lemma_step_grows(
    rs: Seq<Seq<(usize, Direction)>>,
    mp: &MapParameters,
    q: &TileQuery,
    start: int,
    flow: Direction,
    first_flow: Direction,
    id: int,
    d: Seq<u32>,
    pos: int,
)
    requires
        0 <= id,
        flow == Direction::Unset || flow_ok(mp.orientation, flow),
    ensures
        grows(rs, river_step(rs, mp, q, start, flow, first_flow, id, d, pos).0),
        flows_valid(rs, mp.orientation) ==> flows_valid(river_step(rs, mp, q, start, flow, first_flow, id, d, pos).0, mp.orientation),
        match river_step(rs, mp, q, start, flow, first_flow, id, d, pos).1 {
            Some(st) => st.1 != Direction::Unset && flow_ok(mp.orientation, st.1),
            None => true,
        },
{
    let (rs1, p) = place_edge(rs, mp, q, start, flow, id);
    if flow == Direction::Unset {
        lemma_grows_refl(rs);
    } else {
        let rc = spec_recipe(mp.orientation, flow);
        let base = match rc.base {
            None => Some(start),
            Some(dd) => nbr(mp, q, start, dd),
        };
        match base {
            None => {
                lemma_grows_refl(rs);
            },
            Some(plot) => {
                lemma_add_edge(rs, id, (plot as usize, flow), mp.orientation);
            },
        }
    }
    match p {
        Some(plot) => if !is_water(q, plot) {
            lemma_best_flow(mp, q, plot, flow, first_flow, d, pos, 6);
        },
        None => {},
    }
}

/// The best way on is a flow along a corner, or none.
proof fn lemma_best_flow(
    mp: &MapParameters,
    q: &TileQuery,
    plot: int,
    this_flow: Direction,
    first_flow: Direction,
    d: Seq<u32>,
    pos0: int,
    i: int,
)
    requires
        0 <= i <= 6,
    ensures
        ({
            let f = best_upto(mp, q, plot, this_flow, first_flow, d, pos0, i).0;
            f == Direction::Unset || flow_ok(mp.orientation, f)
        }),
    decreases i,
{
    if i > 0 {
        lemma_best_flow(mp, q, plot, this_flow, first_flow, d, pos0, i - 1);
        lemma_adj_dirs(mp.orientation, i - 1);
    }
}

proof fn lemma_course_grows(
    rs: Seq<Seq<(usize, Direction)>>,
    mp: &MapParameters,
    q: &TileQuery,
    start: int,
    flow: Direction,
    first_flow: Direction,
    id: int,
    d: Seq<u32>,
    pos: int,
    fuel: nat,
)
    requires
        0 <= id,
        flow == Direction::Unset || flow_ok(mp.orientation, flow),
    ensures
        grows(rs, river_course(rs, mp, q, start, flow, first_flow, id, d, pos, fuel).0),
        flows_valid(rs, mp.orientation) ==> flows_valid(river_course(rs, mp, q, start, flow, first_flow, id, d, pos, fuel).0, mp.orientation),
    decreases fuel,
{
    lemma_step_grows(rs, mp, q, start, flow, first_flow, id, d, pos);
    let (rs1, next, pos1) = river_step(rs, mp, q, start, flow, first_flow, id, d, pos);
    match next {
        None => {},
        Some(st) => if fuel > 0 {
            lemma_course_grows(rs1, mp, q, st.0, st.1, st.2, id, d, pos1, (fuel - 1) as nat);
            lemma_grows_trans(rs, rs1, river_course(rs1, mp, q, st.0, st.1, st.2, id, d, pos1, (fuel - 1) as nat).0);
        },
    }
}

proof fn lemma_do_river_grows(
    rs: Seq<Seq<(usize, Direction)>>,
    mp: &MapParameters,
    q: &TileQuery,
    start: int,
    id: int,
    d: Seq<u32>,
    pos: int,
)
    requires
        0 <= id,
    ensures
        grows(rs, do_river_from(rs, mp, q, start, id, d, pos).0),
        flows_valid(rs, mp.orientation) ==> flows_valid(do_river_from(rs, mp, q, start, id, d, pos).0, mp.orientation),
{
    if has_edge_on(rs, start) {
        lemma_grows_refl(rs);
    } else {
        lemma_course_grows(rs, mp, q, start, Direction::Unset, Direction::Unset, id, d, pos, usize::MAX as nat);
    }
}

/// Running a river keeps every river there was, edge by edge, and every edge it adds
/// flows along a corner of the map's hexes.
pub proof fn law_a_river_only_adds_edges(
    rs: Seq<Seq<(usize, Direction)>>,
    mp: &MapParameters,
    q: &TileQuery,
    start: int,
    id: int,
    d: Seq<u32>,
)
    requires
        0 <= id,
    ensures
        grows(rs, spec_do_river(rs, mp, q, start, id, d)),
        flows_valid(rs, mp.orientation) ==> flows_valid(spec_do_river(rs, mp, q, start, id, d), mp.orientation),
{
    lemma_do_river_grows(rs, mp, q, start, id, d, 0);
}

proof fn lemma_pass_grows(
    st: (Seq<Seq<(usize, Direction)>>, int, int, Set<int>),
    mp: &MapParameters,
    q: &TileQuery,
    sizes: Map<i32, u32>,
    cands: Seq<usize>,
    p: int,
    k: int,
    d: Seq<u32>,
)
    requires
        0 <= st.1,
    ensures
        grows(st.0, river_pass(st, mp, q, sizes, cands, p, k, d).0),
        river_pass(st, mp, q, sizes, cands, p, k, d).1 >= st.1,
        flows_valid(st.0, mp.orientation) ==> flows_valid(river_pass(st, mp, q, sizes, cands, p, k, d).0, mp.orientation),
    decreases k,
{
    if k <= 0 {
        lemma_grows_refl(st.0);
    } else {
        lemma_pass_grows(st, mp, q, sizes, cands, p, k - 1, d);
        let prev = river_pass(st, mp, q, sizes, cands, p, k - 1, d);
        let t = cands[k - 1] as int;
        let (c, pos1) = pass_conds(mp, prev.0, q, sizes, t, d, prev.2);
        lemma_do_river_grows(prev.0, mp, q, t, prev.1, d, pos1);
        lemma_grows_trans(st.0, prev.0, do_river_from(prev.0, mp, q, t, prev.1, d, pos1).0);
    }
}

proof fn lemma_passes_grow(
    st: (Seq<Seq<(usize, Direction)>>, int, int, Set<int>),
    mp: &MapParameters,
    q: &TileQuery,
    sizes: Map<i32, u32>,
    cands: Seq<usize>,
    p: int,
    d: Seq<u32>,
)
    requires
        0 <= st.1,
    ensures
        grows(st.0, river_passes(st, mp, q, sizes, cands, p, d).0),
        river_passes(st, mp, q, sizes, cands, p, d).1 >= st.1,
        flows_valid(st.0, mp.orientation) ==> flows_valid(river_passes(st, mp, q, sizes, cands, p, d).0, mp.orientation),
    decreases p,
{
    if p <= 0 {
        lemma_grows_refl(st.0);
    } else {
        lemma_passes_grow(st, mp, q, sizes, cands, p - 1, d);
        let prev = river_passes(st, mp, q, sizes, cands, p - 1, d);
        lemma_pass_grows(prev, mp, q, sizes, cands, p - 1, cands.len() as int, d);
        lemma_grows_trans(st.0, prev.0, river_pass(prev, mp, q, sizes, cands, p - 1, cands.len() as int, d).0);
    }
}

/// Starting the rivers of a map keeps every river there was, edge by edge, and every
/// edge added flows along a corner of the map's hexes.
pub proof fn law_river_generation_only_adds_edges(
    rs: Seq<Seq<(usize, Direction)>>,
    mp: &MapParameters,
    q: &TileQuery,
    sizes: Map<i32, u32>,
    cands: Seq<usize>,
    d: Seq<u32>,
)
    ensures
        grows(rs, river_passes((rs, 0, 0, Set::empty()), mp, q, sizes, cands, 4, d).0),
        flows_valid(rs, mp.orientation) ==> flows_valid(river_passes((rs, 0, 0, Set::empty()), mp, q, sizes, cands, 4, d).0, mp.orientation),
{
    lemma_passes_grow((rs, 0, 0, Set::empty()), mp, q, sizes, cands, 4, d);
}

} // verus!
