//! Moving units: what entering a tile costs, which tiles a unit may share, and what a
//! move request leads to.

use crate::hex::{spec_edge_direction, spec_edge_index, MapParameters};
use crate::area::{lists_neighbors, tile_neighbor_lists};
use crate::map_gen::edge_neighbor;
use crate::tile_query::TileQuery;
use crate::terrain::TerrainType;
use vstd::prelude::*;

verus! {

/// A unit's movement points: what is left this turn and the most it has.
#[derive(Clone, Copy, Debug, PartialEq, Eq, Structural)]
pub struct Movement {
    pub current: u32,
    pub max: u32,
}

/// The movement points entering a tile of this terrain costs; zero for terrain a unit
/// cannot enter (mountain, water).
pub open spec fn spec_movement_cost(terrain: TerrainType) -> u32 {
    match terrain {
        TerrainType::Flatland => 1,
        TerrainType::Hill => 2,
        TerrainType::Mountain => 0,
        TerrainType::Water => 0,
    }
}

/// The movement points entering a tile of this terrain costs.
pub fn movement_cost(terrain: TerrainType) -> (r: u32)
    ensures
        r == spec_movement_cost(terrain),
{
    match terrain {
        TerrainType::Flatland => 1,
        TerrainType::Hill => 2,
        TerrainType::Mountain => 0,
        TerrainType::Water => 0,
    }
}

/// Whether two units belong to the same nation.
pub fn is_same_owner(owner1: usize, owner2: usize) -> (r: bool)
    ensures
        r == (owner1 == owner2),
{
    owner1 == owner2
}

/// What a move request leads to.
#[derive(Clone, Copy, Debug, PartialEq, Eq, Structural)]
pub enum MoveAction {
    /// The unit stays where it is.
    Stay,
    /// The unit enters the tile with this many movement points left.
    MoveTo { tile: usize, movement: u32 },
    /// The unit steps next to the enemy onto `tile`, spends all its movement, and attacks
    /// `target` when there is one.
    AttackFrom { tile: usize, target: Option<u64> },
}

/// Some unit in the list (entity, owner) belongs to another nation.
pub open spec fn has_other_owner(units: Seq<(u64, usize)>, owner: usize) -> bool {
    exists|i: int| 0 <= i < units.len() && (#[trigger] units[i]).1 != owner
}

/// The first unit of another nation in the list.
pub open spec fn first_other(units: Seq<(u64, usize)>, owner: usize) -> Option<u64>
    decreases units.len(),
{
    if units.len() == 0 {
        None
    } else if units[0].1 != owner {
        Some(units[0].0)
    } else {
        first_other(units.drop_first(), owner)
    }
}

/// The first tile in the list (tile, holds a military unit) without a military unit.
pub open spec fn first_free(neighbors: Seq<(usize, bool)>) -> Option<usize>
    decreases neighbors.len(),
{
    if neighbors.len() == 0 {
        None
    } else if !neighbors[0].1 {
        Some(neighbors[0].0)
    } else {
        first_free(neighbors.drop_first())
    }
}

/// A unit may enter a tile without enemies: a civilian when no other civilian stands
/// there and at most one military unit of its own nation; a military unit when no other
/// military unit stands there and at most one civilian of its own nation.
pub open spec fn spec_can_enter(
    is_civilian: bool,
    owner: usize,
    military_on_tile: Seq<(u64, usize)>,
    civilian_on_tile: Seq<(u64, usize)>,
) -> bool {
    if is_civilian {
        civilian_on_tile.len() == 0 && (military_on_tile.len() == 0 || (military_on_tile.len() == 1
            && military_on_tile[0].1 == owner))
    } else {
        military_on_tile.len() == 0 && (civilian_on_tile.len() == 0 || (civilian_on_tile.len() == 1
            && civilian_on_tile[0].1 == owner))
    }
}

/// The movement left after entering a tile: the cost is paid when it is positive and
/// affordable, else nothing is paid.
pub open spec fn movement_left(current: u32, terrain: TerrainType) -> u32 {
    let cost = spec_movement_cost(terrain);
    if cost > 0 && cost <= current {
        (current - cost) as u32
    } else {
        current
    }
}

/// The outcome of a request to move a unit onto `target_tile`.
pub open spec fn spec_move_action(
    movement: Movement,
    owner: usize,
    is_civilian: bool,
    target_tile: usize,
    target_terrain: TerrainType,
    military_on_tile: Seq<(u64, usize)>,
    civilian_on_tile: Seq<(u64, usize)>,
    neighbors: Seq<(usize, bool)>,
    units_on_target: Seq<(u64, usize)>,
) -> MoveAction {
    if movement.current == 0 {
        MoveAction::Stay
    } else if has_other_owner(military_on_tile, owner) {
        match first_free(neighbors) {
            Some(t) => MoveAction::AttackFrom { tile: t, target: first_other(units_on_target, owner) },
            None => MoveAction::Stay,
        }
    } else if spec_can_enter(is_civilian, owner, military_on_tile, civilian_on_tile) {
        MoveAction::MoveTo {
            tile: target_tile,
            movement: movement_left(movement.current, target_terrain),
        }
    } else {
        MoveAction::Stay
    }
}

fn any_other_owner(units: &Vec<(u64, usize)>, owner: usize) -> (r: bool)
    ensures
        r == has_other_owner(units@, owner),
{
    let mut i: usize = 0;
    while i < units.len()
        invariant
            0 <= i <= units.len(),
            forall|j: int| 0 <= j < i ==> (#[trigger] units@[j]).1 == owner,
        decreases units.len() - i,
    {
        if units[i].1 != owner {
            assert(units@[i as int].1 != owner);
            return true;
        }
        i = i + 1;
    }
    false
}

fn find_first_other(units: &Vec<(u64, usize)>, owner: usize) -> (r: Option<u64>)
    ensures
        r == first_other(units@, owner),
{
    let mut i: usize = 0;
    assert(units@.skip(0) =~= units@);
    while i < units.len()
        invariant
            0 <= i <= units.len(),
            first_other(units@, owner) == first_other(units@.skip(i as int), owner),
        decreases units.len() - i,
    {
        assert(units@.skip(i as int)[0] == units@[i as int]);
        if units[i].1 != owner {
            return Some(units[i].0);
        }
        assert(units@.skip(i as int).drop_first() =~= units@.skip(i + 1));
        i = i + 1;
    }
    assert(units@.skip(i as int).len() == 0);
    None
}

fn find_first_free(neighbors: &Vec<(usize, bool)>) -> (r: Option<usize>)
    ensures
        r == first_free(neighbors@),
{
    let mut i: usize = 0;
    assert(neighbors@.skip(0) =~= neighbors@);
    while i < neighbors.len()
        invariant
            0 <= i <= neighbors.len(),
            first_free(neighbors@) == first_free(neighbors@.skip(i as int)),
        decreases neighbors.len() - i,
    {
        assert(neighbors@.skip(i as int)[0] == neighbors@[i as int]);
        if !neighbors[i].1 {
            return Some(neighbors[i].0);
        }
        assert(neighbors@.skip(i as int).drop_first() =~= neighbors@.skip(i + 1));
        i = i + 1;
    }
    assert(neighbors@.skip(i as int).len() == 0);
    None
}

/// Decides a request to move a unit onto `target_tile`. A unit without movement stays.
/// When a military unit of another nation holds the tile, the unit steps onto the first
/// of `neighbors` (the tiles next to the target, each with whether a military unit holds
/// it) that is free, and attacks the first unit of another nation on the target; it
/// stays when no neighbor is free. Otherwise it enters the tile when the stacking rule
/// allows ([`spec_can_enter`]), paying the terrain's cost when that is positive and
/// affordable. The lists of units on the target leave out the moving unit.
pub fn handle_move_request(
    movement: Movement,
    owner: usize,
    is_civilian: bool,
    target_tile: usize,
    target_terrain: TerrainType,
    military_on_tile: &Vec<(u64, usize)>,
    civilian_on_tile: &Vec<(u64, usize)>,
    neighbors: &Vec<(usize, bool)>,
    units_on_target: &Vec<(u64, usize)>,
) -> (r: MoveAction)
    ensures
        r == spec_move_action(
            movement,
            owner,
            is_civilian,
            target_tile,
            target_terrain,
            military_on_tile@,
            civilian_on_tile@,
            neighbors@,
            units_on_target@,
        ),
{
    if movement.current == 0 {
        return MoveAction::Stay;
    }
    let has_enemy = any_other_owner(military_on_tile, owner);
    let move_cost = movement_cost(target_terrain);
    let new_movement = if move_cost > 0 && move_cost <= movement.current {
        movement.current - move_cost
    } else {
        movement.current
    };
    if has_enemy {
        match find_first_free(neighbors) {
            Some(t) => MoveAction::AttackFrom { tile: t, target: find_first_other(units_on_target, owner) },
            None => MoveAction::Stay,
        }
    } else {
        let can_enter = if is_civilian {
            civilian_on_tile.len() == 0 && (military_on_tile.len() == 0 || (military_on_tile.len() == 1
                && military_on_tile[0].1 == owner))
        } else {
            military_on_tile.len() == 0 && (civilian_on_tile.len() == 0 || (civilian_on_tile.len() == 1
                && civilian_on_tile[0].1 == owner))
        };
        if !can_enter {
            return MoveAction::Stay;
        }
        MoveAction::MoveTo { tile: target_tile, movement: new_movement }
    }
}

/// Tiles `a` and `b` are hex neighbors: `b` lies across one of the six edges of `a`
/// (across the map's edge too where the map wraps), and they are different tiles.
pub open spec fn spec_tiles_adjacent(mp: &MapParameters, q: &TileQuery, a: int, b: int) -> bool {
    a != b && exists|e: int| 0 <= e < 6 && #[trigger] edge_neighbor(mp, q, a, e) == Some(b)
}

/// Whether two tiles are adjacent.
pub fn are_tiles_adjacent(tile1: usize, tile2: usize, map_parameters: &MapParameters, query_tile: &TileQuery) -> (r:
    bool)
    requires
        query_tile.well_formed(map_parameters),
        tile1 < query_tile.tiles.len(),
    ensures
        r == spec_tiles_adjacent(map_parameters, query_tile, tile1 as int, tile2 as int),
{
    if tile1 == tile2 {
        return false;
    }
    let dirs = map_parameters.edge_direction_array();
    assert(query_tile.tiles@[tile1 as int].hex_position.small_pos());
    let position = query_tile.tiles[tile1].hex_position;
    let mut e: usize = 0;
    while e < 6
        invariant
            query_tile.well_formed(map_parameters),
            tile1 < query_tile.tiles.len(),
            tile1 != tile2,
            position == query_tile.tiles@[tile1 as int].hex_position,
            position.small_pos(),
            forall|j: int| 0 <= j < 6 ==> dirs@[j] == spec_edge_direction(map_parameters.orientation, j),
            0 <= e <= 6,
            forall|j: int| 0 <= j < e ==> #[trigger] edge_neighbor(map_parameters, query_tile, tile1 as int, j) != Some(tile2 as int),
        decreases 6 - e,
    {
        assert(spec_edge_index(map_parameters.orientation, dirs[e as int]) == e as int);
        match position.index_neighbor(map_parameters, dirs[e]) {
            Some(n) => {
                if n == tile2 {
                    assert(edge_neighbor(map_parameters, query_tile, tile1 as int, e as int) == Some(tile2 as int));
                    assert(spec_tiles_adjacent(map_parameters, query_tile, tile1 as int, tile2 as int));
                    return true;
                }
            },
            None => {},
        }
        e = e + 1;
    }
    false
}

/// The movement points a walk spends: the cost of entering each tile after the first.
pub open spec fn walk_cost(terrain: Seq<TerrainType>, w: Seq<int>) -> int
    decreases w.len(),
{
    if w.len() <= 1 {
        0
    } else {
        walk_cost(terrain, w.drop_last()) + spec_movement_cost(terrain[w.last()]) as int
    }
}

/// `w` walks from neighbor to neighbor, starting at `start`, entering only tiles of
/// positive cost.
pub open spec fn is_walk(adj: Seq<Vec<usize>>, terrain: Seq<TerrainType>, start: int, w: Seq<int>) -> bool {
    &&& w.len() >= 1
    &&& w[0] == start
    &&& forall|i: int| 0 <= i < w.len() ==> 0 <= #[trigger] w[i] < terrain.len()
    &&& forall|i: int| 0 <= i < w.len() - 1 ==> adj[w[i]]@.contains(#[trigger] w[i + 1] as usize)
    &&& forall|i: int| 1 <= i < w.len() ==> spec_movement_cost(terrain[#[trigger] w[i]]) > 0
}

/// Tile `t` can be reached from `start` spending exactly `spent` movement points.
pub open spec fn reached_with(
    adj: Seq<Vec<usize>>,
    terrain: Seq<TerrainType>,
    start: int,
    t: int,
    spent: int,
) -> bool {
    exists|w: Seq<int>| #[trigger] is_walk(adj, terrain, start, w) && w.last() == t && walk_cost(terrain, w) == spent
}

proof fn lemma_walk_extend(adj: Seq<Vec<usize>>, terrain: Seq<TerrainType>, start: int, w: Seq<int>, v: int)
    requires
        is_walk(adj, terrain, start, w),
        0 <= v < terrain.len(),
        adj[w.last()]@.contains(v as usize),
        spec_movement_cost(terrain[v]) > 0,
    ensures
        is_walk(adj, terrain, start, w.push(v)),
        w.push(v).last() == v,
        walk_cost(terrain, w.push(v)) == walk_cost(terrain, w) + spec_movement_cost(terrain[v]),
{
    let q = w.push(v);
    assert(q.drop_last() =~= w);
    assert forall|i: int| 0 <= i < q.len() - 1 implies adj[q[i]]@.contains(#[trigger] q[i + 1] as usize) by {
        if i < w.len() - 1 {
            assert(q[i] == w[i] && q[i + 1] == w[i + 1]);
        } else {
            assert(q[i] == w.last());
        }
    }
}

/// Tile `t` can be reached from `start` spending at most `points` movement points.
pub open spec fn reachable_within(adj: Seq<Vec<usize>>, terrain: Seq<TerrainType>, start: int, t: int, points: int) -> bool {
    exists|spent: int| 0 <= spent <= points && #[trigger] reached_with(adj, terrain, start, t, spent)
}

/// The movement points left on arriving at a tile, -1 for a tile not reached: the
/// `k`-th neighbor of tile `u` gets no fewer points than `u` has once it is paid for,
/// whenever `u` can pay for it.
pub open spec fn relaxed(adj: Seq<Vec<usize>>, terrain: Seq<TerrainType>, best: Seq<i64>, u: int, k: int) -> bool {
    let v = adj[u]@[k] as int;
    let c = spec_movement_cost(terrain[v]) as int;
    0 < c <= best[u] ==> best[v] >= best[u] - c
}

/// No neighbor of any tile can get more points than it has.
pub open spec fn settled(adj: Seq<Vec<usize>>, terrain: Seq<TerrainType>, best: Seq<i64>) -> bool {
    forall|u: int, k: int| 0 <= u < adj.len() && 0 <= k < adj[u]@.len() ==> #[trigger] relaxed(adj, terrain, best, u, k)
}

/// The points still to be gained over the first `n` tiles: what each lacks to `points`.
pub open spec fn slack(best: Seq<i64>, points: int, n: int) -> int
    decreases n,
{
    if n <= 0 {
        0
    } else {
        slack(best, points, n - 1) + (points - best[n - 1])
    }
}

proof fn lemma_slack_update(best: Seq<i64>, points: int, n: int, i: int, x: i64)
    requires
        0 <= i < n <= best.len(),
    ensures
        slack(best.update(i, x), points, n) == slack(best, points, n) - (x - best[i]),
    decreases n,
{
    if n - 1 != i {
        lemma_slack_update(best, points, n - 1, i, x);
        assert(best.update(i, x)[n - 1] == best[n - 1]);
    } else {
        lemma_slack_same(best, best.update(i, x), points, n - 1);
    }
}

proof fn lemma_slack_same(a: Seq<i64>, b: Seq<i64>, points: int, m: int)
    requires
        0 <= m <= a.len(),
        m <= b.len(),
        forall|j: int| 0 <= j < m ==> a[j] == b[j],
    ensures
        slack(a, points, m) == slack(b, points, m),
    decreases m,
{
    if m > 0 {
        lemma_slack_same(a, b, points, m - 1);
    }
}

proof fn lemma_slack_nonneg(best: Seq<i64>, points: int, n: int)
    requires
        0 <= n <= best.len(),
        forall|j: int| 0 <= j < n ==> best[j] <= points,
    ensures
        slack(best, points, n) >= 0,
    decreases n,
{
    if n > 0 {
        lemma_slack_nonneg(best, points, n - 1);
    }
}

proof fn lemma_walk_cost_nonneg(terrain: Seq<TerrainType>, w: Seq<int>)
    ensures
        walk_cost(terrain, w) >= 0,
    decreases w.len(),
{
    if w.len() > 1 {
        lemma_walk_cost_nonneg(terrain, w.drop_last());
    }
}

/// Once no tile can improve on its neighbors, every walk from the start within the
/// points arrives with at least the points it has left.
proof fn lemma_settled_reaches(
    adj: Seq<Vec<usize>>,
    terrain: Seq<TerrainType>,
    best: Seq<i64>,
    start: int,
    points: int,
    w: Seq<int>,
)
    requires
        settled(adj, terrain, best),
        adj.len() == terrain.len(),
        terrain.len() <= usize::MAX,
        best.len() == terrain.len(),
        0 <= start < terrain.len(),
        best[start] == points,
        is_walk(adj, terrain, start, w),
        walk_cost(terrain, w) <= points,
    ensures
        best[w.last()] >= points - walk_cost(terrain, w),
    decreases w.len(),
{
    if w.len() > 1 {
        let p = w.drop_last();
        assert(is_walk(adj, terrain, start, p)) by {
            assert forall|i: int| 0 <= i < p.len() - 1 implies adj[p[i]]@.contains(#[trigger] p[i + 1] as usize) by {
                assert(p[i] == w[i] && p[i + 1] == w[i + 1]);
            }
            assert forall|i: int| 1 <= i < p.len() implies spec_movement_cost(terrain[#[trigger] p[i]]) > 0 by {
                assert(p[i] == w[i]);
            }
        }
        let last = w.last();
        let u = p.last();
        assert(u == w[w.len() - 2]);
        assert(spec_movement_cost(terrain[w[w.len() - 1]]) > 0);
        lemma_walk_cost_nonneg(terrain, p);
        lemma_settled_reaches(adj, terrain, best, start, points, p);
        let i = w.len() - 2;
        assert(adj[w[i]]@.contains(w[i + 1] as usize));
        assert(w[i + 1] == last);
        assert(0 <= w[i + 1] < terrain.len());
        let k = choose|k: int| 0 <= k < adj[u]@.len() && adj[u]@[k] == last as usize;
        assert(relaxed(adj, terrain, best, u, k));
        assert(adj[u]@[k] as int == last);
    }
}

/// The tiles a unit on `start` with `movement_points` can move to this turn: exactly
/// the tiles other than the start that a walk from the start reaches over tiles of
/// positive cost, spending at most the movement points.
pub fn calculate_move_range(
    start_tile: usize,
    movement_points: u32,
    terrain: &Vec<TerrainType>,
    adj: &Vec<Vec<usize>>,
) -> (reachable: Vec<bool>)
    requires
        start_tile < terrain.len(),
        adj.len() == terrain.len(),
        forall|t: int, k: int|
            0 <= t < adj.len() && 0 <= k < adj@[t].len() ==> (#[trigger] adj@[t]@[k]) < terrain.len(),
    ensures
        reachable.len() == terrain.len(),
        forall|t: int|
            0 <= t < terrain.len() ==> (#[trigger] reachable@[t] <==> t != start_tile && reachable_within(
                adj@,
                terrain@,
                start_tile as int,
                t,
                movement_points as int,
            )),
{
    let n = terrain.len();
    let mp: i64 = movement_points as i64;
    let ghost points = movement_points as int;
    let mut best: Vec<i64> = Vec::new();
    let mut i: usize = 0;
    while i < n
        invariant
            0 <= i <= n,
            best.len() == i,
            forall|j: int| 0 <= j < i ==> #[trigger] best@[j] == -1,
        decreases n - i,
    {
        best.push(-1);
        i = i + 1;
    }
    best.set(start_tile, mp);
    proof {
        assert(is_walk(adj@, terrain@, start_tile as int, seq![start_tile as int]));
        assert(walk_cost(terrain@, seq![start_tile as int]) == 0);
        assert(reached_with(adj@, terrain@, start_tile as int, start_tile as int, 0));
        lemma_slack_nonneg(best@, points, n as int);
    }
    let mut done = false;
    while !done
        invariant
            n == terrain.len(),
            adj.len() == n,
            start_tile < n,
            mp == points,
            forall|t: int, k: int|
                0 <= t < adj.len() && 0 <= k < adj@[t].len() ==> (#[trigger] adj@[t]@[k]) < n,
            best.len() == n,
            best@[start_tile as int] == mp,
            forall|j: int| 0 <= j < n ==> -1 <= #[trigger] best@[j] <= mp,
            forall|j: int|
                0 <= j < n && #[trigger] best@[j] >= 0 ==> reached_with(adj@, terrain@, start_tile as int, j, mp - best@[j]),
            done ==> settled(adj@, terrain@, best@),
        decreases 2 * slack(best@, points, n as int) + if done {
            0int
        } else {
            1int
        },
    {
        let ghost best0 = best@;
        proof {
            lemma_slack_nonneg(best@, points, n as int);
        }
        let mut changed = false;
        let mut u: usize = 0;
        while u < n
            invariant
                n == terrain.len(),
                adj.len() == n,
                start_tile < n,
                mp == points,
                forall|t: int, k: int|
                    0 <= t < adj.len() && 0 <= k < adj@[t].len() ==> (#[trigger] adj@[t]@[k]) < n,
                best.len() == n,
                best0.len() == n,
                best@[start_tile as int] == mp,
                forall|j: int| 0 <= j < n ==> -1 <= #[trigger] best@[j] <= mp,
                forall|j: int|
                    0 <= j < n && #[trigger] best@[j] >= 0 ==> reached_with(adj@, terrain@, start_tile as int, j, mp - best@[j]),
                0 <= u <= n,
                !changed ==> best@ == best0,
                changed ==> slack(best@, points, n as int) < slack(best0, points, n as int),
                !changed ==> forall|uu: int, k: int|
                    0 <= uu < u && 0 <= k < adj@[uu]@.len() ==> #[trigger] relaxed(adj@, terrain@, best@, uu, k),
            decreases n - u,
        {
            let bu = best[u];
            let nb = &adj[u];
            let mut k: usize = 0;
            while k < nb.len()
                invariant
                    n == terrain.len(),
                    adj.len() == n,
                    start_tile < n,
                    mp == points,
                    forall|t: int, kk: int|
                        0 <= t < adj.len() && 0 <= kk < adj@[t].len() ==> (#[trigger] adj@[t]@[kk]) < n,
                    u < n,
                    nb@ == adj@[u as int]@,
                    best.len() == n,
                    best0.len() == n,
                    best@[u as int] == bu,
                    best@[start_tile as int] == mp,
                    forall|j: int| 0 <= j < n ==> -1 <= #[trigger] best@[j] <= mp,
                    forall|j: int|
                        0 <= j < n && #[trigger] best@[j] >= 0 ==> reached_with(adj@, terrain@, start_tile as int, j, mp - best@[j]),
                    0 <= k <= nb.len(),
                    !changed ==> best@ == best0,
                    changed ==> slack(best@, points, n as int) < slack(best0, points, n as int),
                    !changed ==> forall|uu: int, kk: int|
                        0 <= uu < u && 0 <= kk < adj@[uu]@.len() ==> #[trigger] relaxed(adj@, terrain@, best@, uu, kk),
                    !changed ==> forall|kk: int| 0 <= kk < k ==> #[trigger] relaxed(adj@, terrain@, best@, u as int, kk),
                decreases nb.len() - k,
            {
                let v = nb[k];
                assert(adj@[u as int]@[k as int] == v);
                let c = movement_cost(terrain[v]) as i64;
                if c > 0 && c <= bu && best[v] < bu - c {
                    let ghost before = best@;
                    proof {
                        let w = choose|w: Seq<int>|
                            #[trigger] is_walk(adj@, terrain@, start_tile as int, w) && w.last() == u as int
                                && walk_cost(terrain@, w) == mp - bu;
                        assert(adj@[w.last()]@.contains(v));
                        lemma_walk_extend(adj@, terrain@, start_tile as int, w, v as int);
                        assert(reached_with(adj@, terrain@, start_tile as int, v as int, mp - (bu - c)));
                        lemma_slack_update(before, points, n as int, v as int, (bu - c) as i64);
                    }
                    best.set(v, bu - c);
                    changed = true;
                }
                k = k + 1;
            }
            u = u + 1;
        }
        if !changed {
            done = true;
        }
        proof {
            lemma_slack_nonneg(best@, points, n as int);
        }
    }
    let mut reachable: Vec<bool> = Vec::new();
    let mut j: usize = 0;
    while j < n
        invariant
            n == terrain.len(),
            best.len() == n,
            0 <= j <= n,
            reachable.len() == j,
            forall|t: int| 0 <= t < j ==> #[trigger] reachable@[t] == (t != start_tile && best@[t] >= 0),
        decreases n - j,
    {
        reachable.push(j != start_tile && best[j] >= 0);
        j = j + 1;
    }
    proof {
        assert forall|t: int| 0 <= t < n implies (#[trigger] reachable@[t] <==> t != start_tile && reachable_within(
            adj@,
            terrain@,
            start_tile as int,
            t,
            points,
        )) by {
            if reachable@[t] {
                assert(reached_with(adj@, terrain@, start_tile as int, t, mp - best@[t]));
            }
            if t != start_tile && reachable_within(adj@, terrain@, start_tile as int, t, points) {
                let spent = choose|spent: int| 0 <= spent <= points && #[trigger] reached_with(adj@, terrain@, start_tile as int, t, spent);
                let w = choose|w: Seq<int>|
                    #[trigger] is_walk(adj@, terrain@, start_tile as int, w) && w.last() == t && walk_cost(terrain@, w) == spent;
                lemma_settled_reaches(adj@, terrain@, best@, start_tile as int, points, w);
            }
        }
    }
    reachable
}

/// The terrain of each tile of the map.
pub open spec fn terrain_of(q: &TileQuery) -> Seq<TerrainType> {
    Seq::new(q.tiles.len() as nat, |i: int| q.tiles@[i].terrain_type)
}

/// The tiles a unit on tile `start_tile` of the map with `movement_points` can move to
/// this turn ([`calculate_move_range`]), walking from each tile to the tiles next to it
/// on the map's grid.
pub fn calculate_move_range_on_map(
    start_tile: usize,
    movement_points: u32,
    map_parameters: &MapParameters,
    query_tile: &TileQuery,
) -> (reachable: Vec<bool>)
    requires
        query_tile.well_formed(map_parameters),
        start_tile < query_tile.tiles.len(),
    ensures
        reachable.len() == query_tile.tiles.len(),
        exists|adj: Seq<Vec<usize>>|
            #[trigger] lists_neighbors(adj, map_parameters, query_tile) && forall|t: int|
                0 <= t < query_tile.tiles.len() ==> (#[trigger] reachable@[t] <==> t != start_tile
                    && reachable_within(adj, terrain_of(query_tile), start_tile as int, t, movement_points as int)),
{
    let adj = tile_neighbor_lists(map_parameters, query_tile);
    let mut terrain: Vec<TerrainType> = Vec::new();
    let mut i: usize = 0;
    while i < query_tile.tiles.len()
        invariant
            0 <= i <= query_tile.tiles.len(),
            terrain.len() == i,
            forall|j: int| 0 <= j < i ==> #[trigger] terrain@[j] == query_tile.tiles@[j].terrain_type,
        decreases query_tile.tiles.len() - i,
    {
        terrain.push(query_tile.tiles[i].terrain_type);
        i = i + 1;
    }
    assert(terrain@ =~= terrain_of(query_tile));
    let r = calculate_move_range(start_tile, movement_points, &terrain, &adj);
    assert(lists_neighbors(adj@, map_parameters, query_tile));
    r
}

/// Which units a unit may join on a tile: a military unit enters only a tile without
/// military units where at most one civilian stands, of its own nation; a civilian only
/// a tile without civilians where at most one military unit stands, of its own nation.
/// A unit that has movement enters exactly such a tile when no enemy holds it, and then
/// it goes to the target tile.
pub proof fn law_units_stack_only_with_their_own(
    movement: Movement,
    owner: usize,
    is_civilian: bool,
    target_tile: usize,
    target_terrain: TerrainType,
    military_on_tile: Seq<(u64, usize)>,
    civilian_on_tile: Seq<(u64, usize)>,
    neighbors: Seq<(usize, bool)>,
    units_on_target: Seq<(u64, usize)>,
)
    ensures
        ({
            let r = spec_move_action(
                movement,
                owner,
                is_civilian,
                target_tile,
                target_terrain,
                military_on_tile,
                civilian_on_tile,
                neighbors,
                units_on_target,
            );
            let own_military = military_on_tile.len() <= 1 && forall|k: int|
                0 <= k < military_on_tile.len() ==> (#[trigger] military_on_tile[k]).1 == owner;
            let own_civilian = civilian_on_tile.len() <= 1 && forall|k: int|
                0 <= k < civilian_on_tile.len() ==> (#[trigger] civilian_on_tile[k]).1 == owner;
            &&& r is MoveTo ==> {
                &&& r->MoveTo_tile == target_tile
                &&& movement.current > 0
                &&& !is_civilian ==> military_on_tile.len() == 0 && own_civilian
                &&& is_civilian ==> civilian_on_tile.len() == 0 && own_military
            }
            &&& (movement.current > 0 && !is_civilian && military_on_tile.len() == 0 && own_civilian)
                ==> (r is MoveTo && r->MoveTo_tile == target_tile)
            &&& (movement.current > 0 && is_civilian && civilian_on_tile.len() == 0 && own_military)
                ==> (r is MoveTo && r->MoveTo_tile == target_tile)
        }),
{
    if military_on_tile.len() == 1 && military_on_tile[0].1 == owner {
        assert(!has_other_owner(military_on_tile, owner));
    }
    if military_on_tile.len() == 1 && military_on_tile[0].1 != owner {
        assert(has_other_owner(military_on_tile, owner));
    }
}

} // verus!
