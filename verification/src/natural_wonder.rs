//! Placing natural wonders on a generated map: which tiles suit each wonder, which
//! wonders are tried in which order, where each one lands and what it does to the
//! tiles around it.

use crate::area::as_ints;
use crate::draws::{draw_at, extends, lemma_extends_one, lemma_extends_refl, lemma_extends_trans};
use crate::hex::{spec_edge_index, spec_hex_distance, spec_hexes_at_distance, Hex, HexPosition, MapParameters};
use crate::map_gen::{draw_below, edge_neighbor, entity_sorted, lemma_same_positions_keep_well_formed, neighbors_of, order_by_entity, RandomNumberGenerator};
use crate::terrain::{BaseTerrain, Feature, NaturalWonder, TerrainType};
use crate::tile_query::{River, TileQuery, TileQueryItem};
use rand::rngs::StdRng;
use rand::seq::SliceRandom;
use vstd::prelude::*;

verus! {

/// How a wonder is laid on the map.
#[derive(Clone, Copy, Debug, PartialEq, Eq, Structural)]
pub enum WonderShape {
    /// Two tiles in the sea, the chosen one and its neighbor across its second edge;
    /// everything around both becomes coast.
    GreatBarrierReef,
    /// A grassland flat whose land neighbors rise into mountains and whose water
    /// neighbors become coast.
    RockOfGibraltar,
    /// One tile, which takes the wonder's terrain.
    Single,
}

/// Which neighboring tiles a placement condition counts.
#[derive(Clone, Copy, Debug, PartialEq, Eq, Structural)]
pub enum TileFilter {
    /// Mountains and hills.
    Elevated,
    /// Every tile that is not water.
    Land,
    /// Tiles of this terrain type.
    Terrain(TerrainType),
    /// Tiles of this base terrain.
    Base(BaseTerrain),
    /// Tiles with this feature.
    FeatureOf(Feature),
    /// A name that no terrain, base terrain or feature carries: no tile.
    Unknown,
}

/// A condition the rules set on a wonder's tile.
#[derive(Clone, Copy, Debug, PartialEq, Eq, Structural)]
pub enum WonderCondition {
    /// "Must be adjacent to [n] [filter] tiles": exactly `n` neighbors match.
    AdjacentExactly(usize, TileFilter),
    /// "Must be adjacent to [low] to [high] [filter] tiles".
    AdjacentBetween(usize, usize, TileFilter),
    /// "Must not be on [k] largest landmasses".
    NotOnLargestLandmasses(usize),
    /// "Must be on [k] largest landmasses".
    OnLargestLandmasses(usize),
}

/// What the rules say of where one natural wonder may stand and what it becomes.
#[derive(Clone, Debug)]
pub struct WonderRule {
    pub shape: WonderShape,
    /// The tile must have fresh water next to it exactly when this is set.
    pub is_fresh_water: bool,
    pub occurs_on_type: Vec<TerrainType>,
    pub occurs_on_base: Vec<BaseTerrain>,
    pub turns_into_type: Option<TerrainType>,
    pub turns_into_base: Option<BaseTerrain>,
    pub conditions: Vec<WonderCondition>,
}

/// The tile matches the filter.
pub open spec fn filter_matches(f: TileFilter, t: TileQueryItem) -> bool {
    match f {
        TileFilter::Elevated => t.terrain_type == TerrainType::Mountain || t.terrain_type == TerrainType::Hill,
        TileFilter::Land => t.terrain_type != TerrainType::Water,
        TileFilter::Terrain(tt) => t.terrain_type == tt,
        TileFilter::Base(b) => t.base_terrain == b,
        TileFilter::FeatureOf(fe) => t.feature == Some(fe),
        TileFilter::Unknown => false,
    }
}

/// How many of the first `n` tiles listed in `ns` match the filter.
pub open spec fn matching_count(q: &TileQuery, ns: Seq<int>, f: TileFilter, n: int) -> int
    decreases n,
{
    if n <= 0 {
        0
    } else {
        matching_count(q, ns, f, n - 1) + if filter_matches(f, q.tiles@[ns[n - 1]]) {
            1int
        } else {
            0int
        }
    }
}

/// How many neighbors of tile `t` match the filter.
pub open spec fn adjacent_matching(mp: &MapParameters, q: &TileQuery, t: int, f: TileFilter) -> int {
    matching_count(q, q.spec_neighbors(mp, t), f, q.spec_neighbors(mp, t).len() as int)
}

/// Hills and flatlands make up the size of a landmass.
pub open spec fn ranked_land(t: TileQueryItem) -> bool {
    t.terrain_type == TerrainType::Hill || t.terrain_type == TerrainType::Flatland
}

/// How many of the first `n` tiles are hills or flatlands of area `a`.
pub open spec fn land_size(tiles: Seq<TileQueryItem>, a: i32, n: int) -> int
    decreases n,
{
    if n <= 0 {
        0
    } else {
        land_size(tiles, a, n - 1) + if ranked_land(tiles[n - 1]) && tiles[n - 1].area_id == a {
            1int
        } else {
            0int
        }
    }
}

/// The areas that hold hills or flatlands among the first `n` tiles, each once, in
/// the order they first appear.
pub open spec fn land_areas(tiles: Seq<TileQueryItem>, n: int) -> Seq<i32>
    decreases n,
{
    if n <= 0 {
        Seq::empty()
    } else {
        let prev = land_areas(tiles, n - 1);
        if ranked_land(tiles[n - 1]) && !prev.contains(tiles[n - 1].area_id) {
            prev.push(tiles[n - 1].area_id)
        } else {
            prev
        }
    }
}

/// Landmass `b` ranks before landmass `a`: it is larger, or as large with a smaller id.
pub open spec fn ranks_before(tiles: Seq<TileQueryItem>, b: i32, a: i32) -> bool {
    let n = tiles.len() as int;
    land_size(tiles, b, n) > land_size(tiles, a, n) || (land_size(tiles, b, n) == land_size(tiles, a, n) && b < a)
}

/// How many of the first `n` areas listed rank before `a`.
pub open spec fn count_before(tiles: Seq<TileQueryItem>, areas: Seq<i32>, a: i32, n: int) -> int
    decreases n,
{
    if n <= 0 {
        0
    } else {
        count_before(tiles, areas, a, n - 1) + if ranks_before(tiles, areas[n - 1], a) {
            1int
        } else {
            0int
        }
    }
}

/// Area `a` is one of the `k` largest landmasses (ranked by [`ranks_before`]).
pub open spec fn among_largest(tiles: Seq<TileQueryItem>, a: i32, k: int) -> bool {
    let areas = land_areas(tiles, tiles.len() as int);
    areas.contains(a) && count_before(tiles, areas, a, areas.len() as int) < k
}

/// Tile `t` meets the condition.
pub open spec fn condition_holds(mp: &MapParameters, q: &TileQuery, c: WonderCondition, t: int) -> bool {
    match c {
        WonderCondition::AdjacentExactly(n, f) => adjacent_matching(mp, q, t, f) == n,
        WonderCondition::AdjacentBetween(low, high, f) => low <= adjacent_matching(mp, q, t, f) <= high,
        WonderCondition::NotOnLargestLandmasses(k) => !among_largest(q.tiles@, q.tiles@[t].area_id, k as int),
        WonderCondition::OnLargestLandmasses(k) => among_largest(q.tiles@, q.tiles@[t].area_id, k as int),
    }
}

/// Tile `t` suits a wonder laid by the general rules: its fresh water is as the
/// rule asks, its terrain type and base terrain are among the allowed ones and every
/// condition holds.
pub open spec fn fits_rule(mp: &MapParameters, river: &River, q: &TileQuery, rule: WonderRule, t: int) -> bool {
    &&& TileQueryItem::spec_is_freshwater(mp, river, q, t) == rule.is_fresh_water
    &&& rule.occurs_on_type@.contains(q.tiles@[t].terrain_type)
    &&& rule.occurs_on_base@.contains(q.tiles@[t].base_terrain)
    &&& forall|c: int| 0 <= c < rule.conditions.len() ==> #[trigger] condition_holds(mp, q, rule.conditions@[c], t)
}

/// Open sea for a reef: water that is not a lake and not frozen.
pub open spec fn reef_water(t: TileQueryItem) -> bool {
    &&& t.terrain_type == TerrainType::Water
    &&& t.base_terrain != BaseTerrain::Lake
    &&& t.feature != Some(Feature::Ice)
}

/// The tiles around the pair `t`, `n`: their neighbors, the pair itself left out.
pub open spec fn reef_ring(mp: &MapParameters, q: &TileQuery, t: int, n: int) -> Set<int> {
    q.spec_neighbors(mp, t).to_set().union(q.spec_neighbors(mp, n).to_set()).remove(t).remove(n)
}

/// The coast tiles among `s`.
pub open spec fn coast_in(q: &TileQuery, s: Set<int>) -> Set<int> {
    s.filter(|x: int| q.tiles@[x].base_terrain == BaseTerrain::Coast)
}

/// Tile `t` suits the Great Barrier Reef: it has a neighbor across its second edge,
/// and the eight tiles around the two are open sea, at least four of them coast.
pub open spec fn reef_fits(mp: &MapParameters, q: &TileQuery, t: int) -> bool {
    match edge_neighbor(mp, q, t, 1) {
        Some(n) => {
            let s = reef_ring(mp, q, t, n);
            &&& s.len() == 8
            &&& forall|x: int| #[trigger] s.contains(x) ==> reef_water(q.tiles@[x])
            &&& coast_in(q, s).len() >= 4
        },
        None => false,
    }
}

/// Tile `t` suits the wonder.
pub open spec fn wonder_fits(mp: &MapParameters, river: &River, q: &TileQuery, rule: WonderRule, t: int) -> bool {
    match rule.shape {
        WonderShape::GreatBarrierReef => reef_fits(mp, q, t),
        _ => fits_rule(mp, river, q, rule, t),
    }
}

/// The tiles among the first `k` of `order` that suit the wonder, in that order.
pub open spec fn wonder_sites(
    mp: &MapParameters,
    river: &River,
    q: &TileQuery,
    rule: WonderRule,
    order: Seq<usize>,
    k: int,
) -> Seq<int>
    decreases k,
{
    if k <= 0 {
        Seq::empty()
    } else {
        let prev = wonder_sites(mp, river, q, rule, order, k - 1);
        if wonder_fits(mp, river, q, rule, order[k - 1] as int) {
            prev.push(order[k - 1] as int)
        } else {
            prev
        }
    }
}

/// The suitable tiles of every wonder, tiles taken in the order `order`.
pub open spec fn all_sites(mp: &MapParameters, river: &River, q: &TileQuery, rules: Seq<WonderRule>, order: Seq<usize>) -> Seq<Seq<int>> {
    Seq::new(rules.len(), |w: int| wonder_sites(mp, river, q, rules[w], order, order.len() as int))
}

/// The wonders among the first `n` that have a suitable tile, by increasing index.
pub open spec fn placeable(sites: Seq<Seq<int>>, n: int) -> Seq<usize>
    decreases n,
{
    if n <= 0 {
        Seq::empty()
    } else {
        let prev = placeable(sites, n - 1);
        if sites[n - 1].len() > 0 {
            prev.push((n - 1) as usize)
        } else {
            prev
        }
    }
}


proof fn lemma_land_size_bound(tiles: Seq<TileQueryItem>, a: i32, n: int)
    requires
        0 <= n,
    ensures
        0 <= land_size(tiles, a, n) <= n,
    decreases n,
{
    if n > 0 {
        lemma_land_size_bound(tiles, a, n - 1);
    }
}

/// An area that holds no hill or flatland among the first `n` tiles has size 0 there.
proof fn lemma_unlisted_area_empty(tiles: Seq<TileQueryItem>, a: i32, n: int)
    requires
        0 <= n,
        !land_areas(tiles, n).contains(a),
    ensures
        land_size(tiles, a, n) == 0,
    decreases n,
{
    if n > 0 {
        let prev = land_areas(tiles, n - 1);
        if ranked_land(tiles[n - 1]) && !prev.contains(tiles[n - 1].area_id) {
            assert(prev.push(tiles[n - 1].area_id)[prev.len() as int] == tiles[n - 1].area_id);
            assert forall|x: i32| prev.contains(x) implies prev.push(tiles[n - 1].area_id).contains(x) by {
                let k = choose|k: int| 0 <= k < prev.len() && prev[k] == x;
                assert(prev.push(tiles[n - 1].area_id)[k] == x);
            }
        }
        lemma_unlisted_area_empty(tiles, a, n - 1);
    }
}

/// Where `a` stands in `areas`, if it does.
fn index_of_area(areas: &Vec<i32>, a: i32) -> (r: Option<usize>)
    ensures
        match r {
            Some(j) => j < areas.len() && areas@[j as int] == a,
            None => !areas@.contains(a),
        },
{
    let mut j: usize = 0;
    while j < areas.len()
        invariant
            0 <= j <= areas.len(),
            forall|k: int| 0 <= k < j ==> areas@[k] != a,
        decreases areas.len() - j,
    {
        if areas[j] == a {
            return Some(j);
        }
        j = j + 1;
    }
    None
}

/// The landmasses of the map and their sizes: each area that holds hills or
/// flatlands, in the order of first appearance, with its number of such tiles.
fn landmasses(q: &TileQuery) -> (r: (Vec<i32>, Vec<usize>))
    ensures
        r.0@ == land_areas(q.tiles@, q.tiles.len() as int),
        r.0@.no_duplicates(),
        r.1.len() == r.0.len(),
        forall|j: int| 0 <= j < r.1.len() ==> #[trigger] r.1@[j] == land_size(q.tiles@, r.0@[j], q.tiles.len() as int),
{
    let n = q.tiles.len();
    let mut areas: Vec<i32> = Vec::new();
    let mut sizes: Vec<usize> = Vec::new();
    let mut i: usize = 0;
    while i < n
        invariant
            n == q.tiles.len(),
            0 <= i <= n,
            areas@ == land_areas(q.tiles@, i as int),
            areas@.no_duplicates(),
            sizes.len() == areas.len(),
            forall|j: int| 0 <= j < sizes.len() ==> #[trigger] sizes@[j] == land_size(q.tiles@, areas@[j], i as int),
        decreases n - i,
    {
        let t = q.tiles[i];
        let ghost sizes_b = sizes@;
        let ghost areas_b = areas@;
        if t.terrain_type == TerrainType::Hill || t.terrain_type == TerrainType::Flatland {
            match index_of_area(&areas, t.area_id) {
                Some(j) => {
                    proof {
                        lemma_land_size_bound(q.tiles@, t.area_id, i as int);
                        assert(areas@.contains(t.area_id));
                    }
                    let grown = sizes[j] + 1;
                    sizes.set(j, grown);
                    proof {
                        assert forall|k: int| 0 <= k < sizes.len() implies #[trigger] sizes@[k] == land_size(
                            q.tiles@,
                            areas@[k],
                            i + 1,
                        ) by {
                            if k != j {
                                assert(areas@[k] != areas@[j as int]);
                            }
                        }
                    }
                },
                None => {
                    proof {
                        lemma_unlisted_area_empty(q.tiles@, t.area_id, i as int);
                    }
                    areas.push(t.area_id);
                    sizes.push(1);
                    proof {
                        assert forall|k: int| 0 <= k < sizes.len() implies #[trigger] sizes@[k] == land_size(
                            q.tiles@,
                            areas@[k],
                            i + 1,
                        ) by {
                            if k < areas_b.len() {
                                assert(areas@[k] == areas_b[k]);
                                assert(areas_b.contains(areas_b[k]));
                            }
                        }
                        assert forall|x: int, y: int| 0 <= x < areas.len() && 0 <= y < areas.len() && x != y implies areas@[x] != areas@[y] by {
                            if x < areas_b.len() && y < areas_b.len() {
                            } else if x < areas_b.len() {
                                assert(areas_b.contains(areas_b[x]));
                            } else {
                                assert(areas_b.contains(areas_b[y]));
                            }
                        }
                    }
                },
            }
        }
        i = i + 1;
    }
    (areas, sizes)
}

/// Whether area `a` is one of the `k` largest landmasses.
fn among_largest_at(q: &TileQuery, areas: &Vec<i32>, sizes: &Vec<usize>, a: i32, k: usize) -> (r: bool)
    requires
        areas@ == land_areas(q.tiles@, q.tiles.len() as int),
        sizes.len() == areas.len(),
        forall|j: int| 0 <= j < sizes.len() ==> #[trigger] sizes@[j] == land_size(q.tiles@, areas@[j], q.tiles.len() as int),
    ensures
        r == among_largest(q.tiles@, a, k as int),
{
    match index_of_area(areas, a) {
        None => false,
        Some(ja) => {
            let sa = sizes[ja];
            let mut cnt: usize = 0;
            let mut j: usize = 0;
            while j < areas.len()
                invariant
                    areas@ == land_areas(q.tiles@, q.tiles.len() as int),
                    sizes.len() == areas.len(),
                    forall|m: int| 0 <= m < sizes.len() ==> #[trigger] sizes@[m] == land_size(q.tiles@, areas@[m], q.tiles.len() as int),
                    ja < areas.len(),
                    areas@[ja as int] == a,
                    sa == sizes@[ja as int],
                    0 <= j <= areas.len(),
                    cnt <= j,
                    cnt == count_before(q.tiles@, areas@, a, j as int),
                decreases areas.len() - j,
            {
                if sizes[j] > sa || (sizes[j] == sa && areas[j] < a) {
                    cnt = cnt + 1;
                }
                j = j + 1;
            }
            proof {
                assert(areas@.contains(a));
            }
            cnt < k
        },
    }
}

/// Whether the tile matches the filter.
fn matches_filter(f: TileFilter, t: &TileQueryItem) -> (r: bool)
    ensures
        r == filter_matches(f, *t),
{
    match f {
        TileFilter::Elevated => t.terrain_type == TerrainType::Mountain || t.terrain_type == TerrainType::Hill,
        TileFilter::Land => t.terrain_type != TerrainType::Water,
        TileFilter::Terrain(tt) => t.terrain_type == tt,
        TileFilter::Base(b) => t.base_terrain == b,
        TileFilter::FeatureOf(fe) => match t.feature {
            Some(g) => g == fe,
            None => false,
        },
        TileFilter::Unknown => false,
    }
}

/// How many neighbors of tile `t` match the filter.
fn adjacent_count(t: usize, f: TileFilter, mp: &MapParameters, q: &TileQuery) -> (r: usize)
    requires
        q.well_formed(mp),
        t < q.tiles.len(),
    ensures
        r == adjacent_matching(mp, q, t as int, f),
{
    let ns = neighbors_of(t, mp, q);
    let mut cnt: usize = 0;
    let mut m: usize = 0;
    while m < ns.len()
        invariant
            q.well_formed(mp),
            t < q.tiles.len(),
            ns@.len() == q.spec_neighbors(mp, t as int).len(),
            forall|k: int| 0 <= k < ns.len() ==> #[trigger] ns@[k] as int == q.spec_neighbors(mp, t as int)[k],
            forall|k: int| 0 <= k < ns.len() ==> #[trigger] ns@[k] < q.tiles.len(),
            0 <= m <= ns.len(),
            cnt <= m,
            cnt == matching_count(q, q.spec_neighbors(mp, t as int), f, m as int),
        decreases ns.len() - m,
    {
        assert(ns@[m as int] as int == q.spec_neighbors(mp, t as int)[m as int]);
        if matches_filter(f, &q.tiles[ns[m]]) {
            cnt = cnt + 1;
        }
        m = m + 1;
    }
    cnt
}

/// Whether tile `t` meets the condition.
fn condition_at(
    c: WonderCondition,
    t: usize,
    mp: &MapParameters,
    q: &TileQuery,
    areas: &Vec<i32>,
    sizes: &Vec<usize>,
) -> (r: bool)
    requires
        q.well_formed(mp),
        t < q.tiles.len(),
        areas@ == land_areas(q.tiles@, q.tiles.len() as int),
        sizes.len() == areas.len(),
        forall|j: int| 0 <= j < sizes.len() ==> #[trigger] sizes@[j] == land_size(q.tiles@, areas@[j], q.tiles.len() as int),
    ensures
        r == condition_holds(mp, q, c, t as int),
{
    match c {
        WonderCondition::AdjacentExactly(n, f) => adjacent_count(t, f, mp, q) == n,
        WonderCondition::AdjacentBetween(low, high, f) => {
            let count = adjacent_count(t, f, mp, q);
            count >= low && count <= high
        },
        WonderCondition::NotOnLargestLandmasses(k) => !among_largest_at(q, areas, sizes, q.tiles[t].area_id, k),
        WonderCondition::OnLargestLandmasses(k) => among_largest_at(q, areas, sizes, q.tiles[t].area_id, k),
    }
}

/// Whether the terrain type is listed.
pub(crate) fn lists_type(v: &Vec<TerrainType>, x: TerrainType) -> (r: bool)
    ensures
        r == v@.contains(x),
{
    let mut j: usize = 0;
    while j < v.len()
        invariant
            0 <= j <= v.len(),
            forall|k: int| 0 <= k < j ==> v@[k] != x,
        decreases v.len() - j,
    {
        if v[j] == x {
            assert(v@[j as int] == x);
            return true;
        }
        j = j + 1;
    }
    false
}

/// Whether the base terrain is listed.
pub(crate) fn lists_base(v: &Vec<BaseTerrain>, x: BaseTerrain) -> (r: bool)
    ensures
        r == v@.contains(x),
{
    let mut j: usize = 0;
    while j < v.len()
        invariant
            0 <= j <= v.len(),
            forall|k: int| 0 <= k < j ==> v@[k] != x,
        decreases v.len() - j,
    {
        if v[j] == x {
            assert(v@[j as int] == x);
            return true;
        }
        j = j + 1;
    }
    false
}

/// Whether tile `t` suits a wonder laid by the general rules.
fn fits_rule_at(
    rule: &WonderRule,
    t: usize,
    mp: &MapParameters,
    river: &River,
    q: &TileQuery,
    areas: &Vec<i32>,
    sizes: &Vec<usize>,
) -> (r: bool)
    requires
        q.well_formed(mp),
        t < q.tiles.len(),
        areas@ == land_areas(q.tiles@, q.tiles.len() as int),
        sizes.len() == areas.len(),
        forall|j: int| 0 <= j < sizes.len() ==> #[trigger] sizes@[j] == land_size(q.tiles@, areas@[j], q.tiles.len() as int),
    ensures
        r == fits_rule(mp, river, q, *rule, t as int),
{
    let tile = q.tiles[t];
    if tile.is_freshwater(t, mp, river, q) != rule.is_fresh_water {
        return false;
    }
    if !lists_type(&rule.occurs_on_type, tile.terrain_type) || !lists_base(&rule.occurs_on_base, tile.base_terrain) {
        return false;
    }
    let mut c: usize = 0;
    while c < rule.conditions.len()
        invariant
            q.well_formed(mp),
            t < q.tiles.len(),
            areas@ == land_areas(q.tiles@, q.tiles.len() as int),
            sizes.len() == areas.len(),
            forall|j: int| 0 <= j < sizes.len() ==> #[trigger] sizes@[j] == land_size(q.tiles@, areas@[j], q.tiles.len() as int),
            0 <= c <= rule.conditions.len(),
            forall|k: int| 0 <= k < c ==> #[trigger] condition_holds(mp, q, rule.conditions@[k], t as int),
        decreases rule.conditions.len() - c,
    {
        if !condition_at(rule.conditions[c], t, mp, q, areas, sizes) {
            return false;
        }
        c = c + 1;
    }
    true
}


/// A list without repeats stays so when a new element is added, and holds the same
/// elements and the new one.
proof fn lemma_push_new(s: Seq<int>, x: int)
    requires
        s.no_duplicates(),
        !s.contains(x),
    ensures
        s.push(x).no_duplicates(),
        forall|y: int| #[trigger] s.push(x).contains(y) <==> s.contains(y) || y == x,
{
    assert forall|y: int| #[trigger] s.push(x).contains(y) <==> s.contains(y) || y == x by {
        if s.push(x).contains(y) {
            let k = choose|k: int| 0 <= k < s.push(x).len() && s.push(x)[k] == y;
            if k < s.len() {
                assert(s[k] == y);
            }
        }
        if s.contains(y) {
            let k = choose|k: int| 0 <= k < s.len() && s[k] == y;
            assert(s.push(x)[k] == y);
        }
        if y == x {
            assert(s.push(x)[s.len() as int] == y);
        }
    }
    assert forall|a: int, b: int| 0 <= a < s.push(x).len() && 0 <= b < s.push(x).len() && a != b implies s.push(x)[a]
        != s.push(x)[b] by {
        if a < s.len() && b < s.len() {
        } else if a < s.len() {
            assert(s.contains(s[a]));
        } else {
            assert(s.contains(s[b]));
        }
    }
}

proof fn lemma_cells_len(mp: &MapParameters, hs: Seq<(int, int)>)
    ensures
        mp.spec_cells(hs).len() <= hs.len(),
    decreases hs.len(),
{
    if hs.len() > 0 {
        lemma_cells_len(mp, hs.drop_last());
    }
}

/// A tile has at most six neighbors.
pub(crate) proof fn lemma_few_neighbors(mp: &MapParameters, q: &TileQuery, t: int)
    ensures
        q.spec_neighbors(mp, t).len() <= 6,
{
    let p = q.tiles@[t].hex_position.pair();
    HexPosition::lemma_ring_len(p.0, p.1, 1, 6);
    lemma_cells_len(mp, spec_hexes_at_distance(p.0, p.1, 1));
}

/// Whether `x` is listed.
fn lists_index(v: &Vec<usize>, x: usize) -> (r: bool)
    ensures
        r == v@.contains(x),
{
    let mut j: usize = 0;
    while j < v.len()
        invariant
            0 <= j <= v.len(),
            forall|k: int| 0 <= k < j ==> v@[k] != x,
        decreases v.len() - j,
    {
        if v[j] == x {
            assert(v@[j as int] == x);
            return true;
        }
        j = j + 1;
    }
    false
}

/// Whether tile `t` suits the Great Barrier Reef.
fn reef_fits_at(t: usize, mp: &MapParameters, q: &TileQuery) -> (r: bool)
    requires
        q.well_formed(mp),
        t < q.tiles.len(),
    ensures
        r == reef_fits(mp, q, t as int),
{
    let dirs = mp.edge_direction_array();
    assert(q.tiles@[t as int].hex_position.small_pos());
    assert(spec_edge_index(mp.orientation, dirs[1]) == 1);
    match q.tiles[t].hex_position.index_neighbor(mp, dirs[1]) {
        None => false,
        Some(n) => {
            let ghost a = q.spec_neighbors(mp, t as int);
            let ghost b = q.spec_neighbors(mp, n as int);
            let ghost l = a + b;
            let nt = neighbors_of(t, mp, q);
            let nn = neighbors_of(n, mp, q);
            proof {
                lemma_few_neighbors(mp, q, t as int);
                lemma_few_neighbors(mp, q, n as int);
            }
            let total = nt.len() + nn.len();
            let mut ring: Vec<usize> = Vec::new();
            let mut coast: usize = 0;
            let mut open_sea = true;
            let ghost mut gr: Seq<int> = Seq::empty();
            let ghost mut gc: Seq<int> = Seq::empty();
            let mut m: usize = 0;
            while m < total
                invariant
                    q.well_formed(mp),
                    t < q.tiles.len(),
                    n < q.tiles.len(),
                    a == q.spec_neighbors(mp, t as int),
                    b == q.spec_neighbors(mp, n as int),
                    l == a + b,
                    total == nt.len() + nn.len(),
                    nt@.len() == a.len(),
                    nn@.len() == b.len(),
                    forall|k: int| 0 <= k < nt.len() ==> #[trigger] nt@[k] as int == a[k],
                    forall|k: int| 0 <= k < nn.len() ==> #[trigger] nn@[k] as int == b[k],
                    forall|k: int| 0 <= k < nt.len() ==> #[trigger] nt@[k] < q.tiles.len(),
                    forall|k: int| 0 <= k < nn.len() ==> #[trigger] nn@[k] < q.tiles.len(),
                    0 <= m <= total,
                    gr.len() == ring.len(),
                    forall|k: int| 0 <= k < ring.len() ==> #[trigger] gr[k] == ring@[k] as int,
                    forall|k: int| 0 <= k < ring.len() ==> #[trigger] ring@[k] < q.tiles.len(),
                    gr.no_duplicates(),
                    forall|y: int| #[trigger] gr.contains(y) ==> y != t && y != n && (a.contains(y) || b.contains(y)),
                    forall|j: int| 0 <= j < m && #[trigger] l[j] != t && l[j] != n ==> gr.contains(l[j]),
                    open_sea == forall|k: int| 0 <= k < gr.len() ==> #[trigger] reef_water(q.tiles@[gr[k]]),
                    gc.no_duplicates(),
                    forall|y: int| #[trigger] gc.contains(y) <==> gr.contains(y) && q.tiles@[y].base_terrain == BaseTerrain::Coast,
                    coast == gc.len(),
                    coast <= ring.len(),
                    ring.len() <= m,
                decreases total - m,
            {
                let x = if m < nt.len() {
                    nt[m]
                } else {
                    nn[m - nt.len()]
                };
                assert(x as int == l[m as int]);
                let listed = lists_index(&ring, x);
                proof {
                    if listed {
                        let k = choose|k: int| 0 <= k < ring.len() && ring@[k] == x;
                        assert(gr[k] == x as int);
                    }
                }
                if x != t && x != n && !listed {
                    proof {
                        assert(!gr.contains(x as int)) by {
                            if gr.contains(x as int) {
                                let k = choose|k: int| 0 <= k < gr.len() && gr[k] == x as int;
                                assert(ring@[k] == x);
                            }
                        }
                        if m < nt.len() {
                            assert(a[m as int] == x as int);
                            assert(a.contains(x as int));
                        } else {
                            assert(b[m - nt.len()] == x as int);
                            assert(b.contains(x as int));
                        }
                        lemma_push_new(gr, x as int);
                    }
                    let ghost gr_b = gr;
                    ring.push(x);
                    proof {
                        gr = gr.push(x as int);
                        assert(forall|k: int| 0 <= k < gr_b.len() ==> #[trigger] gr[k] == gr_b[k]);
                    }
                    let tile = q.tiles[x];
                    let sea = tile.terrain_type == TerrainType::Water && tile.base_terrain != BaseTerrain::Lake && match tile.feature {
                        Some(f) => f != Feature::Ice,
                        None => true,
                    };
                    let ghost open_b = open_sea;
                    if !sea {
                        open_sea = false;
                    }
                    proof {
                        assert(reef_water(q.tiles@[gr[gr.len() - 1]]) == sea);
                        if open_sea {
                            assert forall|k: int| 0 <= k < gr.len() implies #[trigger] reef_water(q.tiles@[gr[k]]) by {
                                if k < gr_b.len() {
                                    assert(gr[k] == gr_b[k]);
                                }
                            }
                        } else if !sea {
                            assert(!reef_water(q.tiles@[gr[gr.len() - 1]]));
                        } else {
                            let k = choose|k: int| 0 <= k < gr_b.len() && !reef_water(q.tiles@[gr_b[k]]);
                            assert(gr[k] == gr_b[k]);
                        }
                    }
                    if tile.base_terrain == BaseTerrain::Coast {
                        proof {
                            lemma_push_new(gc, x as int);
                            gc = gc.push(x as int);
                        }
                        coast = coast + 1;
                    }
                }
                m = m + 1;
            }
            proof {
                let s = reef_ring(mp, q, t as int, n as int);
                assert(gr.to_set() =~= s) by {
                    assert forall|y: int| s.contains(y) implies gr.to_set().contains(y) by {
                        if a.contains(y) {
                            let j = choose|j: int| 0 <= j < a.len() && a[j] == y;
                            assert(l[j] == y);
                        } else {
                            let j = choose|j: int| 0 <= j < b.len() && b[j] == y;
                            assert(l[a.len() + j] == y);
                        }
                    }
                }
                assert(gc.to_set() =~= coast_in(q, s));
                gr.unique_seq_to_set();
                gc.unique_seq_to_set();
                assert(open_sea == forall|y: int| #[trigger] s.contains(y) ==> reef_water(q.tiles@[y])) by {
                    if open_sea {
                        assert forall|y: int| #[trigger] s.contains(y) implies reef_water(q.tiles@[y]) by {
                            assert(gr.to_set().contains(y));
                            let k = choose|k: int| 0 <= k < gr.len() && gr[k] == y;
                        }
                    } else {
                        let k = choose|k: int| 0 <= k < gr.len() && !reef_water(q.tiles@[gr[k]]);
                        assert(gr.to_set().contains(gr[k]));
                    }
                }
            }
            ring.len() == 8 && open_sea && coast >= 4
        },
    }
}


/// Whether tile `t` suits the wonder.
fn wonder_fits_at(
    rule: &WonderRule,
    t: usize,
    mp: &MapParameters,
    river: &River,
    q: &TileQuery,
    areas: &Vec<i32>,
    sizes: &Vec<usize>,
) -> (r: bool)
    requires
        q.well_formed(mp),
        t < q.tiles.len(),
        areas@ == land_areas(q.tiles@, q.tiles.len() as int),
        sizes.len() == areas.len(),
        forall|j: int| 0 <= j < sizes.len() ==> #[trigger] sizes@[j] == land_size(q.tiles@, areas@[j], q.tiles.len() as int),
    ensures
        r == wonder_fits(mp, river, q, *rule, t as int),
{
    match rule.shape {
        WonderShape::GreatBarrierReef => reef_fits_at(t, mp, q),
        _ => fits_rule_at(rule, t, mp, river, q, areas, sizes),
    }
}

/// The suitable tiles of every wonder, tiles taken in `order`.
fn sites_of(
    rules: &Vec<WonderRule>,
    order: &Vec<usize>,
    mp: &MapParameters,
    river: &River,
    q: &TileQuery,
) -> (r: Vec<Vec<usize>>)
    requires
        q.well_formed(mp),
        forall|k: int| 0 <= k < order.len() ==> #[trigger] order@[k] < q.tiles.len(),
    ensures
        r.len() == rules.len(),
        forall|w: int| 0 <= w < r.len() ==> #[trigger] as_ints(r@[w]@) == all_sites(mp, river, q, rules@, order@)[w],
        forall|w: int, i: int| 0 <= w < r.len() && 0 <= i < r@[w].len() ==> #[trigger] r@[w]@[i] < q.tiles.len(),
{
    let (areas, sizes) = landmasses(q);
    let mut r: Vec<Vec<usize>> = Vec::new();
    let mut w: usize = 0;
    while w < rules.len()
        invariant
            q.well_formed(mp),
            forall|k: int| 0 <= k < order.len() ==> #[trigger] order@[k] < q.tiles.len(),
            areas@ == land_areas(q.tiles@, q.tiles.len() as int),
            sizes.len() == areas.len(),
            forall|j: int| 0 <= j < sizes.len() ==> #[trigger] sizes@[j] == land_size(q.tiles@, areas@[j], q.tiles.len() as int),
            0 <= w <= rules.len(),
            r.len() == w,
            forall|v: int| 0 <= v < r.len() ==> #[trigger] as_ints(r@[v]@) == all_sites(mp, river, q, rules@, order@)[v],
            forall|v: int, i: int| 0 <= v < r.len() && 0 <= i < r@[v].len() ==> #[trigger] r@[v]@[i] < q.tiles.len(),
        decreases rules.len() - w,
    {
        let rule = &rules[w];
        let mut list: Vec<usize> = Vec::new();
        let mut k: usize = 0;
        while k < order.len()
            invariant
                q.well_formed(mp),
                forall|m: int| 0 <= m < order.len() ==> #[trigger] order@[m] < q.tiles.len(),
                areas@ == land_areas(q.tiles@, q.tiles.len() as int),
                sizes.len() == areas.len(),
                forall|j: int| 0 <= j < sizes.len() ==> #[trigger] sizes@[j] == land_size(q.tiles@, areas@[j], q.tiles.len() as int),
                0 <= k <= order.len(),
                as_ints(list@) == wonder_sites(mp, river, q, *rule, order@, k as int),
                forall|i: int| 0 <= i < list.len() ==> #[trigger] list@[i] < q.tiles.len(),
            decreases order.len() - k,
        {
            let t = order[k];
            if wonder_fits_at(rule, t, mp, river, q, &areas, &sizes) {
                list.push(t);
                proof {
                    assert(as_ints(list@) =~= wonder_sites(mp, river, q, *rule, order@, k as int).push(t as int));
                }
            }
            k = k + 1;
        }
        let ghost before = r@;
        r.push(list);
        proof {
            assert forall|v: int| 0 <= v < r.len() implies #[trigger] as_ints(r@[v]@) == all_sites(mp, river, q, rules@, order@)[v] by {
                if v < before.len() {
                    assert(r@[v] == before[v]);
                }
            }
            assert forall|v: int, i: int| 0 <= v < r.len() && 0 <= i < r@[v].len() implies #[trigger] r@[v]@[i] < q.tiles.len() by {
                if v < before.len() {
                    assert(r@[v] == before[v]);
                }
            }
        }
        w = w + 1;
    }
    r
}

/// The wonders that have a suitable tile, by increasing index.
fn placeable_wonders(sites: &Vec<Vec<usize>>, Ghost(spec_sites): Ghost<Seq<Seq<int>>>) -> (r: Vec<usize>)
    requires
        spec_sites.len() == sites.len(),
        forall|w: int| 0 <= w < sites.len() ==> #[trigger] as_ints(sites@[w]@) == spec_sites[w],
    ensures
        r@ == placeable(spec_sites, sites.len() as int),
        forall|k: int| 0 <= k < r.len() ==> #[trigger] r@[k] < sites.len(),
{
    let mut r: Vec<usize> = Vec::new();
    let mut w: usize = 0;
    while w < sites.len()
        invariant
            spec_sites.len() == sites.len(),
            forall|v: int| 0 <= v < sites.len() ==> #[trigger] as_ints(sites@[v]@) == spec_sites[v],
            0 <= w <= sites.len(),
            r@ == placeable(spec_sites, w as int),
            forall|k: int| 0 <= k < r.len() ==> #[trigger] r@[k] < w,
        decreases sites.len() - w,
    {
        assert(as_ints(sites@[w as int]@).len() == sites@[w as int]@.len());
        if sites[w].len() > 0 {
            r.push(w);
        }
        w = w + 1;
    }
    r
}

/// Puts the list in an order drawn by rand's `SliceRandom::shuffle`, which only swaps
/// elements: what comes out is a rearrangement of what went in; which one is left open.
#[verifier::external_body]
fn shuffle_wonders(list: &mut Vec<usize>, rng: &mut StdRng)
    ensures
        final(list)@.to_multiset() == old(list)@.to_multiset(),
{
    list.shuffle(rng);
}


/// The distance from tile `c` to the nearest of the first `n` tiles of `placed`
/// (1000000 when there is none).
pub open spec fn closest_wonder(q: &TileQuery, placed: Seq<int>, c: int, n: int) -> int
    decreases n,
{
    if n <= 0 {
        1000000
    } else {
        let dd = spec_hex_distance(q.tiles@[c].hex_position.pair(), q.tiles@[placed[n - 1]].hex_position.pair());
        if n == 1 {
            dd
        } else {
            let prev = closest_wonder(q, placed, c, n - 1);
            if dd < prev {
                dd
            } else {
                prev
            }
        }
    }
}

/// A site's score before its random part: a hundred per step to the nearest placed
/// wonder up to ten steps, then a thousand and one per step beyond.
pub open spec fn distance_score(dist: int) -> int {
    if dist <= 10 {
        100 * dist
    } else {
        1000 + (dist - 10)
    }
}

/// The score of the `i`-th site: its distance score and the draw at `pos + i`.
pub open spec fn site_score(q: &TileQuery, placed: Seq<int>, sites: Seq<int>, d: Seq<u32>, pos: int, i: int) -> int {
    distance_score(closest_wonder(q, placed, sites[i], placed.len() as int)) + draw_at(d, pos + i)
}

/// Which of the first `n` sites scores highest, the last one among equals.
pub open spec fn best_site(q: &TileQuery, placed: Seq<int>, sites: Seq<int>, d: Seq<u32>, pos: int, n: int) -> int
    decreases n,
{
    if n <= 1 {
        0
    } else {
        let prev = best_site(q, placed, sites, d, pos, n - 1);
        if site_score(q, placed, sites, d, pos, n - 1) >= site_score(q, placed, sites, d, pos, prev) {
            n - 1
        } else {
            prev
        }
    }
}

/// The tile with its feature cleared.
pub open spec fn without_feature(t: TileQueryItem) -> TileQueryItem {
    TileQueryItem { feature: None, ..t }
}

/// The tile turned into coast water.
pub open spec fn as_coast_water(t: TileQueryItem) -> TileQueryItem {
    TileQueryItem { terrain_type: TerrainType::Water, base_terrain: BaseTerrain::Coast, ..t }
}

/// The tile holding wonder `w`.
pub open spec fn with_wonder(t: TileQueryItem, w: usize) -> TileQueryItem {
    TileQueryItem { natural_wonder: Some(NaturalWonder(w)), ..t }
}

/// The tiles after the first `n` tiles listed in `ns` are turned into coast water.
pub open spec fn flood_coast(tiles: Seq<TileQueryItem>, ns: Seq<int>, n: int) -> Seq<TileQueryItem>
    decreases n,
{
    if n <= 0 {
        tiles
    } else {
        let prev = flood_coast(tiles, ns, n - 1);
        prev.update(ns[n - 1], as_coast_water(prev[ns[n - 1]]))
    }
}

/// The tiles after the first `n` tiles listed in `ns` are raised around a rock: one
/// that was water on the map `q` becomes coast, any other becomes a mountain.
pub open spec fn rock_ring(q: &TileQuery, tiles: Seq<TileQueryItem>, ns: Seq<int>, n: int) -> Seq<TileQueryItem>
    decreases n,
{
    if n <= 0 {
        tiles
    } else {
        let prev = rock_ring(q, tiles, ns, n - 1);
        let x = ns[n - 1];
        prev.update(
            x,
            if q.tiles@[x].terrain_type == TerrainType::Water {
                TileQueryItem { base_terrain: BaseTerrain::Coast, ..prev[x] }
            } else {
                TileQueryItem { terrain_type: TerrainType::Mountain, ..prev[x] }
            },
        )
    }
}

/// The tiles and the list of wonder tiles after wonder `w` is laid at tile `c`: the
/// tile loses its feature; a reef floods the surroundings of `c` and of its neighbor
/// across the second edge with coast and takes both tiles; a rock raises its ring
/// ([`rock_ring`]) and becomes a grassland flat; any other wonder gives its tile the
/// terrain type and base terrain it turns into, where it has them. The terrain read
/// to decide is that of the map `q` as it was before any wonder.
pub open spec fn set_wonder(
    mp: &MapParameters,
    q: &TileQuery,
    rule: WonderRule,
    w: usize,
    c: int,
    tiles: Seq<TileQueryItem>,
    placed: Seq<int>,
) -> (Seq<TileQueryItem>, Seq<int>) {
    let t1 = tiles.update(c, without_feature(tiles[c]));
    let nc = q.spec_neighbors(mp, c);
    match rule.shape {
        WonderShape::GreatBarrierReef => match edge_neighbor(mp, q, c, 1) {
            Some(n) => {
                let nn = q.spec_neighbors(mp, n);
                let t2 = flood_coast(flood_coast(t1, nc, nc.len() as int), nn, nn.len() as int);
                let t3 = t2.update(c, with_wonder(t2[c], w));
                (t3.update(n, with_wonder(t3[n], w)), placed.push(c).push(n))
            },
            None => (t1, placed),
        },
        WonderShape::RockOfGibraltar => {
            let t2 = rock_ring(q, t1, nc, nc.len() as int);
            (
                t2.update(
                    c,
                    TileQueryItem {
                        terrain_type: TerrainType::Flatland,
                        base_terrain: BaseTerrain::Grassland,
                        natural_wonder: Some(NaturalWonder(w)),
                        ..t2[c]
                    },
                ),
                placed.push(c),
            )
        },
        WonderShape::Single => {
            let a = match rule.turns_into_type {
                Some(tt) => TileQueryItem { terrain_type: tt, ..t1[c] },
                None => t1[c],
            };
            let b = match rule.turns_into_base {
                Some(bb) => TileQueryItem { base_terrain: bb, ..a },
                None => a,
            };
            (t1.update(c, with_wonder(b, w)), placed.push(c))
        },
    }
}

/// The tiles, the wonder tiles, the number of wonders laid and the position of the
/// next draw after the first `k` wonders of `list` are tried: while no more than
/// `num` wonders are laid, each wonder scores all its sites, one draw each, and goes
/// to the best ([`best_site`]) unless a wonder already stands there.
pub open spec fn place_wonders(
    mp: &MapParameters,
    q: &TileQuery,
    rules: Seq<WonderRule>,
    sites: Seq<Seq<int>>,
    list: Seq<usize>,
    num: u32,
    d: Seq<u32>,
    k: int,
) -> (Seq<TileQueryItem>, Seq<int>, int, int)
    decreases k,
{
    if k <= 0 {
        (q.tiles@, Seq::empty(), 0, 0)
    } else {
        let prev = place_wonders(mp, q, rules, sites, list, num, d, k - 1);
        let w = list[k - 1];
        if prev.2 <= num {
            let s = sites[w as int];
            let c = s[best_site(q, prev.1, s, d, prev.3, s.len() as int)];
            let pos2 = prev.3 + s.len();
            if prev.1.contains(c) {
                (prev.0, prev.1, prev.2, pos2)
            } else {
                let r = set_wonder(mp, q, rules[w as int], w, c, prev.0, prev.1);
                (r.0, r.1, prev.2 + 1, pos2)
            }
        } else {
            prev
        }
    }
}


/// The steps between tiles `a` and `b`.
fn tile_distance(q: &TileQuery, mp: &MapParameters, a: usize, b: usize) -> (r: i64)
    requires
        q.well_formed(mp),
        a < q.tiles.len(),
        b < q.tiles.len(),
    ensures
        r == spec_hex_distance(q.tiles@[a as int].hex_position.pair(), q.tiles@[b as int].hex_position.pair()),
        0 <= r <= 0x1000_0000,
{
    assert(q.tiles@[a as int].hex_position.small_pos());
    assert(q.tiles@[b as int].hex_position.small_pos());
    let pa = q.tiles[a].hex_position;
    let pb = q.tiles[b].hex_position;
    let ha = Hex::new(pa.0[0], pa.0[1]);
    let hb = Hex::new(pb.0[0], pb.0[1]);
    let r = Hex::hex_distance(ha, hb);
    r as i64
}

/// The distance from tile `c` to the nearest placed wonder tile (1000000 when none).
fn closest_distance(q: &TileQuery, mp: &MapParameters, placed: &Vec<usize>, c: usize) -> (r: i64)
    requires
        q.well_formed(mp),
        c < q.tiles.len(),
        forall|k: int| 0 <= k < placed.len() ==> #[trigger] placed@[k] < q.tiles.len(),
    ensures
        r == closest_wonder(q, as_ints(placed@), c as int, placed.len() as int),
        0 <= r <= 0x1000_0000,
{
    let mut best: i64 = 1000000;
    let mut k: usize = 0;
    while k < placed.len()
        invariant
            q.well_formed(mp),
            c < q.tiles.len(),
            forall|m: int| 0 <= m < placed.len() ==> #[trigger] placed@[m] < q.tiles.len(),
            0 <= k <= placed.len(),
            best == closest_wonder(q, as_ints(placed@), c as int, k as int),
            0 <= best <= 0x1000_0000,
        decreases placed.len() - k,
    {
        let dd = tile_distance(q, mp, c, placed[k]);
        assert(as_ints(placed@)[k as int] == placed@[k as int] as int);
        if k == 0 || dd < best {
            best = dd;
        }
        k = k + 1;
    }
    best
}

/// A draw at a position below the draws' length is the draw itself in every longer list.
proof fn lemma_draw_kept(ext: Seq<u32>, d: Seq<u32>, pos: int)
    requires
        extends(ext, d),
        0 <= pos < d.len(),
    ensures
        draw_at(ext, pos) == d[pos],
{
    assert(ext.take(d.len() as int)[pos] == ext[pos]);
}

/// Scores the sites of a wonder, one draw from `0..100` each, and picks the best
/// ([`best_site`]); gives back its position among the sites and the draws made so far.
fn choose_site(
    q: &TileQuery,
    mp: &MapParameters,
    placed: &Vec<usize>,
    sites: &Vec<usize>,
    rng: &mut StdRng,
    Ghost(drawn): Ghost<Seq<u32>>,
) -> (r: (usize, Ghost<Seq<u32>>))
    requires
        q.well_formed(mp),
        sites.len() > 0,
        forall|k: int| 0 <= k < sites.len() ==> #[trigger] sites@[k] < q.tiles.len(),
        forall|k: int| 0 <= k < placed.len() ==> #[trigger] placed@[k] < q.tiles.len(),
    ensures
        r.0 < sites.len(),
        extends(r.1@, drawn),
        r.1@.len() == drawn.len() + sites.len(),
        forall|k: int| drawn.len() <= k < r.1@.len() ==> r.1@[k] < 100,
        forall|ext: Seq<u32>|
            #[trigger] extends(ext, r.1@) ==> r.0 == best_site(
                q,
                as_ints(placed@),
                as_ints(sites@),
                ext,
                drawn.len() as int,
                sites.len() as int,
            ),
{
    let ghost pl = as_ints(placed@);
    let ghost st = as_ints(sites@);
    let ghost pos = drawn.len() as int;
    let ghost mut d = drawn;
    proof {
        lemma_extends_refl(drawn);
    }
    let mut scores: Vec<i64> = Vec::new();
    let mut i: usize = 0;
    while i < sites.len()
        invariant
            q.well_formed(mp),
            forall|k: int| 0 <= k < sites.len() ==> #[trigger] sites@[k] < q.tiles.len(),
            forall|k: int| 0 <= k < placed.len() ==> #[trigger] placed@[k] < q.tiles.len(),
            pl == as_ints(placed@),
            st == as_ints(sites@),
            pos == drawn.len(),
            0 <= i <= sites.len(),
            scores.len() == i,
            extends(d, drawn),
            d.len() == pos + i,
            forall|k: int| drawn.len() <= k < d.len() ==> d[k] < 100,
            forall|k: int|
                0 <= k < i ==> #[trigger] scores@[k] == distance_score(closest_wonder(q, pl, st[k], pl.len() as int))
                    + d[pos + k],
        decreases sites.len() - i,
    {
        let dist = closest_distance(q, mp, placed, sites[i]);
        let base: i64 = if dist <= 10 {
            100 * dist
        } else {
            1000 + (dist - 10)
        };
        let roll = draw_below(rng, 100);
        let ghost d_b = d;
        scores.push(base + roll as i64);
        proof {
            assert(st[i as int] == sites@[i as int] as int);
            lemma_extends_one(d, roll);
            lemma_extends_trans(d.push(roll), d, drawn);
            d = d.push(roll);
            assert forall|k: int| 0 <= k < i + 1 implies #[trigger] scores@[k] == distance_score(
                closest_wonder(q, pl, st[k], pl.len() as int),
            ) + d[pos + k] by {
                if k < i {
                    assert(d[pos + k] == d_b[pos + k]);
                }
            }
            assert forall|k: int| drawn.len() <= k < d.len() implies d[k] < 100 by {
                if k < d_b.len() {
                    assert(d[k] == d_b[k]);
                }
            }
        }
        i = i + 1;
    }
    let mut best: usize = 0;
    let mut j: usize = 1;
    proof {
        assert forall|ext: Seq<u32>| #[trigger] extends(ext, d) implies best_site(q, pl, st, ext, pos, 1) == 0 by {}
    }
    while j < sites.len()
        invariant
            pl == as_ints(placed@),
            st == as_ints(sites@),
            pos == drawn.len(),
            scores.len() == sites.len(),
            d.len() == pos + sites.len(),
            1 <= j <= sites.len(),
            best < j,
            forall|k: int|
                0 <= k < sites.len() ==> #[trigger] scores@[k] == distance_score(closest_wonder(q, pl, st[k], pl.len() as int))
                    + d[pos + k],
            forall|ext: Seq<u32>| #[trigger] extends(ext, d) ==> best == best_site(q, pl, st, ext, pos, j as int),
        decreases sites.len() - j,
    {
        let ghost best_b = best;
        if scores[j] >= scores[best] {
            best = j;
        }
        proof {
            assert forall|ext: Seq<u32>| #[trigger] extends(ext, d) implies best == best_site(q, pl, st, ext, pos, j + 1) by {
                lemma_draw_kept(ext, d, pos + j);
                lemma_draw_kept(ext, d, pos + best_b);
                assert(site_score(q, pl, st, ext, pos, j as int) == scores@[j as int]);
                assert(site_score(q, pl, st, ext, pos, best_b as int) == scores@[best_b as int]);
            }
        }
        j = j + 1;
    }
    (best, Ghost(d))
}


/// Turns every listed tile into coast water.
fn flood_coast_at(out: &mut Vec<TileQueryItem>, ns: &Vec<usize>, Ghost(l): Ghost<Seq<int>>)
    requires
        ns@.len() == l.len(),
        forall|k: int| 0 <= k < ns.len() ==> #[trigger] ns@[k] as int == l[k],
        forall|k: int| 0 <= k < ns.len() ==> #[trigger] ns@[k] < old(out).len(),
    ensures
        final(out)@ == flood_coast(old(out)@, l, l.len() as int),
        final(out).len() == old(out).len(),
        forall|i: int| 0 <= i < old(out).len() ==> #[trigger] final(out)@[i].hex_position == old(out)@[i].hex_position,
{
    let ghost t0 = out@;
    let mut k: usize = 0;
    while k < ns.len()
        invariant
            ns@.len() == l.len(),
            forall|m: int| 0 <= m < ns.len() ==> #[trigger] ns@[m] as int == l[m],
            forall|m: int| 0 <= m < ns.len() ==> #[trigger] ns@[m] < t0.len(),
            0 <= k <= ns.len(),
            out@ == flood_coast(t0, l, k as int),
            out.len() == t0.len(),
            forall|i: int| 0 <= i < t0.len() ==> #[trigger] out@[i].hex_position == t0[i].hex_position,
        decreases ns.len() - k,
    {
        let x = ns[k];
        let mut t = out[x];
        t.terrain_type = TerrainType::Water;
        t.base_terrain = BaseTerrain::Coast;
        out.set(x, t);
        assert(l[k as int] == x as int);
        k = k + 1;
    }
}

/// Raises the listed tiles around a rock: water on the map `q` becomes coast, any
/// other tile a mountain.
fn rock_ring_at(q: &TileQuery, out: &mut Vec<TileQueryItem>, ns: &Vec<usize>, Ghost(l): Ghost<Seq<int>>)
    requires
        old(out).len() == q.tiles.len(),
        ns@.len() == l.len(),
        forall|k: int| 0 <= k < ns.len() ==> #[trigger] ns@[k] as int == l[k],
        forall|k: int| 0 <= k < ns.len() ==> #[trigger] ns@[k] < old(out).len(),
    ensures
        final(out)@ == rock_ring(q, old(out)@, l, l.len() as int),
        final(out).len() == old(out).len(),
        forall|i: int| 0 <= i < old(out).len() ==> #[trigger] final(out)@[i].hex_position == old(out)@[i].hex_position,
{
    let ghost t0 = out@;
    let mut k: usize = 0;
    while k < ns.len()
        invariant
            t0.len() == q.tiles.len(),
            ns@.len() == l.len(),
            forall|m: int| 0 <= m < ns.len() ==> #[trigger] ns@[m] as int == l[m],
            forall|m: int| 0 <= m < ns.len() ==> #[trigger] ns@[m] < t0.len(),
            0 <= k <= ns.len(),
            out@ == rock_ring(q, t0, l, k as int),
            out.len() == t0.len(),
            forall|i: int| 0 <= i < t0.len() ==> #[trigger] out@[i].hex_position == t0[i].hex_position,
        decreases ns.len() - k,
    {
        let x = ns[k];
        let mut t = out[x];
        if q.tiles[x].terrain_type == TerrainType::Water {
            t.base_terrain = BaseTerrain::Coast;
        } else {
            t.terrain_type = TerrainType::Mountain;
        }
        out.set(x, t);
        assert(l[k as int] == x as int);
        k = k + 1;
    }
}

/// Lays wonder `w` at tile `c` ([`set_wonder`]) and records its tiles.
fn set_wonder_at(
    rule: &WonderRule,
    w: usize,
    c: usize,
    mp: &MapParameters,
    q: &TileQuery,
    out: &mut Vec<TileQueryItem>,
    placed: &mut Vec<usize>,
)
    requires
        q.well_formed(mp),
        c < q.tiles.len(),
        old(out).len() == q.tiles.len(),
        forall|k: int| 0 <= k < old(placed).len() ==> #[trigger] old(placed)@[k] < q.tiles.len(),
    ensures
        (final(out)@, as_ints(final(placed)@)) == set_wonder(mp, q, *rule, w, c as int, old(out)@, as_ints(old(placed)@)),
        final(out).len() == old(out).len(),
        forall|i: int| 0 <= i < old(out).len() ==> #[trigger] final(out)@[i].hex_position == old(out)@[i].hex_position,
        forall|k: int| 0 <= k < final(placed).len() ==> #[trigger] final(placed)@[k] < q.tiles.len(),
{
    let ghost pl0 = as_ints(placed@);
    let ghost t_in = out@;
    let mut t = out[c];
    t.feature = None;
    out.set(c, t);
    let ghost t1 = out@;
    assert(t1 == t_in.update(c as int, without_feature(t_in[c as int])));
    let nc = neighbors_of(c, mp, q);
    match rule.shape {
        WonderShape::GreatBarrierReef => {
            let dirs = mp.edge_direction_array();
            assert(q.tiles@[c as int].hex_position.small_pos());
            assert(spec_edge_index(mp.orientation, dirs[1]) == 1);
            match q.tiles[c].hex_position.index_neighbor(mp, dirs[1]) {
                Some(n) => {
                    let nn = neighbors_of(n, mp, q);
                    flood_coast_at(out, &nc, Ghost(q.spec_neighbors(mp, c as int)));
                    flood_coast_at(out, &nn, Ghost(q.spec_neighbors(mp, n as int)));
                    let mut tc = out[c];
                    tc.natural_wonder = Some(NaturalWonder(w));
                    out.set(c, tc);
                    let mut tn = out[n];
                    tn.natural_wonder = Some(NaturalWonder(w));
                    out.set(n, tn);
                    placed.push(c);
                    placed.push(n);
                    proof {
                        assert(as_ints(placed@) =~= pl0.push(c as int).push(n as int));
                    }
                },
                None => {
                    proof {
                        assert(as_ints(placed@) =~= pl0);
                    }
                },
            }
        },
        WonderShape::RockOfGibraltar => {
            rock_ring_at(q, out, &nc, Ghost(q.spec_neighbors(mp, c as int)));
            let mut tc = out[c];
            tc.terrain_type = TerrainType::Flatland;
            tc.base_terrain = BaseTerrain::Grassland;
            tc.natural_wonder = Some(NaturalWonder(w));
            out.set(c, tc);
            placed.push(c);
            proof {
                assert(as_ints(placed@) =~= pl0.push(c as int));
            }
        },
        WonderShape::Single => {
            let mut tc = out[c];
            match rule.turns_into_type {
                Some(tt) => {
                    tc.terrain_type = tt;
                },
                None => {},
            }
            match rule.turns_into_base {
                Some(bb) => {
                    tc.base_terrain = bb;
                },
                None => {},
            }
            tc.natural_wonder = Some(NaturalWonder(w));
            out.set(c, tc);
            placed.push(c);
            proof {
                assert(as_ints(placed@) =~= pl0.push(c as int));
            }
        },
    }
}


/// Every wonder listed by [`placeable`] is one of the first `n` and has a site.
proof fn lemma_placeable(sites: Seq<Seq<int>>, n: int)
    requires
        0 <= n <= sites.len(),
        sites.len() <= usize::MAX,
    ensures
        forall|k: int| 0 <= k < placeable(sites, n).len() ==> #[trigger] placeable(sites, n)[k] < n
            && sites[placeable(sites, n)[k] as int].len() > 0,
    decreases n,
{
    if n > 0 {
        lemma_placeable(sites, n - 1);
        let prev = placeable(sites, n - 1);
        if sites[n - 1].len() > 0 {
            assert forall|k: int| 0 <= k < placeable(sites, n).len() implies #[trigger] placeable(sites, n)[k] < n
                && sites[placeable(sites, n)[k] as int].len() > 0 by {
                if k < prev.len() {
                    assert(placeable(sites, n)[k] == prev[k]);
                } else {
                    assert(placeable(sites, n)[k] == (n - 1) as usize);
                }
            }
        }
    }
}

/// Places the natural wonders: each wonder gets the tiles that suit it ([`wonder_fits`],
/// tiles taken by increasing entity); the wonders that have one are tried in an order
/// drawn at random; while no more than `natural_wonder_num` wonders are laid, each
/// wonder scores its sites, a draw from `0..100` each on top of its distance to the
/// wonders already laid, and is laid at the best one unless a wonder stands there
/// ([`place_wonders`]). What a wonder does to its tiles is [`set_wonder`]; the terrain it
/// reads is that of the map as it was before any wonder.
pub fn generate_natural_wonder(
    wonder_rules: &Vec<WonderRule>,
    natural_wonder_num: u32,
    random_number_generator: &mut RandomNumberGenerator,
    river: &River,
    map_parameters: &MapParameters,
    query_tile: &mut TileQuery,
)
    requires
        old(query_tile).well_formed(map_parameters),
    ensures
        final(query_tile).well_formed(map_parameters),
        final(query_tile).tiles.len() == old(query_tile).tiles.len(),
        exists|order: Seq<usize>, list: Seq<usize>, d: Seq<u32>|
            #![trigger entity_sorted(&*old(query_tile), order), place_wonders(map_parameters, &*old(query_tile), wonder_rules@, all_sites(map_parameters, river, &*old(query_tile), wonder_rules@, order), list, natural_wonder_num, d, list.len() as int)]
            {
                &&& entity_sorted(&*old(query_tile), order)
                &&& list.to_multiset() == placeable(
                    all_sites(map_parameters, river, &*old(query_tile), wonder_rules@, order),
                    wonder_rules.len() as int,
                ).to_multiset()
                &&& forall|k: int| 0 <= k < d.len() ==> d[k] < 100
                &&& final(query_tile).tiles@ == place_wonders(
                    map_parameters,
                    &*old(query_tile),
                    wonder_rules@,
                    all_sites(map_parameters, river, &*old(query_tile), wonder_rules@, order),
                    list,
                    natural_wonder_num,
                    d,
                    list.len() as int,
                ).0
            },
{
    let ghost q0 = *query_tile;
    let n = query_tile.tiles.len();
    let order = order_by_entity(query_tile);
    let sites = sites_of(wonder_rules, &order, map_parameters, river, query_tile);
    let ghost ss = all_sites(map_parameters, river, query_tile, wonder_rules@, order@);
    let mut list = placeable_wonders(&sites, Ghost(ss));
    let ghost list0 = list@;
    shuffle_wonders(&mut list, &mut random_number_generator.rng);
    proof {
        lemma_placeable(ss, sites.len() as int);
        assert forall|k: int| 0 <= k < list.len() implies #[trigger] list@[k] < sites.len() && sites@[list@[k] as int].len() > 0 by {
            list@.to_multiset_ensures();
            list0.to_multiset_ensures();
            assert(list@.contains(list@[k]));
            assert(list@.to_multiset().count(list@[k]) > 0);
            assert(list0.to_multiset().count(list@[k]) > 0);
            assert(list0.contains(list@[k]));
            let j = choose|j: int| 0 <= j < list0.len() && list0[j] == list@[k];
            assert(as_ints(sites@[list@[k] as int]@).len() == sites@[list@[k] as int]@.len());
        }
    }
    let mut out: Vec<TileQueryItem> = Vec::new();
    let mut i: usize = 0;
    while i < n
        invariant
            n == query_tile.tiles.len(),
            0 <= i <= n,
            out@ == query_tile.tiles@.take(i as int),
        decreases n - i,
    {
        out.push(query_tile.tiles[i]);
        proof {
            assert(out@ =~= query_tile.tiles@.take(i + 1));
        }
        i = i + 1;
    }
    proof {
        assert(out@ =~= query_tile.tiles@);
    }
    let mut placed: Vec<usize> = Vec::new();
    let mut count: u64 = 0;
    let ghost mut d: Seq<u32> = Seq::empty();
    proof {
        assert(as_ints(placed@) =~= Seq::<int>::empty());
    }
    let mut k: usize = 0;
    while k < list.len()
        invariant
            *query_tile == q0,
            q0.well_formed(map_parameters),
            n == q0.tiles.len(),
            ss == all_sites(map_parameters, river, &q0, wonder_rules@, order@),
            sites.len() == wonder_rules.len(),
            forall|w: int| 0 <= w < sites.len() ==> #[trigger] as_ints(sites@[w]@) == ss[w],
            forall|w: int, j: int| 0 <= w < sites.len() && 0 <= j < sites@[w].len() ==> #[trigger] sites@[w]@[j] < n,
            forall|m: int| 0 <= m < list.len() ==> #[trigger] list@[m] < sites.len() && sites@[list@[m] as int].len() > 0,
            0 <= k <= list.len(),
            count <= k,
            out.len() == n,
            forall|m: int| 0 <= m < n ==> #[trigger] out@[m].hex_position == q0.tiles@[m].hex_position,
            forall|m: int| 0 <= m < placed.len() ==> #[trigger] placed@[m] < n,
            forall|m: int| 0 <= m < d.len() ==> d[m] < 100,
            forall|ext: Seq<u32>|
                #[trigger] extends(ext, d) ==> place_wonders(map_parameters, &q0, wonder_rules@, ss, list@, natural_wonder_num, ext, k as int)
                    == (out@, as_ints(placed@), count as int, d.len() as int),
        decreases list.len() - k,
    {
        let w = list[k];
        let ghost d_b = d;
        let ghost out_b = out@;
        let ghost pl_b = as_ints(placed@);
        let ghost count_b = count;
        if count <= natural_wonder_num as u64 {
            let (b, Ghost(d2)) = choose_site(query_tile, map_parameters, &placed, &sites[w], &mut random_number_generator.rng, Ghost(d));
            let c = sites[w][b];
            let taken = lists_index(&placed, c);
            proof {
                assert(as_ints(sites@[w as int]@) == ss[w as int]);
                assert(b < sites@[w as int].len());
                assert(ss[w as int][b as int] == c as int);
                assert(taken == pl_b.contains(c as int)) by {
                    if taken {
                        let m = choose|m: int| 0 <= m < placed.len() && placed@[m] == c;
                        assert(pl_b[m] == c as int);
                    }
                    if pl_b.contains(c as int) {
                        let m = choose|m: int| 0 <= m < pl_b.len() && pl_b[m] == c as int;
                        assert(placed@[m] == c);
                    }
                }
            }
            if !taken {
                set_wonder_at(&wonder_rules[w], w, c, map_parameters, query_tile, &mut out, &mut placed);
                count = count + 1;
            }
            proof {
                assert forall|ext: Seq<u32>| #[trigger] extends(ext, d2) implies place_wonders(
                    map_parameters,
                    &q0,
                    wonder_rules@,
                    ss,
                    list@,
                    natural_wonder_num,
                    ext,
                    k + 1,
                ) == (out@, as_ints(placed@), count as int, d2.len() as int) by {
                    lemma_extends_trans(ext, d2, d_b);
                }
                assert forall|m: int| 0 <= m < d2.len() implies d2[m] < 100 by {
                    if m < d_b.len() {
                        assert(d2.take(d_b.len() as int)[m] == d2[m]);
                    }
                }
                d = d2;
            }
        }
        k = k + 1;
    }
    query_tile.tiles = out;
    proof {
        lemma_same_positions_keep_well_formed(map_parameters, &q0, query_tile);
        lemma_extends_refl(d);
    }
}


/// At most one wonder more than `num` is laid, and no more than were tried.
pub proof fn law_wonder_count_bounded(
    mp: &MapParameters,
    q: &TileQuery,
    rules: Seq<WonderRule>,
    sites: Seq<Seq<int>>,
    list: Seq<usize>,
    num: u32,
    d: Seq<u32>,
    k: int,
)
    requires
        0 <= k,
    ensures
        0 <= place_wonders(mp, q, rules, sites, list, num, d, k).2 <= num + 1,
        place_wonders(mp, q, rules, sites, list, num, d, k).2 <= k,
    decreases k,
{
    if k > 0 {
        law_wonder_count_bounded(mp, q, rules, sites, list, num, d, k - 1);
    }
}

proof fn lemma_elevated_count(q: &TileQuery, ns: Seq<int>, n: int)
    ensures
        matching_count(q, ns, TileFilter::Elevated, n) == matching_count(
            q,
            ns,
            TileFilter::Terrain(TerrainType::Mountain),
            n,
        ) + matching_count(q, ns, TileFilter::Terrain(TerrainType::Hill), n),
        matching_count(q, ns, TileFilter::Land, n) == matching_count(
            q,
            ns,
            TileFilter::Terrain(TerrainType::Flatland),
            n,
        ) + matching_count(q, ns, TileFilter::Terrain(TerrainType::Hill), n) + matching_count(
            q,
            ns,
            TileFilter::Terrain(TerrainType::Mountain),
            n,
        ),
    decreases n,
{
    if n > 0 {
        lemma_elevated_count(q, ns, n - 1);
    }
}

/// A tile's elevated neighbors are its mountain neighbors and its hill neighbors, and
/// its land neighbors are its flatland, hill and mountain neighbors: so a condition
/// "adjacent to [n] Elevated tiles" counts every hill and every mountain next to the
/// tile, and "Land" every tile that is not water.
pub proof fn law_elevated_means_hill_or_mountain(mp: &MapParameters, q: &TileQuery, t: int)
    ensures
        adjacent_matching(mp, q, t, TileFilter::Elevated) == adjacent_matching(
            mp,
            q,
            t,
            TileFilter::Terrain(TerrainType::Mountain),
        ) + adjacent_matching(mp, q, t, TileFilter::Terrain(TerrainType::Hill)),
        adjacent_matching(mp, q, t, TileFilter::Land) == adjacent_matching(
            mp,
            q,
            t,
            TileFilter::Terrain(TerrainType::Flatland),
        ) + adjacent_matching(mp, q, t, TileFilter::Terrain(TerrainType::Hill)) + adjacent_matching(
            mp,
            q,
            t,
            TileFilter::Terrain(TerrainType::Mountain),
        ),
{
    let ns = q.spec_neighbors(mp, t);
    lemma_elevated_count(q, ns, ns.len() as int);
}

} // verus!
