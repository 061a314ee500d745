//! Terrain features on a generated map: ice on cold open water, floodplains along
//! rivers, oases, marshes, jungles near the equator and forests, each kept under its
//! share of the land and grown in clusters.
//!
//! Latitude is handed in per tile as `100 × latitude` rounded down and rounded up;
//! every rule compares it with whole numbers, so the two roundings decide exactly.

use crate::draws::{draw_at, extends, lemma_extends_one, lemma_extends_refl, lemma_extends_trans};
use crate::hex::{spec_edge_direction, spec_edge_index, MapParameters};
use crate::map_gen::{draw_below, has_land_neighbor, lemma_same_positions_keep_well_formed, neighbors_of, RandomNumberGenerator};
use crate::natural_wonder::{lemma_few_neighbors, lists_base, lists_type};
use crate::terrain::{feature_index, BaseTerrain, Feature, Ruleset, TerrainType};
use crate::tile_query::{spec_has_river, River, TileQuery, TileQueryItem};
use vstd::prelude::*;

verus! {

/// How wet the map is.
#[derive(Clone, Copy, Debug, PartialEq, Eq, Structural)]
pub enum Rainfall {
    Arid,
    Normal,
    Wet,
    /// Drawn at random between -5 and 5.
    Random,
}

/// What has been laid so far: the features that count for clusters, the tiles, the
/// numbers of forests, jungles, marshes and oases laid and of land tiles seen, and
/// the bound of each draw made so far (draw `k` is taken from `0..bounds[k]`; the next
/// draw is at position `bounds.len()`).
pub type FeatureState = (Seq<Option<Feature>>, Seq<TileQueryItem>, (int, int, int, int, int), Seq<u32>);

/// The rules let the feature stand on the tile's terrain type and base terrain.
pub open spec fn occurs(ruleset: &Ruleset, f: Feature, t: TileQueryItem) -> bool {
    &&& ruleset.features@[feature_index(f)].occurs_on_type@.contains(t.terrain_type)
    &&& ruleset.features@[feature_index(f)].occurs_on_base@.contains(t.base_terrain)
}

/// A river runs along one of the edges of tile `i`.
pub open spec fn river_on_edge_of(mp: &MapParameters, river: &River, q: &TileQuery, i: int) -> bool {
    exists|e: int| 0 <= e < 6 && #[trigger] spec_has_river(river, mp, q, i, spec_edge_direction(mp.orientation, e))
}

/// How many of the first `n` tiles listed in `ns` carry the feature `f`.
pub open spec fn placed_count(placed: Seq<Option<Feature>>, ns: Seq<int>, f: Feature, n: int) -> int
    decreases n,
{
    if n <= 0 {
        0
    } else {
        placed_count(placed, ns, f, n - 1) + if placed[ns[n - 1]] == Some(f) {
            1int
        } else {
            0int
        }
    }
}

/// How many neighbors of tile `i` carry the feature `f`.
pub open spec fn placed_around(mp: &MapParameters, q: &TileQuery, placed: Seq<Option<Feature>>, i: int, f: Feature) -> int {
    placed_count(placed, q.spec_neighbors(mp, i), f, q.spec_neighbors(mp, i).len() as int)
}

/// The score a marsh, jungle or forest must not be drawn above, by how many
/// neighbors already carry it: 300, raised for one to three, lowered for four or more.
pub open spec fn cluster_score(a: int) -> int {
    300 + if a == 0 {
        0int
    } else if a == 1 {
        50int
    } else if a <= 3 {
        150int
    } else if a == 4 {
        -50int
    } else {
        -200int
    }
}

/// `count` features among `plots` land tiles, in percent rounded up, are at most `max`.
pub open spec fn within_quota(count: int, plots: int, max: int) -> bool {
    (count * 100 + plots - 1) / plots <= max
}

/// `a / b` rounded toward zero.
pub open spec fn trunc_div(a: int, b: int) -> int {
    if a >= 0 {
        a / b
    } else {
        -((-a) / b)
    }
}

/// The rainfall: fixed, or the first draw (from `0..11`) less 5.
pub open spec fn rain_value(rainfall: Rainfall, d: Seq<u32>) -> int {
    match rainfall {
        Rainfall::Arid => -4,
        Rainfall::Normal => 0,
        Rainfall::Wet => 4,
        Rainfall::Random => draw_at(d, 0) - 5,
    }
}

/// The shares and the jungle's band for a rainfall: the most jungle, forest, marsh and
/// oasis in percent of the land, and the lowest and highest latitude (in hundredths)
/// of jungle.
pub open spec fn limits(rain: int) -> (int, int, int, int, int, int) {
    let jungle = 12 + rain;
    let half = (jungle + 1) / 2;
    (jungle, 18 + rain, 3 + trunc_div(rain, 2), 1 + trunc_div(rain, 4), -half, half)
}

/// The tile with the feature `f`.
pub open spec fn with_feature(t: TileQueryItem, f: Feature) -> TileQueryItem {
    TileQueryItem { feature: Some(f), ..t }
}

/// The tile `t` under jungle, its ground as the map `q` had it for tile `i`: a hill of
/// grassland or plain keeps its shape and becomes plain; any other tile becomes a
/// plain flatland.
pub open spec fn under_jungle(q: &TileQuery, i: int, t: TileQueryItem) -> TileQueryItem {
    let o = q.tiles@[i];
    if o.terrain_type == TerrainType::Hill && (o.base_terrain == BaseTerrain::Grassland || o.base_terrain
        == BaseTerrain::Plain) {
        TileQueryItem { base_terrain: BaseTerrain::Plain, feature: Some(Feature::Jungle), ..t }
    } else {
        TileQueryItem {
            terrain_type: TerrainType::Flatland,
            base_terrain: BaseTerrain::Plain,
            feature: Some(Feature::Jungle),
            ..t
        }
    }
}

/// A forest on land tile `i`, when the rules allow it there and forests are within
/// their share: a draw from `0..300` no higher than the cluster score lays it.
pub open spec fn forest_try(
    mp: &MapParameters,
    q: &TileQuery,
    ruleset: &Ruleset,
    lim: (int, int, int, int, int, int),
    d: Seq<u32>,
    st: FeatureState,
    i: int,
) -> FeatureState {
    let (placed, tiles, c, bs) = st;
    if occurs(ruleset, Feature::Forest, q.tiles@[i]) && within_quota(c.0, c.4, lim.1) {
        if draw_at(d, bs.len() as int) <= cluster_score(placed_around(mp, q, placed, i, Feature::Forest)) {
            (
                placed.update(i, Some(Feature::Forest)),
                tiles.update(i, with_feature(tiles[i], Feature::Forest)),
                (c.0 + 1, c.1, c.2, c.3, c.4),
                bs.push(300),
            )
        } else {
            (placed, tiles, c, bs.push(300))
        }
    } else {
        st
    }
}

/// A jungle on land tile `i`, when the rules allow it there, jungles are within their
/// share and the tile lies in the jungle's band; otherwise, or when the draw fails,
/// a forest is tried.
pub open spec fn jungle_try(
    mp: &MapParameters,
    q: &TileQuery,
    ruleset: &Ruleset,
    latitude_floor: Seq<i32>,
    latitude_ceil: Seq<i32>,
    lim: (int, int, int, int, int, int),
    d: Seq<u32>,
    st: FeatureState,
    i: int,
) -> FeatureState {
    let (placed, tiles, c, bs) = st;
    if occurs(ruleset, Feature::Jungle, q.tiles@[i]) && within_quota(c.1, c.4, lim.0) && latitude_floor[i] >= lim.4
        && latitude_ceil[i] <= lim.5 {
        if draw_at(d, bs.len() as int) <= cluster_score(placed_around(mp, q, placed, i, Feature::Jungle)) {
            (
                placed.update(i, Some(Feature::Jungle)),
                tiles.update(i, under_jungle(q, i, tiles[i])),
                (c.0, c.1 + 1, c.2, c.3, c.4),
                bs.push(300),
            )
        } else {
            forest_try(mp, q, ruleset, lim, d, (placed, tiles, c, bs.push(300)), i)
        }
    } else {
        forest_try(mp, q, ruleset, lim, d, st, i)
    }
}

/// A marsh on land tile `i`, when the rules allow it there and marshes are within
/// their share; otherwise, or when the draw fails, a jungle is tried.
pub open spec fn marsh_try(
    mp: &MapParameters,
    q: &TileQuery,
    ruleset: &Ruleset,
    latitude_floor: Seq<i32>,
    latitude_ceil: Seq<i32>,
    lim: (int, int, int, int, int, int),
    d: Seq<u32>,
    st: FeatureState,
    i: int,
) -> FeatureState {
    let (placed, tiles, c, bs) = st;
    if occurs(ruleset, Feature::Marsh, q.tiles@[i]) && within_quota(c.2, c.4, lim.2) {
        if draw_at(d, bs.len() as int) <= cluster_score(placed_around(mp, q, placed, i, Feature::Marsh)) {
            (
                placed.update(i, Some(Feature::Marsh)),
                tiles.update(i, with_feature(tiles[i], Feature::Marsh)),
                (c.0, c.1, c.2 + 1, c.3, c.4),
                bs.push(300),
            )
        } else {
            jungle_try(mp, q, ruleset, latitude_floor, latitude_ceil, lim, d, (placed, tiles, c, bs.push(300)), i)
        }
    } else {
        jungle_try(mp, q, ruleset, latitude_floor, latitude_ceil, lim, d, st, i)
    }
}

/// What tile `i` gets: nothing on an impassable tile. Open water without a river along
/// it, where ice may stand, freezes above latitude 78 when a draw from `0..100` and the
/// latitude, halved next to land, with ten for each icy neighbor, exceed 130. Land
/// counts toward the land tiles and takes, in turn, a floodplain along a river, an
/// oasis within its share when a draw from `0..4` is 1, a marsh, a jungle or a forest.
pub open spec fn feature_step(
    mp: &MapParameters,
    river: &River,
    q: &TileQuery,
    ruleset: &Ruleset,
    latitude_floor: Seq<i32>,
    latitude_ceil: Seq<i32>,
    lim: (int, int, int, int, int, int),
    d: Seq<u32>,
    st: FeatureState,
    i: int,
) -> FeatureState {
    let (placed, tiles, c, bs) = st;
    let t = q.tiles@[i];
    if t.spec_is_impassable(ruleset) {
        st
    } else if t.terrain_type == TerrainType::Water {
        if !river_on_edge_of(mp, river, q, i) && occurs(ruleset, Feature::Ice, t) && latitude_ceil[i] > 78 {
            let r = draw_at(d, bs.len() as int);
            let a = placed_around(mp, q, placed, i, Feature::Ice);
            let ice = if has_land_neighbor(mp, q, i) {
                latitude_ceil[i] > 260 - 20 * a - r
            } else {
                latitude_ceil[i] > 130 - 10 * a - r
            };
            if ice {
                (placed.update(i, Some(Feature::Ice)), tiles.update(i, with_feature(tiles[i], Feature::Ice)), c, bs.push(100))
            } else {
                (placed, tiles, c, bs.push(100))
            }
        } else {
            st
        }
    } else {
        let c1 = (c.0, c.1, c.2, c.3, c.4 + 1);
        if river_on_edge_of(mp, river, q, i) && occurs(ruleset, Feature::Floodplain, t) {
            (placed, tiles.update(i, with_feature(tiles[i], Feature::Floodplain)), c1, bs)
        } else if occurs(ruleset, Feature::Oasis, t) && within_quota(c.3, c1.4, lim.3) {
            if draw_at(d, bs.len() as int) == 1 {
                (placed, tiles.update(i, with_feature(tiles[i], Feature::Oasis)), (c.0, c.1, c.2, c.3 + 1, c1.4), bs.push(4))
            } else {
                marsh_try(mp, q, ruleset, latitude_floor, latitude_ceil, lim, d, (placed, tiles, c1, bs.push(4)), i)
            }
        } else {
            marsh_try(mp, q, ruleset, latitude_floor, latitude_ceil, lim, d, (placed, tiles, c1, bs), i)
        }
    }
}

/// What the first `k` tiles, in index order, have got.
pub open spec fn features_upto(
    mp: &MapParameters,
    river: &River,
    q: &TileQuery,
    ruleset: &Ruleset,
    rainfall: Rainfall,
    latitude_floor: Seq<i32>,
    latitude_ceil: Seq<i32>,
    d: Seq<u32>,
    k: int,
) -> FeatureState
    decreases k,
{
    if k <= 0 {
        (
            Seq::new(q.tiles.len() as nat, |j: int| None),
            q.tiles@,
            (0, 0, 0, 0, 0),
            if rainfall == Rainfall::Random {
                seq![11u32]
            } else {
                Seq::empty()
            },
        )
    } else {
        feature_step(
            mp,
            river,
            q,
            ruleset,
            latitude_floor,
            latitude_ceil,
            limits(rain_value(rainfall, d)),
            d,
            features_upto(mp, river, q, ruleset, rainfall, latitude_floor, latitude_ceil, d, k - 1),
            k - 1,
        )
    }
}


/// The features laid so far and the land tiles seen.
#[derive(Clone, Copy, Debug)]
struct Counts {
    forest: u32,
    jungle: u32,
    marsh: u32,
    oasis: u32,
    plots: u32,
}

spec fn cv(c: Counts) -> (int, int, int, int, int) {
    (c.forest as int, c.jungle as int, c.marsh as int, c.oasis as int, c.plots as int)
}

spec fn counts_fit(c: Counts, n: int) -> bool {
    &&& c.forest <= c.plots
    &&& c.jungle <= c.plots
    &&& c.marsh <= c.plots
    &&& c.oasis <= c.plots
    &&& c.plots <= n
}

/// The shares and the jungle's band.
#[derive(Clone, Copy, Debug)]
struct Limits {
    jungle: i64,
    forest: i64,
    marsh: i64,
    oasis: i64,
    low: i64,
    high: i64,
}

spec fn lv(l: Limits) -> (int, int, int, int, int, int) {
    (l.jungle as int, l.forest as int, l.marsh as int, l.oasis as int, l.low as int, l.high as int)
}

/// The shares and band for a rainfall between -5 and 5.
fn limits_for(rain: i64) -> (r: Limits)
    requires
        -5 <= rain <= 5,
    ensures
        lv(r) == limits(rain as int),
{
    let jungle = 12 + rain;
    let half = (jungle + 1) / 2;
    let marsh_part = if rain >= 0 {
        rain / 2
    } else {
        -((-rain) / 2)
    };
    let oasis_part = if rain >= 0 {
        rain / 4
    } else {
        -((-rain) / 4)
    };
    Limits { jungle, forest: 18 + rain, marsh: 3 + marsh_part, oasis: 1 + oasis_part, low: -half, high: half }
}

/// Whether the rules let the feature stand on the tile.
fn occurs_at(ruleset: &Ruleset, f: Feature, t: &TileQueryItem) -> (r: bool)
    requires
        ruleset.well_formed(),
    ensures
        r == occurs(ruleset, f, *t),
{
    let info = &ruleset.features[f.index()];
    lists_type(&info.occurs_on_type, t.terrain_type) && lists_base(&info.occurs_on_base, t.base_terrain)
}

/// Whether a river runs along one of the edges of tile `i`.
fn river_on_edge(i: usize, mp: &MapParameters, river: &River, q: &TileQuery) -> (r: bool)
    requires
        q.well_formed(mp),
        i < q.tiles.len(),
    ensures
        r == river_on_edge_of(mp, river, q, i as int),
{
    let dirs = mp.edge_direction_array();
    let mut e: usize = 0;
    while e < 6
        invariant
            q.well_formed(mp),
            i < q.tiles.len(),
            forall|j: int| 0 <= j < 6 ==> dirs@[j] == spec_edge_direction(mp.orientation, j),
            0 <= e <= 6,
            forall|j: int| 0 <= j < e ==> !#[trigger] spec_has_river(river, mp, q, i as int, spec_edge_direction(mp.orientation, j)),
        decreases 6 - e,
    {
        assert(spec_edge_index(mp.orientation, dirs[e as int]) == e as int);
        if q.tiles[i].has_river(i, dirs[e], mp, river, q) {
            assert(spec_has_river(river, mp, q, i as int, spec_edge_direction(mp.orientation, e as int)));
            return true;
        }
        e = e + 1;
    }
    false
}

/// How many neighbors of tile `i` carry the feature `f`.
fn placed_near(i: usize, f: Feature, placed: &Vec<Option<Feature>>, mp: &MapParameters, q: &TileQuery) -> (r: u32)
    requires
        q.well_formed(mp),
        i < q.tiles.len(),
        placed.len() == q.tiles.len(),
    ensures
        r == placed_around(mp, q, placed@, i as int, f),
        r <= 6,
{
    let ns = neighbors_of(i, mp, q);
    proof {
        lemma_few_neighbors(mp, q, i as int);
    }
    let mut cnt: u32 = 0;
    let mut m: usize = 0;
    while m < ns.len()
        invariant
            q.well_formed(mp),
            i < q.tiles.len(),
            placed.len() == q.tiles.len(),
            ns@.len() == q.spec_neighbors(mp, i as int).len(),
            ns@.len() <= 6,
            forall|k: int| 0 <= k < ns.len() ==> #[trigger] ns@[k] as int == q.spec_neighbors(mp, i as int)[k],
            forall|k: int| 0 <= k < ns.len() ==> #[trigger] ns@[k] < q.tiles.len(),
            0 <= m <= ns.len(),
            cnt <= m,
            cnt == placed_count(placed@, q.spec_neighbors(mp, i as int), f, m as int),
        decreases ns.len() - m,
    {
        assert(ns@[m as int] as int == q.spec_neighbors(mp, i as int)[m as int]);
        let here = match placed[ns[m]] {
            Some(g) => g == f,
            None => false,
        };
        if here {
            cnt = cnt + 1;
        }
        m = m + 1;
    }
    cnt
}

/// Whether some neighbor of tile `i` is land.
fn land_next_to(i: usize, mp: &MapParameters, q: &TileQuery) -> (r: bool)
    requires
        q.well_formed(mp),
        i < q.tiles.len(),
    ensures
        r == has_land_neighbor(mp, q, i as int),
{
    let ns = neighbors_of(i, mp, q);
    let mut m: usize = 0;
    while m < ns.len()
        invariant
            q.well_formed(mp),
            i < q.tiles.len(),
            ns@.len() == q.spec_neighbors(mp, i as int).len(),
            forall|k: int| 0 <= k < ns.len() ==> #[trigger] ns@[k] as int == q.spec_neighbors(mp, i as int)[k],
            forall|k: int| 0 <= k < ns.len() ==> #[trigger] ns@[k] < q.tiles.len(),
            0 <= m <= ns.len(),
            forall|k: int| 0 <= k < m ==> q.tiles@[#[trigger] q.spec_neighbors(mp, i as int)[k]].terrain_type == TerrainType::Water,
        decreases ns.len() - m,
    {
        assert(ns@[m as int] as int == q.spec_neighbors(mp, i as int)[m as int]);
        if q.tiles[ns[m]].terrain_type != TerrainType::Water {
            return true;
        }
        m = m + 1;
    }
    false
}

/// The score a drawn number must not exceed, by the number of neighbors with the feature.
fn cluster_score_of(a: u32) -> (r: i64)
    ensures
        r == cluster_score(a as int),
{
    300 + if a == 0 {
        0
    } else if a == 1 {
        50
    } else if a <= 3 {
        150
    } else if a == 4 {
        -50
    } else {
        -200
    }
}

/// Whether `count` features among `plots` land tiles are within `max` percent.
fn quota_ok(count: u32, plots: u32, max: i64) -> (r: bool)
    requires
        plots > 0,
    ensures
        r == within_quota(count as int, plots as int, max as int),
{
    let share: u64 = (count as u64 * 100 + plots as u64 - 1) / plots as u64;
    (share as i128) <= (max as i128)
}


/// The shares are below 100 percent and the band is narrow.
spec fn limits_ok(l: Limits) -> bool {
    &&& -100 <= l.jungle <= 99
    &&& -100 <= l.forest <= 99
    &&& -100 <= l.marsh <= 99
    &&& -100 <= l.oasis <= 99
    &&& -100 <= l.low <= 100
    &&& -100 <= l.high <= 100
}

/// A draw below the draws' length is the draw itself in every longer list.
proof fn lemma_kept(ext: Seq<u32>, d: Seq<u32>, pos: int)
    requires
        extends(ext, d),
        0 <= pos < d.len(),
    ensures
        draw_at(ext, pos) == d[pos],
{
    assert(ext.take(d.len() as int)[pos] == ext[pos]);
}

/// Within its share, fewer features than land tiles have been laid.
proof fn lemma_quota_below(count: int, plots: int, max: int)
    requires
        plots > 0,
        count >= 0,
        max <= 99,
        within_quota(count, plots, max),
    ensures
        count < plots,
{
    assert(count < plots) by (nonlinear_arith)
        requires
            plots > 0,
            count >= 0,
            max <= 99,
            (count * 100 + plots - 1) / plots <= max,
    ;
}

/// Tries a marsh, then a jungle, then a forest on land tile `i` ([`marsh_try`]).
fn green_at(
    i: usize,
    mp: &MapParameters,
    q: &TileQuery,
    ruleset: &Ruleset,
    latitude_floor: &Vec<i32>,
    latitude_ceil: &Vec<i32>,
    lim: Limits,
    placed: &mut Vec<Option<Feature>>,
    out: &mut Vec<TileQueryItem>,
    c: &mut Counts,
    rng: &mut RandomNumberGenerator,
    Ghost(drawn): Ghost<Seq<u32>>,
    Ghost(bs): Ghost<Seq<u32>>,
) -> (dr: Ghost<(Seq<u32>, Seq<u32>)>)
    requires
        q.well_formed(mp),
        ruleset.well_formed(),
        i < q.tiles.len(),
        latitude_floor.len() == q.tiles.len(),
        latitude_ceil.len() == q.tiles.len(),
        limits_ok(lim),
        bs.len() == drawn.len(),
        old(placed).len() == q.tiles.len(),
        old(out).len() == q.tiles.len(),
        old(out)@[i as int] == q.tiles@[i as int],
        old(c).plots >= 1,
        counts_fit(*old(c), i + 1),
    ensures
        final(placed).len() == q.tiles.len(),
        final(out).len() == q.tiles.len(),
        forall|j: int| 0 <= j < q.tiles.len() ==> #[trigger] final(out)@[j].hex_position == old(out)@[j].hex_position,
        forall|j: int| 0 <= j < q.tiles.len() && j != i ==> #[trigger] final(out)@[j] == old(out)@[j],
        final(c).plots == old(c).plots,
        counts_fit(*final(c), i + 1),
        extends(dr@.0, drawn),
        extends(dr@.1, bs),
        dr@.1.len() == dr@.0.len(),
        forall|k: int| drawn.len() <= k < dr@.0.len() ==> dr@.0[k] < dr@.1[k],
        forall|ext: Seq<u32>|
            #[trigger] extends(ext, dr@.0) ==> marsh_try(
                mp,
                q,
                ruleset,
                latitude_floor@,
                latitude_ceil@,
                lv(lim),
                ext,
                (old(placed)@, old(out)@, cv(*old(c)), bs),
                i as int,
            ) == (final(placed)@, final(out)@, cv(*final(c)), dr@.1),
{
    let t = q.tiles[i];
    let ghost pos0 = drawn.len() as int;
    let ghost mut d = drawn;
    let ghost mut b = bs;
    proof {
        lemma_extends_refl(drawn);
        lemma_extends_refl(bs);
    }
    let mut done = false;
    let marsh_ok = occurs_at(ruleset, Feature::Marsh, &t) && quota_ok(c.marsh, c.plots, lim.marsh);
    if marsh_ok {
        let a = placed_near(i, Feature::Marsh, placed, mp, q);
        let score = cluster_score_of(a);
        let r = draw_below(&mut rng.rng, 300);
        proof {
            lemma_extends_one(d, r);
            lemma_extends_trans(d.push(r), d, drawn);
            d = d.push(r);
            lemma_extends_one(b, 300);
            lemma_extends_trans(b.push(300), b, bs);
            b = b.push(300);
        }
        if (r as i64) <= score {
            proof {
                lemma_quota_below(c.marsh as int, c.plots as int, lim.marsh as int);
            }
            placed.set(i, Some(Feature::Marsh));
            let mut u = out[i];
            u.feature = Some(Feature::Marsh);
            out.set(i, u);
            c.marsh = c.marsh + 1;
            done = true;
        }
    }
    let ghost pos1 = d.len() as int;
    let jungle_ok = !done && occurs_at(ruleset, Feature::Jungle, &t) && quota_ok(c.jungle, c.plots, lim.jungle)
        && (latitude_floor[i] as i64) >= lim.low && (latitude_ceil[i] as i64) <= lim.high;
    if jungle_ok {
        let a = placed_near(i, Feature::Jungle, placed, mp, q);
        let score = cluster_score_of(a);
        let r = draw_below(&mut rng.rng, 300);
        proof {
            lemma_extends_one(d, r);
            lemma_extends_trans(d.push(r), d, drawn);
            d = d.push(r);
            lemma_extends_one(b, 300);
            lemma_extends_trans(b.push(300), b, bs);
            b = b.push(300);
        }
        if (r as i64) <= score {
            proof {
                lemma_quota_below(c.jungle as int, c.plots as int, lim.jungle as int);
            }
            placed.set(i, Some(Feature::Jungle));
            let mut u = out[i];
            if t.terrain_type == TerrainType::Hill && (t.base_terrain == BaseTerrain::Grassland || t.base_terrain
                == BaseTerrain::Plain) {
                u.base_terrain = BaseTerrain::Plain;
            } else {
                u.terrain_type = TerrainType::Flatland;
                u.base_terrain = BaseTerrain::Plain;
            }
            u.feature = Some(Feature::Jungle);
            out.set(i, u);
            c.jungle = c.jungle + 1;
            done = true;
        }
    }
    let ghost pos2 = d.len() as int;
    let forest_ok = !done && occurs_at(ruleset, Feature::Forest, &t) && quota_ok(c.forest, c.plots, lim.forest);
    if forest_ok {
        let a = placed_near(i, Feature::Forest, placed, mp, q);
        let score = cluster_score_of(a);
        let r = draw_below(&mut rng.rng, 300);
        proof {
            lemma_extends_one(d, r);
            lemma_extends_trans(d.push(r), d, drawn);
            d = d.push(r);
            lemma_extends_one(b, 300);
            lemma_extends_trans(b.push(300), b, bs);
            b = b.push(300);
        }
        if (r as i64) <= score {
            proof {
                lemma_quota_below(c.forest as int, c.plots as int, lim.forest as int);
            }
            placed.set(i, Some(Feature::Forest));
            let mut u = out[i];
            u.feature = Some(Feature::Forest);
            out.set(i, u);
            c.forest = c.forest + 1;
            done = true;
        }
    }
    proof {
        assert forall|ext: Seq<u32>| #[trigger] extends(ext, d) implies marsh_try(
            mp,
            q,
            ruleset,
            latitude_floor@,
            latitude_ceil@,
            lv(lim),
            ext,
            (old(placed)@, old(out)@, cv(*old(c)), bs),
            i as int,
        ) == (placed@, out@, cv(*c), b) by {
            if marsh_ok {
                lemma_kept(ext, d, pos0);
            }
            if jungle_ok {
                lemma_kept(ext, d, pos1);
            }
            if forest_ok {
                lemma_kept(ext, d, pos2);
            }
        }
    }
    Ghost((d, b))
}


/// What tile `i` gets ([`feature_step`]).
fn feature_at(
    i: usize,
    mp: &MapParameters,
    river: &River,
    q: &TileQuery,
    ruleset: &Ruleset,
    latitude_floor: &Vec<i32>,
    latitude_ceil: &Vec<i32>,
    lim: Limits,
    placed: &mut Vec<Option<Feature>>,
    out: &mut Vec<TileQueryItem>,
    c: &mut Counts,
    rng: &mut RandomNumberGenerator,
    Ghost(drawn): Ghost<Seq<u32>>,
    Ghost(bs): Ghost<Seq<u32>>,
) -> (dr: Ghost<(Seq<u32>, Seq<u32>)>)
    requires
        q.well_formed(mp),
        ruleset.well_formed(),
        i < q.tiles.len(),
        latitude_floor.len() == q.tiles.len(),
        latitude_ceil.len() == q.tiles.len(),
        forall|j: int| 0 <= j < q.tiles.len() ==> -1000 <= #[trigger] latitude_ceil@[j] <= 1000,
        limits_ok(lim),
        !(q.tiles@[i as int].terrain_type == TerrainType::Mountain || (q.tiles@[i as int].feature matches Some(f)
            && ruleset.feature_impassable(f))) ==> (q.tiles@[i as int].natural_wonder matches Some(w) ==> w.0
            < ruleset.natural_wonders.len()),
        old(placed).len() == q.tiles.len(),
        old(out).len() == q.tiles.len(),
        old(out)@[i as int] == q.tiles@[i as int],
        counts_fit(*old(c), i as int),
        bs.len() == drawn.len(),
    ensures
        final(placed).len() == q.tiles.len(),
        final(out).len() == q.tiles.len(),
        forall|j: int| 0 <= j < q.tiles.len() ==> #[trigger] final(out)@[j].hex_position == old(out)@[j].hex_position,
        forall|j: int| 0 <= j < q.tiles.len() && j != i ==> #[trigger] final(out)@[j] == old(out)@[j],
        counts_fit(*final(c), i + 1),
        extends(dr@.0, drawn),
        extends(dr@.1, bs),
        dr@.1.len() == dr@.0.len(),
        forall|k: int| drawn.len() <= k < dr@.0.len() ==> dr@.0[k] < dr@.1[k],
        forall|ext: Seq<u32>|
            #[trigger] extends(ext, dr@.0) ==> feature_step(
                mp,
                river,
                q,
                ruleset,
                latitude_floor@,
                latitude_ceil@,
                lv(lim),
                ext,
                (old(placed)@, old(out)@, cv(*old(c)), bs),
                i as int,
            ) == (final(placed)@, final(out)@, cv(*final(c)), dr@.1),
{
    let t = q.tiles[i];
    let ghost pos0 = drawn.len() as int;
    proof {
        lemma_extends_refl(drawn);
        lemma_extends_refl(bs);
    }
    if t.is_impassable(ruleset) {
        return Ghost((drawn, bs));
    }
    if t.terrain_type == TerrainType::Water {
        if !river_on_edge(i, mp, river, q) && occurs_at(ruleset, Feature::Ice, &t) && latitude_ceil[i] > 78 {
            let a = placed_near(i, Feature::Ice, placed, mp, q);
            let r = draw_below(&mut rng.rng, 100);
            proof {
                lemma_extends_one(drawn, r);
                lemma_extends_one(bs, 100);
            }
            let land = land_next_to(i, mp, q);
            let lat = latitude_ceil[i] as i64;
            let ice = if land {
                lat > 260 - 20 * (a as i64) - (r as i64)
            } else {
                lat > 130 - 10 * (a as i64) - (r as i64)
            };
            if ice {
                placed.set(i, Some(Feature::Ice));
                let mut u = out[i];
                u.feature = Some(Feature::Ice);
                out.set(i, u);
            }
            proof {
                assert forall|ext: Seq<u32>| #[trigger] extends(ext, drawn.push(r)) implies feature_step(
                    mp,
                    river,
                    q,
                    ruleset,
                    latitude_floor@,
                    latitude_ceil@,
                    lv(lim),
                    ext,
                    (old(placed)@, old(out)@, cv(*old(c)), bs),
                    i as int,
                ) == (placed@, out@, cv(*c), bs.push(100)) by {
                    lemma_kept(ext, drawn.push(r), pos0);
                }
            }
            return Ghost((drawn.push(r), bs.push(100)));
        }
        return Ghost((drawn, bs));
    }
    c.plots = c.plots + 1;
    if river_on_edge(i, mp, river, q) && occurs_at(ruleset, Feature::Floodplain, &t) {
        let mut u = out[i];
        u.feature = Some(Feature::Floodplain);
        out.set(i, u);
        return Ghost((drawn, bs));
    }
    let mut d1 = Ghost(drawn);
    let mut b1 = Ghost(bs);
    if occurs_at(ruleset, Feature::Oasis, &t) && quota_ok(c.oasis, c.plots, lim.oasis) {
        let r = draw_below(&mut rng.rng, 4);
        proof {
            lemma_extends_one(drawn, r);
            lemma_extends_one(bs, 4);
        }
        if r == 1 {
            proof {
                lemma_quota_below(c.oasis as int, c.plots as int, lim.oasis as int);
            }
            let mut u = out[i];
            u.feature = Some(Feature::Oasis);
            out.set(i, u);
            c.oasis = c.oasis + 1;
            proof {
                assert forall|ext: Seq<u32>| #[trigger] extends(ext, drawn.push(r)) implies feature_step(
                    mp,
                    river,
                    q,
                    ruleset,
                    latitude_floor@,
                    latitude_ceil@,
                    lv(lim),
                    ext,
                    (old(placed)@, old(out)@, cv(*old(c)), bs),
                    i as int,
                ) == (placed@, out@, cv(*c), bs.push(4)) by {
                    lemma_kept(ext, drawn.push(r), pos0);
                }
            }
            return Ghost((drawn.push(r), bs.push(4)));
        }
        d1 = Ghost(drawn.push(r));
        b1 = Ghost(bs.push(4));
    }
    let ghost placed1 = placed@;
    let ghost out1 = out@;
    let ghost c1 = *c;
    let dd = green_at(i, mp, q, ruleset, latitude_floor, latitude_ceil, lim, placed, out, c, rng, d1, b1);
    let ghost d2 = dd@.0;
    let ghost b2 = dd@.1;
    proof {
        lemma_extends_trans(d2, d1@, drawn);
        lemma_extends_trans(b2, b1@, bs);
        assert forall|k: int| drawn.len() <= k < d2.len() implies d2[k] < b2[k] by {
            if k < d1@.len() {
                assert(d2.take(d1@.len() as int)[k] == d2[k]);
                assert(b2.take(b1@.len() as int)[k] == b2[k]);
            }
        }
        assert forall|ext: Seq<u32>| #[trigger] extends(ext, d2) implies feature_step(
            mp,
            river,
            q,
            ruleset,
            latitude_floor@,
            latitude_ceil@,
            lv(lim),
            ext,
            (old(placed)@, old(out)@, cv(*old(c)), bs),
            i as int,
        ) == (placed@, out@, cv(*c), b2) by {
            lemma_extends_trans(ext, d2, d1@);
            if d1@.len() > drawn.len() {
                lemma_kept(ext, d1@, pos0);
            }
        }
    }
    dd
}


/// Lays the terrain features over the map, tile by tile in index order
/// ([`feature_step`]); the shares and the jungle's band come from the rainfall
/// ([`limits`]), which for a random rainfall is the first draw (from 0..11) less 5.
/// What the draws came to is left to the random number generator; each is taken from
/// the range that [`feature_step`] gives it (0..300 for forests, jungles and marshes,
/// 0..100 for ice, 0..4 for oases).
/// `latitude_floor[i]` and `latitude_ceil[i]` are 100 × the latitude of tile `i`,
/// rounded down and up.
pub fn add_features(
    rainfall: Rainfall,
    latitude_floor: &Vec<i32>,
    latitude_ceil: &Vec<i32>,
    ruleset: &Ruleset,
    river: &River,
    random_number_generator: &mut RandomNumberGenerator,
    map_parameters: &MapParameters,
    query_tile: &mut TileQuery,
)
    requires
        old(query_tile).well_formed(map_parameters),
        ruleset.well_formed(),
        latitude_floor.len() == old(query_tile).tiles.len(),
        latitude_ceil.len() == old(query_tile).tiles.len(),
        forall|j: int| 0 <= j < latitude_ceil.len() ==> -1000 <= #[trigger] latitude_ceil@[j] <= 1000,
        forall|j: int|
            0 <= j < old(query_tile).tiles.len() ==> !(#[trigger] old(query_tile).tiles@[j].terrain_type
                == TerrainType::Mountain || (old(query_tile).tiles@[j].feature matches Some(f)
                && ruleset.feature_impassable(f))) ==> (old(query_tile).tiles@[j].natural_wonder matches Some(w)
                ==> w.0 < ruleset.natural_wonders.len()),
    ensures
        final(query_tile).well_formed(map_parameters),
        final(query_tile).tiles.len() == old(query_tile).tiles.len(),
        exists|d: Seq<u32>|
            #![trigger features_upto(map_parameters, river, &*old(query_tile), ruleset, rainfall, latitude_floor@, latitude_ceil@, d, old(query_tile).tiles.len() as int)]
            {
                &&& features_upto(
                    map_parameters,
                    river,
                    &*old(query_tile),
                    ruleset,
                    rainfall,
                    latitude_floor@,
                    latitude_ceil@,
                    d,
                    old(query_tile).tiles.len() as int,
                ).3.len() == d.len()
                &&& forall|k: int|
                    0 <= k < d.len() ==> d[k] < features_upto(
                        map_parameters,
                        river,
                        &*old(query_tile),
                        ruleset,
                        rainfall,
                        latitude_floor@,
                        latitude_ceil@,
                        d,
                        old(query_tile).tiles.len() as int,
                    ).3[k]
                &&& final(query_tile).tiles@ == features_upto(
                    map_parameters,
                    river,
                    &*old(query_tile),
                    ruleset,
                    rainfall,
                    latitude_floor@,
                    latitude_ceil@,
                    d,
                    old(query_tile).tiles.len() as int,
                ).1
            },
{
    let ghost q0 = *query_tile;
    let n = query_tile.tiles.len();
    let ghost mut d: Seq<u32> = Seq::empty();
    let ghost mut b: Seq<u32> = Seq::empty();
    let rain: i64 = match rainfall {
        Rainfall::Arid => -4,
        Rainfall::Normal => 0,
        Rainfall::Wet => 4,
        Rainfall::Random => {
            let r = draw_below(&mut random_number_generator.rng, 11);
            proof {
                d = d.push(r);
                b = b.push(11);
                assert(b =~= seq![11u32]);
            }
            r as i64 - 5
        },
    };
    let lim = limits_for(rain);
    let mut placed: Vec<Option<Feature>> = Vec::new();
    let mut out: Vec<TileQueryItem> = Vec::new();
    let mut i: usize = 0;
    while i < n
        invariant
            *query_tile == q0,
            n == q0.tiles.len(),
            0 <= i <= n,
            placed.len() == i,
            out@ == q0.tiles@.take(i as int),
            forall|j: int| 0 <= j < i ==> #[trigger] placed@[j] == None::<Feature>,
        decreases n - i,
    {
        placed.push(None);
        out.push(query_tile.tiles[i]);
        proof {
            assert(out@ =~= q0.tiles@.take(i + 1));
        }
        i = i + 1;
    }
    let mut c = Counts { forest: 0, jungle: 0, marsh: 0, oasis: 0, plots: 0 };
    proof {
        assert(out@ =~= q0.tiles@);
        assert(placed@ =~= Seq::new(n as nat, |j: int| None::<Feature>));
        assert forall|ext: Seq<u32>| #[trigger] extends(ext, d) implies limits(rain_value(rainfall, ext)) == lv(lim) && features_upto(
            map_parameters,
            river,
            &q0,
            ruleset,
            rainfall,
            latitude_floor@,
            latitude_ceil@,
            ext,
            0,
        ) == (placed@, out@, cv(c), b) by {
            if rainfall == Rainfall::Random {
                lemma_kept(ext, d, 0);
            }
        }
    }
    let mut k: usize = 0;
    while k < n
        invariant
            *query_tile == q0,
            q0.well_formed(map_parameters),
            ruleset.well_formed(),
            n == q0.tiles.len(),
            latitude_floor.len() == n,
            latitude_ceil.len() == n,
            forall|j: int| 0 <= j < latitude_ceil.len() ==> -1000 <= #[trigger] latitude_ceil@[j] <= 1000,
            forall|j: int|
                0 <= j < n ==> !(#[trigger] q0.tiles@[j].terrain_type == TerrainType::Mountain || (q0.tiles@[j].feature matches Some(
                    f,
                ) && ruleset.feature_impassable(f))) ==> (q0.tiles@[j].natural_wonder matches Some(w) ==> w.0
                    < ruleset.natural_wonders.len()),
            limits_ok(lim),
            0 <= k <= n,
            placed.len() == n,
            out.len() == n,
            forall|j: int| 0 <= j < n ==> #[trigger] out@[j].hex_position == q0.tiles@[j].hex_position,
            forall|j: int| k <= j < n ==> #[trigger] out@[j] == q0.tiles@[j],
            counts_fit(c, k as int),
            b.len() == d.len(),
            forall|m: int| 0 <= m < d.len() ==> d[m] < b[m],
            forall|ext: Seq<u32>|
                #[trigger] extends(ext, d) ==> limits(rain_value(rainfall, ext)) == lv(lim) && features_upto(
                    map_parameters,
                    river,
                    &q0,
                    ruleset,
                    rainfall,
                    latitude_floor@,
                    latitude_ceil@,
                    ext,
                    k as int,
                ) == (placed@, out@, cv(c), b),
        decreases n - k,
    {
        let ghost d_b = d;
        let ghost b_b = b;
        let dd = feature_at(
            k,
            map_parameters,
            river,
            query_tile,
            ruleset,
            latitude_floor,
            latitude_ceil,
            lim,
            &mut placed,
            &mut out,
            &mut c,
            random_number_generator,
            Ghost(d),
            Ghost(b),
        );
        let ghost d2 = dd@.0;
        let ghost b2 = dd@.1;
        proof {
            assert forall|m: int| 0 <= m < d2.len() implies d2[m] < b2[m] by {
                if m < d_b.len() {
                    assert(d2.take(d_b.len() as int)[m] == d2[m]);
                    assert(b2.take(b_b.len() as int)[m] == b2[m]);
                }
            }
            assert forall|ext: Seq<u32>| #[trigger] extends(ext, d2) implies limits(rain_value(rainfall, ext)) == lv(lim)
                && features_upto(
                map_parameters,
                river,
                &q0,
                ruleset,
                rainfall,
                latitude_floor@,
                latitude_ceil@,
                ext,
                k + 1,
            ) == (placed@, out@, cv(c), b2) by {
                lemma_extends_trans(ext, d2, d_b);
            }
            d = d2;
            b = b2;
        }
        k = k + 1;
    }
    query_tile.tiles = out;
    proof {
        lemma_same_positions_keep_well_formed(map_parameters, &q0, query_tile);
        lemma_extends_refl(d);
    }
}

/// A hill of grassland or plain.
pub open spec fn grassy_hill(t: TileQueryItem) -> bool {
    t.terrain_type == TerrainType::Hill && (t.base_terrain == BaseTerrain::Grassland || t.base_terrain
        == BaseTerrain::Plain)
}

/// What laying features may do to the ground of a tile that was `o` and is now `t`:
/// its terrain type stays, except that a jungle flattens a tile that is not a hill of
/// grassland or plain; and a newly laid jungle leaves plain ground.
pub open spec fn ground_after_features(o: TileQueryItem, t: TileQueryItem) -> bool {
    &&& t.terrain_type == o.terrain_type || (!grassy_hill(o) && t.feature == Some(Feature::Jungle)
        && t.terrain_type == TerrainType::Flatland)
    &&& (t.feature == Some(Feature::Jungle) && o.feature != Some(Feature::Jungle)) ==> t.base_terrain
        == BaseTerrain::Plain && t.terrain_type == if grassy_hill(o) {
        TerrainType::Hill
    } else {
        TerrainType::Flatland
    }
}

proof fn lemma_forest_ground(
    mp: &MapParameters,
    q: &TileQuery,
    ruleset: &Ruleset,
    lim: (int, int, int, int, int, int),
    d: Seq<u32>,
    st: FeatureState,
    i: int,
)
    requires
        st.1.len() == q.tiles.len(),
        0 <= i < q.tiles.len(),
        st.1[i] == q.tiles@[i],
    ensures
        ({
            let r = forest_try(mp, q, ruleset, lim, d, st, i);
            &&& r.1.len() == st.1.len()
            &&& forall|j: int| 0 <= j < st.1.len() && j != i ==> r.1[j] == st.1[j]
            &&& ground_after_features(q.tiles@[i], r.1[i])
        }),
{
}

proof fn lemma_jungle_ground(
    mp: &MapParameters,
    q: &TileQuery,
    ruleset: &Ruleset,
    latitude_floor: Seq<i32>,
    latitude_ceil: Seq<i32>,
    lim: (int, int, int, int, int, int),
    d: Seq<u32>,
    st: FeatureState,
    i: int,
)
    requires
        st.1.len() == q.tiles.len(),
        0 <= i < q.tiles.len(),
        st.1[i] == q.tiles@[i],
    ensures
        ({
            let r = jungle_try(mp, q, ruleset, latitude_floor, latitude_ceil, lim, d, st, i);
            &&& r.1.len() == st.1.len()
            &&& forall|j: int| 0 <= j < st.1.len() && j != i ==> r.1[j] == st.1[j]
            &&& ground_after_features(q.tiles@[i], r.1[i])
        }),
{
    let (placed, tiles, c, bs) = st;
    lemma_forest_ground(mp, q, ruleset, lim, d, st, i);
    lemma_forest_ground(mp, q, ruleset, lim, d, (placed, tiles, c, bs.push(300)), i);
}

proof fn lemma_marsh_ground(
    mp: &MapParameters,
    q: &TileQuery,
    ruleset: &Ruleset,
    latitude_floor: Seq<i32>,
    latitude_ceil: Seq<i32>,
    lim: (int, int, int, int, int, int),
    d: Seq<u32>,
    st: FeatureState,
    i: int,
)
    requires
        st.1.len() == q.tiles.len(),
        0 <= i < q.tiles.len(),
        st.1[i] == q.tiles@[i],
    ensures
        ({
            let r = marsh_try(mp, q, ruleset, latitude_floor, latitude_ceil, lim, d, st, i);
            &&& r.1.len() == st.1.len()
            &&& forall|j: int| 0 <= j < st.1.len() && j != i ==> r.1[j] == st.1[j]
            &&& ground_after_features(q.tiles@[i], r.1[i])
        }),
{
    let (placed, tiles, c, bs) = st;
    lemma_jungle_ground(mp, q, ruleset, latitude_floor, latitude_ceil, lim, d, st, i);
    lemma_jungle_ground(mp, q, ruleset, latitude_floor, latitude_ceil, lim, d, (placed, tiles, c, bs.push(300)), i);
}

proof fn lemma_step_ground(
    mp: &MapParameters,
    river: &River,
    q: &TileQuery,
    ruleset: &Ruleset,
    latitude_floor: Seq<i32>,
    latitude_ceil: Seq<i32>,
    lim: (int, int, int, int, int, int),
    d: Seq<u32>,
    st: FeatureState,
    i: int,
)
    requires
        st.1.len() == q.tiles.len(),
        0 <= i < q.tiles.len(),
        st.1[i] == q.tiles@[i],
    ensures
        ({
            let r = feature_step(mp, river, q, ruleset, latitude_floor, latitude_ceil, lim, d, st, i);
            &&& r.1.len() == st.1.len()
            &&& forall|j: int| 0 <= j < st.1.len() && j != i ==> r.1[j] == st.1[j]
            &&& ground_after_features(q.tiles@[i], r.1[i])
        }),
{
    let (placed, tiles, c, bs) = st;
    let c1 = (c.0, c.1, c.2, c.3, c.4 + 1);
    lemma_marsh_ground(mp, q, ruleset, latitude_floor, latitude_ceil, lim, d, (placed, tiles, c1, bs), i);
    lemma_marsh_ground(mp, q, ruleset, latitude_floor, latitude_ceil, lim, d, (placed, tiles, c1, bs.push(4)), i);
}

proof fn lemma_features_ground(
    mp: &MapParameters,
    river: &River,
    q: &TileQuery,
    ruleset: &Ruleset,
    rainfall: Rainfall,
    latitude_floor: Seq<i32>,
    latitude_ceil: Seq<i32>,
    d: Seq<u32>,
    k: int,
)
    requires
        0 <= k <= q.tiles.len(),
    ensures
        ({
            let r = features_upto(mp, river, q, ruleset, rainfall, latitude_floor, latitude_ceil, d, k).1;
            &&& r.len() == q.tiles.len()
            &&& forall|j: int| k <= j < q.tiles.len() ==> r[j] == q.tiles@[j]
            &&& forall|j: int| 0 <= j < k ==> ground_after_features(q.tiles@[j], #[trigger] r[j])
        }),
    decreases k,
{
    if k > 0 {
        lemma_features_ground(mp, river, q, ruleset, rainfall, latitude_floor, latitude_ceil, d, k - 1);
        let prev = features_upto(mp, river, q, ruleset, rainfall, latitude_floor, latitude_ceil, d, k - 1);
        lemma_step_ground(
            mp,
            river,
            q,
            ruleset,
            latitude_floor,
            latitude_ceil,
            limits(rain_value(rainfall, d)),
            d,
            prev,
            k - 1,
        );
    }
}

/// Laying features keeps the ground of every tile: its terrain type stays, except that
/// a jungle flattens a tile that was not a hill of grassland or plain (a jungle on such
/// a hill leaves it a hill), and a newly laid jungle leaves plain ground: a hill of
/// grassland or plain under a new jungle is still a hill, every other tile under a new
/// jungle is flatland. Tile by tile,
/// for every rainfall, latitude and draws.
pub proof fn law_jungle_keeps_hills(
    mp: &MapParameters,
    river: &River,
    q: &TileQuery,
    ruleset: &Ruleset,
    rainfall: Rainfall,
    latitude_floor: Seq<i32>,
    latitude_ceil: Seq<i32>,
    d: Seq<u32>,
)
    ensures
        forall|j: int|
            0 <= j < q.tiles.len() ==> {
                let o = q.tiles@[j];
                let t = #[trigger] features_upto(
                    mp,
                    river,
                    q,
                    ruleset,
                    rainfall,
                    latitude_floor,
                    latitude_ceil,
                    d,
                    q.tiles.len() as int,
                ).1[j];
                &&& t.terrain_type == o.terrain_type || (t.feature == Some(Feature::Jungle)
                    && t.terrain_type == TerrainType::Flatland && !(o.terrain_type == TerrainType::Hill && (
                o.base_terrain == BaseTerrain::Grassland || o.base_terrain == BaseTerrain::Plain)))
                &&& (t.feature == Some(Feature::Jungle) && o.feature != Some(Feature::Jungle)) ==> t.base_terrain
                    == BaseTerrain::Plain && t.terrain_type == if o.terrain_type == TerrainType::Hill && (
                o.base_terrain == BaseTerrain::Grassland || o.base_terrain == BaseTerrain::Plain) {
                    TerrainType::Hill
                } else {
                    TerrainType::Flatland
                }
            },
{
    lemma_features_ground(mp, river, q, ruleset, rainfall, latitude_floor, latitude_ceil, d, q.tiles.len() as int);
}

} // verus!
