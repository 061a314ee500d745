//! Cities: what their tiles and buildings yield each turn, how they grow, which tiles
//! their citizens work, and how their borders expand.
//!
//! Tiles are named by their index on the map.

use crate::construction::decimal_string;
use crate::tech::decimal;
use crate::terrain::TerrainType;
use vstd::prelude::*;

verus! {

/// The yields the rules give a terrain, feature, resource, improvement or building.
/// They may be negative.
#[derive(Clone, Copy, Debug, PartialEq, Eq, Structural)]
pub struct Yields {
    pub food: i32,
    pub production: i32,
    pub science: i32,
    pub gold: i32,
    pub culture: i32,
    pub faith: i32,
    pub happiness: i32,
}

/// What a city or a tile yields in one turn.
#[derive(Clone, Copy, Debug, PartialEq, Eq, Structural)]
pub struct CityYields {
    pub food: u32,
    pub production: u32,
    pub science: u32,
    pub gold: u32,
    pub culture: u32,
    pub faith: u32,
    pub happiness: i32,
}

impl Default for CityYields {
    fn default() -> (r: Self)
        ensures
            forall|k: int| 0 <= k < 7 ==> #[trigger] cv(r, k) == 0,
    {
        CityYields { food: 0, production: 0, science: 0, gold: 0, culture: 0, faith: 0, happiness: 0 }
    }
}

/// The `k`-th yield: food, production, science, gold, culture, faith, happiness.
pub open spec fn yv(y: Yields, k: int) -> int {
    if k == 0 {
        y.food as int
    } else if k == 1 {
        y.production as int
    } else if k == 2 {
        y.science as int
    } else if k == 3 {
        y.gold as int
    } else if k == 4 {
        y.culture as int
    } else if k == 5 {
        y.faith as int
    } else {
        y.happiness as int
    }
}

/// The `k`-th yield: food, production, science, gold, culture, faith, happiness.
pub open spec fn cv(y: CityYields, k: int) -> int {
    if k == 0 {
        y.food as int
    } else if k == 1 {
        y.production as int
    } else if k == 2 {
        y.science as int
    } else if k == 3 {
        y.gold as int
    } else if k == 4 {
        y.culture as int
    } else if k == 5 {
        y.faith as int
    } else {
        y.happiness as int
    }
}

/// A yield counted only when positive.
pub open spec fn pos(v: int) -> int {
    if v > 0 {
        v
    } else {
        0
    }
}

/// The yield of an optional source, counted when positive.
pub open spec fn opt_pos(y: Option<Yields>, k: int) -> int {
    match y {
        Some(y) => pos(yv(y, k)),
        None => 0,
    }
}

/// What the rules give one tile: its base terrain, its terrain type, and its feature,
/// resource and improvement when it has them.
#[derive(Clone, Copy, Debug)]
pub struct TileYieldSources {
    pub base_terrain: Yields,
    pub terrain_type: Yields,
    pub feature: Option<Yields>,
    pub resource: Option<Yields>,
    pub improvement: Option<Yields>,
}

/// The `k`-th yield of a tile before its improvement.
pub open spec fn natural_yield(t: TileYieldSources, k: int) -> int {
    pos(yv(t.base_terrain, k)) + pos(yv(t.terrain_type, k)) + opt_pos(t.feature, k) + opt_pos(
        t.resource,
        k,
    )
}

/// The `k`-th yield of a tile: the positive parts of what its terrain, terrain type,
/// feature and resource give, then its improvement's, added without going past the
/// largest `u32`. A tile yields no happiness.
pub open spec fn tile_yield(t: TileYieldSources, k: int) -> int {
    if k == 6 {
        0
    } else {
        let n = natural_yield(t, k);
        match t.improvement {
            Some(i) => vstd::math::min(n + pos(yv(i, k)), u32::MAX as int),
            None => n,
        }
    }
}

/// The tile's yields before its improvement fit a `u32`.
pub open spec fn tile_fits(t: TileYieldSources) -> bool {
    forall|k: int| 0 <= k < 6 ==> #[trigger] natural_yield(t, k) <= u32::MAX
}

fn pos_u32(v: i32) -> (r: u32)
    ensures
        r == pos(v as int),
{
    if v > 0 {
        v as u32
    } else {
        0
    }
}

fn opt_pos_u32(y: Option<Yields>, k: usize) -> (r: u32)
    requires
        k < 6,
    ensures
        r == opt_pos(y, k as int),
{
    match y {
        Some(y) => pos_u32(pick(y, k)),
        None => 0,
    }
}

fn pick(y: Yields, k: usize) -> (r: i32)
    requires
        k < 7,
    ensures
        r == yv(y, k as int),
{
    if k == 0 {
        y.food
    } else if k == 1 {
        y.production
    } else if k == 2 {
        y.science
    } else if k == 3 {
        y.gold
    } else if k == 4 {
        y.culture
    } else if k == 5 {
        y.faith
    } else {
        y.happiness
    }
}

fn one_tile_yield(t: &TileYieldSources, k: usize) -> (r: u32)
    requires
        k < 6,
        natural_yield(*t, k as int) <= u32::MAX,
    ensures
        r == tile_yield(*t, k as int),
{
    let a = pos_u32(pick(t.base_terrain, k));
    let b = pos_u32(pick(t.terrain_type, k));
    let c = opt_pos_u32(t.feature, k);
    let d = opt_pos_u32(t.resource, k);
    let n = a + b + c + d;
    match t.improvement {
        Some(i) => n.saturating_add(pos_u32(pick(i, k))),
        None => n,
    }
}

/// What one tile yields in a turn.
pub fn tile_yields_with_improvement(tile: &TileYieldSources) -> (r: CityYields)
    requires
        tile_fits(*tile),
    ensures
        forall|k: int| 0 <= k < 7 ==> #[trigger] cv(r, k) == tile_yield(*tile, k),
{
    proof {
        assert(natural_yield(*tile, 0) <= u32::MAX);
        assert(natural_yield(*tile, 1) <= u32::MAX);
        assert(natural_yield(*tile, 2) <= u32::MAX);
        assert(natural_yield(*tile, 3) <= u32::MAX);
        assert(natural_yield(*tile, 4) <= u32::MAX);
        assert(natural_yield(*tile, 5) <= u32::MAX);
    }
    CityYields {
        food: one_tile_yield(tile, 0),
        production: one_tile_yield(tile, 1),
        science: one_tile_yield(tile, 2),
        gold: one_tile_yield(tile, 3),
        culture: one_tile_yield(tile, 4),
        faith: one_tile_yield(tile, 5),
        happiness: 0,
    }
}

/// What a city is producing: a building or a unit, by index in the rules.
#[derive(Clone, Copy, Debug, PartialEq, Eq, Structural)]
pub enum CityProduction {
    Building(usize),
    Unit(usize),
}

/// A city.
#[derive(Clone, Debug)]
pub struct City {
    pub name: String,
    pub population: u32,
    /// Food gathered toward the next citizen.
    pub food: u32,
    /// Food needed for the next citizen.
    pub food_needed: u32,
    /// Its buildings, by index in the rules.
    pub buildings: Vec<usize>,
    pub current_production: Option<CityProduction>,
    pub production_progress: u32,
    /// The tiles it owns; the first is its center.
    pub owned_tiles: Vec<usize>,
    /// The tiles its citizens work (the center is worked without a citizen).
    pub worked_tiles: Vec<usize>,
    /// Culture gathered toward the next border expansion.
    pub culture: u32,
    /// Culture needed for the next border expansion.
    pub culture_to_expand: u32,
    pub border_radius: u32,
    pub max_border_radius: u32,
    /// Citizens work tiles no farther than this from the center.
    pub work_radius: u32,
}

impl City {
    /// A new city with one citizen and a palace (the building `palace`), owning no tiles
    /// yet: 15 food to grow, 20 culture to expand, its border at 1 of at most 5, its
    /// citizens working within 3 tiles.
    pub fn new(name: String, palace: usize) -> (r: City)
        ensures
            r.name@ == name@,
            r.population == 1,
            r.food == 0,
            r.food_needed == 15,
            r.buildings@ == seq![palace],
            r.current_production is None,
            r.production_progress == 0,
            r.owned_tiles@.len() == 0,
            r.worked_tiles@.len() == 0,
            r.culture == 0,
            r.culture_to_expand == 20,
            r.border_radius == 1,
            r.max_border_radius == 5,
            r.work_radius == 3,
    {
        let mut buildings: Vec<usize> = Vec::new();
        buildings.push(palace);
        City {
            name,
            population: 1,
            food: 0,
            food_needed: 15,
            buildings,
            current_production: None,
            production_progress: 0,
            owned_tiles: Vec::new(),
            worked_tiles: Vec::new(),
            culture: 0,
            culture_to_expand: 20,
            border_radius: 1,
            max_border_radius: 5,
            work_radius: 3,
        }
    }
}

/// The city's `idx`-th owned tile is worked this turn: the center always is; another
/// tile is when a citizen works it and it lies within the work radius.
pub open spec fn worked_at(city: City, distance: Seq<i32>, idx: int) -> bool {
    idx == 0 || (city.worked_tiles@.contains(city.owned_tiles@[idx])
        && distance[city.owned_tiles@[idx] as int] <= city.work_radius as i32)
}

/// The `k`-th yield of the city's first `n` owned tiles that are worked.
pub open spec fn tiles_total(
    city: City,
    tiles: Seq<TileYieldSources>,
    distance: Seq<i32>,
    k: int,
    n: int,
) -> int
    decreases n,
{
    if n <= 0 {
        0
    } else {
        tiles_total(city, tiles, distance, k, n - 1) + if worked_at(city, distance, n - 1) {
            tile_yield(tiles[city.owned_tiles@[n - 1] as int], k)
        } else {
            0
        }
    }
}

/// The `k`-th yield of the city's first `n` buildings: the positive part, but
/// happiness as it is.
pub open spec fn buildings_total(city: City, building_yields: Seq<Yields>, k: int, n: int) -> int
    decreases n,
{
    if n <= 0 {
        0
    } else {
        let y = yv(building_yields[city.buildings@[n - 1] as int], k);
        buildings_total(city, building_yields, k, n - 1) + if k == 6 {
            y
        } else {
            pos(y)
        }
    }
}

/// The `k`-th yield of the whole city in a turn.
pub open spec fn city_total(
    city: City,
    tiles: Seq<TileYieldSources>,
    distance: Seq<i32>,
    building_yields: Seq<Yields>,
    k: int,
) -> int {
    tiles_total(city, tiles, distance, k, city.owned_tiles@.len() as int) + buildings_total(
        city,
        building_yields,
        k,
        city.buildings@.len() as int,
    )
}

/// The city's tiles and buildings are known to the tables, and its totals fit.
pub open spec fn yields_computable(
    city: City,
    tiles: Seq<TileYieldSources>,
    distance: Seq<i32>,
    building_yields: Seq<Yields>,
) -> bool {
    &&& city.owned_tiles@.len() > 0
    &&& distance.len() == tiles.len()
    &&& forall|i: int|
        0 <= i < city.owned_tiles@.len() ==> (#[trigger] city.owned_tiles@[i]) < tiles.len()
            && tile_fits(tiles[city.owned_tiles@[i] as int])
    &&& forall|j: int| 0 <= j < city.buildings@.len() ==> (#[trigger] city.buildings@[j]) < building_yields.len()
    &&& forall|k: int| 0 <= k < 6 ==> #[trigger] city_total(city, tiles, distance, building_yields, k) <= u32::MAX
    &&& forall|n: int|
        0 <= n <= city.buildings@.len() ==> i32::MIN <= #[trigger] buildings_total(
            city,
            building_yields,
            6,
            n,
        ) <= i32::MAX
}

proof fn lemma_tiles_total_grows(
    city: City,
    tiles: Seq<TileYieldSources>,
    distance: Seq<i32>,
    k: int,
    m: int,
    n: int,
)
    requires
        0 <= k < 6,
        m <= n,
    ensures
        0 <= tiles_total(city, tiles, distance, k, m) <= tiles_total(city, tiles, distance, k, n),
    decreases n,
{
    if n <= 0 {
    } else if n > m {
        lemma_tiles_total_grows(city, tiles, distance, k, m, n - 1);
    } else {
        lemma_tiles_total_grows(city, tiles, distance, k, n - 1, n - 1);
    }
}

proof fn lemma_buildings_total_grows(city: City, building_yields: Seq<Yields>, k: int, m: int, n: int)
    requires
        0 <= k < 6,
        m <= n,
    ensures
        0 <= buildings_total(city, building_yields, k, m) <= buildings_total(
            city,
            building_yields,
            k,
            n,
        ),
    decreases n,
{
    if n <= 0 {
    } else if n > m {
        lemma_buildings_total_grows(city, building_yields, k, m, n - 1);
    } else {
        lemma_buildings_total_grows(city, building_yields, k, n - 1, n - 1);
    }
}

fn add_yields(a: CityYields, b: CityYields) -> (r: CityYields)
    requires
        forall|k: int| 0 <= k < 6 ==> #[trigger] cv(a, k) + cv(b, k) <= u32::MAX,
        i32::MIN <= a.happiness + b.happiness <= i32::MAX,
    ensures
        forall|k: int| 0 <= k < 7 ==> #[trigger] cv(r, k) == cv(a, k) + cv(b, k),
{
    proof {
        assert(cv(a, 0) + cv(b, 0) <= u32::MAX);
        assert(cv(a, 1) + cv(b, 1) <= u32::MAX);
        assert(cv(a, 2) + cv(b, 2) <= u32::MAX);
        assert(cv(a, 3) + cv(b, 3) <= u32::MAX);
        assert(cv(a, 4) + cv(b, 4) <= u32::MAX);
        assert(cv(a, 5) + cv(b, 5) <= u32::MAX);
    }
    CityYields {
        food: a.food + b.food,
        production: a.production + b.production,
        science: a.science + b.science,
        gold: a.gold + b.gold,
        culture: a.culture + b.culture,
        faith: a.faith + b.faith,
        happiness: a.happiness + b.happiness,
    }
}

/// The yields of a building: the positive part of each, and its happiness.
fn building_contribution(y: &Yields) -> (r: CityYields)
    ensures
        forall|k: int| 0 <= k < 6 ==> #[trigger] cv(r, k) == pos(yv(*y, k)),
        r.happiness == y.happiness,
{
    CityYields {
        food: pos_u32(y.food),
        production: pos_u32(y.production),
        science: pos_u32(y.science),
        gold: pos_u32(y.gold),
        culture: pos_u32(y.culture),
        faith: pos_u32(y.faith),
        happiness: y.happiness,
    }
}

/// What a city yields in a turn: each worked tile's yields (the center, and each tile a
/// citizen works within the work radius), then each building's positive yields and its
/// happiness. `distance` gives each map tile's distance from the city's center.
pub fn calculate_city_yields(
    city: &City,
    tiles: &Vec<TileYieldSources>,
    distance: &Vec<i32>,
    building_yields: &Vec<Yields>,
) -> (r: CityYields)
    requires
        yields_computable(*city, tiles@, distance@, building_yields@),
    ensures
        forall|k: int|
            0 <= k < 7 ==> #[trigger] cv(r, k) == city_total(*city, tiles@, distance@, building_yields@, k),
{
    let mut total = CityYields::default();
    assert(cv(total, 6) == 0);
    let work_radius = city.work_radius as i32;
    let mut idx: usize = 0;
    let n = city.owned_tiles.len();
    while idx < n
        invariant
            yields_computable(*city, tiles@, distance@, building_yields@),
            n == city.owned_tiles@.len(),
            work_radius == city.work_radius as i32,
            0 <= idx <= n,
            forall|k: int|
                0 <= k < 6 ==> #[trigger] cv(total, k) == tiles_total(*city, tiles@, distance@, k, idx as int),
            total.happiness == 0,
        decreases n - idx,
    {
        let tile = city.owned_tiles[idx];
        let is_worked = idx == 0 || (vec_contains(&city.worked_tiles, tile) && distance[tile] <= work_radius);
        proof {
            assert(is_worked == worked_at(*city, distance@, idx as int));
            assert forall|k: int| 0 <= k < 6 implies #[trigger] tiles_total(*city, tiles@, distance@, k, idx + 1)
                <= u32::MAX by {
                lemma_tiles_total_grows(*city, tiles@, distance@, k, idx + 1, n as int);
                lemma_buildings_total_grows(*city, building_yields@, k, 0, city.buildings@.len() as int);
                assert(city_total(*city, tiles@, distance@, building_yields@, k) <= u32::MAX);
            }
        }
        if is_worked {
            let y = tile_yields_with_improvement(&tiles[tile]);
            proof {
                assert forall|k: int| 0 <= k < 6 implies #[trigger] cv(total, k) + cv(y, k) <= u32::MAX by {
                    assert(tiles_total(*city, tiles@, distance@, k, idx + 1) <= u32::MAX);
                }
            }
            assert(cv(y, 6) == 0);
            total = add_yields(total, y);
            assert(cv(total, 6) == 0);
        }
        idx = idx + 1;
    }
    let mut j: usize = 0;
    let nb = city.buildings.len();
    while j < nb
        invariant
            yields_computable(*city, tiles@, distance@, building_yields@),
            nb == city.buildings@.len(),
            n == city.owned_tiles@.len(),
            0 <= j <= nb,
            forall|k: int|
                0 <= k < 6 ==> #[trigger] cv(total, k) == tiles_total(*city, tiles@, distance@, k, n as int)
                    + buildings_total(*city, building_yields@, k, j as int),
            total.happiness == buildings_total(*city, building_yields@, 6, j as int),
        decreases nb - j,
    {
        let b = city.buildings[j];
        let c = building_contribution(&building_yields[b]);
        proof {
            assert forall|k: int| 0 <= k < 6 implies #[trigger] cv(total, k) + cv(c, k) <= u32::MAX by {
                lemma_buildings_total_grows(*city, building_yields@, k, j + 1, nb as int);
                assert(city_total(*city, tiles@, distance@, building_yields@, k) <= u32::MAX);
            }
            assert(buildings_total(*city, building_yields@, 6, j + 1) <= i32::MAX);
        }
        total = add_yields(total, c);
        assert(cv(total, 6) == buildings_total(*city, building_yields@, 6, j + 1));
        j = j + 1;
    }
    assert(cv(total, 6) == city_total(*city, tiles@, distance@, building_yields@, 6)) by {
        assert(tiles_total(*city, tiles@, distance@, 6, n as int) == 0) by {
            lemma_no_tile_happiness(*city, tiles@, distance@, n as int);
        }
    }
    total
}

proof fn lemma_no_tile_happiness(city: City, tiles: Seq<TileYieldSources>, distance: Seq<i32>, n: int)
    ensures
        tiles_total(city, tiles, distance, 6, n) == 0,
    decreases n,
{
    if n > 0 {
        lemma_no_tile_happiness(city, tiles, distance, n - 1);
    }
}

/// Whether the list holds `x`.
fn vec_contains(v: &Vec<usize>, x: usize) -> (r: bool)
    ensures
        r == v@.contains(x),
{
    let mut i: usize = 0;
    while i < v.len()
        invariant
            0 <= i <= v.len(),
            forall|j: int| 0 <= j < i ==> v@[j] != x,
        decreases v.len() - i,
    {
        if v[i] == x {
            assert(v@[i as int] == x);
            return true;
        }
        i = i + 1;
    }
    false
}

/// `s` is the whole number nearest to the square root of `n`.
pub open spec fn nearest_sqrt(n: int, s: int) -> bool {
    &&& s >= 0
    &&& (s == 0 || s * s - s < n)
    &&& n <= s * s + s
}

/// The food a city of `population` needs to grow: 15 + 8(n-1) + (n-1)^1.5, rounded to
/// the nearest whole number.
pub open spec fn spec_food_needed(population: int, r: int) -> bool {
    let m = population - 1;
    nearest_sqrt(m * m * m, r - 15 - 8 * m)
}

/// The food a city needs to grow from `population` citizens to one more:
/// 15 + 8(n-1) + (n-1)^1.5 for `n` citizens, rounded to the nearest whole number.
pub fn food_needed_for_population(population: u32) -> (r: u32)
    requires
        1 <= population <= 2_600_000,
    ensures
        spec_food_needed(population as int, r as int),
        r >= 15,
{
    let m: u128 = (population - 1) as u128;
    proof {
        assert(m * m <= 2_600_000 * 2_600_000) by (nonlinear_arith)
            requires
                m <= 2_600_000,
        ;
        assert(m * m * m <= 2_600_000 * 2_600_000 * 2_600_000) by (nonlinear_arith)
            requires
                m <= 2_600_000,
                m * m <= 2_600_000 * 2_600_000,
        ;
    }
    let n: u128 = m * m * m;
    // the whole square root of n, by halving the interval [lo, hi)
    let mut lo: u128 = 0;
    let mut hi: u128 = 0x1_0000_0000;
    proof {
        assert(hi * hi > n) by (nonlinear_arith)
            requires
                hi == 0x1_0000_0000,
                n <= 2_600_000 * 2_600_000 * 2_600_000,
        ;
    }
    while hi - lo > 1
        invariant
            0 <= lo < hi <= 0x1_0000_0000,
            lo * lo <= n,
            n < hi * hi,
        decreases hi - lo,
    {
        let mid = lo + (hi - lo) / 2;
        proof {
            assert(mid * mid <= 0x1_0000_0000 * 0x1_0000_0000) by (nonlinear_arith)
                requires
                    mid <= 0x1_0000_0000,
            ;
        }
        if mid * mid <= n {
            lo = mid;
        } else {
            hi = mid;
        }
    }
    let root = lo;
    proof {
        assert(hi == lo + 1);
    }
    let s: u128 = if n - root * root > root {
        root + 1
    } else {
        root
    };
    proof {
        let ni = n as int;
        let r = root as int;
        assert(nearest_sqrt(ni, s as int)) by (nonlinear_arith)
            requires
                r * r <= ni,
                ni < (r + 1) * (r + 1),
                r >= 0,
                s == (if ni - r * r > r {
                    r + 1
                } else {
                    r
                }),
        ;
        assert(s * s <= n + s);
        assert(s <= 4_192_500_000) by (nonlinear_arith)
            requires
                s * s <= n + s,
                n <= 2_600_000 * 2_600_000 * 2_600_000,
                s >= 0,
        ;
    }
    (15 + 8 * m + s) as u32
}

/// A yield of the first five kinds (food, production, science, gold, culture) summed:
/// how the computer ranks tiles for its citizens.
pub open spec fn tile_rank(t: TileYieldSources) -> int {
    tile_yield(t, 0) + tile_yield(t, 1) + tile_yield(t, 2) + tile_yield(t, 3) + tile_yield(t, 4)
}

/// The city's `idx`-th owned tile may get a citizen: it is not the center, no citizen
/// works it, and it lies within the work radius.
pub open spec fn free_tile(owned: Seq<usize>, radius: u32, worked: Seq<usize>, distance: Seq<i32>, idx: int) -> bool {
    &&& idx > 0
    &&& !worked.contains(owned[idx])
    &&& distance[owned[idx] as int] <= radius as i32
}

/// Among the city's first `n` owned tiles that may get a citizen, the best ranked one,
/// the last in order among equals.
pub open spec fn best_free_tile(
    owned: Seq<usize>,
    radius: u32,
    worked: Seq<usize>,
    tiles: Seq<TileYieldSources>,
    distance: Seq<i32>,
    n: int,
) -> Option<int>
    decreases n,
{
    if n <= 0 {
        None
    } else {
        let b = best_free_tile(owned, radius, worked, tiles, distance, n - 1);
        if free_tile(owned, radius, worked, distance, n - 1) && match b {
            Some(i) => tile_rank(tiles[owned[n - 1] as int]) >= tile_rank(tiles[owned[i] as int]),
            None => true,
        } {
            Some(n - 1)
        } else {
            b
        }
    }
}

/// The worked tiles after `steps` citizens are placed one by one, each on the best
/// free tile, while there is one.
pub open spec fn place_citizens(
    owned: Seq<usize>,
    radius: u32,
    worked: Seq<usize>,
    tiles: Seq<TileYieldSources>,
    distance: Seq<i32>,
    steps: nat,
) -> Seq<usize>
    decreases steps,
{
    if steps == 0 {
        worked
    } else {
        let w = place_citizens(owned, radius, worked, tiles, distance, (steps - 1) as nat);
        match best_free_tile(owned, radius, w, tiles, distance, owned.len() as int) {
            Some(i) => w.push(owned[i]),
            None => w,
        }
    }
}

/// The worked tiles after each of `population` citizens without a tile gets the best
/// free tile, while there is one.
pub open spec fn assigned_workers(
    owned: Seq<usize>,
    radius: u32,
    worked: Seq<usize>,
    population: int,
    tiles: Seq<TileYieldSources>,
    distance: Seq<i32>,
) -> Seq<usize> {
    if worked.len() >= population {
        worked
    } else {
        place_citizens(owned, radius, worked, tiles, distance, (population - worked.len()) as nat)
    }
}

/// The worked tiles after the city gives every citizen without a tile the best free
/// tile, while there is one.
pub open spec fn spec_assign_workers(
    city: City,
    tiles: Seq<TileYieldSources>,
    distance: Seq<i32>,
) -> Seq<usize> {
    assigned_workers(
        city.owned_tiles@,
        city.work_radius,
        city.worked_tiles@,
        city.population as int,
        tiles,
        distance,
    )
}

/// The city's owned tiles are known to the tables, and their ranks fit a `u32`.
pub open spec fn tiles_rankable(city: City, tiles: Seq<TileYieldSources>, distance: Seq<i32>) -> bool {
    &&& distance.len() == tiles.len()
    &&& forall|i: int|
        0 <= i < city.owned_tiles@.len() ==> (#[trigger] city.owned_tiles@[i]) < tiles.len()
            && tile_fits(tiles[city.owned_tiles@[i] as int]) && tile_rank(
            tiles[city.owned_tiles@[i] as int],
        ) <= u32::MAX
}

fn rank_of(t: &TileYieldSources) -> (r: u32)
    requires
        tile_fits(*t),
        tile_rank(*t) <= u32::MAX,
    ensures
        r == tile_rank(*t),
{
    let y = tile_yields_with_improvement(t);
    proof {
        assert(cv(y, 0) == tile_yield(*t, 0));
        assert(cv(y, 1) == tile_yield(*t, 1));
        assert(cv(y, 2) == tile_yield(*t, 2));
        assert(cv(y, 3) == tile_yield(*t, 3));
        assert(cv(y, 4) == tile_yield(*t, 4));
    }
    y.food + y.production + y.science + y.gold + y.culture
}

proof fn lemma_placing_stops(
    owned: Seq<usize>,
    radius: u32,
    worked: Seq<usize>,
    tiles: Seq<TileYieldSources>,
    distance: Seq<i32>,
    a: nat,
    b: nat,
)
    requires
        a <= b,
        best_free_tile(
            owned,
            radius,
            place_citizens(owned, radius, worked, tiles, distance, a),
            tiles,
            distance,
            owned.len() as int,
        ) is None,
    ensures
        place_citizens(owned, radius, worked, tiles, distance, b) == place_citizens(
            owned,
            radius,
            worked,
            tiles,
            distance,
            a,
        ),
    decreases b,
{
    if b > a {
        lemma_placing_stops(owned, radius, worked, tiles, distance, a, (b - 1) as nat);
    }
}

/// Gives each citizen without a tile a tile to work: one by one, the best ranked owned
/// tile that is not the center, not worked and within the work radius (the last in
/// order among equals), until every citizen works or no tile is left.
pub fn assign_worker_tiles(city: &mut City, tiles: &Vec<TileYieldSources>, distance: &Vec<i32>)
    requires
        tiles_rankable(*old(city), tiles@, distance@),
    ensures
        final(city).worked_tiles@ == spec_assign_workers(*old(city), tiles@, distance@),
        final(city).owned_tiles@ == old(city).owned_tiles@,
        final(city).population == old(city).population,
        final(city).work_radius == old(city).work_radius,
        final(city).food == old(city).food,
        final(city).food_needed == old(city).food_needed,
        final(city).buildings@ == old(city).buildings@,
        final(city).current_production == old(city).current_production,
        final(city).production_progress == old(city).production_progress,
        final(city).culture == old(city).culture,
        final(city).culture_to_expand == old(city).culture_to_expand,
        final(city).border_radius == old(city).border_radius,
        final(city).max_border_radius == old(city).max_border_radius,
        final(city).name@ == old(city).name@,
{
    let assigned_workers = city.worked_tiles.len();
    if assigned_workers >= city.population as usize {
        return;
    }
    let ghost c0 = *city;
    let work_radius = city.work_radius as i32;
    let total = city.population as usize;
    let mut step: usize = assigned_workers;
    let n = city.owned_tiles.len();
    while step < total
        invariant_except_break
            assigned_workers <= step <= total,
            city.worked_tiles@ == place_citizens(
                c0.owned_tiles@,
                c0.work_radius,
                c0.worked_tiles@,
                tiles@,
                distance@,
                (step - assigned_workers) as nat,
            ),
        invariant
            tiles_rankable(c0, tiles@, distance@),
            total == c0.population,
            assigned_workers == c0.worked_tiles@.len(),
            assigned_workers < total,
            n == c0.owned_tiles@.len(),
            work_radius == c0.work_radius as i32,
            city.owned_tiles@ == c0.owned_tiles@,
            city.population == c0.population,
            city.work_radius == c0.work_radius,
            city.food == c0.food,
            city.food_needed == c0.food_needed,
            city.buildings@ == c0.buildings@,
            city.current_production == c0.current_production,
            city.production_progress == c0.production_progress,
            city.culture == c0.culture,
            city.culture_to_expand == c0.culture_to_expand,
            city.border_radius == c0.border_radius,
            city.max_border_radius == c0.max_border_radius,
            city.name@ == c0.name@,
        ensures
            city.worked_tiles@ == place_citizens(
                c0.owned_tiles@,
                c0.work_radius,
                c0.worked_tiles@,
                tiles@,
                distance@,
                (total - assigned_workers) as nat,
            ),
        decreases total - step,
    {
        let mut best: Option<usize> = None;
        let mut best_rank: u32 = 0;
        let mut idx: usize = 0;
        while idx < n
            invariant
                tiles_rankable(c0, tiles@, distance@),
                n == c0.owned_tiles@.len(),
                work_radius == c0.work_radius as i32,
                city.owned_tiles@ == c0.owned_tiles@,
                0 <= idx <= n,
                match best {
                    Some(b) => b < idx && best_free_tile(c0.owned_tiles@, c0.work_radius, city.worked_tiles@, tiles@, distance@, idx as int)
                        == Some(b as int) && best_rank == tile_rank(
                        tiles@[c0.owned_tiles@[b as int] as int],
                    ),
                    None => best_free_tile(c0.owned_tiles@, c0.work_radius, city.worked_tiles@, tiles@, distance@, idx as int) is None,
                },
            decreases n - idx,
        {
            let tile = city.owned_tiles[idx];
            if idx > 0 && !vec_contains(&city.worked_tiles, tile) && distance[tile] <= work_radius {
                let r = rank_of(&tiles[tile]);
                match best {
                    None => {
                        best = Some(idx);
                        best_rank = r;
                    },
                    Some(_) => {
                        if r >= best_rank {
                            best = Some(idx);
                            best_rank = r;
                        }
                    },
                }
            }
            idx = idx + 1;
        }
        match best {
            Some(b) => {
                let tile = city.owned_tiles[b];
                city.worked_tiles.push(tile);
            },
            None => {
                proof {
                    lemma_placing_stops(
                        c0.owned_tiles@,
                        c0.work_radius,
                        c0.worked_tiles@,
                        tiles@,
                        distance@,
                        (step - assigned_workers) as nat,
                        (total - assigned_workers) as nat,
                    );
                }
                break;
            },
        }
        step = step + 1;
    }
}

/// What a click on one of the city's tiles did to its citizens.
#[derive(Clone, Copy, Debug, PartialEq, Eq, Structural)]
pub enum WorkToggle {
    /// The tile is not one the city's citizens may work; nothing changed.
    NotWorkable,
    /// The citizen working the tile was taken off it.
    Unassigned,
    /// A free citizen now works the tile.
    Assigned,
    /// The tile is free but every citizen already works; nothing changed.
    NoFreeCitizen,
}

/// The city owns `tile` and it is not the center.
pub open spec fn owned_beyond_center(owned: Seq<usize>, tile: usize) -> bool {
    exists|idx: int| 1 <= idx < owned.len() && #[trigger] owned[idx] == tile
}

/// The first position of `x` in `s`, when it is there.
pub open spec fn position_of(s: Seq<usize>, x: usize) -> int {
    choose|i: int| 0 <= i < s.len() && s[i] == x && forall|j: int| 0 <= j < i ==> s[j] != x
}

/// The outcome of a click on `tile` and the worked tiles after it: an owned tile other
/// than the center, within the work radius, is taken from its citizen when worked,
/// or given a free citizen when one is left (the center is worked without a citizen).
pub open spec fn spec_toggle(city: City, tile: usize, distance: Seq<i32>) -> (WorkToggle, Seq<usize>) {
    let worked = city.worked_tiles@;
    if !owned_beyond_center(city.owned_tiles@, tile) || distance[tile as int] > city.work_radius as i32 {
        (WorkToggle::NotWorkable, worked)
    } else if worked.contains(tile) {
        (WorkToggle::Unassigned, worked.remove(position_of(worked, tile)))
    } else if worked.len() < city.population {
        (WorkToggle::Assigned, worked.push(tile))
    } else {
        (WorkToggle::NoFreeCitizen, worked)
    }
}

/// A click on one of the city's tiles in the citizen screen: puts a free citizen on
/// the tile or takes its citizen off (see [`spec_toggle`]). `distance[t]` is the
/// distance of tile `t` from the city's center.
pub fn toggle_worked_tile(city: &mut City, tile: usize, distance: &Vec<i32>) -> (r: WorkToggle)
    requires
        tile < distance.len(),
    ensures
        r == spec_toggle(*old(city), tile, distance@).0,
        final(city).worked_tiles@ == spec_toggle(*old(city), tile, distance@).1,
        final(city).owned_tiles@ == old(city).owned_tiles@,
        final(city).population == old(city).population,
        final(city).work_radius == old(city).work_radius,
        final(city).food == old(city).food,
        final(city).food_needed == old(city).food_needed,
        final(city).buildings@ == old(city).buildings@,
        final(city).current_production == old(city).current_production,
        final(city).production_progress == old(city).production_progress,
        final(city).culture == old(city).culture,
        final(city).culture_to_expand == old(city).culture_to_expand,
        final(city).border_radius == old(city).border_radius,
        final(city).max_border_radius == old(city).max_border_radius,
        final(city).name@ == old(city).name@,
{
    let mut owned = false;
    let mut k: usize = 1;
    while k < city.owned_tiles.len()
        invariant
            1 <= k,
            city.owned_tiles.len() >= 1 ==> k <= city.owned_tiles.len(),
            city.owned_tiles.len() == 0 ==> k == 1,
            owned == exists|idx: int| 1 <= idx < k && city.owned_tiles@[idx] == tile,
        decreases city.owned_tiles.len() - k,
    {
        if city.owned_tiles[k] == tile {
            owned = true;
        }
        k = k + 1;
    }
    proof {
        if owned_beyond_center(city.owned_tiles@, tile) {
            let idx = choose|idx: int| 1 <= idx < city.owned_tiles@.len() && #[trigger] city.owned_tiles@[idx] == tile;
        }
    }
    if !owned || distance[tile] > city.work_radius as i32 {
        return WorkToggle::NotWorkable;
    }
    let ghost c0 = *city;
    proof {
        let idx = choose|idx: int| 1 <= idx < k && city.owned_tiles@[idx] == tile;
        assert(c0.owned_tiles@[idx] == tile);
        assert(owned_beyond_center(c0.owned_tiles@, tile));
    }
    let mut i: usize = 0;
    while i < city.worked_tiles.len()
        invariant
            0 <= i <= city.worked_tiles.len(),
            *city == c0,
            c0 == *old(city),
            owned_beyond_center(c0.owned_tiles@, tile),
            tile < distance.len(),
            distance@[tile as int] <= c0.work_radius as i32,
            forall|j: int| 0 <= j < i ==> city.worked_tiles@[j] != tile,
        decreases city.worked_tiles.len() - i,
    {
        if city.worked_tiles[i] == tile {
            let ghost w0 = city.worked_tiles@;
            proof {
                let p = position_of(w0, tile);
                assert(0 <= p < w0.len() && w0[p] == tile && forall|j: int| 0 <= j < p ==> w0[j] != tile);
                assert(p == i as int);
                assert(w0.contains(tile));
            }
            city.worked_tiles.remove(i);
            return WorkToggle::Unassigned;
        }
        i = i + 1;
    }
    assert(!city.worked_tiles@.contains(tile));
    if city.worked_tiles.len() < city.population as usize {
        city.worked_tiles.push(tile);
        WorkToggle::Assigned
    } else {
        WorkToggle::NoFreeCitizen
    }
}

/// The owned tiles, other than the center, within the work radius, each with whether
/// a citizen works it, in the order the city owns them.
pub open spec fn citizen_tiles(owned: Seq<usize>, worked: Seq<usize>, radius: u32, distance: Seq<i32>, n: int) -> Seq<(usize, bool)>
    decreases n,
{
    if n <= 1 {
        Seq::empty()
    } else {
        let rest = citizen_tiles(owned, worked, radius, distance, n - 1);
        let t = owned[n - 1];
        if distance[t as int] > radius as i32 {
            rest
        } else {
            rest.push((t, worked.contains(t)))
        }
    }
}

/// The tiles the citizen screen shows an icon on: the owned tiles other than the center
/// within the work radius, each with whether a citizen works it. `distance[t]` is the
/// distance of tile `t` from the city's center.
pub fn citizen_icon_tiles(city: &City, distance: &Vec<i32>) -> (r: Vec<(usize, bool)>)
    requires
        forall|i: int| 0 <= i < city.owned_tiles.len() ==> (#[trigger] city.owned_tiles@[i]) < distance.len(),
    ensures
        r@ == citizen_tiles(city.owned_tiles@, city.worked_tiles@, city.work_radius, distance@, city.owned_tiles.len() as int),
{
    let mut r: Vec<(usize, bool)> = Vec::new();
    let mut k: usize = 1;
    if city.owned_tiles.len() == 0 {
        return r;
    }
    while k < city.owned_tiles.len()
        invariant
            1 <= k <= city.owned_tiles.len(),
            forall|i: int| 0 <= i < city.owned_tiles.len() ==> (#[trigger] city.owned_tiles@[i]) < distance.len(),
            r@ == citizen_tiles(city.owned_tiles@, city.worked_tiles@, city.work_radius, distance@, k as int),
        decreases city.owned_tiles.len() - k,
    {
        let t = city.owned_tiles[k];
        if distance[t] <= city.work_radius as i32 {
            let worked = vec_contains(&city.worked_tiles, t);
            r.push((t, worked));
        }
        k = k + 1;
    }
    r
}

/// The tiles of a ring that a border may take: neither water nor mountain.
pub open spec fn workable_tiles(ring: Seq<(usize, TerrainType)>) -> Seq<usize>
    decreases ring.len(),
{
    if ring.len() == 0 {
        Seq::empty()
    } else {
        let rest = workable_tiles(ring.drop_last());
        let (t, terrain) = ring.last();
        if terrain != TerrainType::Water && terrain != TerrainType::Mountain {
            rest.push(t)
        } else {
            rest
        }
    }
}

fn workable(ring: &Vec<(usize, TerrainType)>) -> (r: Vec<usize>)
    ensures
        r@ == workable_tiles(ring@),
{
    let mut r: Vec<usize> = Vec::new();
    let mut i: usize = 0;
    while i < ring.len()
        invariant
            0 <= i <= ring.len(),
            r@ == workable_tiles(ring@.take(i as int)),
        decreases ring.len() - i,
    {
        let (t, terrain) = ring[i];
        proof {
            assert(ring@.take(i + 1).drop_last() =~= ring@.take(i as int));
        }
        if terrain != TerrainType::Water && terrain != TerrainType::Mountain {
            r.push(t);
        }
        i = i + 1;
    }
    assert(ring@.take(ring.len() as int) =~= ring@);
    r
}

/// Pushes the city's border one ring further out, when it is not at its largest yet:
/// the city takes the tiles of `ring` (those at the next distance from its center) that
/// are neither water nor mountain, if there are any. Says whether it expanded.
pub fn expand_city_border(city: &mut City, ring: &Vec<(usize, TerrainType)>) -> (expanded: bool)
    requires
        old(city).border_radius < u32::MAX,
    ensures
        expanded == (old(city).border_radius + 1 <= old(city).max_border_radius && workable_tiles(
            ring@,
        ).len() > 0),
        expanded ==> final(city).border_radius == old(city).border_radius + 1 && final(city).owned_tiles@ == old(city).owned_tiles@ + workable_tiles(ring@),
        !expanded ==> final(city).border_radius == old(city).border_radius && final(city).owned_tiles@ == old(city).owned_tiles@,
        final(city).worked_tiles@ == old(city).worked_tiles@,
        final(city).population == old(city).population,
        final(city).food == old(city).food,
        final(city).food_needed == old(city).food_needed,
        final(city).culture == old(city).culture,
        final(city).culture_to_expand == old(city).culture_to_expand,
        final(city).max_border_radius == old(city).max_border_radius,
        final(city).work_radius == old(city).work_radius,
        final(city).buildings@ == old(city).buildings@,
        final(city).current_production == old(city).current_production,
        final(city).production_progress == old(city).production_progress,
        final(city).name@ == old(city).name@,
{
    let next_radius = city.border_radius + 1;
    if next_radius > city.max_border_radius {
        return false;
    }
    let new_tiles = workable(ring);
    if new_tiles.len() == 0 {
        return false;
    }
    city.border_radius = next_radius;
    let mut owned: Vec<usize> = Vec::new();
    core::mem::swap(&mut owned, &mut city.owned_tiles);
    let ghost owned0 = owned@;
    let mut i: usize = 0;
    while i < new_tiles.len()
        invariant
            0 <= i <= new_tiles.len(),
            owned@ == owned0 + new_tiles@.take(i as int),
        decreases new_tiles.len() - i,
    {
        owned.push(new_tiles[i]);
        i = i + 1;
        assert(owned@ =~= owned0 + new_tiles@.take(i as int));
    }
    city.owned_tiles = owned;
    assert(new_tiles@.take(new_tiles.len() as int) =~= new_tiles@);
    true
}

/// The state of a city's border: gathered culture, culture needed, radius, owned tiles.
pub type BorderState = (int, int, int, Seq<usize>);

/// The border after the culture loop of a turn has run for at most `fuel` rounds: while
/// the culture reaches the amount needed, it is spent and the border expands by one
/// ring; the amount needed then grows by 10 plus five per unit of the new radius. The
/// loop stops when the border cannot expand.
pub open spec fn expansion_loop(
    st: BorderState,
    max_radius: int,
    rings: Seq<Vec<(usize, TerrainType)>>,
    fuel: nat,
) -> BorderState
    decreases fuel,
{
    let (culture, needed, radius, owned) = st;
    if fuel == 0 || culture < needed {
        st
    } else {
        let c = culture - needed;
        let next = radius + 1;
        if next > max_radius || workable_tiles(rings[next]@).len() == 0 {
            (c, needed, radius, owned)
        } else {
            expansion_loop(
                (c, needed + 10 + next * 5, next, owned + workable_tiles(rings[next]@)),
                max_radius,
                rings,
                (fuel - 1) as nat,
            )
        }
    }
}

/// Enough rounds for the culture loop to end by itself.
pub open spec fn expansion_fuel(city: City) -> nat {
    if city.max_border_radius >= city.border_radius {
        (city.max_border_radius - city.border_radius + 1) as nat
    } else {
        1
    }
}

/// Adds the turn's culture to the city and expands its border while the culture
/// reaches what the next expansion needs; `rings[r]` lists the tiles at distance `r`
/// from the city's center with their terrain. Each expansion spends the culture it
/// needed and raises the need by 10 plus five per unit of the new radius; the loop
/// stops when the border cannot expand.
pub fn process_city_expansion(city: &mut City, culture_yield: u32, rings: &Vec<Vec<(usize, TerrainType)>>)
    requires
        old(city).culture + culture_yield <= u32::MAX,
        old(city).border_radius < u32::MAX,
        old(city).max_border_radius < rings.len(),
        old(city).max_border_radius < u32::MAX,
        old(city).culture_to_expand + (old(city).max_border_radius + 1) * (10 + (old(city).max_border_radius
            + 1) * 5) <= u32::MAX,
    ensures
        ({
            let (c, n, r, o) = expansion_loop(
                (
                    old(city).culture + culture_yield,
                    old(city).culture_to_expand as int,
                    old(city).border_radius as int,
                    old(city).owned_tiles@,
                ),
                old(city).max_border_radius as int,
                rings@,
                expansion_fuel(*old(city)),
            );
            &&& final(city).culture == c
            &&& final(city).culture_to_expand == n
            &&& final(city).border_radius == r
            &&& final(city).owned_tiles@ == o
        }),
        final(city).worked_tiles@ == old(city).worked_tiles@,
        final(city).population == old(city).population,
        final(city).max_border_radius == old(city).max_border_radius,
{
    let ghost c0 = *old(city);
    let ghost target = expansion_loop(
        (
            old(city).culture + culture_yield,
            old(city).culture_to_expand as int,
            old(city).border_radius as int,
            old(city).owned_tiles@,
        ),
        old(city).max_border_radius as int,
        rings@,
        expansion_fuel(*old(city)),
    );
    let ghost k: int = 10 + (c0.max_border_radius + 1) * 5;
    city.culture = city.culture + culture_yield;
    let ghost mut fuel: nat = expansion_fuel(c0);
    proof {
        if c0.border_radius <= c0.max_border_radius {
            assert(c0.culture_to_expand + (c0.max_border_radius + 1 - c0.border_radius) * k <= u32::MAX)
                by (nonlinear_arith)
                requires
                    k >= 0,
                    0 <= c0.max_border_radius + 1 - c0.border_radius <= c0.max_border_radius + 1,
                    c0.culture_to_expand + (c0.max_border_radius + 1) * k <= u32::MAX,
            ;
        }
    }
    while city.culture >= city.culture_to_expand
        invariant_except_break
            target == expansion_loop(
                (
                    city.culture as int,
                    city.culture_to_expand as int,
                    city.border_radius as int,
                    city.owned_tiles@,
                ),
                c0.max_border_radius as int,
                rings@,
                fuel,
            ),
        invariant
            c0.max_border_radius < rings.len(),
            c0.max_border_radius < u32::MAX,
            k == 10 + (c0.max_border_radius + 1) * 5,
            city.max_border_radius == c0.max_border_radius,
            city.worked_tiles@ == c0.worked_tiles@,
            city.population == c0.population,
            city.border_radius < u32::MAX,
            fuel >= 1,
            city.border_radius <= c0.max_border_radius ==> fuel == c0.max_border_radius
                - city.border_radius + 1,
            city.border_radius > c0.max_border_radius ==> fuel == 1,
            city.border_radius <= c0.max_border_radius ==> city.culture_to_expand + (
            c0.max_border_radius + 1 - city.border_radius) * k <= u32::MAX,
        ensures
            target == (
                city.culture as int,
                city.culture_to_expand as int,
                city.border_radius as int,
                city.owned_tiles@,
            ),
        decreases fuel,
    {
        let ghost st = (
            city.culture as int,
            city.culture_to_expand as int,
            city.border_radius as int,
            city.owned_tiles@,
        );
        city.culture = city.culture - city.culture_to_expand;
        let next = city.border_radius + 1;
        let ring = if (next as usize) < rings.len() {
            &rings[next as usize]
        } else {
            &rings[0]
        };
        let expanded = expand_city_border(city, ring);
        if !expanded {
            assert(target == (city.culture as int, city.culture_to_expand as int, city.border_radius as int, city.owned_tiles@));
            break;
        }
        assert(ring@ == rings@[next as int]@);
        proof {
            assert(next <= c0.max_border_radius);
            assert(city.culture_to_expand + 10 + next * 5 + (c0.max_border_radius + 1 - next) * k
                <= u32::MAX) by (nonlinear_arith)
                requires
                    k == 10 + (c0.max_border_radius + 1) * 5,
                    next <= c0.max_border_radius,
                    next >= 1,
                    city.culture_to_expand + (c0.max_border_radius + 1 - (next - 1)) * k <= u32::MAX,
            ;
            fuel = (fuel - 1) as nat;
        }
        city.culture_to_expand = city.culture_to_expand + 10 + next * 5;
    }
}

/// There is only one whole number nearest to a square root.
proof fn lemma_nearest_sqrt_unique(n: int, a: int, b: int)
    requires
        nearest_sqrt(n, a),
        nearest_sqrt(n, b),
    ensures
        a == b,
{
    if a < b {
        assert(b * b - b >= a * a + a) by (nonlinear_arith)
            requires
                0 <= a < b,
        ;
    } else if b < a {
        assert(a * a - a >= b * b + b) by (nonlinear_arith)
            requires
                0 <= b < a,
        ;
    }
}

/// The food a city of `population` needs to grow, as a number.
pub open spec fn food_needed_value(population: int) -> int {
    choose|r: int| spec_food_needed(population, r)
}

proof fn lemma_food_needed_value(population: int, r: int)
    requires
        spec_food_needed(population, r),
    ensures
        food_needed_value(population) == r,
{
    let c = food_needed_value(population);
    let m = population - 1;
    lemma_nearest_sqrt_unique(m * m * m, c - 15 - 8 * m, r - 15 - 8 * m);
}

/// A city's food, food needed, population and worked tiles after growing while its food
/// reaches what it needs, for at most `fuel` rounds: each round spends the food needed,
/// adds a citizen, sets the food needed for the new size, and gives the new citizen a
/// tile.
pub open spec fn growth(
    owned: Seq<usize>,
    radius: u32,
    tiles: Seq<TileYieldSources>,
    distance: Seq<i32>,
    food: int,
    needed: int,
    population: int,
    worked: Seq<usize>,
    fuel: nat,
) -> (int, int, int, Seq<usize>)
    decreases fuel,
{
    if fuel == 0 || food < needed {
        (food, needed, population, worked)
    } else {
        let p = population + 1;
        growth(
            owned,
            radius,
            tiles,
            distance,
            food - needed,
            food_needed_value(p),
            p,
            assigned_workers(owned, radius, worked, p, tiles, distance),
            (fuel - 1) as nat,
        )
    }
}

/// At the start of a turn, works out what the city yields, stores it in `yields`,
/// adds the food to the city, and lets the city grow while its food reaches what it
/// needs (see [`growth`]). Nothing happens on turn 0.
pub fn process_city_yields(
    turn_number: u32,
    city: &mut City,
    yields: &mut CityYields,
    tiles: &Vec<TileYieldSources>,
    distance: &Vec<i32>,
    building_yields: &Vec<Yields>,
)
    requires
        turn_number != 0 ==> {
            &&& yields_computable(*old(city), tiles@, distance@, building_yields@)
            &&& tiles_rankable(*old(city), tiles@, distance@)
            &&& old(city).population >= 1
            &&& 15 * (old(city).population + 1) + old(city).food + city_total(
                *old(city),
                tiles@,
                distance@,
                building_yields@,
                0,
            ) <= 39_000_000
        },
    ensures
        turn_number == 0 ==> *final(yields) == *old(yields) && final(city).food == old(city).food
            && final(city).population == old(city).population && final(city).food_needed == old(
            city).food_needed && final(city).worked_tiles@ == old(city).worked_tiles@,
        turn_number != 0 ==> {
            let total_food = old(city).food + city_total(
                *old(city),
                tiles@,
                distance@,
                building_yields@,
                0,
            );
            let (f, n, p, w) = growth(
                old(city).owned_tiles@,
                old(city).work_radius,
                tiles@,
                distance@,
                total_food,
                old(city).food_needed as int,
                old(city).population as int,
                old(city).worked_tiles@,
                (total_food + 2) as nat,
            );
            &&& forall|k: int|
                0 <= k < 7 ==> #[trigger] cv(*final(yields), k) == city_total(
                    *old(city),
                    tiles@,
                    distance@,
                    building_yields@,
                    k,
                )
            &&& final(city).food == f
            &&& final(city).food_needed == n
            &&& final(city).population == p
            &&& final(city).worked_tiles@ == w
        },
        final(city).owned_tiles@ == old(city).owned_tiles@,
        final(city).work_radius == old(city).work_radius,
        final(city).buildings@ == old(city).buildings@,
        final(city).culture == old(city).culture,
        final(city).culture_to_expand == old(city).culture_to_expand,
        final(city).border_radius == old(city).border_radius,
        final(city).max_border_radius == old(city).max_border_radius,
        final(city).current_production == old(city).current_production,
        final(city).production_progress == old(city).production_progress,
{
    if turn_number == 0 {
        return;
    }
    let ghost c0 = *city;
    let total = calculate_city_yields(city, tiles, distance, building_yields);
    *yields = total;
    assert(cv(total, 0) == city_total(c0, tiles@, distance@, building_yields@, 0));
    city.food = city.food + total.food;
    let ghost f0: int = city.food as int;
    let ghost target = growth(
        c0.owned_tiles@,
        c0.work_radius,
        tiles@,
        distance@,
        f0,
        c0.food_needed as int,
        c0.population as int,
        c0.worked_tiles@,
        (f0 + 2) as nat,
    );
    let ghost mut fuel: nat = (f0 + 2) as nat;
    let ghost mut grown: int = 0;
    while city.food >= city.food_needed
        invariant
            tiles_rankable(c0, tiles@, distance@),
            city.owned_tiles@ == c0.owned_tiles@,
            city.work_radius == c0.work_radius,
            city.buildings@ == c0.buildings@,
            city.culture == c0.culture,
            city.culture_to_expand == c0.culture_to_expand,
            city.border_radius == c0.border_radius,
            city.max_border_radius == c0.max_border_radius,
            city.current_production == c0.current_production,
            city.production_progress == c0.production_progress,
            15 * (c0.population + 1) + f0 <= 39_000_000,
            grown >= 0,
            city.population == c0.population + grown,
            grown >= 1 ==> city.food_needed >= 15 && 15 * (grown - 1) <= f0 - city.food,
            grown == 0 ==> city.food == f0,
            fuel > city.food + (if city.food_needed == 0 {
                1int
            } else {
                0
            }),
            target == growth(
                c0.owned_tiles@,
                c0.work_radius,
                tiles@,
                distance@,
                city.food as int,
                city.food_needed as int,
                city.population as int,
                city.worked_tiles@,
                fuel,
            ),
        decreases city.food as int + (if city.food_needed == 0 {
            1int
        } else {
            0
        }),
    {
        city.food = city.food - city.food_needed;
        proof {
            assert(15 * grown <= f0 - city.food + 15);
            assert(15 * (city.population + 1) <= 39_000_000);
        }
        city.population = city.population + 1;
        let needed = food_needed_for_population(city.population);
        proof {
            lemma_food_needed_value(city.population as int, needed as int);
            fuel = (fuel - 1) as nat;
            grown = grown + 1;
        }
        city.food_needed = needed;
        assign_worker_tiles(city, tiles, distance);
    }
}

/// "City at tile " and the tile's index in decimal.
fn city_name(tile: usize) -> (s: String)
    ensures
        s@ == "City at tile "@ + decimal(tile as nat),
{
    let digits = decimal_string(tile as u64);
    let mut name = String::from_str("City at tile ");
    name.append(digits.as_str());
    name
}

/// The tiles a city founded on `target_tile` starts with: its center, then the tiles of
/// the surrounding `ring` that are neither water nor mountain.
pub open spec fn founding_tiles(target_tile: usize, ring: Seq<(usize, TerrainType)>) -> Seq<usize> {
    seq![target_tile] + workable_tiles(ring)
}

/// Founds a city on `target_tile`, when the unit asking is a settler and the tile has no
/// city yet: a new city named after the tile, owning the tile and the surrounding tiles
/// of `ring` (those at distance one) that are neither water nor mountain, with its
/// border at 1 of at most 5, working within 3 tiles, its first citizen on the best tile.
pub fn handle_found_city_request(
    unit_is_settler: bool,
    tile_has_city: bool,
    target_tile: usize,
    palace: usize,
    ring: &Vec<(usize, TerrainType)>,
    tiles: &Vec<TileYieldSources>,
    distance: &Vec<i32>,
) -> (r: Option<City>)
    requires
        distance.len() == tiles.len(),
        forall|i: int|
            0 <= i < founding_tiles(target_tile, ring@).len() ==> (#[trigger] founding_tiles(
                target_tile,
                ring@,
            )[i]) < tiles.len() && tile_fits(tiles@[founding_tiles(target_tile, ring@)[i] as int])
                && tile_rank(tiles@[founding_tiles(target_tile, ring@)[i] as int]) <= u32::MAX,
    ensures
        !unit_is_settler || tile_has_city ==> r is None,
        unit_is_settler && !tile_has_city ==> match r {
            Some(c) => {
                &&& c.name@ == "City at tile "@ + decimal(target_tile as nat)
                &&& c.population == 1
                &&& c.food == 0
                &&& c.food_needed == 15
                &&& c.buildings@ == seq![palace]
                &&& c.current_production is None
                &&& c.production_progress == 0
                &&& c.culture == 0
                &&& c.culture_to_expand == 20
                &&& c.border_radius == 1
                &&& c.max_border_radius == 5
                &&& c.work_radius == 3
                &&& c.owned_tiles@ == founding_tiles(target_tile, ring@)
                &&& c.worked_tiles@ == assigned_workers(
                    founding_tiles(target_tile, ring@),
                    3,
                    Seq::empty(),
                    1,
                    tiles@,
                    distance@,
                )
            },
            None => false,
        },
{
    if !unit_is_settler || tile_has_city {
        return None;
    }
    let mut city = City::new(city_name(target_tile), palace);
    let mut owned: Vec<usize> = Vec::new();
    owned.push(target_tile);
    let ring_tiles = workable(ring);
    let mut i: usize = 0;
    while i < ring_tiles.len()
        invariant
            0 <= i <= ring_tiles.len(),
            owned@ == seq![target_tile] + ring_tiles@.take(i as int),
        decreases ring_tiles.len() - i,
    {
        owned.push(ring_tiles[i]);
        i = i + 1;
        assert(owned@ =~= seq![target_tile] + ring_tiles@.take(i as int));
    }
    assert(ring_tiles@.take(ring_tiles.len() as int) =~= ring_tiles@);
    city.owned_tiles = owned;
    city.border_radius = 1;
    city.max_border_radius = 5;
    city.work_radius = 3;
    assert(city.owned_tiles@ == founding_tiles(target_tile, ring@));
    assert(city.worked_tiles@ =~= Seq::<usize>::empty());
    assign_worker_tiles(&mut city, tiles, distance);
    Some(city)
}


/// Whole numbers nearest to the square roots of two numbers keep their order.
proof fn lemma_nearest_sqrt_monotone(a: int, b: int, s: int, t: int)
    requires
        0 <= a <= b,
        nearest_sqrt(a, s),
        nearest_sqrt(b, t),
    ensures
        s <= t,
{
    if t < s {
        assert(t * t + t <= s * s - s) by (nonlinear_arith)
            requires
                0 <= t < s,
        ;
    }
}

/// The food a city needs to grow rises with its size: a city of one more citizen
/// needs at least 8 more food.
pub proof fn law_food_needed_rises(population: int, r1: int, r2: int)
    requires
        1 <= population,
        spec_food_needed(population, r1),
        spec_food_needed(population + 1, r2),
    ensures
        r1 + 8 <= r2,
{
    let m = population - 1;
    assert(m * m * m <= (m + 1) * (m + 1) * (m + 1)) by (nonlinear_arith)
        requires
            m >= 0,
    ;
    assert(0 <= m * m * m) by (nonlinear_arith)
        requires
            m >= 0,
    ;
    lemma_nearest_sqrt_monotone(m * m * m, (m + 1) * (m + 1) * (m + 1), r1 - 15 - 8 * m, r2 - 15 - 8 * (m + 1));
}

/// Expanding a border never gives a tile up: the tiles owned before stay first in the
/// list of owned tiles, the radius does not shrink and does not pass the largest radius.
pub proof fn law_border_only_grows(
    st: BorderState,
    max_radius: int,
    rings: Seq<Vec<(usize, TerrainType)>>,
    fuel: nat,
)
    ensures
        ({
            let (_, _, radius, owned) = expansion_loop(st, max_radius, rings, fuel);
            &&& owned.len() >= st.3.len()
            &&& owned.take(st.3.len() as int) == st.3
            &&& st.2 <= radius
            &&& radius <= if st.2 <= max_radius { max_radius } else { st.2 }
        }),
    decreases fuel,
{
    let (culture, needed, radius, owned) = st;
    if fuel == 0 || culture < needed {
        assert(owned.take(owned.len() as int) =~= owned);
    } else {
        let c = culture - needed;
        let next = radius + 1;
        if next > max_radius || workable_tiles(rings[next]@).len() == 0 {
            assert(owned.take(owned.len() as int) =~= owned);
        } else {
            let st2 = (c, needed + 10 + next * 5, next, owned + workable_tiles(rings[next]@));
            law_border_only_grows(st2, max_radius, rings, (fuel - 1) as nat);
            let o = expansion_loop(st2, max_radius, rings, (fuel - 1) as nat).3;
            assert(o.take(owned.len() as int) =~= st2.3.take(st2.3.len() as int).take(owned.len() as int));
            assert(st2.3.take(owned.len() as int) =~= owned);
        }
    }
}

/// The best free tile, when there is one, is among the first `n` owned tiles and free.
proof fn lemma_best_free_tile(
    owned: Seq<usize>,
    radius: u32,
    worked: Seq<usize>,
    tiles: Seq<TileYieldSources>,
    distance: Seq<i32>,
    n: int,
)
    ensures
        match best_free_tile(owned, radius, worked, tiles, distance, n) {
            Some(i) => 0 <= i < n && free_tile(owned, radius, worked, distance, i),
            None => forall|i: int| 0 <= i < n ==> !free_tile(owned, radius, worked, distance, i),
        },
    decreases n,
{
    if n > 0 {
        lemma_best_free_tile(owned, radius, worked, tiles, distance, n - 1);
    }
}

/// The `j`-th worked tile is an owned tile other than the center, lies within the work
/// radius, and no earlier citizen works it.
pub open spec fn fresh_worker(w: Seq<usize>, owned: Seq<usize>, radius: u32, distance: Seq<i32>, j: int) -> bool {
    &&& exists|idx: int|
        1 <= idx < owned.len() && #[trigger] owned[idx] == w[j] && distance[owned[idx] as int]
            <= radius as i32
    &&& !w.take(j).contains(w[j])
}

proof fn lemma_place_citizens(
    owned: Seq<usize>,
    radius: u32,
    worked: Seq<usize>,
    tiles: Seq<TileYieldSources>,
    distance: Seq<i32>,
    steps: nat,
)
    ensures
        ({
            let w = place_citizens(owned, radius, worked, tiles, distance, steps);
            &&& worked.len() <= w.len() <= worked.len() + steps
            &&& w.take(worked.len() as int) == worked
            &&& forall|j: int| worked.len() <= j < w.len() ==> fresh_worker(w, owned, radius, distance, j)
        }),
    decreases steps,
{
    if steps == 0 {
        assert(worked.take(worked.len() as int) =~= worked);
    } else {
        lemma_place_citizens(owned, radius, worked, tiles, distance, (steps - 1) as nat);
        let w = place_citizens(owned, radius, worked, tiles, distance, (steps - 1) as nat);
        lemma_best_free_tile(owned, radius, w, tiles, distance, owned.len() as int);
        match best_free_tile(owned, radius, w, tiles, distance, owned.len() as int) {
            Some(i) => {
                let w2 = w.push(owned[i]);
                assert(w2.take(worked.len() as int) =~= w.take(worked.len() as int));
                assert forall|j: int| worked.len() <= j < w2.len() implies fresh_worker(
                    w2,
                    owned,
                    radius,
                    distance,
                    j,
                ) by {
                    assert(w2.take(j) =~= w.take(j));
                    if j < w.len() {
                        assert(fresh_worker(w, owned, radius, distance, j));
                        let idx = choose|idx: int|
                            1 <= idx < owned.len() && #[trigger] owned[idx] == w[j]
                                && distance[owned[idx] as int] <= radius as i32;
                        assert(owned[idx] == w2[j]);
                    } else {
                        assert(j == w.len());
                        assert(w2.take(j) =~= w);
                        assert(owned[i] == w2[j]);
                    }
                }
            },
            None => {},
        }
    }
}

/// Each citizen who gets a tile gets an owned tile other than the center, within the
/// work radius, that no other citizen works; the tiles worked before stay worked, and
/// no more citizens work than the city has (or than worked before).
pub proof fn law_citizens_work_distinct_tiles(
    owned: Seq<usize>,
    radius: u32,
    worked: Seq<usize>,
    population: int,
    tiles: Seq<TileYieldSources>,
    distance: Seq<i32>,
)
    ensures
        ({
            let w = assigned_workers(owned, radius, worked, population, tiles, distance);
            &&& worked.len() <= w.len()
            &&& w.len() <= worked.len() || w.len() <= population
            &&& w.take(worked.len() as int) == worked
            &&& forall|j: int| worked.len() <= j < w.len() ==> fresh_worker(w, owned, radius, distance, j)
        }),
{
    if worked.len() >= population {
        assert(worked.take(worked.len() as int) =~= worked);
    } else {
        lemma_place_citizens(owned, radius, worked, tiles, distance, (population - worked.len()) as nat);
    }
}


/// The citizens stand where they may: no tile is worked twice, no more tiles are
/// worked than there are citizens, and each worked tile is owned, not the center and
/// within the work radius.
pub open spec fn citizens_placed(
    owned: Seq<usize>,
    worked: Seq<usize>,
    population: u32,
    work_radius: u32,
    distance: Seq<i32>,
) -> bool {
    &&& worked.no_duplicates()
    &&& worked.len() <= population
    &&& forall|i: int|
        0 <= i < worked.len() ==> owned_beyond_center(owned, #[trigger] worked[i]) && worked[i] < distance.len()
            && distance[worked[i] as int] <= work_radius as i32
}

/// A click in the citizen screen keeps the citizens where they may stand.
pub proof fn law_toggle_keeps_citizens_placed(city: City, tile: usize, distance: Seq<i32>)
    requires
        tile < distance.len(),
        citizens_placed(city.owned_tiles@, city.worked_tiles@, city.population, city.work_radius, distance),
    ensures
        citizens_placed(
            city.owned_tiles@,
            spec_toggle(city, tile, distance).1,
            city.population,
            city.work_radius,
            distance,
        ),
{
    let worked = city.worked_tiles@;
    let r = spec_toggle(city, tile, distance);
    if r.0 == WorkToggle::Unassigned {
        let p = position_of(worked, tile);
        let k = choose|k: int| 0 <= k < worked.len() && worked[k] == tile;
        assert(exists|i: int| 0 <= i < worked.len() && worked[i] == tile && forall|j: int| 0 <= j < i ==> worked[j] != tile) by {
            assert(worked[k] == tile);
            if exists|i: int| 0 <= i < k && worked[i] == tile {
                let i = choose|i: int| 0 <= i < k && worked[i] == tile;
                assert(worked[i] == worked[k]);
            }
        }
        assert(0 <= p < worked.len());
        let rest = worked.remove(p);
        assert forall|i: int| 0 <= i < rest.len() implies owned_beyond_center(city.owned_tiles@, #[trigger] rest[i])
            && rest[i] < distance.len() && distance[rest[i] as int] <= city.work_radius as i32 by {
            if i < p {
                assert(rest[i] == worked[i]);
            } else {
                assert(rest[i] == worked[i + 1]);
            }
        }
        assert forall|a: int, b: int| 0 <= a < rest.len() && 0 <= b < rest.len() && a != b implies rest[a] != rest[b] by {
            let a2 = if a < p { a } else { a + 1 };
            let b2 = if b < p { b } else { b + 1 };
            assert(rest[a] == worked[a2] && rest[b] == worked[b2]);
        }
    } else if r.0 == WorkToggle::Assigned {
        let next = worked.push(tile);
        assert forall|i: int| 0 <= i < next.len() implies owned_beyond_center(city.owned_tiles@, #[trigger] next[i])
            && next[i] < distance.len() && distance[next[i] as int] <= city.work_radius as i32 by {
            if i < worked.len() {
                assert(next[i] == worked[i]);
            }
        }
        assert forall|a: int, b: int| 0 <= a < next.len() && 0 <= b < next.len() && a != b implies next[a] != next[b] by {
            if a < worked.len() && b < worked.len() {
                assert(next[a] == worked[a] && next[b] == worked[b]);
            } else if a < worked.len() {
                assert(next[a] == worked[a]);
                assert(worked.contains(worked[a]));
            } else {
                assert(next[b] == worked[b]);
                assert(worked.contains(worked[b]));
            }
        }
    }
}

proof fn lemma_best_free_tile_is_richest(
    owned: Seq<usize>,
    radius: u32,
    worked: Seq<usize>,
    tiles: Seq<TileYieldSources>,
    distance: Seq<i32>,
    n: int,
)
    requires
        0 <= n,
    ensures
        match best_free_tile(owned, radius, worked, tiles, distance, n) {
            Some(i) => {
                &&& 0 <= i < n
                &&& free_tile(owned, radius, worked, distance, i)
                &&& forall|j: int|
                    0 <= j < n && #[trigger] free_tile(owned, radius, worked, distance, j) ==> tile_rank(
                        tiles[owned[j] as int],
                    ) <= tile_rank(tiles[owned[i] as int]) && (j > i ==> tile_rank(tiles[owned[j] as int])
                        < tile_rank(tiles[owned[i] as int]))
            },
            None => forall|j: int| 0 <= j < n ==> !#[trigger] free_tile(owned, radius, worked, distance, j),
        },
    decreases n,
{
    if n > 0 {
        lemma_best_free_tile_is_richest(owned, radius, worked, tiles, distance, n - 1);
    }
}

/// Placing one more citizen: when some owned tile is free (not the center, not worked,
/// within the work radius), the citizen takes the free tile whose food, production,
/// science, gold and culture add up to the most, the last in order among equals, so a
/// free tile with a strictly larger sum is never passed over; when none is free, the
/// worked tiles stay as they are.
pub proof fn law_citizen_takes_the_richest_tile(
    owned: Seq<usize>,
    radius: u32,
    worked: Seq<usize>,
    tiles: Seq<TileYieldSources>,
    distance: Seq<i32>,
    k: nat,
)
    ensures
        ({
            let w = place_citizens(owned, radius, worked, tiles, distance, k);
            let w2 = place_citizens(owned, radius, worked, tiles, distance, k + 1);
            ||| (w2 == w && forall|j: int|
                0 <= j < owned.len() ==> !#[trigger] free_tile(owned, radius, w, distance, j))
            ||| exists|i: int|
                {
                    &&& 0 <= i < owned.len()
                    &&& #[trigger] free_tile(owned, radius, w, distance, i)
                    &&& w2 == w.push(owned[i])
                    &&& forall|j: int|
                        0 <= j < owned.len() && #[trigger] free_tile(owned, radius, w, distance, j) ==> {
                            let a = tiles[owned[j] as int];
                            let b = tiles[owned[i] as int];
                            let sa = tile_yield(a, 0) + tile_yield(a, 1) + tile_yield(a, 2) + tile_yield(a, 3)
                                + tile_yield(a, 4);
                            let sb = tile_yield(b, 0) + tile_yield(b, 1) + tile_yield(b, 2) + tile_yield(b, 3)
                                + tile_yield(b, 4);
                            &&& sa <= sb
                            &&& j > i ==> sa < sb
                        }
                }
        }),
{
    let w = place_citizens(owned, radius, worked, tiles, distance, k);
    lemma_best_free_tile_is_richest(owned, radius, w, tiles, distance, owned.len() as int);
    match best_free_tile(owned, radius, w, tiles, distance, owned.len() as int) {
        Some(i) => {
            assert(free_tile(owned, radius, w, distance, i));
        },
        None => {},
    }
}

} // verus!
