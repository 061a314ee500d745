use civ_remastered::city::{
    assign_worker_tiles, calculate_city_yields, expand_city_border, food_needed_for_population,
    handle_found_city_request, process_city_expansion, process_city_yields, tile_yields_with_improvement, City,
    CityYields, TileYieldSources, Yields,
};
use civ_remastered::terrain::TerrainType;

fn y(food: i32, production: i32, gold: i32) -> Yields {
    Yields { food, production, science: 0, gold, culture: 0, faith: 0, happiness: 0 }
}

fn plain_tile(food: i32, production: i32) -> TileYieldSources {
    TileYieldSources { base_terrain: y(food, production, 0), terrain_type: y(0, 0, 0), feature: None, resource: None, improvement: None }
}

#[test]
fn default_yields_are_zero() {
    let d = CityYields::default();
    assert_eq!(d, CityYields { food: 0, production: 0, science: 0, gold: 0, culture: 0, faith: 0, happiness: 0 });
}

#[test]
fn tile_yield_adds_positive_parts() {
    let t = TileYieldSources {
        base_terrain: y(2, 0, 0),
        terrain_type: y(-1, 2, 0),
        feature: Some(y(1, 1, 0)),
        resource: Some(y(0, 0, 3)),
        improvement: Some(y(1, -5, 0)),
    };
    let r = tile_yields_with_improvement(&t);
    assert_eq!((r.food, r.production, r.gold, r.happiness), (4, 3, 3, 0));
}

#[test]
fn improvement_yield_saturates() {
    let t = TileYieldSources {
        base_terrain: y(i32::MAX, 0, 0),
        terrain_type: y(i32::MAX, 0, 0),
        feature: None,
        resource: None,
        improvement: Some(y(i32::MAX, 0, 0)),
    };
    assert_eq!(tile_yields_with_improvement(&t).food, u32::MAX);
}

#[test]
fn food_needed_follows_the_formula() {
    assert_eq!(food_needed_for_population(1), 15);
    assert_eq!(food_needed_for_population(2), 24);
    assert_eq!(food_needed_for_population(3), 34);
    assert_eq!(food_needed_for_population(4), 44);
    assert_eq!(food_needed_for_population(5), 55);
    assert_eq!(food_needed_for_population(10), 114);
}

fn city_on(owned: Vec<usize>) -> City {
    let mut c = City::new("Test".to_string(), 9);
    c.owned_tiles = owned;
    c
}

#[test]
fn new_city_defaults() {
    let c = City::new("Rome".to_string(), 4);
    assert_eq!(c.population, 1);
    assert_eq!(c.food_needed, 15);
    assert_eq!(c.buildings, vec![4]);
    assert_eq!(c.culture_to_expand, 20);
    assert_eq!((c.border_radius, c.max_border_radius, c.work_radius), (1, 5, 3));
    assert!(c.owned_tiles.is_empty());
}

#[test]
fn city_yields_count_worked_tiles_and_buildings() {
    let tiles = vec![plain_tile(2, 1), plain_tile(3, 0), plain_tile(1, 4), plain_tile(5, 5)];
    let distance = vec![0, 1, 2, 4];
    let mut c = city_on(vec![0, 1, 2, 3]);
    // tile 3 is worked but lies beyond the work radius; tile 2 is not worked
    c.worked_tiles = vec![1, 3];
    let buildings = vec![Yields { food: 0, production: 2, science: 3, gold: -1, culture: 1, faith: 0, happiness: -2 }; 10];
    let r = calculate_city_yields(&c, &tiles, &distance, &buildings);
    assert_eq!(r.food, 5);
    assert_eq!(r.production, 3);
    assert_eq!(r.science, 3);
    assert_eq!(r.gold, 0);
    assert_eq!(r.culture, 1);
    assert_eq!(r.happiness, -2);
}

#[test]
fn citizens_take_the_best_tiles_last_among_equals() {
    let tiles = vec![plain_tile(9, 9), plain_tile(2, 1), plain_tile(1, 2), plain_tile(3, 3), plain_tile(9, 9)];
    let distance = vec![0, 1, 1, 2, 4];
    let mut c = city_on(vec![0, 1, 2, 3, 4]);
    c.population = 3;
    assign_worker_tiles(&mut c, &tiles, &distance);
    // tile 4 is out of reach; 3 ranks best; 1 and 2 tie, the later one comes first
    assert_eq!(c.worked_tiles, vec![3, 2, 1]);
    c.population = 5;
    assign_worker_tiles(&mut c, &tiles, &distance);
    assert_eq!(c.worked_tiles, vec![3, 2, 1]);
}

#[test]
fn no_reassignment_when_every_citizen_works() {
    let tiles = vec![plain_tile(1, 1), plain_tile(5, 5)];
    let mut c = city_on(vec![0, 1]);
    c.worked_tiles = vec![0];
    assign_worker_tiles(&mut c, &tiles, &vec![0, 1]);
    assert_eq!(c.worked_tiles, vec![0]);
}

#[test]
fn border_expands_over_workable_tiles() {
    let mut c = city_on(vec![0]);
    let ring = vec![(5, TerrainType::Water), (6, TerrainType::Hill), (7, TerrainType::Mountain), (8, TerrainType::Flatland)];
    assert!(expand_city_border(&mut c, &ring));
    assert_eq!(c.border_radius, 2);
    assert_eq!(c.owned_tiles, vec![0, 6, 8]);
    let water = vec![(9, TerrainType::Water)];
    assert!(!expand_city_border(&mut c, &water));
    assert_eq!(c.border_radius, 2);
    c.border_radius = 5;
    assert!(!expand_city_border(&mut c, &ring));
    assert_eq!(c.owned_tiles, vec![0, 6, 8]);
}

#[test]
fn culture_pays_for_expansions() {
    let mut c = city_on(vec![0]);
    c.culture = 10;
    let rings: Vec<Vec<(usize, TerrainType)>> = (0..6)
        .map(|r| vec![(10 * r, TerrainType::Flatland), (10 * r + 1, TerrainType::Water)])
        .collect();
    process_city_expansion(&mut c, 40, &rings);
    // 50 culture: pay 20 (radius 2, need 20 + 10 + 10 = 40), 30 left < 40
    assert_eq!(c.border_radius, 2);
    assert_eq!(c.culture, 30);
    assert_eq!(c.culture_to_expand, 40);
    assert_eq!(c.owned_tiles, vec![0, 20]);
    process_city_expansion(&mut c, 1000, &rings);
    assert_eq!(c.border_radius, 5);
    assert_eq!(c.owned_tiles, vec![0, 20, 30, 40, 50]);
    // 1030 - 40 - 65 - 95 = 830; then 130 is paid, but no ring is left beyond radius 5
    assert_eq!(c.culture, 700);
    assert_eq!(c.culture_to_expand, 130);
}

#[test]
fn a_city_grows_on_its_food() {
    let tiles = vec![plain_tile(10, 1), plain_tile(4, 0), plain_tile(2, 0)];
    let distance = vec![0, 1, 1];
    let mut c = city_on(vec![0, 1, 2]);
    c.food = 10;
    let mut yields = CityYields::default();
    process_city_yields(1, &mut c, &mut yields, &tiles, &distance, &vec![y(0, 0, 0); 10]);
    // 10 food in hand + 10 from the center: 20 >= 15 -> 2 citizens, 5 left, 24 needed
    assert_eq!(yields.food, 10);
    assert_eq!(c.population, 2);
    assert_eq!(c.food, 5);
    assert_eq!(c.food_needed, 24);
    assert_eq!(c.worked_tiles, vec![1, 2]);
}

#[test]
fn no_growth_on_turn_zero() {
    let tiles = vec![plain_tile(50, 1)];
    let mut c = city_on(vec![0]);
    let mut yields = CityYields::default();
    process_city_yields(0, &mut c, &mut yields, &tiles, &vec![0], &vec![]);
    assert_eq!((c.population, c.food), (1, 0));
    assert_eq!(yields, CityYields::default());
}

#[test]
fn founding_a_city() {
    let tiles = vec![plain_tile(2, 2), plain_tile(1, 1), plain_tile(3, 0), plain_tile(9, 9)];
    let distance = vec![1, 0, 1, 1];
    let ring = vec![(0, TerrainType::Hill), (2, TerrainType::Flatland), (3, TerrainType::Mountain)];
    let city = handle_found_city_request(true, false, 1, 7, &ring, &tiles, &distance).unwrap();
    assert_eq!(city.name, "City at tile 1");
    assert_eq!(city.owned_tiles, vec![1, 0, 2]);
    assert_eq!(city.worked_tiles, vec![0]);
    assert_eq!(city.buildings, vec![7]);
    assert!(handle_found_city_request(false, false, 1, 7, &ring, &tiles, &distance).is_none());
    assert!(handle_found_city_request(true, true, 1, 7, &ring, &tiles, &distance).is_none());
}
