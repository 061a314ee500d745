//! Game rules of a hex-map civilization game: terrain, hex coordinates,
//! map areas, technologies, eras, turns, cities and units.

pub mod terrain;
pub mod hex;
pub mod tile_query;
pub mod area;
pub mod tech;
pub mod era;
pub mod turn;
pub mod area_merge;
pub mod selection;
pub mod river;
pub mod draws;
pub mod city;
pub mod construction;
pub mod movement;
pub mod combat;
pub mod minimap;
pub mod map_gen;
pub mod civ;
pub mod neighbors;
pub mod natural_wonder;
pub mod start_units;
pub mod features;
