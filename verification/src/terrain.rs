//! Terrain of a map tile: terrain type, base terrain, feature and natural wonder,
//! together with the rule tables that say which of them block movement.

use vstd::prelude::*;

verus! {

/// The base terrain of a tile.
#[derive(Clone, Copy, Debug, PartialEq, Eq, Structural)]
pub enum BaseTerrain {
    Ocean,
    Lake,
    Coast,
    Grassland,
    Desert,
    Plain,
    Tundra,
    Snow,
}

/// The shape of a tile's ground.
#[derive(Clone, Copy, Debug, PartialEq, Eq, Structural)]
pub enum TerrainType {
    Water,
    Flatland,
    Mountain,
    Hill,
}

/// A terrain feature that may lie on a tile.
#[derive(Clone, Copy, Debug, PartialEq, Eq, Structural)]
pub enum Feature {
    Forest,
    Jungle,
    Marsh,
    Floodplain,
    Oasis,
    Ice,
    Atoll,
    Fallout,
}

pub open spec fn base_terrain_name(t: BaseTerrain) -> Seq<char> {
    match t {
        BaseTerrain::Ocean => "Ocean"@,
        BaseTerrain::Lake => "Lake"@,
        BaseTerrain::Coast => "Coast"@,
        BaseTerrain::Grassland => "Grassland"@,
        BaseTerrain::Desert => "Desert"@,
        BaseTerrain::Plain => "Plain"@,
        BaseTerrain::Tundra => "Tundra"@,
        BaseTerrain::Snow => "Snow"@,
    }
}

pub open spec fn terrain_type_name(t: TerrainType) -> Seq<char> {
    match t {
        TerrainType::Water => "Water"@,
        TerrainType::Flatland => "Flatland"@,
        TerrainType::Mountain => "Mountain"@,
        TerrainType::Hill => "Hill"@,
    }
}

pub open spec fn feature_name(f: Feature) -> Seq<char> {
    match f {
        Feature::Forest => "Forest"@,
        Feature::Jungle => "Jungle"@,
        Feature::Marsh => "Marsh"@,
        Feature::Floodplain => "Floodplain"@,
        Feature::Oasis => "Oasis"@,
        Feature::Ice => "Ice"@,
        Feature::Atoll => "Atoll"@,
        Feature::Fallout => "Fallout"@,
    }
}

/// The position of a feature in the rule table of features.
pub open spec fn feature_index(f: Feature) -> int {
    match f {
        Feature::Forest => 0,
        Feature::Jungle => 1,
        Feature::Marsh => 2,
        Feature::Floodplain => 3,
        Feature::Oasis => 4,
        Feature::Ice => 5,
        Feature::Atoll => 6,
        Feature::Fallout => 7,
    }
}

impl BaseTerrain {
    /// The name under which the base terrain appears in the rules and the assets.
    pub fn name(&self) -> (r: &'static str)
        ensures
            r@ == base_terrain_name(*self),
    {
        match self {
            BaseTerrain::Ocean => "Ocean",
            BaseTerrain::Lake => "Lake",
            BaseTerrain::Coast => "Coast",
            BaseTerrain::Grassland => "Grassland",
            BaseTerrain::Desert => "Desert",
            BaseTerrain::Plain => "Plain",
            BaseTerrain::Tundra => "Tundra",
            BaseTerrain::Snow => "Snow",
        }
    }
}

impl TerrainType {
    /// The name under which the terrain type appears in the rules and the assets.
    pub fn name(&self) -> (r: &'static str)
        ensures
            r@ == terrain_type_name(*self),
    {
        match self {
            TerrainType::Water => "Water",
            TerrainType::Flatland => "Flatland",
            TerrainType::Mountain => "Mountain",
            TerrainType::Hill => "Hill",
        }
    }
}

/// What the rules say of one feature.
#[derive(Clone, Debug)]
pub struct FeatureInfo {
    /// Units cannot enter a tile with this feature.
    pub impassable: bool,
    /// The terrain types the feature may be placed on.
    pub occurs_on_type: Vec<TerrainType>,
    /// The base terrains the feature may be placed on.
    pub occurs_on_base: Vec<BaseTerrain>,
}

/// What the rules say of one natural wonder.
#[derive(Clone, Debug)]
pub struct NaturalWonderInfo {
    /// Units cannot enter a tile with this natural wonder.
    pub impassable: bool,
}

/// The terrain rules: one entry per feature, in the order of [`Feature`],
/// and one entry per natural wonder.
#[derive(Clone, Debug)]
pub struct Ruleset {
    pub features: Vec<FeatureInfo>,
    pub natural_wonders: Vec<NaturalWonderInfo>,
}

impl Ruleset {
    /// There is an entry for each of the eight features.
    pub open spec fn well_formed(&self) -> bool {
        self.features.len() == 8
    }

    pub open spec fn feature_impassable(&self, f: Feature) -> bool {
        self.features@[feature_index(f)].impassable
    }

    pub open spec fn wonder_impassable(&self, w: NaturalWonder) -> bool {
        self.natural_wonders@[w.0 as int].impassable
    }
}

/// A natural wonder, given by its position in the rule table of natural wonders.
#[derive(Clone, Copy, Debug, PartialEq, Eq, Structural)]
pub struct NaturalWonder(pub usize);

impl NaturalWonder {
    /// Whether units are kept off the wonder's tile; the rules must list the wonder.
    pub fn impassable(&self, ruleset: &Ruleset) -> (r: bool)
        requires
            self.0 < ruleset.natural_wonders.len(),
        ensures
            r == ruleset.wonder_impassable(*self),
    {
        ruleset.natural_wonders[self.0].impassable
    }
}

impl Feature {
    /// The name under which the feature appears in the rules and the assets.
    pub fn name(&self) -> (r: &'static str)
        ensures
            r@ == feature_name(*self),
    {
        match self {
            Feature::Forest => "Forest",
            Feature::Jungle => "Jungle",
            Feature::Marsh => "Marsh",
            Feature::Floodplain => "Floodplain",
            Feature::Oasis => "Oasis",
            Feature::Ice => "Ice",
            Feature::Atoll => "Atoll",
            Feature::Fallout => "Fallout",
        }
    }

    pub(crate) fn index(&self) -> (r: usize)
        ensures
            r == feature_index(*self),
            r < 8,
    {
        match self {
            Feature::Forest => 0,
            Feature::Jungle => 1,
            Feature::Marsh => 2,
            Feature::Floodplain => 3,
            Feature::Oasis => 4,
            Feature::Ice => 5,
            Feature::Atoll => 6,
            Feature::Fallout => 7,
        }
    }

    /// Whether the rules keep units off a tile with this feature.
    pub fn impassable(&self, ruleset: &Ruleset) -> (r: bool)
        requires
            ruleset.well_formed(),
        ensures
            r == ruleset.feature_impassable(*self),
    {
        ruleset.features[self.index()].impassable
    }
}

} // verus!
