use vstd::prelude::*;
use crate::grid::{grid_wf, count_grid, water_pred, alive_pred, alive_of_pred};
use crate::tile::Tile;
use crate::tree::TreeType;

verus! {

/// Smallest and largest side of the grid.
pub const MIN_FOREST_SIZE: i32 = 10;
pub const MAX_FOREST_SIZE: i32 = 100;
/// Bounds of the wanted tree density, in tiles per thousand.
pub const MIN_FOREST_DENSITY: u32 = 100;
pub const MAX_FOREST_DENSITY: u32 = 1000;
/// Largest wanted water density, in tiles per thousand.
pub const MAX_WATER_DENSITY: u32 = 500;

/// `count` tiles out of `n * n` make up at least `permille` per thousand.
pub open spec fn density_reached(count: int, n: int, permille: int) -> bool {
    count * 1000 >= permille * (n * n)
}

/// The settings of a run and the counters that describe its grid.
/// Densities are in tiles per thousand.
pub struct Config {
    pub forest_size: i32,
    pub desired_forest_density: u32,
    pub desired_water_density: u32,
    pub water_count: i32,
    pub tree_count: i32,
    pub original_tree_count: i32,
    pub simulation_speed_ms: u64,
    pub pine_count: i32,
    pub oak_count: i32,
    pub birch_count: i32,
    pub redwood_count: i32,
}

/// A grid side in `MIN_FOREST_SIZE..=MAX_FOREST_SIZE`.
pub fn forest_size_valid(n: i32) -> (r: bool)
    ensures
        r == (MIN_FOREST_SIZE <= n <= MAX_FOREST_SIZE),
{
    MIN_FOREST_SIZE <= n && n <= MAX_FOREST_SIZE
}

/// A tree density in `MIN_FOREST_DENSITY..=MAX_FOREST_DENSITY` per thousand.
pub fn forest_density_valid(d: u32) -> (r: bool)
    ensures
        r == (MIN_FOREST_DENSITY <= d <= MAX_FOREST_DENSITY),
{
    MIN_FOREST_DENSITY <= d && d <= MAX_FOREST_DENSITY
}

/// A water density of at most `MAX_WATER_DENSITY` per thousand.
pub fn water_density_valid(d: u32) -> (r: bool)
    ensures
        r == (d <= MAX_WATER_DENSITY),
{
    d <= MAX_WATER_DENSITY
}

impl Config {
    pub open spec fn settings_valid(&self) -> bool {
        &&& MIN_FOREST_SIZE <= self.forest_size <= MAX_FOREST_SIZE
        &&& MIN_FOREST_DENSITY <= self.desired_forest_density <= MAX_FOREST_DENSITY
        &&& self.desired_water_density <= MAX_WATER_DENSITY
    }

    /// The same settings as `other`.
    pub open spec fn same_settings(&self, other: Config) -> bool {
        &&& self.forest_size == other.forest_size
        &&& self.desired_forest_density == other.desired_forest_density
        &&& self.desired_water_density == other.desired_water_density
        &&& self.simulation_speed_ms == other.simulation_speed_ms
    }

    /// The counters say what the grid holds: water tiles, living trees, and
    /// living trees of each archetype, whose counts add up to the total.
    pub open spec fn counters_match(&self, g: Seq<Vec<Tile>>) -> bool {
        &&& self.water_count == count_grid(g, water_pred())
        &&& self.tree_count == count_grid(g, alive_pred())
        &&& self.pine_count == count_grid(g, alive_of_pred(TreeType::Pine))
        &&& self.oak_count == count_grid(g, alive_of_pred(TreeType::Oak))
        &&& self.birch_count == count_grid(g, alive_of_pred(TreeType::Birch))
        &&& self.redwood_count == count_grid(g, alive_of_pred(TreeType::Redwood))
        &&& self.pine_count + self.oak_count + self.birch_count + self.redwood_count == self.tree_count
    }

    /// Valid settings, a well-formed grid of side `forest_size`, counters
    /// that match it, and no more living trees than were planted.
    pub open spec fn wf(&self, g: Seq<Vec<Tile>>) -> bool {
        &&& self.settings_valid()
        &&& grid_wf(g, self.forest_size as int)
        &&& self.counters_match(g)
        &&& 0 <= self.tree_count <= self.original_tree_count
    }

    /// Settings for a run, with every counter at zero and ticks of 100 ms.
    pub fn new(forest_size: i32, desired_forest_density: u32, desired_water_density: u32) -> (r: Config)
        requires
            MIN_FOREST_SIZE <= forest_size <= MAX_FOREST_SIZE,
            MIN_FOREST_DENSITY <= desired_forest_density <= MAX_FOREST_DENSITY,
            desired_water_density <= MAX_WATER_DENSITY,
        ensures
            r.settings_valid(),
            r.forest_size == forest_size,
            r.desired_forest_density == desired_forest_density,
            r.desired_water_density == desired_water_density,
            r.simulation_speed_ms == 100,
            r.water_count == 0 && r.tree_count == 0 && r.original_tree_count == 0,
            r.pine_count == 0 && r.oak_count == 0 && r.birch_count == 0 && r.redwood_count == 0,
    {
        Config {
            forest_size,
            desired_forest_density,
            desired_water_density,
            water_count: 0,
            tree_count: 0,
            original_tree_count: 0,
            simulation_speed_ms: 100,
            pine_count: 0,
            oak_count: 0,
            birch_count: 0,
            redwood_count: 0,
        }
    }

    /// Whether the living trees reach the wanted tree density.
    pub fn forest_density_met(&self) -> (r: bool)
        requires
            self.settings_valid(),
            0 <= self.tree_count <= 10000,
        ensures
            r == density_reached(self.tree_count as int, self.forest_size as int, self.desired_forest_density as int),
    {
        let n = self.forest_size as i64;
        let d = self.desired_forest_density as i64;
        proof {
            assert(n * n <= 10000) by (nonlinear_arith)
                requires 0 <= n <= 100;
            assert(d * (n * n) <= 1000 * 10000) by (nonlinear_arith)
                requires 0 <= d <= 1000, 0 <= n * n <= 10000;
        }
        (self.tree_count as i64) * 1000 >= d * (n * n)
    }

    /// Whether the water tiles reach the wanted water density.
    pub fn water_density_met(&self) -> (r: bool)
        requires
            self.settings_valid(),
            0 <= self.water_count <= 10000,
        ensures
            r == density_reached(self.water_count as int, self.forest_size as int, self.desired_water_density as int),
    {
        let n = self.forest_size as i64;
        let d = self.desired_water_density as i64;
        proof {
            assert(n * n <= 10000) by (nonlinear_arith)
                requires 0 <= n <= 100;
            assert(d * (n * n) <= 1000 * 10000) by (nonlinear_arith)
                requires 0 <= d <= 1000, 0 <= n * n <= 10000;
        }
        (self.water_count as i64) * 1000 >= d * (n * n)
    }
}

} // verus!
