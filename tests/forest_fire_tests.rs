use forest_fire::config::{forest_density_valid, forest_size_valid, water_density_valid, Config};
use forest_fire::forest::{clear_forest, count_water, create_water_body, free_tiles, grass_grid, init_forest, lake_step};
use forest_fire::simulation::{burn_adjacent_trees, burn_tick, burn_tick_with, lightning_strike, strike};
use std::collections::VecDeque;
use forest_fire::tile::{Tile, TileType};
use forest_fire::tree::{Tree, TreeStatus, TreeType};

fn count_status(forest: &Vec<Vec<Tile>>, status: TreeStatus) -> i32 {
    let mut c = 0;
    for row in forest {
        for t in row {
            if let Some(tree) = t.tile_entity {
                if tree.status == status {
                    c += 1;
                }
            }
        }
    }
    c
}

fn check_generated(forest: &Vec<Vec<Tile>>, cfg: &Config) {
    let n = cfg.forest_size as usize;
    assert_eq!(forest.len(), n);
    let mut trees = 0;
    let mut water = 0;
    let mut by_type = [0; 4];
    for (x, row) in forest.iter().enumerate() {
        assert_eq!(row.len(), n);
        for (y, t) in row.iter().enumerate() {
            assert_eq!(t.x as usize, x);
            assert_eq!(t.y as usize, y);
            if t.tile_type == TileType::Water {
                water += 1;
                assert!(t.tile_entity.is_none());
            }
            if let Some(tree) = t.tile_entity {
                assert_eq!(t.tile_type, TileType::Grass);
                assert_eq!(tree.status, TreeStatus::Alive);
                trees += 1;
                let i = match tree.tree_type {
                    TreeType::Pine => 0,
                    TreeType::Oak => 1,
                    TreeType::Birch => 2,
                    TreeType::Redwood => 3,
                };
                by_type[i] += 1;
            }
        }
    }
    assert_eq!(trees, cfg.tree_count);
    assert_eq!(water, cfg.water_count);
    assert!(cfg.tree_count <= cfg.forest_size * cfg.forest_size);
    assert_eq!(cfg.pine_count, by_type[0]);
    assert_eq!(cfg.oak_count, by_type[1]);
    assert_eq!(cfg.birch_count, by_type[2]);
    assert_eq!(cfg.redwood_count, by_type[3]);
    assert_eq!(cfg.pine_count + cfg.oak_count + cfg.birch_count + cfg.redwood_count, cfg.tree_count);
    assert_eq!(cfg.tree_count, cfg.original_tree_count);
    let nn = (cfg.forest_size * cfg.forest_size) as i64;
    assert!(cfg.water_count as i64 * 1000 >= cfg.desired_water_density as i64 * nn);
}

/// A 10 by 10 grass grid with a single Pine at (5, 5) and matching counters.
fn lone_pine() -> (Vec<Vec<Tile>>, Config) {
    let mut forest = grass_grid(10);
    forest[5][5].set_entity(Tree::of_type(TreeType::Pine));
    let mut cfg = Config::new(10, 100, 0);
    cfg.tree_count = 1;
    cfg.original_tree_count = 1;
    cfg.pine_count = 1;
    (forest, cfg)
}

#[test]
fn archetypes_fix_flammability_and_burn_time() {
    let expect = [
        (TreeType::Pine, 90, 1),
        (TreeType::Birch, 70, 2),
        (TreeType::Oak, 50, 3),
        (TreeType::Redwood, 30, 4),
    ];
    for (ty, f, b) in expect {
        let t = Tree::of_type(ty);
        assert_eq!(t.status, TreeStatus::Alive);
        assert_eq!(t.tree_type, ty);
        assert_eq!(t.flammability, f);
        assert_eq!(t.burn_time, b);
    }
}

#[test]
fn draws_select_archetypes_in_order() {
    assert_eq!(Tree::from_draw(0).tree_type, TreeType::Pine);
    assert_eq!(Tree::from_draw(1).tree_type, TreeType::Oak);
    assert_eq!(Tree::from_draw(2).tree_type, TreeType::Birch);
    assert_eq!(Tree::from_draw(3).tree_type, TreeType::Redwood);
}

#[test]
fn random_trees_cover_all_archetypes() {
    let mut seen = [false; 4];
    for _ in 0..400 {
        let t = Tree::new();
        assert_eq!(t.status, TreeStatus::Alive);
        let i = match t.tree_type {
            TreeType::Pine => 0,
            TreeType::Oak => 1,
            TreeType::Birch => 2,
            TreeType::Redwood => 3,
        };
        assert_eq!(t, Tree::of_type(t.tree_type));
        seen[i] = true;
    }
    assert!(seen.iter().all(|s| *s));
}

#[test]
fn tile_new_is_empty_and_set_entity_replaces() {
    let mut t = Tile::new(3, 4, TileType::Grass);
    assert_eq!((t.x, t.y), (3, 4));
    assert!(t.tile_entity.is_none());
    t.set_entity(Tree::of_type(TreeType::Oak));
    assert_eq!(t.tile_entity.unwrap().tree_type, TreeType::Oak);
    t.set_entity(Tree::of_type(TreeType::Birch));
    assert_eq!(t.tile_entity.unwrap().tree_type, TreeType::Birch);
}

#[test]
fn glyphs_follow_the_legend() {
    let grass = Tile::new(0, 0, TileType::Grass);
    assert_eq!(grass.glyph(), '.');
    assert_eq!(Tile::new(0, 0, TileType::Water).glyph(), '~');
    let letters = [(TreeType::Pine, 'P'), (TreeType::Oak, 'O'), (TreeType::Birch, 'B'), (TreeType::Redwood, 'R')];
    for (ty, c) in letters {
        let mut t = grass;
        t.set_entity(Tree::of_type(ty));
        assert_eq!(t.glyph(), c);
    }
    let states = [
        (TreeStatus::Struck, 'X'),
        (TreeStatus::Kindling, 'K'),
        (TreeStatus::Burning, 'F'),
        (TreeStatus::Burned, '#'),
    ];
    for (s, c) in states {
        let mut t = grass;
        t.set_entity(Tree::of_type(TreeType::Pine).with_status(s));
        assert_eq!(t.glyph(), c);
    }
}

#[test]
fn setting_ranges() {
    assert!(!forest_size_valid(9));
    assert!(forest_size_valid(10));
    assert!(forest_size_valid(100));
    assert!(!forest_size_valid(101));
    assert!(!forest_density_valid(99));
    assert!(forest_density_valid(100));
    assert!(forest_density_valid(1000));
    assert!(!forest_density_valid(1001));
    assert!(water_density_valid(0));
    assert!(water_density_valid(500));
    assert!(!water_density_valid(501));
}

#[test]
fn config_new_starts_at_zero() {
    let cfg = Config::new(20, 350, 120);
    assert_eq!(cfg.forest_size, 20);
    assert_eq!(cfg.desired_forest_density, 350);
    assert_eq!(cfg.desired_water_density, 120);
    assert_eq!(cfg.simulation_speed_ms, 100);
    assert_eq!(cfg.tree_count + cfg.original_tree_count + cfg.water_count, 0);
    assert!(!cfg.forest_density_met());
    assert!(!cfg.water_density_met());
}

#[test]
fn density_thresholds() {
    let mut cfg = Config::new(10, 350, 120);
    cfg.tree_count = 34;
    assert!(!cfg.forest_density_met());
    cfg.tree_count = 35;
    assert!(cfg.forest_density_met());
    cfg.water_count = 11;
    assert!(!cfg.water_density_met());
    cfg.water_count = 12;
    assert!(cfg.water_density_met());
}

#[test]
fn grass_grid_and_free_tiles() {
    let forest = grass_grid(10);
    assert_eq!(forest.len(), 10);
    assert_eq!(count_water(&forest), 0);
    assert_eq!(free_tiles(&forest).len(), 100);
    let (pine, _) = lone_pine();
    let free = free_tiles(&pine);
    assert_eq!(free.len(), 99);
    assert!(!free.contains(&(5, 5)));
}

#[test]
fn lake_of_size_zero_changes_nothing() {
    let mut forest = grass_grid(10);
    create_water_body(&mut forest, 4, 4, 0);
    assert_eq!(forest, grass_grid(10));
}

#[test]
fn lake_seeded_off_the_grid_changes_nothing() {
    let mut forest = grass_grid(10);
    create_water_body(&mut forest, -1, 3, 10);
    create_water_body(&mut forest, 3, 10, 10);
    assert_eq!(count_water(&forest), 0);
}

#[test]
fn lake_of_size_one_floods_its_seed() {
    let mut forest = grass_grid(10);
    create_water_body(&mut forest, 2, 7, 1);
    assert_eq!(count_water(&forest), 1);
    assert_eq!(forest[2][7], Tile::new(2, 7, TileType::Water));
}

#[test]
fn lakes_stay_within_their_size() {
    for _ in 0..50 {
        let mut forest = grass_grid(12);
        create_water_body(&mut forest, 6, 6, 15);
        let w = count_water(&forest);
        assert!(w >= 1 && w <= 15);
        assert_eq!(forest[6][6].tile_type, TileType::Water);
    }
}

#[test]
fn full_density_without_water_fills_every_tile() {
    let mut cfg = Config::new(10, 1000, 0);
    let forest = init_forest(&mut cfg);
    assert_eq!(cfg.tree_count, 100);
    assert_eq!(cfg.original_tree_count, 100);
    assert_eq!(cfg.water_count, 0);
    check_generated(&forest, &cfg);
}

#[test]
fn no_water_wanted_gives_no_water() {
    let mut cfg = Config::new(30, 400, 0);
    let forest = init_forest(&mut cfg);
    assert_eq!(cfg.water_count, 0);
    assert_eq!(count_water(&forest), 0);
    check_generated(&forest, &cfg);
}

#[test]
fn generation_meets_both_densities() {
    for (n, d, w) in [(10, 100, 500), (25, 600, 250), (40, 350, 100), (100, 1000, 0)] {
        let mut cfg = Config::new(n, d, w);
        let forest = init_forest(&mut cfg);
        check_generated(&forest, &cfg);
        assert!(cfg.forest_density_met());
    }
}

#[test]
fn generation_with_too_little_grass_fills_all_grass() {
    let mut cfg = Config::new(10, 1000, 500);
    let forest = init_forest(&mut cfg);
    check_generated(&forest, &cfg);
    assert_eq!(cfg.tree_count + cfg.water_count, 100);
    assert!(free_tiles(&forest).is_empty());
}

#[test]
fn strike_on_lone_tree_burns_only_it() {
    let (mut forest, mut cfg) = lone_pine();
    let burned = burn_adjacent_trees(&mut forest, 5, 5, &mut cfg);
    assert_eq!(burned, 1);
    assert_eq!(cfg.tree_count, 0);
    assert_eq!(cfg.pine_count, 0);
    assert_eq!(cfg.original_tree_count, 1);
    assert_eq!(forest[5][5].tile_entity.unwrap().status, TreeStatus::Struck);
}

#[test]
fn strike_on_a_dead_tree_is_a_no_op() {
    let (mut forest, mut cfg) = lone_pine();
    let mut oak = Tree::of_type(TreeType::Oak);
    oak.status = TreeStatus::Burned;
    forest[1][1].set_entity(oak);
    let before = forest.clone();
    let burned = burn_adjacent_trees(&mut forest, 1, 1, &mut cfg);
    assert_eq!(burned, 0);
    assert_eq!(forest, before);
    assert_eq!(cfg.tree_count, 1);
    assert_eq!(cfg.pine_count, 1);
}

#[test]
fn strike_on_an_empty_tile_is_a_no_op() {
    let (mut forest, mut cfg) = lone_pine();
    let before = forest.clone();
    assert_eq!(burn_adjacent_trees(&mut forest, 0, 0, &mut cfg), 0);
    assert_eq!(forest, before);
    assert_eq!(cfg.tree_count, 1);
}

#[test]
fn strike_on_a_dead_forest_is_a_no_op() {
    let (mut forest, mut cfg) = lone_pine();
    assert_eq!(burn_adjacent_trees(&mut forest, 5, 5, &mut cfg), 1);
    let before = forest.clone();
    assert_eq!(burn_adjacent_trees(&mut forest, 5, 5, &mut cfg), 0);
    assert_eq!(burn_adjacent_trees(&mut forest, 3, 3, &mut cfg), 0);
    assert_eq!(forest, before);
    assert_eq!(cfg.tree_count, 0);
}

#[test]
fn strike_on_a_full_forest() {
    let mut cfg = Config::new(10, 1000, 0);
    let mut forest = init_forest(&mut cfg);
    let burned = burn_adjacent_trees(&mut forest, 4, 6, &mut cfg);
    assert!(burned >= 1);
    assert_eq!(cfg.tree_count, 100 - burned);
    assert_eq!(cfg.original_tree_count, 100);
    assert_eq!(forest[4][6].tile_entity.unwrap().status, TreeStatus::Struck);
    assert_eq!(count_status(&forest, TreeStatus::Struck), 1);
    assert_eq!(count_status(&forest, TreeStatus::Kindling), 0);
    assert_eq!(count_status(&forest, TreeStatus::Burning), 0);
    assert_eq!(count_status(&forest, TreeStatus::Burned), burned - 1);
    assert_eq!(count_status(&forest, TreeStatus::Alive), cfg.tree_count);
    assert_eq!(cfg.pine_count + cfg.oak_count + cfg.birch_count + cfg.redwood_count, cfg.tree_count);
}

#[test]
fn ticks_play_out_a_strike() {
    let (mut forest, mut cfg) = lone_pine();
    forest[5][6].set_entity(Tree::of_type(TreeType::Redwood));
    cfg.tree_count = 2;
    cfg.original_tree_count = 2;
    cfg.redwood_count = 1;
    let mut front = strike(&mut forest, 5, 5, &mut cfg);
    assert_eq!(front.burned_count, 1);
    assert_eq!(cfg.tree_count, 1);
    assert_eq!(forest[5][5].tile_entity.unwrap().status, TreeStatus::Struck);
    let mut ticks = 0;
    while burn_tick(&mut front, &mut forest, &mut cfg) {
        ticks += 1;
    }
    assert!(ticks >= 1);
    assert_eq!(front.burned_count, 2 - cfg.tree_count);
    let redwood = forest[5][6].tile_entity.unwrap().status;
    if cfg.tree_count == 0 {
        assert_eq!(redwood, TreeStatus::Burned);
        assert_eq!(ticks, 5);
    } else {
        assert_eq!(redwood, TreeStatus::Alive);
        assert_eq!(ticks, 1);
    }
    assert!(!burn_tick(&mut front, &mut forest, &mut cfg));
}

#[test]
fn empty_front_does_nothing() {
    let (mut forest, mut cfg) = lone_pine();
    let mut front = strike(&mut forest, 0, 0, &mut cfg);
    assert_eq!(front.burned_count, 0);
    assert!(!burn_tick(&mut front, &mut forest, &mut cfg));
    assert_eq!(cfg.tree_count, 1);
}

#[test]
fn reset_burns_out_kindling_and_burning_only() {
    let mut forest = grass_grid(10);
    let statuses = [
        TreeStatus::Alive,
        TreeStatus::Struck,
        TreeStatus::Kindling,
        TreeStatus::Burning,
        TreeStatus::Burned,
    ];
    for (i, s) in statuses.iter().enumerate() {
        forest[0][i].set_entity(Tree::of_type(TreeType::Birch).with_status(*s));
    }
    clear_forest(&mut forest);
    let after: Vec<TreeStatus> = (0..5).map(|i| forest[0][i].tile_entity.unwrap().status).collect();
    assert_eq!(
        after,
        vec![TreeStatus::Alive, TreeStatus::Struck, TreeStatus::Burned, TreeStatus::Burned, TreeStatus::Burned]
    );
    assert_eq!(forest[0][2].tile_entity.unwrap().burn_time, 2);
    let once = forest.clone();
    clear_forest(&mut forest);
    assert_eq!(forest, once);
}

#[test]
fn lightning_rounds_keep_counters_consistent() {
    let mut cfg = Config::new(15, 700, 100);
    let mut forest = init_forest(&mut cfg);
    for _ in 0..20 {
        let before = cfg.tree_count;
        let (x, y, burned) = lightning_strike(&mut forest, &mut cfg);
        assert!(x >= 0 && x < 15 && y >= 0 && y < 15);
        assert_eq!(burned, before - cfg.tree_count);
        assert_eq!(count_status(&forest, TreeStatus::Alive), cfg.tree_count);
        assert_eq!(count_status(&forest, TreeStatus::Kindling), 0);
        assert_eq!(count_status(&forest, TreeStatus::Burning), 0);
        assert_eq!(cfg.pine_count + cfg.oak_count + cfg.birch_count + cfg.redwood_count, cfg.tree_count);
    }
}

#[test]
fn tick_with_high_rolls_spreads_nothing() {
    let (mut forest, mut cfg) = lone_pine();
    forest[5][6].set_entity(Tree::of_type(TreeType::Redwood));
    cfg.tree_count = 2;
    cfg.original_tree_count = 2;
    cfg.redwood_count = 1;
    let mut front = strike(&mut forest, 5, 5, &mut cfg);
    assert!(burn_tick_with(&mut front, &mut forest, &mut cfg, &[99; 8]));
    assert!(front.queue.is_empty());
    assert_eq!(forest[5][6].tile_entity.unwrap().status, TreeStatus::Alive);
    assert_eq!(forest[5][5].tile_entity.unwrap().status, TreeStatus::Struck);
    assert_eq!(cfg.tree_count, 1);
}

#[test]
fn tick_with_low_roll_ignites_then_requeues() {
    let (mut forest, mut cfg) = lone_pine();
    forest[5][6].set_entity(Tree::of_type(TreeType::Redwood));
    cfg.tree_count = 2;
    cfg.original_tree_count = 2;
    cfg.redwood_count = 1;
    let mut front = strike(&mut forest, 5, 5, &mut cfg);
    let mut rolls = [99; 8];
    rolls[4] = 29;
    assert!(burn_tick_with(&mut front, &mut forest, &mut cfg, &rolls));
    assert_eq!(forest[5][6].tile_entity.unwrap().status, TreeStatus::Kindling);
    assert_eq!(front.queue.iter().copied().collect::<Vec<_>>(), vec![(5, 6, 4)]);
    assert_eq!(cfg.tree_count, 0);
    assert_eq!(cfg.redwood_count, 0);
    assert_eq!(front.burned_count, 2);
    assert!(burn_tick_with(&mut front, &mut forest, &mut cfg, &[0; 8]));
    assert_eq!(forest[5][6].tile_entity.unwrap().status, TreeStatus::Burning);
    assert_eq!(front.queue.iter().copied().collect::<Vec<_>>(), vec![(5, 6, 3)]);
    assert!(burn_tick_with(&mut front, &mut forest, &mut cfg, &[0; 8]));
    assert!(burn_tick_with(&mut front, &mut forest, &mut cfg, &[0; 8]));
    assert!(burn_tick_with(&mut front, &mut forest, &mut cfg, &[0; 8]));
    assert_eq!(forest[5][6].tile_entity.unwrap().status, TreeStatus::Burned);
    assert!(front.queue.is_empty());
}

#[test]
fn roll_equal_to_flammability_does_not_ignite() {
    let (mut forest, mut cfg) = lone_pine();
    forest[4][4].set_entity(Tree::of_type(TreeType::Oak));
    cfg.tree_count = 2;
    cfg.original_tree_count = 2;
    cfg.oak_count = 1;
    let mut front = strike(&mut forest, 5, 5, &mut cfg);
    let mut rolls = [0; 8];
    rolls[0] = 50;
    assert!(burn_tick_with(&mut front, &mut forest, &mut cfg, &rolls));
    assert_eq!(forest[4][4].tile_entity.unwrap().status, TreeStatus::Alive);
    assert_eq!(cfg.oak_count, 1);
}

#[test]
fn lake_step_floods_and_spreads_by_rolls() {
    let mut forest = grass_grid(10);
    let mut queue: VecDeque<(i32, i32)> = VecDeque::new();
    queue.push_back((2, 3));
    assert!(lake_step(&mut forest, &mut queue, &[0, 99, 69, 70]));
    assert_eq!(forest[2][3], Tile::new(2, 3, TileType::Water));
    assert_eq!(count_water(&forest), 1);
    assert_eq!(queue.iter().copied().collect::<Vec<_>>(), vec![(2, 4), (2, 2)]);
}

#[test]
fn lake_step_drops_coordinates_off_the_grid() {
    let mut forest = grass_grid(10);
    let mut queue: VecDeque<(i32, i32)> = VecDeque::new();
    queue.push_back((-1, 0));
    queue.push_back((0, 10));
    assert!(!lake_step(&mut forest, &mut queue, &[0; 4]));
    assert!(!lake_step(&mut forest, &mut queue, &[0; 4]));
    assert!(queue.is_empty());
    assert_eq!(forest, grass_grid(10));
}
