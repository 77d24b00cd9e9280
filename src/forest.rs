use vstd::prelude::*;
use std::collections::VecDeque;
use crate::config::{Config, density_reached};
use crate::grid::{
    grid_shape, grid_wf, tile_at, tile_wf, count_grid, count_row, water_pred, alive_pred, alive_of_pred,
    is_free, is_water, is_alive, status_is, put_tile, set_tile, lemma_set_tile_at, lemma_count_set_tile,
    lemma_count_grid_bounds, lemma_count_grid_all, lemma_count_grid_same, lemma_count_grid_split,
};
use crate::simulation::{at_rest, at_rest_tile};
use crate::tree::{Tree, TreeStatus, TreeType};
use crate::random::random_in;
use crate::tile::{Tile, TileType};

verus! {

/// Chance in percent that a lake spreads to each orthogonal neighbour.
pub const LAKE_SPREAD_PERCENT: u32 = 70;

/// Counts the water tiles of a square grid.
pub fn count_water(forest: &Vec<Vec<Tile>>) -> (r: i32)
    requires
        grid_shape(forest@, forest@.len() as int),
        forest@.len() <= 100,
    ensures
        r == count_grid(forest@, water_pred()),
{
    let n = forest.len();
    let mut total: i32 = 0;
    let mut i: usize = 0;
    while i < n
        invariant
            n == forest@.len() <= 100,
            grid_shape(forest@, n as int),
            0 <= i <= n,
            total == count_grid(forest@.subrange(0, i as int), water_pred()),
            total <= i * n,
        decreases n - i,
    {
        let row = &forest[i];
        let mut j: usize = 0;
        let mut in_row: i32 = 0;
        while j < n
            invariant
                n == forest@.len() <= 100,
                row@.len() == n,
                0 <= j <= n,
                in_row == count_row(row@.subrange(0, j as int), water_pred()),
                0 <= in_row <= j,
            decreases n - j,
        {
            proof {
                assert(row@.subrange(0, j + 1).drop_last() =~= row@.subrange(0, j as int));
            }
            if row[j].tile_type == TileType::Water {
                in_row = in_row + 1;
            }
            j = j + 1;
        }
        proof {
            assert(row@.subrange(0, n as int) =~= row@);
            assert(forest@.subrange(0, i + 1).drop_last() =~= forest@.subrange(0, i as int));
            assert(i * n + n == (i + 1) * n) by (nonlinear_arith);
            assert((i + 1) * n <= 100 * 100) by (nonlinear_arith)
                requires i + 1 <= n, n <= 100;
        }
        total = total + in_row;
        i = i + 1;
    }
    proof {
        assert(forest@.subrange(0, n as int) =~= forest@);
    }
    total
}

/// The coordinates of every grass tile that holds no tree.
pub fn free_tiles(forest: &Vec<Vec<Tile>>) -> (r: Vec<(usize, usize)>)
    requires
        grid_shape(forest@, forest@.len() as int),
        forest@.len() <= 100,
    ensures
        r@.len() <= forest@.len() * forest@.len(),
        forall|k: int| 0 <= k < r@.len() ==> (#[trigger] r@[k]).0 < forest@.len() && r@[k].1 < forest@.len(),
        forall|i: int, j: int|
            0 <= i < forest@.len() && 0 <= j < forest@.len() && is_free(#[trigger] tile_at(forest@, i, j))
                ==> exists|k: int| 0 <= k < r@.len() && r@[k] == (i as usize, j as usize),
{
    let n = forest.len();
    let mut out: Vec<(usize, usize)> = Vec::new();
    let mut i: usize = 0;
    while i < n
        invariant
            n == forest@.len() <= 100,
            grid_shape(forest@, n as int),
            0 <= i <= n,
            out@.len() <= i * n,
            forall|k: int| 0 <= k < out@.len() ==> (#[trigger] out@[k]).0 < n && out@[k].1 < n,
            forall|a: int, b: int|
                0 <= a < i && 0 <= b < n && is_free(#[trigger] tile_at(forest@, a, b))
                    ==> exists|k: int| 0 <= k < out@.len() && out@[k] == (a as usize, b as usize),
        decreases n - i,
    {
        let mut j: usize = 0;
        while j < n
            invariant
                n == forest@.len() <= 100,
                grid_shape(forest@, n as int),
                0 <= i < n,
                0 <= j <= n,
                out@.len() <= i * n + j,
                forall|k: int| 0 <= k < out@.len() ==> (#[trigger] out@[k]).0 < n && out@[k].1 < n,
                forall|a: int, b: int|
                    ((0 <= a < i && 0 <= b < n) || (a == i && 0 <= b < j)) && is_free(#[trigger] tile_at(forest@, a, b))
                        ==> exists|k: int| 0 <= k < out@.len() && out@[k] == (a as usize, b as usize),
            decreases n - j,
        {
            let t = forest[i][j];
            if t.tile_type == TileType::Grass && t.tile_entity.is_none() {
                let ghost before = out@;
                out.push((i, j));
                proof {
                    assert forall|a: int, b: int|
                        ((0 <= a < i && 0 <= b < n) || (a == i && 0 <= b < j + 1)) && is_free(#[trigger] tile_at(forest@, a, b))
                            implies exists|k: int| 0 <= k < out@.len() && out@[k] == (a as usize, b as usize) by {
                        if a == i && b == j {
                            assert(out@[before.len() as int] == (a as usize, b as usize));
                        } else {
                            let k = choose|k: int| 0 <= k < before.len() && before[k] == (a as usize, b as usize);
                            assert(out@[k] == before[k]);
                        }
                    }
                }
            }
            j = j + 1;
        }
        proof {
            assert(i * n + n == (i + 1) * n) by (nonlinear_arith);
        }
        i = i + 1;
    }
    out
}


/// The empty water tile at row `i`, column `j`.
pub open spec fn water_tile(i: int, j: int) -> Tile {
    Tile { x: i as i32, y: j as i32, tile_type: TileType::Water, tile_entity: None }
}

/// Where a lake spreads from (`x`, `y`) under four rolls: to the neighbours
/// below, right, above and left of it, in that order, each where its roll is
/// under `LAKE_SPREAD_PERCENT`.
pub open spec fn lake_entries(x: i32, y: i32, rolls: Seq<u32>) -> Seq<(i32, i32)> {
    (if rolls[0] < LAKE_SPREAD_PERCENT { seq![(x, (y + 1) as i32)] } else { seq![] })
        + (if rolls[1] < LAKE_SPREAD_PERCENT { seq![((x + 1) as i32, y)] } else { seq![] })
        + (if rolls[2] < LAKE_SPREAD_PERCENT { seq![(x, (y - 1) as i32)] } else { seq![] })
        + (if rolls[3] < LAKE_SPREAD_PERCENT { seq![((x - 1) as i32, y)] } else { seq![] })
}

/// One step of a lake's growth with the given spread rolls: takes the next
/// coordinate from the queue. Off the grid it is dropped. On the grid its
/// tile becomes empty water and its orthogonal neighbours join the queue as
/// `lake_entries` says. Returns whether a tile became water.
pub fn lake_step(forest: &mut Vec<Vec<Tile>>, water_queue: &mut VecDeque<(i32, i32)>, rolls: &[u32; 4]) -> (placed: bool)
    requires
        1 <= old(forest)@.len() <= 100,
        grid_shape(old(forest)@, old(forest)@.len() as int),
        old(water_queue)@.len() > 0,
    ensures
        ({
            let n = old(forest)@.len() as int;
            let (x, y) = old(water_queue)@[0];
            let rest = old(water_queue)@.subrange(1, old(water_queue)@.len() as int);
            &&& placed == (0 <= x < n && 0 <= y < n)
            &&& !placed ==> final(forest)@ == old(forest)@ && final(water_queue)@ == rest
            &&& placed ==> set_tile(old(forest)@, final(forest)@, x as int, y as int, water_tile(x as int, y as int))
            &&& placed ==> final(water_queue)@ == rest + lake_entries(x, y, rolls@)
        }),
{
    let ni = forest.len() as i32;
    let ghost q0 = water_queue@;
    let (x, y) = match water_queue.pop_front() {
        Some(p) => p,
        None => return false,
    };
    if x < 0 || y < 0 || x >= ni || y >= ni {
        return false;
    }
    put_tile(forest, x as usize, y as usize, Tile::new(x, y, TileType::Water));
    let ghost q1 = water_queue@;
    if rolls[0] < LAKE_SPREAD_PERCENT {
        water_queue.push_back((x, y + 1));
    }
    if rolls[1] < LAKE_SPREAD_PERCENT {
        water_queue.push_back((x + 1, y));
    }
    if rolls[2] < LAKE_SPREAD_PERCENT {
        water_queue.push_back((x, y - 1));
    }
    if rolls[3] < LAKE_SPREAD_PERCENT {
        water_queue.push_back((x - 1, y));
    }
    assert(water_queue@ =~= q1 + lake_entries(x, y, rolls@));
    true
}

/// Grows a lake of at most `size` tiles from (`start_x`, `start_y`) by a
/// breadth-first walk: each coordinate taken from the queue that lies in the
/// grid becomes water and counts toward `size`, even where it was water
/// already; each of its four orthogonal neighbours then joins the queue with
/// a chance of `LAKE_SPREAD_PERCENT` percent. Coordinates off the grid are dropped.
pub fn create_water_body(forest: &mut Vec<Vec<Tile>>, start_x: i32, start_y: i32, size: i32)
    requires
        1 <= old(forest)@.len() <= 100,
        grid_wf(old(forest)@, old(forest)@.len() as int),
        0 <= size,
    ensures
        final(forest)@.len() == old(forest)@.len(),
        grid_wf(final(forest)@, old(forest)@.len() as int),
        forall|i: int, j: int|
            0 <= i < old(forest)@.len() && 0 <= j < old(forest)@.len() ==> {
                ||| #[trigger] tile_at(final(forest)@, i, j) == tile_at(old(forest)@, i, j)
                ||| tile_at(final(forest)@, i, j) == water_tile(i, j)
            },
        0 <= start_x < old(forest)@.len() && 0 <= start_y < old(forest)@.len() && size > 0
            ==> is_water(tile_at(final(forest)@, start_x as int, start_y as int)),
        count_grid(final(forest)@, water_pred()) <= count_grid(old(forest)@, water_pred()) + size,
        !(0 <= start_x < old(forest)@.len() && 0 <= start_y < old(forest)@.len()) || size == 0
            ==> final(forest)@ == old(forest)@,
{
    let ghost g0 = forest@;
    let ghost n = forest@.len() as int;
    let ni = forest.len() as i32;
    let ghost start_in = 0 <= start_x < n && 0 <= start_y < n;
    let mut water_queue: VecDeque<(i32, i32)> = VecDeque::new();
    water_queue.push_back((start_x, start_y));
    let mut placed_water: i32 = 0;
    loop
        invariant
            ni == n == forest@.len(),
            1 <= n <= 100,
            start_in == (0 <= start_x < n && 0 <= start_y < n),
            grid_wf(forest@, n),
            forall|i: int, j: int|
                0 <= i < n && 0 <= j < n ==> {
                    ||| #[trigger] tile_at(forest@, i, j) == tile_at(g0, i, j)
                    ||| tile_at(forest@, i, j) == water_tile(i, j)
                },
            0 <= placed_water <= size,
            forall|k: int| 0 <= k < water_queue@.len() ==> {
                let (qx, qy) = #[trigger] water_queue@[k];
                (k == 0 && placed_water == 0 && qx == start_x && qy == start_y)
                    || (-1 <= qx <= n && -1 <= qy <= n)
            },
            start_in && placed_water == 0 ==> water_queue@.len() > 0 && water_queue@[0] == (start_x, start_y),
            start_in && placed_water > 0 ==> is_water(tile_at(forest@, start_x as int, start_y as int)),
            count_grid(forest@, water_pred()) <= count_grid(g0, water_pred()) + placed_water,
            !start_in ==> placed_water == 0 && forest@ == g0
                && forall|k: int| 0 <= k < water_queue@.len() ==> #[trigger] water_queue@[k] == (start_x, start_y),
            size == 0 ==> forest@ == g0,
        ensures
            !start_in || size == 0 ==> forest@ == g0,
            forest@.len() == n,
            grid_wf(forest@, n),
            forall|i: int, j: int|
                0 <= i < n && 0 <= j < n ==> {
                    ||| #[trigger] tile_at(forest@, i, j) == tile_at(g0, i, j)
                    ||| tile_at(forest@, i, j) == water_tile(i, j)
                },
            start_in && size > 0 ==> is_water(tile_at(forest@, start_x as int, start_y as int)),
            count_grid(forest@, water_pred()) <= count_grid(g0, water_pred()) + size,
        decreases (size - placed_water) * 5 + water_queue@.len(),
    {
        if placed_water >= size {
            break;
        }
        let ghost q0 = water_queue@;
        let ghost g1 = forest@;
        if water_queue.len() == 0 {
            break;
        }
        let rolls: [u32; 4] = [random_in(0, 100), random_in(0, 100), random_in(0, 100), random_in(0, 100)];
        let placed = lake_step(forest, &mut water_queue, &rolls);
        proof {
            let x = q0[0].0;
            let y = q0[0].1;
            let rest = q0.subrange(1, q0.len() as int);
            if !placed {
                assert forall|k: int| 0 <= k < water_queue@.len() implies {
                    let (qx, qy) = #[trigger] water_queue@[k];
                    -1 <= qx <= n && -1 <= qy <= n
                } by {
                    assert(water_queue@[k] == q0[k + 1]);
                }
            } else {
                let t = water_tile(x as int, y as int);
                lemma_set_tile_at(g1, forest@, x as int, y as int, t);
                lemma_count_set_tile(g1, forest@, x as int, y as int, t, water_pred());
                assert forall|i: int, j: int| 0 <= i < n && 0 <= j < n implies tile_wf(#[trigger] tile_at(forest@, i, j), i, j) by {
                    assert(tile_wf(tile_at(g1, i, j), i, j));
                }
                assert forall|k: int| 0 <= k < water_queue@.len() implies {
                    let (qx, qy) = #[trigger] water_queue@[k];
                    -1 <= qx <= n && -1 <= qy <= n
                } by {
                    if k < rest.len() {
                        assert(water_queue@[k] == q0[k + 1]);
                    } else {
                        assert(lake_entries(x, y, rolls@).contains(water_queue@[k]));
                    }
                }
            }
        }
        if placed {
            placed_water = placed_water + 1;
        }
    }
}


/// The empty grass tile at row `i`, column `j`.
pub open spec fn grass_tile(i: int, j: int) -> Tile {
    Tile { x: i as i32, y: j as i32, tile_type: TileType::Grass, tile_entity: None }
}

/// A grid of side `n` with grass everywhere and no tree.
pub fn grass_grid(n: i32) -> (r: Vec<Vec<Tile>>)
    requires
        1 <= n <= 100,
    ensures
        grid_wf(r@, n as int),
        forall|i: int, j: int| 0 <= i < n && 0 <= j < n ==> #[trigger] tile_at(r@, i, j) == grass_tile(i, j),
{
    let mut forest: Vec<Vec<Tile>> = Vec::new();
    let mut x: i32 = 0;
    while x < n
        invariant
            1 <= n <= 100,
            0 <= x <= n,
            forest@.len() == x,
            forall|i: int| 0 <= i < x ==> (#[trigger] forest@[i])@.len() == n,
            forall|i: int, j: int| 0 <= i < x && 0 <= j < n ==> #[trigger] tile_at(forest@, i, j) == grass_tile(i, j),
        decreases n - x,
    {
        let mut row: Vec<Tile> = Vec::new();
        let mut y: i32 = 0;
        while y < n
            invariant
                1 <= n <= 100,
                0 <= x < n,
                0 <= y <= n,
                row@.len() == y,
                forall|j: int| 0 <= j < y ==> #[trigger] row@[j] == grass_tile(x as int, j),
            decreases n - y,
        {
            row.push(Tile::new(x, y, TileType::Grass));
            y = y + 1;
        }
        let ghost before = forest@;
        let ghost r = row@;
        forest.push(row);
        proof {
            assert forall|i: int, j: int| 0 <= i < x + 1 && 0 <= j < n implies #[trigger] tile_at(forest@, i, j) == grass_tile(i, j) by {
                if i < x {
                    assert(forest@[i] == before[i]);
                    assert(tile_at(before, i, j) == grass_tile(i, j));
                } else {
                    assert(forest@[i]@ == r);
                    assert(r[j] == grass_tile(x as int, j));
                }
            }
        }
        x = x + 1;
    }
    forest
}

/// Every free tile of `g` has its coordinates somewhere in `s`.
pub open spec fn covers_free(s: Seq<(usize, usize)>, g: Seq<Vec<Tile>>, n: int) -> bool {
    forall|i: int, j: int|
        0 <= i < n && 0 <= j < n && is_free(#[trigger] tile_at(g, i, j))
            ==> exists|k: int| 0 <= k < s.len() && s[k] == (i as usize, j as usize)
}

/// Removing entry `k` of `s` keeps it covering the free tiles of `g2`, so long
/// as no free tile of `g2` stands at that entry and `g2` has no free tile that
/// `g` lacked.
proof fn lemma_cover_after_remove(s: Seq<(usize, usize)>, k: int, g: Seq<Vec<Tile>>, g2: Seq<Vec<Tile>>, n: int)
    requires
        0 <= n <= 100,
        0 <= k < s.len(),
        covers_free(s, g, n),
        forall|i: int, j: int| 0 <= i < n && 0 <= j < n && is_free(#[trigger] tile_at(g2, i, j)) ==> is_free(tile_at(g, i, j)),
        0 <= s[k].0 < n && 0 <= s[k].1 < n ==> !is_free(tile_at(g2, s[k].0 as int, s[k].1 as int)),
    ensures
        covers_free(s.update(k, s.last()).drop_last(), g2, n),
{
    let s2 = s.update(k, s.last()).drop_last();
    assert forall|i: int, j: int| 0 <= i < n && 0 <= j < n && is_free(#[trigger] tile_at(g2, i, j))
        implies exists|m: int| 0 <= m < s2.len() && s2[m] == (i as usize, j as usize) by {
        assert(is_free(tile_at(g, i, j)));
        let m = choose|m: int| 0 <= m < s.len() && s[m] == (i as usize, j as usize);
        if m == k {
            assert(s[k].0 as int == i && s[k].1 as int == j);
            assert(!is_free(tile_at(g2, i, j)));
        }
        if m == s.len() - 1 {
            assert(s2[k] == (i as usize, j as usize));
        } else {
            assert(s2[m] == (i as usize, j as usize));
        }
    }
}

/// Adds lakes until the water tiles reach the wanted water density. Each lake
/// grows from a seed drawn uniformly among the grass tiles, with a size drawn
/// from `3..16`. Seeds are not drawn over the whole grid: a seed on water may
/// add no water at all, and then nothing bounds the number of draws. Drawing
/// among the grass tiles, each at most once, adds at least one water tile per
/// lake, so the loop ends.
fn add_lakes(forest: &mut Vec<Vec<Tile>>, cfg: &mut Config)
    requires
        old(cfg).settings_valid(),
        grid_wf(old(forest)@, old(cfg).forest_size as int),
        forall|i: int, j: int| 0 <= i < old(cfg).forest_size && 0 <= j < old(cfg).forest_size
            ==> (#[trigger] tile_at(old(forest)@, i, j)).tile_entity.is_none(),
    ensures
        grid_wf(final(forest)@, old(cfg).forest_size as int),
        forall|i: int, j: int| 0 <= i < old(cfg).forest_size && 0 <= j < old(cfg).forest_size
            ==> (#[trigger] tile_at(final(forest)@, i, j)).tile_entity.is_none(),
        *final(cfg) == (Config { water_count: final(cfg).water_count, ..*old(cfg) }),
        final(cfg).water_count == count_grid(final(forest)@, water_pred()),
        density_reached(final(cfg).water_count as int, old(cfg).forest_size as int, old(cfg).desired_water_density as int),
        old(cfg).desired_water_density == 0 ==> final(forest)@ == old(forest)@,
{
    let ghost n = cfg.forest_size as int;
    let ghost cfg0 = *cfg;
    let ghost g_in = forest@;
    let mut seeds = free_tiles(forest);
    cfg.water_count = count_water(forest);
    proof {
        lemma_count_grid_bounds(forest@, n, water_pred());
        assert(n * n <= 10000) by (nonlinear_arith) requires 0 <= n <= 100;
    }
    while !cfg.water_density_met() && seeds.len() > 0
        invariant
            n == cfg.forest_size,
            cfg.settings_valid(),
            *cfg == (Config { water_count: cfg.water_count, ..cfg0 }),
            grid_wf(forest@, n),
            forall|i: int, j: int| 0 <= i < n && 0 <= j < n ==> (#[trigger] tile_at(forest@, i, j)).tile_entity.is_none(),
            cfg.water_count == count_grid(forest@, water_pred()),
            0 <= cfg.water_count <= n * n <= 10000,
            seeds@.len() <= n * n,
            forall|k: int| 0 <= k < seeds@.len() ==> (#[trigger] seeds@[k]).0 < n && seeds@[k].1 < n,
            covers_free(seeds@, forest@, n),
            cfg0.desired_water_density == 0 ==> forest@ == g_in,
        decreases seeds@.len(),
    {
        let k = random_in(0, seeds.len() as u32) as usize;
        let ghost s0 = seeds@;
        let ghost g0 = forest@;
        let (sx, sy) = seeds.swap_remove(k);
        if forest[sx][sy].tile_type == TileType::Grass {
            let size = random_in(3, 16);
            create_water_body(forest, sx as i32, sy as i32, size as i32);
            cfg.water_count = count_water(forest);
            proof {
                lemma_count_grid_bounds(forest@, n, water_pred());
            }
        }
        proof {
            assert forall|i: int, j: int| 0 <= i < n && 0 <= j < n && is_free(#[trigger] tile_at(forest@, i, j))
                implies is_free(tile_at(g0, i, j)) by {
                if tile_at(forest@, i, j) != tile_at(g0, i, j) {
                    assert(tile_at(forest@, i, j) == water_tile(i, j));
                }
            }
            lemma_cover_after_remove(s0, k as int, g0, forest@, n);
            assert forall|m: int| 0 <= m < seeds@.len() implies (#[trigger] seeds@[m]).0 < n && seeds@[m].1 < n by {
                if m == k {
                    assert(seeds@[m] == s0[s0.len() - 1]);
                } else {
                    assert(seeds@[m] == s0[m]);
                }
            }
        }
    }
    proof {
        if seeds@.len() == 0 {
            assert forall|i: int, j: int| 0 <= i < n && 0 <= j < n implies water_pred()(#[trigger] tile_at(forest@, i, j)) == true by {
                if !is_free(tile_at(forest@, i, j)) {
                } else {
                    let k = choose|k: int| 0 <= k < seeds@.len() && seeds@[k] == (i as usize, j as usize);
                }
            }
            lemma_count_grid_all(forest@, n, water_pred(), true);
            let d = cfg.desired_water_density as int;
            assert(n * n * 1000 >= d * (n * n)) by (nonlinear_arith) requires 0 <= d <= 500, n * n >= 0;
        }
    }
}


/// Plants trees of random archetype on free tiles drawn uniformly, until the
/// living trees reach the wanted tree density or no free tile is left. Each
/// tree counts toward the total and toward its archetype.
fn plant_trees(forest: &mut Vec<Vec<Tile>>, cfg: &mut Config)
    requires
        old(cfg).settings_valid(),
        grid_wf(old(forest)@, old(cfg).forest_size as int),
        old(cfg).counters_match(old(forest)@),
    ensures
        grid_wf(final(forest)@, old(cfg).forest_size as int),
        final(cfg).counters_match(final(forest)@),
        final(cfg).same_settings(*old(cfg)),
        final(cfg).original_tree_count == old(cfg).original_tree_count,
        final(cfg).water_count == old(cfg).water_count,
        forall|i: int, j: int| 0 <= i < old(cfg).forest_size && 0 <= j < old(cfg).forest_size ==> {
            ||| #[trigger] tile_at(final(forest)@, i, j) == tile_at(old(forest)@, i, j)
            ||| is_free(tile_at(old(forest)@, i, j)) && is_alive(tile_at(final(forest)@, i, j))
        },
        density_reached(final(cfg).tree_count as int, old(cfg).forest_size as int, old(cfg).desired_forest_density as int)
            || forall|i: int, j: int| 0 <= i < old(cfg).forest_size && 0 <= j < old(cfg).forest_size
                ==> !is_free(#[trigger] tile_at(final(forest)@, i, j)),
{
    let ghost n = cfg.forest_size as int;
    let ghost cfg0 = *cfg;
    let ghost g0 = forest@;
    let mut spots = free_tiles(forest);
    proof {
        lemma_count_grid_bounds(forest@, n, alive_pred());
        assert(n * n <= 10000) by (nonlinear_arith) requires 0 <= n <= 100;
    }
    while !cfg.forest_density_met() && spots.len() > 0
        invariant
            n == cfg.forest_size,
            cfg.settings_valid(),
            cfg.same_settings(cfg0),
            cfg.original_tree_count == cfg0.original_tree_count,
            cfg.water_count == cfg0.water_count,
            grid_wf(forest@, n),
            cfg.counters_match(forest@),
            0 <= cfg.tree_count <= n * n <= 10000,
            forall|i: int, j: int| 0 <= i < n && 0 <= j < n ==> {
                ||| #[trigger] tile_at(forest@, i, j) == tile_at(g0, i, j)
                ||| is_free(tile_at(g0, i, j)) && is_alive(tile_at(forest@, i, j))
            },
            spots@.len() <= n * n,
            forall|k: int| 0 <= k < spots@.len() ==> (#[trigger] spots@[k]).0 < n && spots@[k].1 < n,
            covers_free(spots@, forest@, n),
        decreases spots@.len(),
    {
        let k = random_in(0, spots.len() as u32) as usize;
        let ghost s0 = spots@;
        let ghost g1 = forest@;
        let (x, y) = spots.swap_remove(k);
        let spot = forest[x][y];
        if spot.tile_type == TileType::Grass && spot.tile_entity.is_none() {
            let tree = Tree::new();
            let t = Tile { tile_entity: Some(tree), ..spot };
            forest[x][y] = t;
            proof {
                assert(forest@[x as int]@ == g1[x as int]@.update(y as int, t));
                assert(forall|r: int| 0 <= r < n && r != x ==> forest@[r] == g1[r]);
                lemma_count_set_tile(g1, forest@, x as int, y as int, t, water_pred());
                lemma_count_set_tile(g1, forest@, x as int, y as int, t, alive_pred());
                lemma_count_set_tile(g1, forest@, x as int, y as int, t, alive_of_pred(TreeType::Pine));
                lemma_count_set_tile(g1, forest@, x as int, y as int, t, alive_of_pred(TreeType::Oak));
                lemma_count_set_tile(g1, forest@, x as int, y as int, t, alive_of_pred(TreeType::Birch));
                lemma_count_set_tile(g1, forest@, x as int, y as int, t, alive_of_pred(TreeType::Redwood));
                lemma_count_grid_bounds(forest@, n, alive_pred());
                lemma_count_grid_bounds(g1, n, alive_of_pred(TreeType::Pine));
                lemma_count_grid_bounds(g1, n, alive_of_pred(TreeType::Oak));
                lemma_count_grid_bounds(g1, n, alive_of_pred(TreeType::Birch));
                lemma_count_grid_bounds(g1, n, alive_of_pred(TreeType::Redwood));
                assert forall|i: int, j: int| 0 <= i < n && 0 <= j < n implies tile_wf(#[trigger] tile_at(forest@, i, j), i, j) by {
                    if i != x || j != y {
                        assert(tile_at(forest@, i, j) == tile_at(g1, i, j));
                    }
                }
                assert forall|i: int, j: int| 0 <= i < n && 0 <= j < n implies {
                    ||| #[trigger] tile_at(forest@, i, j) == tile_at(g0, i, j)
                    ||| is_free(tile_at(g0, i, j)) && is_alive(tile_at(forest@, i, j))
                } by {
                    if i != x || j != y {
                        assert(tile_at(forest@, i, j) == tile_at(g1, i, j));
                    } else {
                        assert(tile_at(g1, i, j) == tile_at(g0, i, j));
                    }
                }
            }
            match tree.tree_type {
                TreeType::Pine => cfg.pine_count = cfg.pine_count + 1,
                TreeType::Oak => cfg.oak_count = cfg.oak_count + 1,
                TreeType::Birch => cfg.birch_count = cfg.birch_count + 1,
                TreeType::Redwood => cfg.redwood_count = cfg.redwood_count + 1,
            }
            cfg.tree_count = cfg.tree_count + 1;
        }
        proof {
            assert forall|i: int, j: int| 0 <= i < n && 0 <= j < n && is_free(#[trigger] tile_at(forest@, i, j))
                implies is_free(tile_at(g1, i, j)) by {
                if i != x || j != y {
                    assert(tile_at(forest@, i, j) == tile_at(g1, i, j));
                }
            }
            lemma_cover_after_remove(s0, k as int, g1, forest@, n);
            assert forall|m: int| 0 <= m < spots@.len() implies (#[trigger] spots@[m]).0 < n && spots@[m].1 < n by {
                if m == k {
                    assert(spots@[m] == s0[s0.len() - 1]);
                } else {
                    assert(spots@[m] == s0[m]);
                }
            }
        }
    }
    proof {
        if spots@.len() == 0 {
            assert forall|i: int, j: int| 0 <= i < n && 0 <= j < n implies !is_free(#[trigger] tile_at(forest@, i, j)) by {
                if is_free(tile_at(forest@, i, j)) {
                    let k = choose|k: int| 0 <= k < spots@.len() && spots@[k] == (i as usize, j as usize);
                }
            }
        }
    }
}


/// Builds the grid of a run: grass everywhere, then lakes up to the wanted
/// water density, then trees until the wanted tree density is reached or
/// every grass tile holds a tree. The tree count at the end is recorded as
/// the original one.
pub fn init_forest(cfg: &mut Config) -> (r: Vec<Vec<Tile>>)
    requires
        old(cfg).settings_valid(),
    ensures
        final(cfg).same_settings(*old(cfg)),
        final(cfg).wf(r@),
        final(cfg).original_tree_count == final(cfg).tree_count,
        final(cfg).tree_count <= old(cfg).forest_size * old(cfg).forest_size,
        density_reached(final(cfg).water_count as int, old(cfg).forest_size as int, old(cfg).desired_water_density as int),
        density_reached(final(cfg).tree_count as int, old(cfg).forest_size as int, old(cfg).desired_forest_density as int)
            || forall|i: int, j: int| 0 <= i < old(cfg).forest_size && 0 <= j < old(cfg).forest_size
                ==> !is_free(#[trigger] tile_at(r@, i, j)),
        forall|i: int, j: int| 0 <= i < old(cfg).forest_size && 0 <= j < old(cfg).forest_size
            ==> ((#[trigger] tile_at(r@, i, j)).tile_entity.is_some()
                ==> is_alive(tile_at(r@, i, j)) && tile_at(r@, i, j).tile_type == TileType::Grass),
        old(cfg).desired_water_density == 0 ==> final(cfg).water_count == 0,
        density_reached(final(cfg).tree_count as int, old(cfg).forest_size as int, old(cfg).desired_forest_density as int)
            || final(cfg).tree_count + final(cfg).water_count == old(cfg).forest_size * old(cfg).forest_size,
{
    let n = cfg.forest_size;
    let mut forest = grass_grid(n);
    let ghost g_grass = forest@;
    add_lakes(&mut forest, cfg);
    proof {
        if cfg.desired_water_density == 0 {
            lemma_count_grid_all(g_grass, n as int, water_pred(), false);
        }
    }
    cfg.tree_count = 0;
    cfg.original_tree_count = 0;
    cfg.pine_count = 0;
    cfg.oak_count = 0;
    cfg.birch_count = 0;
    cfg.redwood_count = 0;
    let ghost g1 = forest@;
    proof {
        lemma_count_grid_all(forest@, n as int, alive_pred(), false);
        lemma_count_grid_all(forest@, n as int, alive_of_pred(TreeType::Pine), false);
        lemma_count_grid_all(forest@, n as int, alive_of_pred(TreeType::Oak), false);
        lemma_count_grid_all(forest@, n as int, alive_of_pred(TreeType::Birch), false);
        lemma_count_grid_all(forest@, n as int, alive_of_pred(TreeType::Redwood), false);
    }
    plant_trees(&mut forest, cfg);
    cfg.original_tree_count = cfg.tree_count;
    proof {
        lemma_count_grid_bounds(forest@, n as int, alive_pred());
        assert forall|i: int, j: int|
            0 <= i < n && 0 <= j < n && (#[trigger] tile_at(forest@, i, j)).tile_entity.is_some()
            implies is_alive(tile_at(forest@, i, j)) && tile_at(forest@, i, j).tile_type == TileType::Grass by {
            assert(tile_at(g1, i, j).tile_entity.is_none());
            assert(tile_wf(tile_at(forest@, i, j), i, j));
        }
        let wet = |t: Tile| is_alive(t) && is_water(t);
        let dry = |t: Tile| is_alive(t) && !is_water(t);
        let u = |t: Tile| is_water(t) || dry(t);
        lemma_count_grid_split(forest@, wet, dry, alive_pred());
        assert forall|i: int, j: int| 0 <= i < n && 0 <= j < n implies #[trigger] wet(tile_at(forest@, i, j)) == false by {
            assert(tile_wf(tile_at(forest@, i, j), i, j));
        }
        lemma_count_grid_all(forest@, n as int, wet, false);
        lemma_count_grid_split(forest@, water_pred(), dry, u);
        if !density_reached(cfg.tree_count as int, n as int, cfg.desired_forest_density as int) {
            assert forall|i: int, j: int| 0 <= i < n && 0 <= j < n implies #[trigger] u(tile_at(forest@, i, j)) == true by {
                assert(!is_free(tile_at(forest@, i, j)));
                assert(tile_wf(tile_at(forest@, i, j), i, j));
            }
            lemma_count_grid_all(forest@, n as int, u, true);
        }
    }
    forest
}


/// A tile after the reset between strikes: a Kindling or Burning tree is
/// Burned, anything else stays as it is.
pub open spec fn reset_tile(t: Tile) -> Tile {
    if status_is(t, TreeStatus::Kindling) || status_is(t, TreeStatus::Burning) {
        Tile { tile_entity: Some(Tree { status: TreeStatus::Burned, ..t.tile_entity->0 }), ..t }
    } else {
        t
    }
}

/// `g2` has the shape of `g1`, and each of its tiles is the reset of the
/// tile of `g1` at its place.
pub open spec fn reset_of(g1: Seq<Vec<Tile>>, g2: Seq<Vec<Tile>>) -> bool {
    &&& g2.len() == g1.len()
    &&& forall|i: int| 0 <= i < g1.len() ==> (#[trigger] g2[i])@.len() == g1[i]@.len()
    &&& forall|i: int, j: int| 0 <= i < g1.len() && 0 <= j < g1[i]@.len()
        ==> #[trigger] tile_at(g2, i, j) == reset_tile(tile_at(g1, i, j))
}

/// The reset between strikes: every Kindling or Burning tree becomes Burned.
/// Struck, Alive and Burned trees keep their status.
pub fn clear_forest(forest: &mut Vec<Vec<Tile>>)
    ensures
        reset_of(old(forest)@, final(forest)@),
        (forall|i: int, j: int| 0 <= i < old(forest)@.len() && 0 <= j < old(forest)@[i]@.len()
            ==> at_rest_tile(#[trigger] tile_at(old(forest)@, i, j))) ==> final(forest)@ == old(forest)@,
{
    let ghost calm = forall|i: int, j: int| 0 <= i < forest@.len() && 0 <= j < forest@[i]@.len()
        ==> at_rest_tile(#[trigger] tile_at(forest@, i, j));
    let ghost g0 = forest@;
    let mut i: usize = 0;
    while i < forest.len()
        invariant
            0 <= i <= forest@.len(),
            forest@.len() == g0.len(),
            forall|a: int| 0 <= a < g0.len() ==> (#[trigger] forest@[a])@.len() == g0[a]@.len(),
            forall|a: int, b: int| 0 <= a < i && 0 <= b < g0[a]@.len()
                ==> #[trigger] tile_at(forest@, a, b) == reset_tile(tile_at(g0, a, b)),
            forall|a: int, b: int| i <= a < g0.len() && 0 <= b < g0[a]@.len()
                ==> #[trigger] tile_at(forest@, a, b) == tile_at(g0, a, b),
            calm == (forall|a: int, b: int| 0 <= a < g0.len() && 0 <= b < g0[a]@.len()
                ==> at_rest_tile(#[trigger] tile_at(g0, a, b))),
            calm ==> forest@ == g0,
        decreases g0.len() - i,
    {
        let mut j: usize = 0;
        while j < forest[i].len()
            invariant
                0 <= i < forest@.len(),
                0 <= j <= forest@[i as int]@.len(),
                forest@.len() == g0.len(),
                forall|a: int| 0 <= a < g0.len() ==> (#[trigger] forest@[a])@.len() == g0[a]@.len(),
                forall|a: int, b: int| 0 <= a < i && 0 <= b < g0[a]@.len()
                    ==> #[trigger] tile_at(forest@, a, b) == reset_tile(tile_at(g0, a, b)),
                forall|b: int| 0 <= b < j ==> #[trigger] tile_at(forest@, i as int, b) == reset_tile(tile_at(g0, i as int, b)),
                forall|b: int| j <= b < g0[i as int]@.len() ==> #[trigger] tile_at(forest@, i as int, b) == tile_at(g0, i as int, b),
                forall|a: int, b: int| i < a < g0.len() && 0 <= b < g0[a]@.len()
                    ==> #[trigger] tile_at(forest@, a, b) == tile_at(g0, a, b),
                calm == (forall|a: int, b: int| 0 <= a < g0.len() && 0 <= b < g0[a]@.len()
                    ==> at_rest_tile(#[trigger] tile_at(g0, a, b))),
                calm ==> forest@ == g0,
            decreases forest@[i as int]@.len() - j,
        {
            let t = forest[i][j];
            if let Some(tree) = t.tile_entity {
                if tree.status == TreeStatus::Kindling || tree.status == TreeStatus::Burning {
                    proof {
                        assert(tile_at(forest@, i as int, j as int) == tile_at(g0, i as int, j as int));
                        assert(!at_rest_tile(tile_at(g0, i as int, j as int)));
                    }
                    let ghost g1 = forest@;
                    let t2 = Tile { tile_entity: Some(tree.with_status(TreeStatus::Burned)), ..t };
                    put_tile(forest, i, j, t2);
                    proof {
                        lemma_set_tile_at(g1, forest@, i as int, j as int, t2);
                    }
                }
            }
            j = j + 1;
        }
        i = i + 1;
    }
}

/// Resetting twice gives the grid that resetting once gives: Alive, Struck
/// and Burned are fixed points of the reset.
pub proof fn lemma_reset_idempotent(g1: Seq<Vec<Tile>>, g2: Seq<Vec<Tile>>, g3: Seq<Vec<Tile>>)
    requires
        reset_of(g1, g2),
        reset_of(g2, g3),
    ensures
        g3.len() == g2.len(),
        forall|i: int| 0 <= i < g2.len() ==> (#[trigger] g3[i])@.len() == g2[i]@.len(),
        forall|i: int, j: int| 0 <= i < g2.len() && 0 <= j < g2[i]@.len()
            ==> #[trigger] tile_at(g3, i, j) == tile_at(g2, i, j),
{
    assert forall|i: int, j: int| 0 <= i < g2.len() && 0 <= j < g2[i]@.len()
        implies #[trigger] tile_at(g3, i, j) == tile_at(g2, i, j) by {
        assert(tile_at(g2, i, j) == reset_tile(tile_at(g1, i, j)));
    }
}

/// The reset keeps a grid well-formed with its counters, and leaves no tile
/// Kindling or Burning.
pub proof fn lemma_reset_keeps_wf(cfg: Config, g1: Seq<Vec<Tile>>, g2: Seq<Vec<Tile>>)
    requires
        cfg.wf(g1),
        reset_of(g1, g2),
    ensures
        cfg.wf(g2),
        at_rest(g2, cfg.forest_size as int),
{
    let n = cfg.forest_size as int;
    assert forall|i: int, j: int| 0 <= i < n && 0 <= j < n implies tile_wf(#[trigger] tile_at(g2, i, j), i, j)
        && at_rest_tile(tile_at(g2, i, j)) by {
        assert(tile_wf(tile_at(g1, i, j), i, j));
        assert(tile_at(g2, i, j) == reset_tile(tile_at(g1, i, j)));
    }
    assert forall|i: int| 0 <= i < n implies (#[trigger] g2[i])@.len() == n by {
        assert(g1[i]@.len() == n);
    }
    lemma_count_grid_same(g1, g2, n, water_pred());
    lemma_count_grid_same(g1, g2, n, alive_pred());
    lemma_count_grid_same(g1, g2, n, alive_of_pred(TreeType::Pine));
    lemma_count_grid_same(g1, g2, n, alive_of_pred(TreeType::Oak));
    lemma_count_grid_same(g1, g2, n, alive_of_pred(TreeType::Birch));
    lemma_count_grid_same(g1, g2, n, alive_of_pred(TreeType::Redwood));
}

} // verus!
