use vstd::prelude::*;
use std::collections::VecDeque;
use crate::config::Config;
use crate::forest::{clear_forest, reset_tile, lemma_reset_keeps_wf};
use crate::grid::{
    grid_shape, tile_at, tile_wf, alive_pred, alive_of_pred, status_is, is_alive, put_tile,
    lemma_set_tile_at, lemma_wf_after_set, lemma_counts_kept, lemma_counts_ignite, lemma_count_grid_bounds,
};
use crate::random::random_in;
use crate::tile::{Tile, TileType};
use crate::tree::{Tree, TreeStatus, TreeType};

verus! {

/// Ticks still to burn over all entries of a fire queue.
pub open spec fn pending_ticks(q: Seq<(i32, i32, u32)>) -> int
    decreases q.len(),
{
    if q.len() == 0 {
        0
    } else {
        pending_ticks(q.drop_last()) + q.last().2
    }
}

proof fn lemma_pending_front(q: Seq<(i32, i32, u32)>)
    requires
        q.len() > 0,
    ensures
        pending_ticks(q) == q[0].2 + pending_ticks(q.subrange(1, q.len() as int)),
    decreases q.len(),
{
    if q.len() > 1 {
        let d = q.drop_last();
        lemma_pending_front(d);
        assert(q.subrange(1, q.len() as int).drop_last() =~= d.subrange(1, d.len() as int));
        assert(q.subrange(1, q.len() as int).last() == q.last());
        assert(d[0] == q[0]);
        let t = q.subrange(1, q.len() as int);
        assert(pending_ticks(t) == pending_ticks(t.drop_last()) + t.last().2);
    } else {
        assert(q.subrange(1, q.len() as int).len() == 0);
        assert(q.drop_last().len() == 0);
        assert(pending_ticks(q.drop_last()) == 0);
        assert(pending_ticks(q.subrange(1, q.len() as int)) == 0);
    }
}

proof fn lemma_pending_nonneg(q: Seq<(i32, i32, u32)>)
    ensures
        pending_ticks(q) >= 0,
    decreases q.len(),
{
    if q.len() > 0 {
        lemma_pending_nonneg(q.drop_last());
    }
}

proof fn lemma_pending_push(q: Seq<(i32, i32, u32)>, e: (i32, i32, u32))
    ensures
        pending_ticks(q.push(e)) == pending_ticks(q) + e.2,
{
    assert(q.push(e).drop_last() =~= q);
}

/// A tile that is neither Kindling nor Burning.
pub open spec fn at_rest_tile(t: Tile) -> bool {
    !status_is(t, TreeStatus::Kindling) && !status_is(t, TreeStatus::Burning)
}

/// No tile of the grid is Kindling or Burning.
pub open spec fn at_rest(g: Seq<Vec<Tile>>, n: int) -> bool {
    forall|i: int, j: int| 0 <= i < n && 0 <= j < n ==> at_rest_tile(#[trigger] tile_at(g, i, j))
}

/// The moves that fire allows a tree's status: forward only, from Alive to
/// Kindling, Burning or Burned (or to Struck where lightning may strike),
/// from Kindling to Burning or Burned, from Burning to Burned.
pub open spec fn status_advance(s: TreeStatus, t: TreeStatus, may_strike: bool) -> bool {
    ||| s == t
    ||| s == TreeStatus::Alive && (t == TreeStatus::Kindling || t == TreeStatus::Burning || t == TreeStatus::Burned
        || (may_strike && t == TreeStatus::Struck))
    ||| s == TreeStatus::Kindling && (t == TreeStatus::Burning || t == TreeStatus::Burned)
    ||| s == TreeStatus::Burning && t == TreeStatus::Burned
}

/// What fire may do to a tile: its place, terrain and tree stay, and the
/// status of the tree only moves forward; only where `may_strike` holds can a
/// tree become Struck.
pub open spec fn fire_step(a: Tile, b: Tile, may_strike: bool) -> bool {
    &&& b.x == a.x
    &&& b.y == a.y
    &&& b.tile_type == a.tile_type
    &&& b.tile_entity.is_some() == a.tile_entity.is_some()
    &&& a.tile_entity.is_some() ==> {
        let s = a.tile_entity->0;
        let t = b.tile_entity->0;
        &&& t.tree_type == s.tree_type
        &&& t.flammability == s.flammability
        &&& t.burn_time == s.burn_time
        &&& status_advance(s.status, t.status, may_strike)
    }
}

/// The offset of the `d`-th of the eight neighbours of a tile, row by row.
pub open spec fn offset(d: int) -> (int, int) {
    if d == 0 { (-1, -1) }
    else if d == 1 { (-1, 0) }
    else if d == 2 { (-1, 1) }
    else if d == 3 { (0, -1) }
    else if d == 4 { (0, 1) }
    else if d == 5 { (1, -1) }
    else if d == 6 { (1, 0) }
    else { (1, 1) }
}

/// Which neighbour an offset names, or -1 where it names none.
pub open spec fn offset_index(di: int, dj: int) -> int {
    if di == -1 && dj == -1 { 0 }
    else if di == -1 && dj == 0 { 1 }
    else if di == -1 && dj == 1 { 2 }
    else if di == 0 && dj == -1 { 3 }
    else if di == 0 && dj == 1 { 4 }
    else if di == 1 && dj == -1 { 5 }
    else if di == 1 && dj == 0 { 6 }
    else if di == 1 && dj == 1 { 7 }
    else { -1 }
}

/// The tile with its tree, if any, in status `s`.
pub open spec fn with_status(t: Tile, s: TreeStatus) -> Tile {
    Tile { tile_entity: Some(Tree { status: s, ..t.tile_entity->0 }), ..t }
}

/// A neighbour that catches fire under `roll`: a living tree off the water
/// whose flammability exceeds the roll.
pub open spec fn ignites(t: Tile, roll: u32) -> bool {
    t.tile_type != TileType::Water && is_alive(t) && roll < t.tile_entity->0.flammability
}

/// A neighbour exposed to fire under `roll`: it becomes Kindling if it
/// ignites, a Kindling tree off the water starts Burning, anything else stays.
pub open spec fn exposed_tile(t: Tile, roll: u32) -> Tile {
    if ignites(t, roll) {
        with_status(t, TreeStatus::Kindling)
    } else if t.tile_type != TileType::Water && status_is(t, TreeStatus::Kindling) {
        with_status(t, TreeStatus::Burning)
    } else {
        t
    }
}

/// The tile at (`i`, `j`) of `g` after the fire at (`cx`, `cy`) spreads
/// under `rolls`, one roll per neighbour.
pub open spec fn spread_tile(g: Seq<Vec<Tile>>, cx: int, cy: int, rolls: Seq<u32>, i: int, j: int) -> Tile {
    let d = offset_index(i - cx, j - cy);
    if 0 <= d < 8 { exposed_tile(tile_at(g, i, j), rolls[d]) } else { tile_at(g, i, j) }
}

/// The queue entries that the spread from (`cx`, `cy`) under `rolls` adds,
/// for the first `d` neighbours, in order.
pub open spec fn spread_entries(g: Seq<Vec<Tile>>, n: int, cx: int, cy: int, rolls: Seq<u32>, d: int) -> Seq<(i32, i32, u32)>
    decreases d,
{
    if d <= 0 {
        seq![]
    } else {
        let prev = spread_entries(g, n, cx, cy, rolls, d - 1);
        let i = cx + offset(d - 1).0;
        let j = cy + offset(d - 1).1;
        if 0 <= i < n && 0 <= j < n && ignites(tile_at(g, i, j), rolls[d - 1]) {
            prev.push((i as i32, j as i32, tile_at(g, i, j).tile_entity->0.burn_time))
        } else {
            prev
        }
    }
}

/// The tree at (`i`, `j`) was alive in `g0` and is not in `g`.
pub open spec fn left_alive(g0: Seq<Vec<Tile>>, g: Seq<Vec<Tile>>, i: int, j: int) -> bool {
    is_alive(tile_at(g0, i, j)) && !is_alive(tile_at(g, i, j))
}

/// (`i`, `j`) is (`ox`, `oy`), or is reached from it in at most `k` steps
/// between 8-adjacent tiles, each step from the struck tile or from a tile
/// off the water whose tree left Alive between `g0` and `g`.
pub open spec fn linked(g0: Seq<Vec<Tile>>, g: Seq<Vec<Tile>>, n: int, ox: int, oy: int, i: int, j: int, k: nat) -> bool
    decreases k,
{
    ||| i == ox && j == oy
    ||| k > 0 && exists|d: int| 0 <= d < 8 && {
        let pi = i - #[trigger] offset(d).0;
        let pj = j - offset(d).1;
        &&& 0 <= pi < n && 0 <= pj < n
        &&& (pi == ox && pj == oy) || {
            &&& left_alive(g0, g, pi, pj)
            &&& tile_at(g, pi, pj).tile_type != TileType::Water
            &&& linked(g0, g, n, ox, oy, pi, pj, (k - 1) as nat)
        }
    }
}

/// Every tree that left Alive between `g0` and `g` is linked to the struck
/// tile (`ox`, `oy`).
pub open spec fn burn_linked(g0: Seq<Vec<Tile>>, g: Seq<Vec<Tile>>, n: int, ox: int, oy: int) -> bool {
    forall|i: int, j: int| 0 <= i < n && 0 <= j < n && #[trigger] left_alive(g0, g, i, j)
        ==> exists|k: nat| linked(g0, g, n, ox, oy, i, j, k)
}

proof fn lemma_offset_index(di: int, dj: int)
    requires
        0 <= offset_index(di, dj) < 8,
    ensures
        offset(offset_index(di, dj)) == (di, dj),
{
}

proof fn lemma_linked_mono(g0: Seq<Vec<Tile>>, g1: Seq<Vec<Tile>>, g2: Seq<Vec<Tile>>, n: int, ox: int, oy: int, i: int, j: int, k: nat)
    requires
        linked(g0, g1, n, ox, oy, i, j, k),
        forall|a: int, b: int| 0 <= a < n && 0 <= b < n && #[trigger] left_alive(g0, g1, a, b) ==> left_alive(g0, g2, a, b),
        forall|a: int, b: int| 0 <= a < n && 0 <= b < n ==> (#[trigger] tile_at(g2, a, b)).tile_type == tile_at(g1, a, b).tile_type,
    ensures
        linked(g0, g2, n, ox, oy, i, j, k),
    decreases k,
{
    if !(i == ox && j == oy) {
        let d = choose|d: int| 0 <= d < 8 && {
            let pi = i - #[trigger] offset(d).0;
            let pj = j - offset(d).1;
            &&& 0 <= pi < n && 0 <= pj < n
            &&& (pi == ox && pj == oy) || {
                &&& left_alive(g0, g1, pi, pj)
                &&& tile_at(g1, pi, pj).tile_type != TileType::Water
                &&& linked(g0, g1, n, ox, oy, pi, pj, (k - 1) as nat)
            }
        };
        let pi = i - offset(d).0;
        let pj = j - offset(d).1;
        if !(pi == ox && pj == oy) {
            lemma_linked_mono(g0, g1, g2, n, ox, oy, pi, pj, (k - 1) as nat);
            assert(left_alive(g0, g2, pi, pj));
            assert(tile_at(g2, pi, pj).tile_type == tile_at(g1, pi, pj).tile_type);
        }
    }
}

/// After a change of tiles that keeps their terrain and every tree that had
/// left Alive, the link holds if each newly fallen tree is the struck tile
/// or has a linked neighbour (`ci`, `cj`) at offset `d`.
proof fn lemma_burn_linked_step(
    g0: Seq<Vec<Tile>>,
    g1: Seq<Vec<Tile>>,
    g2: Seq<Vec<Tile>>,
    n: int,
    ox: int,
    oy: int,
    ci: int,
    cj: int,
)
    requires
        burn_linked(g0, g1, n, ox, oy),
        forall|a: int, b: int| 0 <= a < n && 0 <= b < n && #[trigger] left_alive(g0, g1, a, b) ==> left_alive(g0, g2, a, b),
        forall|a: int, b: int| 0 <= a < n && 0 <= b < n ==> (#[trigger] tile_at(g2, a, b)).tile_type == tile_at(g1, a, b).tile_type,
        0 <= ci < n && 0 <= cj < n,
        (ci == ox && cj == oy) || (left_alive(g0, g1, ci, cj) && tile_at(g1, ci, cj).tile_type != TileType::Water),
        forall|a: int, b: int| 0 <= a < n && 0 <= b < n && #[trigger] left_alive(g0, g2, a, b) && !left_alive(g0, g1, a, b)
            ==> (a == ox && b == oy) || (0 <= offset_index(a - ci, b - cj) < 8),
    ensures
        burn_linked(g0, g2, n, ox, oy),
{
    assert forall|a: int, b: int| 0 <= a < n && 0 <= b < n && #[trigger] left_alive(g0, g2, a, b)
        implies exists|k: nat| linked(g0, g2, n, ox, oy, a, b, k) by {
        if left_alive(g0, g1, a, b) {
            let k = choose|k: nat| linked(g0, g1, n, ox, oy, a, b, k);
            lemma_linked_mono(g0, g1, g2, n, ox, oy, a, b, k);
        } else if a == ox && b == oy {
            assert(linked(g0, g2, n, ox, oy, a, b, 0));
        } else {
            let d = offset_index(a - ci, b - cj);
            lemma_offset_index(a - ci, b - cj);
            assert(a - offset(d).0 == ci && b - offset(d).1 == cj);
            if ci == ox && cj == oy {
                assert(linked(g0, g2, n, ox, oy, a, b, 1));
            } else {
                let k = choose|k: nat| linked(g0, g1, n, ox, oy, ci, cj, k);
                lemma_linked_mono(g0, g1, g2, n, ox, oy, ci, cj, k);
                assert(left_alive(g0, g2, ci, cj));
                assert(tile_at(g2, ci, cj).tile_type == tile_at(g1, ci, cj).tile_type);
                assert(linked(g0, g2, n, ox, oy, a, b, (k + 1) as nat));
            }
        }
    }
}

/// Some entry of the queue stands at row `i`, column `j`.
pub open spec fn has_entry(q: Seq<(i32, i32, u32)>, i: int, j: int) -> bool {
    exists|k: int| 0 <= k < q.len() && q[k].0 == i && q[k].1 == j
}

/// Every tile that is Kindling or Burning, but the one at (`ei`, `ej`), has an
/// entry in the queue.
pub open spec fn fire_listed(q: Seq<(i32, i32, u32)>, g: Seq<Vec<Tile>>, n: int, ei: int, ej: int) -> bool {
    forall|i: int, j: int|
        0 <= i < n && 0 <= j < n && !(i == ei && j == ej) && !at_rest_tile(#[trigger] tile_at(g, i, j))
            ==> has_entry(q, i, j)
}

/// The fire set off by one lightning strike: the queue of burning tiles with
/// the ticks each has left, the struck tile, and how many trees the strike
/// has burned so far. `start` is the grid just before the strike and
/// `start_count` its number of living trees.
pub struct FireFront {
    pub queue: VecDeque<(i32, i32, u32)>,
    pub origin_x: i32,
    pub origin_y: i32,
    pub burned_count: i32,
    pub start: Ghost<Seq<Vec<Tile>>>,
    pub start_count: Ghost<int>,
}

impl FireFront {
    pub open spec fn is_origin(&self, i: int, j: int) -> bool {
        i == self.origin_x && j == self.origin_y
    }

    /// A queue entry lies on the grid, has one to four ticks left, and points
    /// at a tree: the struck one, or one that lived before the strike and has
    /// caught fire since.
    pub open spec fn entry_ok(&self, e: (i32, i32, u32), g: Seq<Vec<Tile>>, n: int) -> bool {
        &&& 0 <= e.0 < n
        &&& 0 <= e.1 < n
        &&& 1 <= e.2 <= 4
        &&& tile_at(g, e.0 as int, e.1 as int).tile_entity.is_some()
        &&& self.is_origin(e.0 as int, e.1 as int) || {
            &&& is_alive(tile_at(self.start@, e.0 as int, e.1 as int))
            &&& {
                let s = tile_at(g, e.0 as int, e.1 as int).tile_entity->0.status;
                s == TreeStatus::Kindling || s == TreeStatus::Burning || s == TreeStatus::Burned
            }
        }
    }

    pub open spec fn wf(&self, g: Seq<Vec<Tile>>, cfg: Config) -> bool {
        let n = cfg.forest_size as int;
        &&& cfg.wf(g)
        &&& grid_shape(self.start@, n)
        &&& 0 <= self.origin_x < n
        &&& 0 <= self.origin_y < n
        &&& forall|k: int| 0 <= k < self.queue@.len() ==> self.entry_ok(#[trigger] self.queue@[k], g, n)
        &&& forall|i: int, j: int| 0 <= i < n && 0 <= j < n
            ==> fire_step(tile_at(self.start@, i, j), #[trigger] tile_at(g, i, j), self.is_origin(i, j))
        &&& at_rest(self.start@, n) ==> fire_listed(self.queue@, g, n, -1, -1)
        &&& burn_linked(self.start@, g, n, self.origin_x as int, self.origin_y as int)
        &&& 0 <= self.start_count@ <= 10000
        &&& self.burned_count == self.start_count@ - cfg.tree_count
        &&& 0 <= self.burned_count
        &&& self.queue@.len() > 0 ==> self.burned_count > 0
        &&& self.burned_count > 0 ==> status_is(tile_at(g, self.origin_x as int, self.origin_y as int), TreeStatus::Struck)
    }

    /// The state within a tick, once the entry for (`cx`, `cy`) has left the
    /// queue: as `wf`, but that tile may still be burning without an entry.
    pub open spec fn tick_wf(&self, g: Seq<Vec<Tile>>, cfg: Config, cx: int, cy: int) -> bool {
        let n = cfg.forest_size as int;
        &&& cfg.wf(g)
        &&& grid_shape(self.start@, n)
        &&& 0 <= self.origin_x < n
        &&& 0 <= self.origin_y < n
        &&& 0 <= cx < n
        &&& 0 <= cy < n
        &&& forall|k: int| 0 <= k < self.queue@.len() ==> self.entry_ok(#[trigger] self.queue@[k], g, n)
        &&& forall|i: int, j: int| 0 <= i < n && 0 <= j < n
            ==> fire_step(tile_at(self.start@, i, j), #[trigger] tile_at(g, i, j), self.is_origin(i, j))
        &&& at_rest(self.start@, n) ==> fire_listed(self.queue@, g, n, cx, cy)
        &&& burn_linked(self.start@, g, n, self.origin_x as int, self.origin_y as int)
        &&& 0 <= self.start_count@ <= 10000
        &&& self.burned_count == self.start_count@ - cfg.tree_count
        &&& 0 < self.burned_count
        &&& status_is(tile_at(g, self.origin_x as int, self.origin_y as int), TreeStatus::Struck)
    }

    /// Decreases with every tick: five per living tree, plus the ticks left
    /// in the queue.
    pub open spec fn measure(&self, cfg: Config) -> int {
        5 * cfg.tree_count + pending_ticks(self.queue@)
    }
}

/// The counters of `c` but for the living trees equal those of `d`.
pub open spec fn same_but_trees(c: Config, d: Config) -> bool {
    c == Config {
        tree_count: c.tree_count,
        pine_count: c.pine_count,
        oak_count: c.oak_count,
        birch_count: c.birch_count,
        redwood_count: c.redwood_count,
        ..d
    }
}


/// Lightning hits (`x`, `y`). Where a living tree stands there and the forest
/// has living trees, the tree becomes Struck, leaves the living counts and
/// starts a fire front with its full burn time; otherwise nothing changes and
/// the front is empty.
#[verifier::rlimit(50)]
pub fn strike(forest: &mut Vec<Vec<Tile>>, x: i32, y: i32, cfg: &mut Config) -> (r: FireFront)
    requires
        old(cfg).wf(old(forest)@),
        0 <= x < old(cfg).forest_size,
        0 <= y < old(cfg).forest_size,
    ensures
        r.wf(final(forest)@, *final(cfg)),
        r.start@ == old(forest)@,
        r.start_count@ == old(cfg).tree_count,
        r.origin_x == x && r.origin_y == y,
        same_but_trees(*final(cfg), *old(cfg)),
        final(forest)@.len() == old(forest)@.len(),
        forall|i: int, j: int| 0 <= i < old(cfg).forest_size && 0 <= j < old(cfg).forest_size && !(i == x && j == y)
            ==> #[trigger] tile_at(final(forest)@, i, j) == tile_at(old(forest)@, i, j),
        old(cfg).tree_count == 0 || !is_alive(tile_at(old(forest)@, x as int, y as int)) ==> {
            &&& final(forest)@ == old(forest)@
            &&& *final(cfg) == *old(cfg)
            &&& r.burned_count == 0
            &&& r.queue@.len() == 0
        },
        old(cfg).tree_count > 0 && is_alive(tile_at(old(forest)@, x as int, y as int)) ==> {
            &&& r.burned_count == 1
            &&& final(cfg).tree_count == old(cfg).tree_count - 1
            &&& tile_at(final(forest)@, x as int, y as int) == (Tile {
                tile_entity: Some(Tree { status: TreeStatus::Struck, ..tile_at(old(forest)@, x as int, y as int).tile_entity->0 }),
                ..tile_at(old(forest)@, x as int, y as int)
            })
            &&& r.queue@ == seq![(x, y, tile_at(old(forest)@, x as int, y as int).tile_entity->0.burn_time)]
        },
{
    let ghost g0 = forest@;
    let ghost n = cfg.forest_size as int;
    proof {
        lemma_count_grid_bounds(forest@, n, alive_pred());
        assert(n * n <= 10000) by (nonlinear_arith) requires 0 <= n <= 100;
    }
    let mut front = FireFront {
        queue: VecDeque::new(),
        origin_x: x,
        origin_y: y,
        burned_count: 0,
        start: Ghost(forest@),
        start_count: Ghost(cfg.tree_count as int),
    };
    if cfg.tree_count == 0 {
        return front;
    }
    let tile = forest[x as usize][y as usize];
    if let Some(tree) = tile.tile_entity {
        if tree.status == TreeStatus::Alive {
            let t = Tile { tile_entity: Some(tree.with_status(TreeStatus::Struck)), ..tile };
            put_tile(forest, x as usize, y as usize, t);
            proof {
                lemma_set_tile_at(g0, forest@, x as int, y as int, t);
                lemma_wf_after_set(g0, forest@, n, x as int, y as int, t);
                lemma_counts_ignite(g0, forest@, x as int, y as int, t, tree.tree_type);
                lemma_burn_linked_step(g0, g0, forest@, n, x as int, y as int, x as int, y as int);
                lemma_count_grid_bounds(forest@, n, alive_of_pred(TreeType::Pine));
                lemma_count_grid_bounds(forest@, n, alive_of_pred(TreeType::Oak));
                lemma_count_grid_bounds(forest@, n, alive_of_pred(TreeType::Birch));
                lemma_count_grid_bounds(forest@, n, alive_of_pred(TreeType::Redwood));
            }
            match tree.tree_type {
                TreeType::Pine => cfg.pine_count = cfg.pine_count - 1,
                TreeType::Oak => cfg.oak_count = cfg.oak_count - 1,
                TreeType::Birch => cfg.birch_count = cfg.birch_count - 1,
                TreeType::Redwood => cfg.redwood_count = cfg.redwood_count - 1,
            }
            cfg.tree_count = cfg.tree_count - 1;
            front.queue.push_back((x, y, tree.burn_time));
            front.burned_count = 1;
            proof {
                assert(front.entry_ok(front.queue@[0], forest@, n));
                if at_rest(g0, n) {
                    assert forall|i: int, j: int| 0 <= i < n && 0 <= j < n && !(i == -1 && j == -1)
                        && !at_rest_tile(#[trigger] tile_at(forest@, i, j)) implies has_entry(front.queue@, i, j) by {
                        if i != x || j != y {
                            assert(tile_at(forest@, i, j) == tile_at(g0, i, j));
                            assert(at_rest_tile(tile_at(g0, i, j)));
                        }
                    }
                }
            }
        }
    }
    front
}


/// The offset of the `d`-th of the eight neighbours of a tile.
fn neighbour_offset(d: usize) -> (r: (i32, i32))
    requires
        d < 8,
    ensures
        r.0 == offset(d as int).0,
        r.1 == offset(d as int).1,
{
    match d {
        0 => (-1, -1),
        1 => (-1, 0),
        2 => (-1, 1),
        3 => (0, -1),
        4 => (0, 1),
        5 => (1, -1),
        6 => (1, 0),
        _ => (1, 1),
    }
}

/// Exposes the eight neighbours of (`cx`, `cy`) to its fire. Water is
/// skipped; a living neighbour catches fire with a chance equal to its
/// flammability, becoming Kindling, leaving the living counts and joining the
/// queue with its full burn time; a Kindling neighbour starts Burning.
#[verifier::rlimit(50)]
fn spread_fire(front: &mut FireFront, forest: &mut Vec<Vec<Tile>>, cfg: &mut Config, cx: i32, cy: i32, rolls: &[u32; 8])
    requires
        old(front).tick_wf(old(forest)@, *old(cfg), cx as int, cy as int),
        (cx == old(front).origin_x && cy == old(front).origin_y)
            || (left_alive(old(front).start@, old(forest)@, cx as int, cy as int)
                && tile_at(old(forest)@, cx as int, cy as int).tile_type != TileType::Water),
    ensures
        forall|i: int, j: int| 0 <= i < old(cfg).forest_size && 0 <= j < old(cfg).forest_size
            ==> #[trigger] tile_at(final(forest)@, i, j) == spread_tile(old(forest)@, cx as int, cy as int, rolls@, i, j),
        final(front).queue@ == old(front).queue@ + spread_entries(old(forest)@, old(cfg).forest_size as int, cx as int, cy as int, rolls@, 8),
        final(front).tick_wf(final(forest)@, *final(cfg), cx as int, cy as int),
        final(front).start == old(front).start,
        final(front).start_count == old(front).start_count,
        final(front).origin_x == old(front).origin_x,
        final(front).origin_y == old(front).origin_y,
        same_but_trees(*final(cfg), *old(cfg)),
        tile_at(final(forest)@, cx as int, cy as int) == tile_at(old(forest)@, cx as int, cy as int),
        final(front).measure(*final(cfg)) <= old(front).measure(*old(cfg)),
        final(cfg).tree_count <= old(cfg).tree_count,
{
    let ghost f0 = *front;
    let ghost c0 = *cfg;
    let ghost g0 = forest@;
    let ghost n = cfg.forest_size as int;
    let size = cfg.forest_size;
    let mut d: usize = 0;
    while d < 8
        invariant
            n == size == cfg.forest_size,
            front.tick_wf(forest@, *cfg, cx as int, cy as int),
            (cx == f0.origin_x && cy == f0.origin_y)
                || (left_alive(f0.start@, g0, cx as int, cy as int) && tile_at(g0, cx as int, cy as int).tile_type != TileType::Water),
            front.start == f0.start,
            front.start_count == f0.start_count,
            front.origin_x == f0.origin_x,
            front.origin_y == f0.origin_y,
            same_but_trees(*cfg, c0),
            tile_at(forest@, cx as int, cy as int) == tile_at(g0, cx as int, cy as int),
            front.measure(*cfg) <= f0.measure(c0),
            cfg.tree_count <= c0.tree_count,
            d <= 8,
            forall|i: int, j: int| 0 <= i < n && 0 <= j < n ==> #[trigger] tile_at(forest@, i, j) == {
                let e = offset_index(i - cx, j - cy);
                if 0 <= e < d { exposed_tile(tile_at(g0, i, j), rolls@[e]) } else { tile_at(g0, i, j) }
            },
            front.queue@ == f0.queue@ + spread_entries(g0, n, cx as int, cy as int, rolls@, d as int),
        decreases 8 - d,
    {
        let ghost gd = forest@;
        let ghost qd = front.queue@;
        let (dx, dy) = neighbour_offset(d);
        let nx = cx + dx;
        let ny = cy + dy;
        proof {
            assert(offset_index(nx - cx, ny - cy) == d);
        }
        if 0 <= nx && nx < size && 0 <= ny && ny < size {
            let tile = forest[nx as usize][ny as usize];
            if tile.tile_type != TileType::Water {
                if let Some(tree) = tile.tile_entity {
                    let ghost g1 = forest@;
                    let ghost q1 = front.queue@;
                    assert(tile_wf(tile_at(g1, nx as int, ny as int), nx as int, ny as int));
                    assert(fire_step(tile_at(front.start@, nx as int, ny as int), tile_at(g1, nx as int, ny as int), front.is_origin(nx as int, ny as int)));
                    if tree.status == TreeStatus::Alive {
                        if rolls[d] < tree.flammability {
                            let t = Tile { tile_entity: Some(tree.with_status(TreeStatus::Kindling)), ..tile };
                            put_tile(forest, nx as usize, ny as usize, t);
                            proof {
                                lemma_set_tile_at(g1, forest@, nx as int, ny as int, t);
                                lemma_wf_after_set(g1, forest@, n, nx as int, ny as int, t);
                                lemma_counts_ignite(g1, forest@, nx as int, ny as int, t, tree.tree_type);
                                lemma_burn_linked_step(front.start@, g1, forest@, n, front.origin_x as int, front.origin_y as int, cx as int, cy as int);
                                lemma_count_grid_bounds(forest@, n, alive_pred());
                                lemma_count_grid_bounds(forest@, n, alive_of_pred(TreeType::Pine));
                                lemma_count_grid_bounds(forest@, n, alive_of_pred(TreeType::Oak));
                                lemma_count_grid_bounds(forest@, n, alive_of_pred(TreeType::Birch));
                                lemma_count_grid_bounds(forest@, n, alive_of_pred(TreeType::Redwood));
                            }
                            match tree.tree_type {
                                TreeType::Pine => cfg.pine_count = cfg.pine_count - 1,
                                TreeType::Oak => cfg.oak_count = cfg.oak_count - 1,
                                TreeType::Birch => cfg.birch_count = cfg.birch_count - 1,
                                TreeType::Redwood => cfg.redwood_count = cfg.redwood_count - 1,
                            }
                            cfg.tree_count = cfg.tree_count - 1;
                            front.queue.push_back((nx, ny, tree.burn_time));
                            front.burned_count = front.burned_count + 1;
                            proof {
                                lemma_pending_push(q1, (nx, ny, tree.burn_time));
                                let g2 = forest@;
                                assert forall|k: int| 0 <= k < front.queue@.len() implies front.entry_ok(#[trigger] front.queue@[k], g2, n) by {
                                    if k < q1.len() {
                                        assert(front.queue@[k] == q1[k]);
                                        assert(front.entry_ok(q1[k], g1, n));
                                    }
                                }
                                assert forall|i: int, j: int| 0 <= i < n && 0 <= j < n
                                    implies fire_step(tile_at(front.start@, i, j), #[trigger] tile_at(g2, i, j), front.is_origin(i, j)) by {
                                    assert(fire_step(tile_at(front.start@, i, j), tile_at(g1, i, j), front.is_origin(i, j)));
                                }
                                if at_rest(front.start@, n) {
                                    assert forall|i: int, j: int|
                                        0 <= i < n && 0 <= j < n && !(i == cx && j == cy) && !at_rest_tile(#[trigger] tile_at(g2, i, j))
                                        implies has_entry(front.queue@, i, j) by {
                                        if i == nx && j == ny {
                                            assert(front.queue@[q1.len() as int] == (nx, ny, tree.burn_time));
                                        } else {
                                            assert(tile_at(g2, i, j) == tile_at(g1, i, j));
                                            assert(has_entry(q1, i, j));
                                            let k = choose|k: int| 0 <= k < q1.len() && q1[k].0 == i && q1[k].1 == j;
                                            assert(front.queue@[k] == q1[k]);
                                        }
                                    }
                                }
                            }
                        }
                    } else if tree.status == TreeStatus::Kindling {
                        let t = Tile { tile_entity: Some(tree.with_status(TreeStatus::Burning)), ..tile };
                        put_tile(forest, nx as usize, ny as usize, t);
                        proof {
                            lemma_set_tile_at(g1, forest@, nx as int, ny as int, t);
                            lemma_wf_after_set(g1, forest@, n, nx as int, ny as int, t);
                            lemma_counts_kept(g1, forest@, nx as int, ny as int, t);
                            lemma_burn_linked_step(front.start@, g1, forest@, n, front.origin_x as int, front.origin_y as int,
                                front.origin_x as int, front.origin_y as int);
                            let g2 = forest@;
                            assert forall|k: int| 0 <= k < front.queue@.len() implies front.entry_ok(#[trigger] front.queue@[k], g2, n) by {
                                assert(front.entry_ok(q1[k], g1, n));
                            }
                            assert forall|i: int, j: int| 0 <= i < n && 0 <= j < n
                                implies fire_step(tile_at(front.start@, i, j), #[trigger] tile_at(g2, i, j), front.is_origin(i, j)) by {
                                assert(fire_step(tile_at(front.start@, i, j), tile_at(g1, i, j), front.is_origin(i, j)));
                            }
                            if at_rest(front.start@, n) {
                                assert forall|i: int, j: int|
                                    0 <= i < n && 0 <= j < n && !(i == cx && j == cy) && !at_rest_tile(#[trigger] tile_at(g2, i, j))
                                    implies has_entry(front.queue@, i, j) by {
                                    if !(i == nx && j == ny) {
                                        assert(tile_at(g2, i, j) == tile_at(g1, i, j));
                                    }
                                }
                            }
                        }
                    }
                }
            }
        }
        proof {
            let inside = 0 <= nx < n && 0 <= ny < n;
            if inside {
                assert(tile_at(gd, nx as int, ny as int) == tile_at(g0, nx as int, ny as int));
                assert(tile_at(forest@, nx as int, ny as int) == exposed_tile(tile_at(g0, nx as int, ny as int), rolls@[d as int]));
            }
            assert forall|i: int, j: int| 0 <= i < n && 0 <= j < n && !(i == nx && j == ny)
                implies #[trigger] tile_at(forest@, i, j) == tile_at(gd, i, j) by {
                if forest@ != gd {
                    assert(tile_at(forest@, i, j) == tile_at(gd, i, j));
                }
            }
            assert forall|i: int, j: int| 0 <= i < n && 0 <= j < n implies #[trigger] tile_at(forest@, i, j) == {
                let e = offset_index(i - cx, j - cy);
                if 0 <= e < d + 1 { exposed_tile(tile_at(g0, i, j), rolls@[e]) } else { tile_at(g0, i, j) }
            } by {
                if !(i == nx && j == ny) {
                    assert(tile_at(forest@, i, j) == tile_at(gd, i, j));
                    assert(offset_index(i - cx, j - cy) != d);
                }
            }
            assert(front.queue@ =~= f0.queue@ + spread_entries(g0, n, cx as int, cy as int, rolls@, d + 1));
        }
        d = d + 1;
    }
}


/// The exact effect of one tick that takes entry `q0[0]` from queue `q0` on
/// grid `g0`, where (`ox`, `oy`) is the struck tile and `rolls` the eight
/// ignition rolls, giving queue `q1` and grid `g1`.
pub open spec fn tick_outcome(
    q0: Seq<(i32, i32, u32)>,
    g0: Seq<Vec<Tile>>,
    q1: Seq<(i32, i32, u32)>,
    g1: Seq<Vec<Tile>>,
    n: int,
    ox: int,
    oy: int,
    rolls: Seq<u32>,
) -> bool {
    let cx = q0[0].0 as int;
    let cy = q0[0].1 as int;
    let t = q0[0].2;
    let rest = q0.subrange(1, q0.len() as int);
    let origin = cx == ox && cy == oy;
    &&& g1.len() == g0.len()
    &&& if t > 1 && !origin {
        &&& q1 == rest.push((q0[0].0, q0[0].1, (t - 1) as u32))
        &&& forall|i: int, j: int| 0 <= i < n && 0 <= j < n ==> #[trigger] tile_at(g1, i, j)
            == if i == cx && j == cy { with_status(tile_at(g0, i, j), TreeStatus::Burning) } else { tile_at(g0, i, j) }
    } else {
        &&& q1 == rest + spread_entries(g0, n, cx, cy, rolls, 8)
        &&& forall|i: int, j: int| 0 <= i < n && 0 <= j < n ==> #[trigger] tile_at(g1, i, j)
            == if i == cx && j == cy && !origin {
                with_status(tile_at(g0, i, j), TreeStatus::Burned)
            } else {
                spread_tile(g0, cx, cy, rolls, i, j)
            }
    }
}

/// Plays out one tick with the given ignition rolls, one per neighbour in
/// the order of `offset`: takes the next queue entry. A tile other than
/// the struck one with more than one tick left turns Burning and goes back to
/// the end of the queue with one tick less, spreading nothing. Otherwise its
/// fire spreads to its neighbours, after which the tile, unless it is the
/// struck one, is Burned. Returns whether there was an entry to play.
#[verifier::rlimit(50)]
pub fn burn_tick_with(front: &mut FireFront, forest: &mut Vec<Vec<Tile>>, cfg: &mut Config, rolls: &[u32; 8]) -> (r: bool)
    requires
        old(front).wf(old(forest)@, *old(cfg)),
    ensures
        final(front).wf(final(forest)@, *final(cfg)),
        final(front).start == old(front).start,
        final(front).start_count == old(front).start_count,
        final(front).origin_x == old(front).origin_x,
        final(front).origin_y == old(front).origin_y,
        same_but_trees(*final(cfg), *old(cfg)),
        r == (old(front).queue@.len() > 0),
        !r ==> final(forest)@ == old(forest)@ && *final(cfg) == *old(cfg) && *final(front) == *old(front),
        r ==> tick_outcome(old(front).queue@, old(forest)@, final(front).queue@, final(forest)@,
            old(cfg).forest_size as int, old(front).origin_x as int, old(front).origin_y as int, rolls@),
        r ==> final(front).measure(*final(cfg)) < old(front).measure(*old(cfg)),
        final(cfg).tree_count <= old(cfg).tree_count,
{
    let ghost n = cfg.forest_size as int;
    let ghost q0 = front.queue@;
    let ghost g0 = forest@;
    if front.queue.len() == 0 {
        return false;
    }
    let entry = front.queue.pop_front();
    let (cx, cy, ticks) = match entry {
        None => return false,
        Some(e) => e,
    };
    proof {
        lemma_pending_front(q0);
        assert(front.entry_ok(q0[0], g0, n));
        assert forall|k: int| 0 <= k < front.queue@.len() implies front.entry_ok(#[trigger] front.queue@[k], g0, n) by {
            assert(front.queue@[k] == q0[k + 1]);
            assert(front.entry_ok(q0[k + 1], g0, n));
        }
        if at_rest(front.start@, n) {
            assert forall|i: int, j: int|
                0 <= i < n && 0 <= j < n && !(i == cx && j == cy) && !at_rest_tile(#[trigger] tile_at(g0, i, j))
                implies has_entry(front.queue@, i, j) by {
                assert(fire_listed(q0, g0, n, -1, -1));
                assert(has_entry(q0, i, j));
                let k = choose|k: int| 0 <= k < q0.len() && q0[k].0 == i && q0[k].1 == j;
                assert(k != 0);
                assert(front.queue@[k - 1] == q0[k]);
            }
        }
    }
    let is_origin = cx == front.origin_x && cy == front.origin_y;
    proof {
        assert(tile_at(g0, cx as int, cy as int).tile_entity.is_some());
    }
    if ticks > 1 && !is_origin {
        let tile = forest[cx as usize][cy as usize];
        if let Some(tree) = tile.tile_entity {
            let ghost q1 = front.queue@;
            let t = Tile { tile_entity: Some(tree.with_status(TreeStatus::Burning)), ..tile };
            assert(t == with_status(tile_at(g0, cx as int, cy as int), TreeStatus::Burning));
            put_tile(forest, cx as usize, cy as usize, t);
            front.queue.push_back((cx, cy, ticks - 1));
            proof {
                let g2 = forest@;
                assert(tile_wf(tile_at(g0, cx as int, cy as int), cx as int, cy as int));
                lemma_set_tile_at(g0, g2, cx as int, cy as int, t);
                lemma_wf_after_set(g0, g2, n, cx as int, cy as int, t);
                lemma_counts_kept(g0, g2, cx as int, cy as int, t);
                lemma_burn_linked_step(front.start@, g0, g2, n, front.origin_x as int, front.origin_y as int,
                    front.origin_x as int, front.origin_y as int);
                lemma_pending_push(q1, (cx, cy, (ticks - 1) as u32));
                assert forall|k: int| 0 <= k < front.queue@.len() implies front.entry_ok(#[trigger] front.queue@[k], g2, n) by {
                    if k < q1.len() {
                        assert(front.queue@[k] == q1[k]);
                        assert(front.entry_ok(q1[k], g0, n));
                    }
                }
                assert forall|i: int, j: int| 0 <= i < n && 0 <= j < n
                    implies fire_step(tile_at(front.start@, i, j), #[trigger] tile_at(g2, i, j), front.is_origin(i, j)) by {
                    assert(fire_step(tile_at(front.start@, i, j), tile_at(g0, i, j), front.is_origin(i, j)));
                }
                if at_rest(front.start@, n) {
                    assert forall|i: int, j: int|
                        0 <= i < n && 0 <= j < n && !(i == -1 && j == -1) && !at_rest_tile(#[trigger] tile_at(g2, i, j))
                        implies has_entry(front.queue@, i, j) by {
                        if i == cx && j == cy {
                            assert(front.queue@[q1.len() as int] == (cx, cy, (ticks - 1) as u32));
                        } else {
                            assert(tile_at(g2, i, j) == tile_at(g0, i, j));
                            assert(has_entry(q1, i, j));
                            let k = choose|k: int| 0 <= k < q1.len() && q1[k].0 == i && q1[k].1 == j;
                            assert(front.queue@[k] == q1[k]);
                        }
                    }
                }
            }
            return true;
        }
    }
    proof {
        assert(tile_wf(tile_at(g0, cx as int, cy as int), cx as int, cy as int));
    }
    spread_fire(front, forest, cfg, cx, cy, rolls);
    if !is_origin {
        let ghost g1 = forest@;
        let tile = forest[cx as usize][cy as usize];
        if let Some(tree) = tile.tile_entity {
            let t = Tile { tile_entity: Some(tree.with_status(TreeStatus::Burned)), ..tile };
            assert(t == with_status(tile_at(g0, cx as int, cy as int), TreeStatus::Burned));
            put_tile(forest, cx as usize, cy as usize, t);
            proof {
                let g2 = forest@;
                assert(tile_wf(tile_at(g1, cx as int, cy as int), cx as int, cy as int));
                lemma_set_tile_at(g1, g2, cx as int, cy as int, t);
                lemma_wf_after_set(g1, g2, n, cx as int, cy as int, t);
                lemma_counts_kept(g1, g2, cx as int, cy as int, t);
                lemma_burn_linked_step(front.start@, g1, g2, n, front.origin_x as int, front.origin_y as int,
                    front.origin_x as int, front.origin_y as int);
                assert forall|k: int| 0 <= k < front.queue@.len() implies front.entry_ok(#[trigger] front.queue@[k], g2, n) by {
                    assert(front.entry_ok(front.queue@[k], g1, n));
                }
                assert forall|i: int, j: int| 0 <= i < n && 0 <= j < n
                    implies fire_step(tile_at(front.start@, i, j), #[trigger] tile_at(g2, i, j), front.is_origin(i, j)) by {
                    assert(fire_step(tile_at(front.start@, i, j), tile_at(g1, i, j), front.is_origin(i, j)));
                }
                if at_rest(front.start@, n) {
                    assert forall|i: int, j: int|
                        0 <= i < n && 0 <= j < n && !(i == -1 && j == -1) && !at_rest_tile(#[trigger] tile_at(g2, i, j))
                        implies has_entry(front.queue@, i, j) by {
                        assert(tile_at(g2, i, j) == tile_at(g1, i, j));
                    }
                }
            }
        }
    }
    true
}

/// Plays out one tick with fresh ignition rolls, each drawn uniformly from
/// `0..100`, so that a neighbour catches fire with a chance equal to its
/// flammability in percent. The outcome is that of `burn_tick_with` for some
/// eight such rolls.
pub fn burn_tick(front: &mut FireFront, forest: &mut Vec<Vec<Tile>>, cfg: &mut Config) -> (r: bool)
    requires
        old(front).wf(old(forest)@, *old(cfg)),
    ensures
        final(front).wf(final(forest)@, *final(cfg)),
        final(front).start == old(front).start,
        final(front).start_count == old(front).start_count,
        final(front).origin_x == old(front).origin_x,
        final(front).origin_y == old(front).origin_y,
        same_but_trees(*final(cfg), *old(cfg)),
        r == (old(front).queue@.len() > 0),
        !r ==> final(forest)@ == old(forest)@ && *final(cfg) == *old(cfg) && *final(front) == *old(front),
        r ==> exists|rolls: Seq<u32>| rolls.len() == 8 && (forall|d: int| 0 <= d < 8 ==> #[trigger] rolls[d] < 100)
            && #[trigger] tick_outcome(old(front).queue@, old(forest)@, final(front).queue@, final(forest)@,
                old(cfg).forest_size as int, old(front).origin_x as int, old(front).origin_y as int, rolls),
        r ==> final(front).measure(*final(cfg)) < old(front).measure(*old(cfg)),
        final(cfg).tree_count <= old(cfg).tree_count,
{
    let rolls: [u32; 8] = [
        random_in(0, 100),
        random_in(0, 100),
        random_in(0, 100),
        random_in(0, 100),
        random_in(0, 100),
        random_in(0, 100),
        random_in(0, 100),
        random_in(0, 100),
    ];
    burn_tick_with(front, forest, cfg, &rolls)
}

/// Lightning hits (`x`, `y`) and the fire runs until its queue is empty.
/// Returns the number of trees the strike burned, the struck one included.
/// A strike on a forest without living trees, or on a tile without a living
/// tree, changes nothing and returns 0.
pub fn burn_adjacent_trees(forest: &mut Vec<Vec<Tile>>, x: i32, y: i32, cfg: &mut Config) -> (r: i32)
    requires
        old(cfg).wf(old(forest)@),
        0 <= x < old(cfg).forest_size,
        0 <= y < old(cfg).forest_size,
    ensures
        final(cfg).wf(final(forest)@),
        same_but_trees(*final(cfg), *old(cfg)),
        r == old(cfg).tree_count - final(cfg).tree_count,
        forall|i: int, j: int| 0 <= i < old(cfg).forest_size && 0 <= j < old(cfg).forest_size
            ==> fire_step(tile_at(old(forest)@, i, j), #[trigger] tile_at(final(forest)@, i, j), i == x && j == y),
        at_rest(old(forest)@, old(cfg).forest_size as int) ==> at_rest(final(forest)@, old(cfg).forest_size as int),
        burn_linked(old(forest)@, final(forest)@, old(cfg).forest_size as int, x as int, y as int),
        old(cfg).tree_count == 0 || !is_alive(tile_at(old(forest)@, x as int, y as int)) ==> {
            &&& r == 0
            &&& final(forest)@ == old(forest)@
            &&& *final(cfg) == *old(cfg)
        },
        old(cfg).tree_count > 0 && is_alive(tile_at(old(forest)@, x as int, y as int)) ==> {
            &&& r >= 1
            &&& status_is(tile_at(final(forest)@, x as int, y as int), TreeStatus::Struck)
        },
{
    let ghost g0 = forest@;
    let ghost c0 = *cfg;
    let ghost n = cfg.forest_size as int;
    let mut front = strike(forest, x, y, cfg);
    while front.queue.len() > 0
        invariant
            n == cfg.forest_size,
            front.wf(forest@, *cfg),
            front.start@ == g0,
            front.start_count@ == c0.tree_count,
            front.origin_x == x && front.origin_y == y,
            same_but_trees(*cfg, c0),
            c0.tree_count == 0 || !is_alive(tile_at(g0, x as int, y as int)) ==> {
                &&& forest@ == g0
                &&& *cfg == c0
                &&& front.burned_count == 0
                &&& front.queue@.len() == 0
            },
            c0.tree_count > 0 && is_alive(tile_at(g0, x as int, y as int)) ==> front.burned_count >= 1,
        decreases front.measure(*cfg),
    {
        proof {
            lemma_pending_nonneg(front.queue@);
        }
        let ghost m0 = front.measure(*cfg);
        let progressed = burn_tick(&mut front, forest, cfg);
        proof {
            lemma_pending_nonneg(front.queue@);
            assert(progressed);
            assert(front.measure(*cfg) < m0);
        }
    }
    proof {
        if at_rest(g0, n) {
            assert forall|i: int, j: int| 0 <= i < n && 0 <= j < n implies at_rest_tile(#[trigger] tile_at(forest@, i, j)) by {
                if !at_rest_tile(tile_at(forest@, i, j)) {
                    assert(has_entry(front.queue@, i, j));
                    let k = choose|k: int| 0 <= k < front.queue@.len() && front.queue@[k].0 == i && front.queue@[k].1 == j;
                }
            }
        }
    }
    front.burned_count
}


/// Where the next lightning strikes: a tile drawn uniformly over the grid.
pub fn strike_point(cfg: &Config) -> (r: (i32, i32))
    requires
        cfg.settings_valid(),
    ensures
        0 <= r.0 < cfg.forest_size,
        0 <= r.1 < cfg.forest_size,
{
    let size = cfg.forest_size as u32;
    let x = random_in(0, size) as i32;
    let y = random_in(0, size) as i32;
    (x, y)
}

/// One round of the simulation: lightning strikes a tile drawn uniformly,
/// the fire runs out, and the reset leaves every tree Alive, Struck or
/// Burned. Returns the struck coordinates and the number of trees burned.
#[verifier::rlimit(50)]
pub fn lightning_strike(forest: &mut Vec<Vec<Tile>>, cfg: &mut Config) -> (r: (i32, i32, i32))
    requires
        old(cfg).wf(old(forest)@),
    ensures
        final(cfg).wf(final(forest)@),
        same_but_trees(*final(cfg), *old(cfg)),
        at_rest(final(forest)@, old(cfg).forest_size as int),
        0 <= r.0 < old(cfg).forest_size,
        0 <= r.1 < old(cfg).forest_size,
        r.2 == old(cfg).tree_count - final(cfg).tree_count,
        forall|i: int, j: int| 0 <= i < old(cfg).forest_size && 0 <= j < old(cfg).forest_size
            ==> fire_step(tile_at(old(forest)@, i, j), #[trigger] tile_at(final(forest)@, i, j), i == r.0 && j == r.1),
        burn_linked(old(forest)@, final(forest)@, old(cfg).forest_size as int, r.0 as int, r.1 as int),
        old(cfg).tree_count == 0 || !is_alive(tile_at(old(forest)@, r.0 as int, r.1 as int)) ==> r.2 == 0,
        at_rest(old(forest)@, old(cfg).forest_size as int)
            && (old(cfg).tree_count == 0 || !is_alive(tile_at(old(forest)@, r.0 as int, r.1 as int))) ==> {
            &&& final(forest)@ == old(forest)@
            &&& *final(cfg) == *old(cfg)
        },
        old(cfg).tree_count > 0 && is_alive(tile_at(old(forest)@, r.0 as int, r.1 as int)) ==> {
            &&& r.2 >= 1
            &&& status_is(tile_at(final(forest)@, r.0 as int, r.1 as int), TreeStatus::Struck)
        },
{
    let ghost g0 = forest@;
    let ghost c0 = *cfg;
    let (x, y) = strike_point(cfg);
    let burned = burn_adjacent_trees(forest, x, y, cfg);
    let ghost g1 = forest@;
    clear_forest(forest);
    proof {
        lemma_reset_keeps_wf(*cfg, g1, forest@);
        assert(tile_at(forest@, x as int, y as int) == reset_tile(tile_at(g1, x as int, y as int)));
        let n = cfg.forest_size as int;
        assert forall|i: int, j: int| 0 <= i < n && 0 <= j < n
            implies fire_step(tile_at(g0, i, j), #[trigger] tile_at(forest@, i, j), i == x && j == y) by {
            assert(fire_step(tile_at(g0, i, j), tile_at(g1, i, j), i == x && j == y));
            assert(tile_at(forest@, i, j) == reset_tile(tile_at(g1, i, j)));
        }
        assert forall|a: int, b: int| 0 <= a < n && 0 <= b < n
            implies (#[trigger] tile_at(forest@, a, b)).tile_type == tile_at(g1, a, b).tile_type
                && (left_alive(g0, g1, a, b) == left_alive(g0, forest@, a, b)) by {
            assert(tile_at(forest@, a, b) == reset_tile(tile_at(g1, a, b)));
        }
        lemma_burn_linked_step(g0, g1, forest@, n, x as int, y as int, x as int, y as int);
        if at_rest(g0, n) && (c0.tree_count == 0 || !is_alive(tile_at(g0, x as int, y as int))) {
            assert forall|i: int, j: int| 0 <= i < g1.len() && 0 <= j < g1[i]@.len()
                implies at_rest_tile(#[trigger] tile_at(g1, i, j)) by {
                assert(g1[i]@.len() == n);
            }
        }
    }
    (x, y, burned)
}

} // verus!
