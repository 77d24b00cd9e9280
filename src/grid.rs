use vstd::prelude::*;
use crate::tile::{Tile, TileType};
use crate::tree::{TreeStatus, TreeType};

verus! {

/// The grid is `n` rows of `n` tiles each.
pub open spec fn grid_shape(g: Seq<Vec<Tile>>, n: int) -> bool {
    &&& g.len() == n
    &&& forall|i: int| 0 <= i < n ==> (#[trigger] g[i])@.len() == n
}

/// The tile at row `i`, column `j`.
pub open spec fn tile_at(g: Seq<Vec<Tile>>, i: int, j: int) -> Tile {
    g[i]@[j]
}

/// A tile knows its place, water holds no tree, and each tree has the
/// flammability and burn time of its archetype.
pub open spec fn tile_wf(t: Tile, i: int, j: int) -> bool {
    &&& t.x == i
    &&& t.y == j
    &&& t.tile_type == TileType::Water ==> t.tile_entity.is_none()
    &&& t.tile_entity.is_some() ==> t.tile_entity->0.wf()
}

/// A well-formed square grid of side `n`.
pub open spec fn grid_wf(g: Seq<Vec<Tile>>, n: int) -> bool {
    &&& grid_shape(g, n)
    &&& forall|i: int, j: int| 0 <= i < n && 0 <= j < n ==> tile_wf(#[trigger] tile_at(g, i, j), i, j)
}

pub open spec fn is_water(t: Tile) -> bool {
    t.tile_type == TileType::Water
}

/// Grass that holds no tree: where a tree may be planted.
pub open spec fn is_free(t: Tile) -> bool {
    t.tile_type == TileType::Grass && t.tile_entity.is_none()
}

pub open spec fn status_is(t: Tile, s: TreeStatus) -> bool {
    t.tile_entity.is_some() && t.tile_entity->0.status == s
}

pub open spec fn is_alive(t: Tile) -> bool {
    status_is(t, TreeStatus::Alive)
}

pub open spec fn is_alive_of(t: Tile, ty: TreeType) -> bool {
    is_alive(t) && t.tile_entity->0.tree_type == ty
}

pub open spec fn water_pred() -> spec_fn(Tile) -> bool {
    |t: Tile| is_water(t)
}

pub open spec fn alive_pred() -> spec_fn(Tile) -> bool {
    |t: Tile| is_alive(t)
}

pub open spec fn alive_of_pred(ty: TreeType) -> spec_fn(Tile) -> bool {
    |t: Tile| is_alive_of(t, ty)
}

pub open spec fn one_if(b: bool) -> int {
    if b { 1 } else { 0 }
}

/// Number of tiles of a row that satisfy `p`.
pub open spec fn count_row(r: Seq<Tile>, p: spec_fn(Tile) -> bool) -> int
    decreases r.len(),
{
    if r.len() == 0 {
        0
    } else {
        count_row(r.drop_last(), p) + one_if(p(r.last()))
    }
}

/// Number of tiles of the grid that satisfy `p`.
pub open spec fn count_grid(g: Seq<Vec<Tile>>, p: spec_fn(Tile) -> bool) -> int
    decreases g.len(),
{
    if g.len() == 0 {
        0
    } else {
        count_grid(g.drop_last(), p) + count_row(g.last()@, p)
    }
}

pub proof fn lemma_count_row_bounds(r: Seq<Tile>, p: spec_fn(Tile) -> bool)
    ensures
        0 <= count_row(r, p) <= r.len(),
    decreases r.len(),
{
    if r.len() > 0 {
        lemma_count_row_bounds(r.drop_last(), p);
    }
}

pub proof fn lemma_count_row_update(r: Seq<Tile>, j: int, t: Tile, p: spec_fn(Tile) -> bool)
    requires
        0 <= j < r.len(),
    ensures
        count_row(r.update(j, t), p) == count_row(r, p) - one_if(p(r[j])) + one_if(p(t)),
    decreases r.len(),
{
    let r2 = r.update(j, t);
    if j == r.len() - 1 {
        assert(r2.drop_last() =~= r.drop_last());
    } else {
        assert(r2.drop_last() =~= r.drop_last().update(j, t));
        lemma_count_row_update(r.drop_last(), j, t, p);
    }
}

pub proof fn lemma_count_grid_update(g: Seq<Vec<Tile>>, i: int, row: Vec<Tile>, p: spec_fn(Tile) -> bool)
    requires
        0 <= i < g.len(),
    ensures
        count_grid(g.update(i, row), p) == count_grid(g, p) - count_row(g[i]@, p) + count_row(row@, p),
    decreases g.len(),
{
    let g2 = g.update(i, row);
    if i == g.len() - 1 {
        assert(g2.drop_last() =~= g.drop_last());
    } else {
        assert(g2.drop_last() =~= g.drop_last().update(i, row));
        lemma_count_grid_update(g.drop_last(), i, row, p);
    }
}

/// Replacing one tile changes a count by what the old and new tile contribute.
pub proof fn lemma_count_set_tile(
    g: Seq<Vec<Tile>>,
    g2: Seq<Vec<Tile>>,
    i: int,
    j: int,
    t: Tile,
    p: spec_fn(Tile) -> bool,
)
    requires
        0 <= i < g.len(),
        0 <= j < g[i]@.len(),
        g2.len() == g.len(),
        g2[i]@ == g[i]@.update(j, t),
        forall|k: int| 0 <= k < g.len() && k != i ==> g2[k] == g[k],
    ensures
        count_grid(g2, p) == count_grid(g, p) - one_if(p(g[i]@[j])) + one_if(p(t)),
{
    assert(g2 =~= g.update(i, g2[i]));
    lemma_count_grid_update(g, i, g2[i], p);
    lemma_count_row_update(g[i]@, j, t, p);
}

pub proof fn lemma_count_grid_bounds(g: Seq<Vec<Tile>>, n: int, p: spec_fn(Tile) -> bool)
    requires
        forall|i: int| 0 <= i < g.len() ==> (#[trigger] g[i])@.len() == n,
    ensures
        0 <= count_grid(g, p) <= g.len() * n,
    decreases g.len(),
{
    if g.len() > 0 {
        lemma_count_grid_bounds(g.drop_last(), n, p);
        lemma_count_row_bounds(g.last()@, p);
        assert((g.len() - 1) * n + n == g.len() * n) by (nonlinear_arith);
    }
}


pub proof fn lemma_count_row_all(r: Seq<Tile>, p: spec_fn(Tile) -> bool, b: bool)
    requires
        forall|j: int| 0 <= j < r.len() ==> p(#[trigger] r[j]) == b,
    ensures
        count_row(r, p) == if b { r.len() as int } else { 0 },
    decreases r.len(),
{
    if r.len() > 0 {
        let r2 = r.drop_last();
        assert forall|j: int| 0 <= j < r2.len() implies p(#[trigger] r2[j]) == b by {
            assert(r2[j] == r[j]);
        }
        lemma_count_row_all(r2, p, b);
    }
}

/// Where every tile satisfies `p` (or none does), the count is the number
/// of tiles (or zero).
pub proof fn lemma_count_grid_all(g: Seq<Vec<Tile>>, n: int, p: spec_fn(Tile) -> bool, b: bool)
    requires
        forall|i: int| 0 <= i < g.len() ==> (#[trigger] g[i])@.len() == n,
        forall|i: int, j: int| 0 <= i < g.len() && 0 <= j < n ==> p(#[trigger] tile_at(g, i, j)) == b,
    ensures
        count_grid(g, p) == if b { g.len() * n } else { 0 },
    decreases g.len(),
{
    if g.len() > 0 {
        let g2 = g.drop_last();
        assert forall|i: int, j: int| 0 <= i < g2.len() && 0 <= j < n implies p(#[trigger] tile_at(g2, i, j)) == b by {
            assert(tile_at(g2, i, j) == tile_at(g, i, j));
        }
        lemma_count_grid_all(g2, n, p, b);
        let last = g.len() - 1;
        assert forall|j: int| 0 <= j < g.last()@.len() implies p(#[trigger] g.last()@[j]) == b by {
            assert(g.last()@[j] == tile_at(g, last, j));
        }
        lemma_count_row_all(g.last()@, p, b);
        assert((g.len() - 1) * n + n == g.len() * n) by (nonlinear_arith);
    }
}


/// `g2` is `g1` with the tile at row `i`, column `j` replaced by `t`.
pub open spec fn set_tile(g1: Seq<Vec<Tile>>, g2: Seq<Vec<Tile>>, i: int, j: int, t: Tile) -> bool {
    &&& 0 <= i < g1.len()
    &&& 0 <= j < g1[i]@.len()
    &&& g2.len() == g1.len()
    &&& g2[i]@ == g1[i]@.update(j, t)
    &&& forall|k: int| 0 <= k < g1.len() && k != i ==> g2[k] == g1[k]
}

pub proof fn lemma_set_tile_at(g1: Seq<Vec<Tile>>, g2: Seq<Vec<Tile>>, i: int, j: int, t: Tile)
    requires
        set_tile(g1, g2, i, j, t),
    ensures
        forall|a: int, b: int| 0 <= a < g1.len() && 0 <= b < g1[a]@.len() ==>
            #[trigger] tile_at(g2, a, b) == if a == i && b == j { t } else { tile_at(g1, a, b) },
        forall|a: int| 0 <= a < g1.len() ==> (#[trigger] g2[a])@.len() == g1[a]@.len(),
{
    assert forall|a: int| 0 <= a < g1.len() implies (#[trigger] g2[a])@.len() == g1[a]@.len() by {
        if a != i {
            assert(g2[a] == g1[a]);
        }
    }
    assert forall|a: int, b: int| 0 <= a < g1.len() && 0 <= b < g1[a]@.len() implies
        #[trigger] tile_at(g2, a, b) == if a == i && b == j { t } else { tile_at(g1, a, b) } by {
        if a != i {
            assert(g2[a] == g1[a]);
        }
    }
}

/// Replacing a well-formed tile keeps the grid well-formed.
pub proof fn lemma_wf_after_set(g1: Seq<Vec<Tile>>, g2: Seq<Vec<Tile>>, n: int, i: int, j: int, t: Tile)
    requires
        grid_wf(g1, n),
        set_tile(g1, g2, i, j, t),
        tile_wf(t, i, j),
    ensures
        grid_wf(g2, n),
{
    lemma_set_tile_at(g1, g2, i, j, t);
    assert forall|a: int, b: int| 0 <= a < n && 0 <= b < n implies tile_wf(#[trigger] tile_at(g2, a, b), a, b) by {
        assert(tile_wf(tile_at(g1, a, b), a, b));
    }
}

/// A change of tile that keeps its terrain and leaves it without a living
/// tree before and after changes none of the counts.
pub proof fn lemma_counts_kept(g1: Seq<Vec<Tile>>, g2: Seq<Vec<Tile>>, i: int, j: int, t: Tile)
    requires
        set_tile(g1, g2, i, j, t),
        t.tile_type == tile_at(g1, i, j).tile_type,
        !is_alive(tile_at(g1, i, j)),
        !is_alive(t),
    ensures
        count_grid(g2, water_pred()) == count_grid(g1, water_pred()),
        count_grid(g2, alive_pred()) == count_grid(g1, alive_pred()),
        count_grid(g2, alive_of_pred(TreeType::Pine)) == count_grid(g1, alive_of_pred(TreeType::Pine)),
        count_grid(g2, alive_of_pred(TreeType::Oak)) == count_grid(g1, alive_of_pred(TreeType::Oak)),
        count_grid(g2, alive_of_pred(TreeType::Birch)) == count_grid(g1, alive_of_pred(TreeType::Birch)),
        count_grid(g2, alive_of_pred(TreeType::Redwood)) == count_grid(g1, alive_of_pred(TreeType::Redwood)),
{
    lemma_count_set_tile(g1, g2, i, j, t, water_pred());
    lemma_count_set_tile(g1, g2, i, j, t, alive_pred());
    lemma_count_set_tile(g1, g2, i, j, t, alive_of_pred(TreeType::Pine));
    lemma_count_set_tile(g1, g2, i, j, t, alive_of_pred(TreeType::Oak));
    lemma_count_set_tile(g1, g2, i, j, t, alive_of_pred(TreeType::Birch));
    lemma_count_set_tile(g1, g2, i, j, t, alive_of_pred(TreeType::Redwood));
}

/// A living tree of archetype `ty` that stops living takes one off the count
/// of living trees and off the count of its archetype.
pub proof fn lemma_counts_ignite(g1: Seq<Vec<Tile>>, g2: Seq<Vec<Tile>>, i: int, j: int, t: Tile, ty: TreeType)
    requires
        set_tile(g1, g2, i, j, t),
        t.tile_type == tile_at(g1, i, j).tile_type,
        is_alive_of(tile_at(g1, i, j), ty),
        !is_alive(t),
    ensures
        count_grid(g2, water_pred()) == count_grid(g1, water_pred()),
        count_grid(g2, alive_pred()) == count_grid(g1, alive_pred()) - 1,
        count_grid(g2, alive_of_pred(TreeType::Pine)) == count_grid(g1, alive_of_pred(TreeType::Pine)) - one_if(ty == TreeType::Pine),
        count_grid(g2, alive_of_pred(TreeType::Oak)) == count_grid(g1, alive_of_pred(TreeType::Oak)) - one_if(ty == TreeType::Oak),
        count_grid(g2, alive_of_pred(TreeType::Birch)) == count_grid(g1, alive_of_pred(TreeType::Birch)) - one_if(ty == TreeType::Birch),
        count_grid(g2, alive_of_pred(TreeType::Redwood)) == count_grid(g1, alive_of_pred(TreeType::Redwood)) - one_if(ty == TreeType::Redwood),
{
    lemma_count_set_tile(g1, g2, i, j, t, water_pred());
    lemma_count_set_tile(g1, g2, i, j, t, alive_pred());
    lemma_count_set_tile(g1, g2, i, j, t, alive_of_pred(TreeType::Pine));
    lemma_count_set_tile(g1, g2, i, j, t, alive_of_pred(TreeType::Oak));
    lemma_count_set_tile(g1, g2, i, j, t, alive_of_pred(TreeType::Birch));
    lemma_count_set_tile(g1, g2, i, j, t, alive_of_pred(TreeType::Redwood));
}

/// Puts `t` at row `i`, column `j`.
pub fn put_tile(forest: &mut Vec<Vec<Tile>>, i: usize, j: usize, t: Tile)
    requires
        i < old(forest)@.len(),
        j < old(forest)@[i as int]@.len(),
    ensures
        set_tile(old(forest)@, final(forest)@, i as int, j as int, t),
{
    forest[i][j] = t;
}


pub proof fn lemma_count_row_same(r1: Seq<Tile>, r2: Seq<Tile>, p: spec_fn(Tile) -> bool)
    requires
        r1.len() == r2.len(),
        forall|j: int| 0 <= j < r1.len() ==> p(#[trigger] r1[j]) == p(r2[j]),
    ensures
        count_row(r1, p) == count_row(r2, p),
    decreases r1.len(),
{
    if r1.len() > 0 {
        let a = r1.drop_last();
        let b = r2.drop_last();
        assert forall|j: int| 0 <= j < a.len() implies p(#[trigger] a[j]) == p(b[j]) by {
            assert(a[j] == r1[j] && b[j] == r2[j]);
        }
        lemma_count_row_same(a, b, p);
    }
}

/// Two grids of one shape, rows of width `w`, whose tiles agree on `p` have
/// the same count.
pub proof fn lemma_count_grid_same(g1: Seq<Vec<Tile>>, g2: Seq<Vec<Tile>>, w: int, p: spec_fn(Tile) -> bool)
    requires
        g1.len() == g2.len(),
        forall|i: int| 0 <= i < g1.len() ==> (#[trigger] g1[i])@.len() == w,
        forall|i: int| 0 <= i < g2.len() ==> (#[trigger] g2[i])@.len() == w,
        forall|i: int, j: int| 0 <= i < g1.len() && 0 <= j < w ==> p(#[trigger] tile_at(g1, i, j)) == p(tile_at(g2, i, j)),
    ensures
        count_grid(g1, p) == count_grid(g2, p),
    decreases g1.len(),
{
    if g1.len() > 0 {
        let a = g1.drop_last();
        let b = g2.drop_last();
        let m = g1.len() - 1;
        assert forall|i: int| 0 <= i < a.len() implies (#[trigger] a[i])@.len() == w by {
            assert(a[i] == g1[i]);
        }
        assert forall|i: int| 0 <= i < b.len() implies (#[trigger] b[i])@.len() == w by {
            assert(b[i] == g2[i]);
        }
        assert forall|i: int, j: int| 0 <= i < a.len() && 0 <= j < w implies p(#[trigger] tile_at(a, i, j)) == p(tile_at(b, i, j)) by {
            assert(tile_at(a, i, j) == tile_at(g1, i, j));
            assert(tile_at(b, i, j) == tile_at(g2, i, j));
        }
        lemma_count_grid_same(a, b, w, p);
        assert forall|j: int| 0 <= j < g1.last()@.len() implies p(#[trigger] g1.last()@[j]) == p(g2.last()@[j]) by {
            assert(g1.last()@[j] == tile_at(g1, m, j));
            assert(g2.last()@[j] == tile_at(g2, m, j));
        }
        lemma_count_row_same(g1.last()@, g2.last()@, p);
    }
}


pub proof fn lemma_count_row_split(r: Seq<Tile>, p: spec_fn(Tile) -> bool, q: spec_fn(Tile) -> bool, u: spec_fn(Tile) -> bool)
    requires
        forall|t: Tile| #[trigger] u(t) == (p(t) || q(t)),
        forall|t: Tile| !(#[trigger] p(t) && q(t)),
    ensures
        count_row(r, u) == count_row(r, p) + count_row(r, q),
    decreases r.len(),
{
    if r.len() > 0 {
        lemma_count_row_split(r.drop_last(), p, q, u);
    }
}

/// Where `u` holds of a tile exactly when one of two exclusive predicates
/// `p` and `q` does, its count is the sum of theirs.
pub proof fn lemma_count_grid_split(g: Seq<Vec<Tile>>, p: spec_fn(Tile) -> bool, q: spec_fn(Tile) -> bool, u: spec_fn(Tile) -> bool)
    requires
        forall|t: Tile| #[trigger] u(t) == (p(t) || q(t)),
        forall|t: Tile| !(#[trigger] p(t) && q(t)),
    ensures
        count_grid(g, u) == count_grid(g, p) + count_grid(g, q),
    decreases g.len(),
{
    if g.len() > 0 {
        lemma_count_grid_split(g.drop_last(), p, q, u);
        lemma_count_row_split(g.last()@, p, q, u);
    }
}

} // verus!
