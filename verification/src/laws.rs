use vstd::multiset::Multiset;
use vstd::prelude::*;

use crate::config::{DEFAULT_BRUSH_R, GRID_CELLS, GRID_HEIGHT, GRID_WIDTH};
use crate::grid::{
    cleared, frame, idx, in_grid, lemma_paint_result_pointwise, moved, paint_result, run, swapped,
    visit_x, visit_y, Cell, Material, Stats,
};
use crate::rules::{
    density_of, diagonal_fall, diagonal_move, displaces, first_move, fire_rule, ignite_at, ignition,
    lit, mat, rule, spread_from, takes, Choices,
};

verus! {

/// Displacement is a strict order on materials: no material displaces
/// itself, it never goes both ways, it chains, nothing displaces stone and
/// air displaces nothing.
pub proof fn law_displacement_is_strict_order(a: Material, b: Material, c: Material)
    ensures
        !displaces(a, a),
        displaces(a, b) ==> !displaces(b, a),
        displaces(a, b) && displaces(b, c) ==> displaces(a, c),
        !displaces(a, Material::Stone),
        !displaces(Material::Air, a),
{
}

/// Distinct positions of the grid have distinct indices, each below the
/// number of cells.
pub proof fn law_index_is_injective(x1: int, y1: int, x2: int, y2: int)
    requires
        in_grid(x1, y1),
        in_grid(x2, y2),
    ensures
        0 <= idx(x1, y1) < GRID_CELLS,
        idx(x1, y1) == idx(x2, y2) ==> x1 == x2 && y1 == y2,
{
    vstd::arithmetic::div_mod::lemma_fundamental_div_mod_converse(idx(x1, y1), GRID_WIDTH as int, y1, x1);
    vstd::arithmetic::div_mod::lemma_fundamental_div_mod_converse(idx(x2, y2), GRID_WIDTH as int, y2, x2);
}

/// Reading a cell back after writing it gives what was written; writing a
/// cell leaves every other cell as it was.
pub proof fn law_get_after_set(cells: Seq<Cell>, x: int, y: int, c: Cell, px: int, py: int)
    requires
        cells.len() == GRID_CELLS,
        in_grid(x, y),
        in_grid(px, py),
    ensures
        cells.update(idx(x, y), c)[idx(px, py)] == if px == x && py == y {
            c
        } else {
            cells[idx(px, py)]
        },
{
    law_index_is_injective(x, y, px, py);
}

/// A swap hands each of the two cells the other's contents, marked as
/// updated, and leaves every other cell alone.
pub proof fn law_swap_exchanges(cells: Seq<Cell>, i: int, j: int, k: int)
    requires
        0 <= i < cells.len(),
        0 <= j < cells.len(),
        0 <= k < cells.len(),
    ensures
        swapped(cells, i, j).len() == cells.len(),
        swapped(cells, i, j)[j] == moved(cells[i]),
        i != j ==> swapped(cells, i, j)[i] == moved(cells[j]),
        k != i && k != j ==> swapped(cells, i, j)[k] == cells[k],
{
}

/// Swapping the same two cells twice brings every material and lifetime
/// back; only the `updated` marks of the two cells remain set.
pub proof fn law_swap_twice_restores(cells: Seq<Cell>, i: int, j: int)
    requires
        0 <= i < cells.len(),
        0 <= j < cells.len(),
    ensures
        swapped(swapped(cells, i, j), i, j) == cells.update(i, moved(cells[i])).update(
            j,
            moved(cells[j]),
        ),
{
    assert(swapped(swapped(cells, i, j), i, j) =~= cells.update(i, moved(cells[i])).update(
        j,
        moved(cells[j]),
    ));
}

/// Swapping is symmetric in its two positions.
pub proof fn law_swap_is_symmetric(cells: Seq<Cell>, i: int, j: int)
    requires
        0 <= i < cells.len(),
        0 <= j < cells.len(),
    ensures
        swapped(cells, i, j) == swapped(cells, j, i),
{
    assert(swapped(cells, i, j) =~= swapped(cells, j, i));
}

/// An update visits every cell of the grid exactly once: the `k`-th visit,
/// for `k` below the number of cells, lands on the grid, and two different
/// visits land on different cells.
pub proof fn law_visits_cover_grid_once(k1: int, k2: int)
    requires
        0 <= k1 < GRID_CELLS,
        0 <= k2 < GRID_CELLS,
    ensures
        in_grid(visit_x(k1), visit_y(k1)),
        k1 != k2 ==> idx(visit_x(k1), visit_y(k1)) != idx(visit_x(k2), visit_y(k2)),
{
    let w = GRID_WIDTH as int;
    vstd::arithmetic::div_mod::lemma_fundamental_div_mod(k1, w);
    vstd::arithmetic::div_mod::lemma_fundamental_div_mod(k2, w);
    assert(0 <= k1 / w < GRID_HEIGHT) by {
        vstd::arithmetic::div_mod::lemma_div_plus_one(k1, w);
    }
    law_index_is_injective(visit_x(k1), visit_y(k1), visit_x(k2), visit_y(k2));
}

/// Every position of the grid is visited by some visit of an update.
pub proof fn law_every_cell_is_visited(x: int, y: int)
    requires
        in_grid(x, y),
    ensures
        exists|k: int| 0 <= k < GRID_CELLS && visit_x(k) == x && visit_y(k) == y,
{
    let r = GRID_HEIGHT - 1 - y;
    let i = if r % 2 == 1 { GRID_WIDTH - 1 - x } else { x };
    let k = r * GRID_WIDTH + i;
    vstd::arithmetic::div_mod::lemma_fundamental_div_mod_converse(k, GRID_WIDTH as int, r, i);
    assert(visit_x(k) == x && visit_y(k) == y);
}


/// The materials of `cells`, in order.
pub open spec fn materials_seq(cells: Seq<Cell>) -> Seq<Material> {
    Seq::new(cells.len(), |i: int| cells[i].material)
}

/// How many cells of `cells` hold material `m`.
pub open spec fn amount(cells: Seq<Cell>, m: Material) -> nat {
    materials_seq(cells).to_multiset().count(m)
}

/// The (material, lifetime) pair of each cell, in order.
pub open spec fn pairs_seq(cells: Seq<Cell>) -> Seq<(Material, u16)> {
    Seq::new(cells.len(), |i: int| (cells[i].material, cells[i].lifetime))
}

/// The (material, lifetime) pairs of `cells`, counted with multiplicity.
pub open spec fn pairs(cells: Seq<Cell>) -> Multiset<(Material, u16)> {
    pairs_seq(cells).to_multiset()
}

/// From `before` to `after` no sand, water or stone appears or disappears;
/// wood only turns into fire, fire into smoke and smoke into air, so wood
/// never grows, air never shrinks, and air, wood, fire and smoke together
/// keep their number.
pub open spec fn conserves(before: Seq<Cell>, after: Seq<Cell>) -> bool {
    &&& after.len() == before.len()
    &&& amount(after, Material::Sand) == amount(before, Material::Sand)
    &&& amount(after, Material::Water) == amount(before, Material::Water)
    &&& amount(after, Material::Stone) == amount(before, Material::Stone)
    &&& amount(after, Material::Wood) <= amount(before, Material::Wood)
    &&& amount(after, Material::Air) >= amount(before, Material::Air)
    &&& amount(after, Material::Air) + amount(after, Material::Wood) + amount(after, Material::Fire)
        + amount(after, Material::Smoke) == amount(before, Material::Air) + amount(
        before,
        Material::Wood,
    ) + amount(before, Material::Fire) + amount(before, Material::Smoke)
}

/// Every stone cell of `before` is exactly the same in `after`, and every
/// stone cell of `after` was stone in `before`.
pub open spec fn stone_fixed(before: Seq<Cell>, after: Seq<Cell>) -> bool {
    &&& after.len() == before.len()
    &&& forall|p: int|
        #![trigger before[p]]
        #![trigger after[p]]
        0 <= p < before.len() ==> (before[p].material == Material::Stone ==> after[p] == before[p])
            && (after[p].material == Material::Stone ==> before[p].material == Material::Stone)
}

/// Every cell that differs between `before` and `after` is marked as
/// updated in `after`.
pub open spec fn changes_marked(before: Seq<Cell>, after: Seq<Cell>) -> bool {
    &&& after.len() == before.len()
    &&& forall|p: int| 0 <= p < before.len() && #[trigger] after[p] != before[p] ==> after[p].updated
}

/// All three: conservation, stone in place, changes marked.
pub open spec fn evolves(before: Seq<Cell>, after: Seq<Cell>) -> bool {
    &&& conserves(before, after)
    &&& stone_fixed(before, after)
    &&& changes_marked(before, after)
}

/// `after` holds the same cells as `before`, only moved (changes marked,
/// stone in place): the same materials and the same (material, lifetime)
/// pairs, counted with multiplicity.
pub open spec fn shuffles(before: Seq<Cell>, after: Seq<Cell>) -> bool {
    &&& materials_seq(after).to_multiset() == materials_seq(before).to_multiset()
    &&& pairs(after) == pairs(before)
    &&& stone_fixed(before, after)
    &&& changes_marked(before, after)
}

proof fn lemma_count_update<A>(s: Seq<A>, i: int, a: A, v: A)
    requires
        0 <= i < s.len(),
    ensures
        s.update(i, a).to_multiset().count(v) == s.to_multiset().count(v) + (if v == a { 1int } else { 0 })
            - (if v == s[i] { 1int } else { 0 }),
{
    broadcast use vstd::seq_lib::to_multiset_update, vstd::seq_lib::to_multiset_contains, vstd::multiset::group_multiset_axioms;

    assert(s.contains(s[i]));
}

proof fn lemma_swap_multiset<A>(s: Seq<A>, i: int, j: int)
    requires
        0 <= i < s.len(),
        0 <= j < s.len(),
    ensures
        s.update(i, s[j]).update(j, s[i]).to_multiset() == s.to_multiset(),
{
    let s1 = s.update(i, s[j]);
    assert forall|v: A| #[trigger] s.update(i, s[j]).update(j, s[i]).to_multiset().count(v) == s.to_multiset().count(v) by {
        lemma_count_update(s, i, s[j], v);
        lemma_count_update(s1, j, s[i], v);
    }
    assert(s.update(i, s[j]).update(j, s[i]).to_multiset() =~= s.to_multiset());
}

proof fn lemma_amount_update(cells: Seq<Cell>, i: int, c: Cell, m: Material)
    requires
        0 <= i < cells.len(),
    ensures
        amount(cells.update(i, c), m) == amount(cells, m) + (if c.material == m { 1int } else { 0 })
            - (if cells[i].material == m { 1int } else { 0 }),
{
    assert(materials_seq(cells.update(i, c)) =~= materials_seq(cells).update(i, c.material));
    lemma_count_update(materials_seq(cells), i, c.material, m);
}

proof fn lemma_shuffles_evolves(a: Seq<Cell>, b: Seq<Cell>)
    requires
        shuffles(a, b),
    ensures
        evolves(a, b),
{
}

proof fn lemma_shuffles_refl(a: Seq<Cell>)
    ensures
        shuffles(a, a),
{
}

proof fn lemma_shuffles_trans(a: Seq<Cell>, b: Seq<Cell>, c: Seq<Cell>)
    requires
        shuffles(a, b),
        shuffles(b, c),
    ensures
        shuffles(a, c),
{
    assert forall|p: int| 0 <= p < a.len() && #[trigger] c[p] != a[p] implies c[p].updated by {
        if c[p] == b[p] {
            assert(b[p] != a[p]);
        }
    }
}

proof fn lemma_evolves_trans(a: Seq<Cell>, b: Seq<Cell>, c: Seq<Cell>)
    requires
        evolves(a, b),
        evolves(b, c),
    ensures
        evolves(a, c),
{
    assert forall|p: int| 0 <= p < a.len() && #[trigger] c[p] != a[p] implies c[p].updated by {
        if c[p] == b[p] {
            assert(b[p] != a[p]);
        }
    }
}

proof fn lemma_evolves_refl(a: Seq<Cell>)
    ensures
        evolves(a, a),
{
}

proof fn lemma_swap_shuffles(cells: Seq<Cell>, p: int, q: int)
    requires
        0 <= p < cells.len(),
        0 <= q < cells.len(),
        cells[p].material != Material::Stone,
        cells[q].material != Material::Stone,
    ensures
        shuffles(cells, swapped(cells, p, q)),
{
    let s = swapped(cells, p, q);
    let ms = materials_seq(cells);
    assert(materials_seq(s) =~= ms.update(p, ms[q]).update(q, ms[p]));
    lemma_swap_multiset(ms, p, q);
    let ps = pairs_seq(cells);
    assert(pairs_seq(s) =~= ps.update(p, ps[q]).update(q, ps[p]));
    lemma_swap_multiset(ps, p, q);
}

/// Whether the cell at (`x`, `y`) may take the place of position `q`:
/// the target is lighter, or it is air.
spec fn fair_target(cells: Seq<Cell>, x: int, y: int, q: int) -> bool {
    displaces(mat(cells, x, y), cells[q].material) || cells[q].material == Material::Air
}

proof fn lemma_move_shuffles(cells: Seq<Cell>, x: int, y: int, tx: int, ty: int)
    requires
        cells.len() == GRID_CELLS,
        in_grid(x, y),
        in_grid(tx, ty),
        mat(cells, x, y) != Material::Stone,
        fair_target(cells, x, y, idx(tx, ty)),
    ensures
        shuffles(cells, swapped(cells, idx(x, y), idx(tx, ty))),
{
    law_index_is_injective(x, y, tx, ty);
    lemma_swap_shuffles(cells, idx(x, y), idx(tx, ty));
}

proof fn lemma_first_move_shuffles(cells: Seq<Cell>, x: int, y: int, dx: int, ty: int)
    requires
        cells.len() == GRID_CELLS,
        in_grid(x, y),
        mat(cells, x, y) != Material::Stone,
        0 <= ty < GRID_HEIGHT,
    ensures
        first_move(cells, x, y, dx, ty) matches Some(next) ==> shuffles(cells, next),
{
    let m = mat(cells, x, y);
    if in_grid(x + dx, ty) && displaces(m, mat(cells, x + dx, ty)) {
        lemma_move_shuffles(cells, x, y, x + dx, ty);
    } else if x == 0 && displaces(m, mat(cells, 1, ty)) {
        lemma_move_shuffles(cells, x, y, 1, ty);
    } else if x == GRID_WIDTH - 1 && displaces(m, mat(cells, x - 1, ty)) {
        lemma_move_shuffles(cells, x, y, x - 1, ty);
    }
}

proof fn lemma_diagonal_shuffles(cells: Seq<Cell>, x: int, y: int, ty: int, dx: int)
    requires
        cells.len() == GRID_CELLS,
        in_grid(x, y),
        mat(cells, x, y) != Material::Stone,
        0 <= ty < GRID_HEIGHT,
    ensures
        diagonal_move(cells, x, y, ty, dx) matches Some(next) ==> shuffles(cells, next),
        shuffles(cells, diagonal_fall(cells, x, y, ty, dx)),
        density_of(mat(diagonal_fall(cells, x, y, ty, dx), x, y)) <= density_of(mat(cells, x, y)),
{
    law_index_is_injective(x, y, x, y);
    let m = mat(cells, x, y);
    if in_grid(x + dx, ty) && displaces(m, mat(cells, x + dx, ty)) {
        lemma_move_shuffles(cells, x, y, x + dx, ty);
    } else if in_grid(x - dx, ty) && displaces(m, mat(cells, x - dx, ty)) {
        lemma_move_shuffles(cells, x, y, x - dx, ty);
    } else {
        lemma_shuffles_refl(cells);
    }
}

proof fn lemma_spread_shuffles(cells: Seq<Cell>, x: int, y: int, d: int, n: int, dir: int, air_only: bool)
    requires
        cells.len() == GRID_CELLS,
        in_grid(x, y),
        mat(cells, x, y) != Material::Stone,
    ensures
        shuffles(cells, spread_from(cells, x, y, d, n, dir, air_only)),
    decreases n + 1 - d,
{
    if d <= n {
        let off = d * dir;
        if in_grid(x + off, y) && takes(cells, x, y, x + off, air_only) {
            lemma_move_shuffles(cells, x, y, x + off, y);
        } else if in_grid(x - off, y) && takes(cells, x, y, x - off, air_only) {
            lemma_move_shuffles(cells, x, y, x - off, y);
        } else {
            lemma_spread_shuffles(cells, x, y, d + 1, n, dir, air_only);
        }
    } else {
        lemma_shuffles_refl(cells);
    }
}

proof fn lemma_water_shuffles(cells: Seq<Cell>, x: int, y: int, ch: Choices)
    requires
        cells.len() == GRID_CELLS,
        in_grid(x, y),
        mat(cells, x, y) == Material::Water,
    ensures
        shuffles(cells, crate::rules::water_rule(cells, x, y, ch)),
{
    if y < GRID_HEIGHT - 1 {
        lemma_first_move_shuffles(cells, x, y, 0, y + 1);
        lemma_diagonal_shuffles(cells, x, y, y + 1, ch.side as int);
    }
    lemma_spread_shuffles(cells, x, y, 1, ch.water_spread as int, ch.direction as int, true);
}

proof fn lemma_sand_shuffles(cells: Seq<Cell>, x: int, y: int, ch: Choices)
    requires
        cells.len() == GRID_CELLS,
        in_grid(x, y),
        mat(cells, x, y) == Material::Sand,
    ensures
        shuffles(cells, crate::rules::sand_rule(cells, x, y, ch)),
{
    if y < GRID_HEIGHT - 1 {
        lemma_first_move_shuffles(cells, x, y, 0, y + 1);
        lemma_diagonal_shuffles(cells, x, y, y + 1, ch.side as int);
    } else {
        lemma_shuffles_refl(cells);
    }
}

/// Rewriting the cell at `i` with a cell of the same material, marked as
/// updated, is an evolution.
proof fn lemma_restamp_evolves(cells: Seq<Cell>, i: int, c: Cell)
    requires
        0 <= i < cells.len(),
        c.material == cells[i].material,
        c.material != Material::Stone,
        c.updated,
    ensures
        evolves(cells, cells.update(i, c)),
{
    assert forall|m: Material| #[trigger] amount(cells.update(i, c), m) == amount(cells, m) by {
        lemma_amount_update(cells, i, c, m);
    }
    assert(amount(cells.update(i, c), Material::Air) == amount(cells, Material::Air));
    assert(amount(cells.update(i, c), Material::Sand) == amount(cells, Material::Sand));
    assert(amount(cells.update(i, c), Material::Water) == amount(cells, Material::Water));
    assert(amount(cells.update(i, c), Material::Stone) == amount(cells, Material::Stone));
    assert(amount(cells.update(i, c), Material::Wood) == amount(cells, Material::Wood));
    assert(amount(cells.update(i, c), Material::Fire) == amount(cells, Material::Fire));
    assert(amount(cells.update(i, c), Material::Smoke) == amount(cells, Material::Smoke));
}

/// Turning the cell at `i` from `from` into a marked cell of material `to`,
/// along the chain wood, fire, smoke, air, is an evolution.
proof fn lemma_turn_evolves(cells: Seq<Cell>, i: int, c: Cell, from: Material)
    requires
        0 <= i < cells.len(),
        cells[i].material == from,
        c.updated,
        (from == Material::Wood && c.material == Material::Fire) || (from == Material::Fire
            && c.material == Material::Smoke) || (from == Material::Smoke && c.material
            == Material::Air),
    ensures
        evolves(cells, cells.update(i, c)),
{
    let after = cells.update(i, c);
    assert forall|m: Material| #[trigger] amount(after, m) == amount(cells, m) + (if c.material == m { 1int } else { 0 })
        - (if from == m { 1int } else { 0 }) by {
        lemma_amount_update(cells, i, c, m);
    }
    assert(amount(after, Material::Air) == amount(cells, Material::Air) + (if c.material == Material::Air { 1int } else { 0 }));
    assert(amount(after, Material::Sand) == amount(cells, Material::Sand));
    assert(amount(after, Material::Water) == amount(cells, Material::Water));
    assert(amount(after, Material::Stone) == amount(cells, Material::Stone));
    assert(amount(after, Material::Wood) + (if from == Material::Wood { 1int } else { 0 }) == amount(cells, Material::Wood));
    assert(amount(after, Material::Fire) + (if from == Material::Fire { 1int } else { 0 }) == amount(cells, Material::Fire) + (if c.material == Material::Fire { 1int } else { 0 }));
    assert(amount(after, Material::Smoke) + (if from == Material::Smoke { 1int } else { 0 }) == amount(cells, Material::Smoke) + (if c.material == Material::Smoke { 1int } else { 0 }));
}

proof fn lemma_ignite_at_evolves(cells: Seq<Cell>, nx: int, ny: int, life: u16)
    requires
        cells.len() == GRID_CELLS,
    ensures
        evolves(cells, ignite_at(cells, nx, ny, life)),
        forall|p: int|
            0 <= p < cells.len() && (#[trigger] cells[p]).material != Material::Wood
                ==> ignite_at(cells, nx, ny, life)[p] == cells[p],
        forall|p: int|
            0 <= p < cells.len() ==> #[trigger] ignite_at(cells, nx, ny, life)[p] == cells[p] || (
            ignite_at(cells, nx, ny, life)[p].material == Material::Fire && ignite_at(
                cells,
                nx,
                ny,
                life,
            )[p].updated),
{
    if in_grid(nx, ny) && mat(cells, nx, ny) == Material::Wood {
        law_index_is_injective(nx, ny, nx, ny);
        lemma_turn_evolves(cells, idx(nx, ny), lit(life), Material::Wood);
    } else {
        lemma_evolves_refl(cells);
    }
}

proof fn lemma_ignition_evolves(cells: Seq<Cell>, x: int, y: int, ch: Choices)
    requires
        cells.len() == GRID_CELLS,
    ensures
        evolves(cells, ignition(cells, x, y, ch)),
        forall|p: int|
            0 <= p < cells.len() && (#[trigger] cells[p]).material != Material::Wood
                ==> ignition(cells, x, y, ch)[p] == cells[p],
        forall|p: int|
            0 <= p < cells.len() ==> #[trigger] ignition(cells, x, y, ch)[p] == cells[p] || (ignition(
                cells,
                x,
                y,
                ch,
            )[p].material == Material::Fire && ignition(cells, x, y, ch)[p].updated),
{
    let c1 = ignite_at(cells, x - 1, y, ch.kindle_left);
    let c2 = ignite_at(c1, x + 1, y, ch.kindle_right);
    let c3 = ignite_at(c2, x, y - 1, ch.kindle_up);
    let c4 = ignite_at(c3, x, y + 1, ch.kindle_down);
    lemma_ignite_at_evolves(cells, x - 1, y, ch.kindle_left);
    lemma_ignite_at_evolves(c1, x + 1, y, ch.kindle_right);
    lemma_ignite_at_evolves(c2, x, y - 1, ch.kindle_up);
    lemma_ignite_at_evolves(c3, x, y + 1, ch.kindle_down);
    lemma_evolves_trans(cells, c1, c2);
    lemma_evolves_trans(cells, c2, c3);
    lemma_evolves_trans(cells, c3, c4);
    assert forall|p: int| 0 <= p < cells.len() implies #[trigger] c4[p] == cells[p] || (c4[p].material
        == Material::Fire && c4[p].updated) by {
        assert(c1[p] == cells[p] || (c1[p].material == Material::Fire && c1[p].updated));
        assert(c2[p] == c1[p] || (c2[p].material == Material::Fire && c2[p].updated));
        assert(c3[p] == c2[p] || (c3[p].material == Material::Fire && c3[p].updated));
        assert(c4[p] == c3[p] || (c4[p].material == Material::Fire && c4[p].updated));
        if c1[p] != cells[p] {
            assert(c1[p].material != Material::Wood);
        }
        if c2[p] != c1[p] {
            assert(c2[p].material != Material::Wood);
        }
        if c3[p] != c2[p] {
            assert(c3[p].material != Material::Wood);
        }
    }
    assert forall|p: int| 0 <= p < cells.len() && (#[trigger] cells[p]).material != Material::Wood
        implies c4[p] == cells[p] by {
        assert(c1[p] == cells[p]);
        assert(c2[p] == c1[p]);
        assert(c3[p] == c2[p]);
    }
}

proof fn lemma_fire_evolves(cells: Seq<Cell>, x: int, y: int, ch: Choices)
    requires
        cells.len() == GRID_CELLS,
        in_grid(x, y),
        mat(cells, x, y) == Material::Fire,
    ensures
        evolves(cells, fire_rule(cells, x, y, ch)),
{
    let i = idx(x, y);
    law_index_is_injective(x, y, x, y);
    let left = (cells[i].lifetime - 1) as u16;
    let burnt = cells.update(i, Cell { material: Material::Fire, updated: true, lifetime: left });
    lemma_restamp_evolves(cells, i, Cell { material: Material::Fire, updated: true, lifetime: left });
    if left == 0 {
        let smoke = Cell { material: Material::Smoke, updated: true, lifetime: 150 };
        lemma_turn_evolves(burnt, i, smoke, Material::Fire);
        lemma_evolves_trans(cells, burnt, burnt.update(i, smoke));
    } else {
        let spread = ignition(burnt, x, y, ch);
        lemma_ignition_evolves(burnt, x, y, ch);
        lemma_evolves_trans(cells, burnt, spread);
        assert(spread[i] == burnt[i]);
        if in_grid(x, y - 1) && mat(spread, x, y - 1) == Material::Air {
            lemma_move_shuffles(spread, x, y, x, y - 1);
            lemma_shuffles_evolves(spread, swapped(spread, i, idx(x, y - 1)));
            lemma_evolves_trans(cells, spread, swapped(spread, i, idx(x, y - 1)));
        }
    }
}

proof fn lemma_smoke_evolves(cells: Seq<Cell>, x: int, y: int, ch: Choices)
    requires
        cells.len() == GRID_CELLS,
        in_grid(x, y),
        mat(cells, x, y) == Material::Smoke,
    ensures
        evolves(cells, crate::rules::smoke_rule(cells, x, y, ch)),
{
    let i = idx(x, y);
    law_index_is_injective(x, y, x, y);
    let left: u16 = if cells[i].lifetime > 0 { (cells[i].lifetime - 1) as u16 } else { 0 };
    let aged = cells.update(i, Cell { material: Material::Smoke, updated: true, lifetime: left });
    lemma_restamp_evolves(cells, i, Cell { material: Material::Smoke, updated: true, lifetime: left });
    if left == 0 {
        let gone = Cell { material: Material::Air, updated: true, lifetime: 0 };
        lemma_turn_evolves(aged, i, gone, Material::Smoke);
        lemma_evolves_trans(cells, aged, aged.update(i, gone));
    } else if y > 1 {
        let dx: int = if ch.horizontal_move { ch.drift as int } else { 0 };
        lemma_first_move_shuffles(aged, x, y, dx, y - 1);
        if let Some(next) = first_move(aged, x, y, dx, y - 1) {
            lemma_shuffles_evolves(aged, next);
            lemma_evolves_trans(cells, aged, next);
        } else {
            let rose = diagonal_fall(aged, x, y, y - 1, ch.side as int);
            lemma_diagonal_shuffles(aged, x, y, y - 1, ch.side as int);
            lemma_spread_shuffles(rose, x, y, 1, ch.smoke_spread as int, ch.direction as int, false);
            let fin = spread_from(rose, x, y, 1, ch.smoke_spread as int, ch.direction as int, false);
            lemma_shuffles_trans(aged, rose, fin);
            lemma_shuffles_evolves(aged, fin);
            lemma_evolves_trans(cells, aged, fin);
        }
    }
}

/// One rule application keeps sand, water and stone in number, only lets
/// wood burn, fire turn to smoke and smoke fade to air, never moves, changes
/// or creates a stone cell, and marks every cell it changes as updated, so
/// that no cell moves twice in a frame.
pub proof fn law_rule_evolves(cells: Seq<Cell>, x: int, y: int, ch: Choices)
    requires
        cells.len() == GRID_CELLS,
        in_grid(x, y),
    ensures
        evolves(cells, rule(cells, x, y, ch)),
{
    match mat(cells, x, y) {
        Material::Sand => {
            lemma_sand_shuffles(cells, x, y, ch);
            lemma_shuffles_evolves(cells, rule(cells, x, y, ch));
        },
        Material::Water => {
            lemma_water_shuffles(cells, x, y, ch);
            lemma_shuffles_evolves(cells, rule(cells, x, y, ch));
        },
        Material::Smoke => {
            lemma_smoke_evolves(cells, x, y, ch);
        },
        Material::Fire => {
            lemma_fire_evolves(cells, x, y, ch);
        },
        _ => {
            lemma_evolves_refl(cells);
        },
    }
}


proof fn lemma_run_evolves(state: (Seq<Cell>, Stats), cs: Seq<Choices>)
    requires
        state.0.len() == GRID_CELLS,
        cs.len() <= GRID_CELLS,
    ensures
        evolves(state.0, run(state, cs).0),
    decreases cs.len(),
{
    if cs.len() == 0 {
        lemma_evolves_refl(state.0);
    } else {
        let k = cs.len() - 1;
        let prev = run(state, cs.drop_last());
        lemma_run_evolves(state, cs.drop_last());
        law_visits_cover_grid_once(k, k);
        let (x, y) = (visit_x(k), visit_y(k));
        if prev.0[idx(x, y)].updated {
            lemma_evolves_refl(prev.0);
        } else {
            law_rule_evolves(prev.0, x, y, cs.last());
        }
        lemma_evolves_trans(state.0, prev.0, run(state, cs).0);
    }
}

/// A whole update, whatever its random draws, conserves the materials as
/// `conserves` says, and leaves every stone cell exactly as it was but for
/// the cleared `updated` mark; no stone appears where there was none.
pub proof fn law_update_conserves(cells: Seq<Cell>, cs: Seq<Choices>)
    requires
        cells.len() == GRID_CELLS,
        cs.len() == GRID_CELLS,
    ensures
        conserves(cells, frame(cells, cs).0),
        forall|p: int|
            0 <= p < GRID_CELLS ==> (cells[p].material == Material::Stone ==> #[trigger] frame(
                cells,
                cs,
            ).0[p] == cleared(cells)[p]) && (frame(cells, cs).0[p].material == Material::Stone
                ==> cells[p].material == Material::Stone),
{
    let start = cleared(cells);
    assert(materials_seq(start) =~= materials_seq(cells));
    lemma_run_evolves((start, crate::grid::zero_stats()), cs);
    let after = frame(cells, cs).0;
    assert forall|p: int| 0 <= p < GRID_CELLS implies (cells[p].material == Material::Stone ==> #[trigger] frame(
        cells,
        cs,
    ).0[p] == cleared(cells)[p]) && (frame(cells, cs).0[p].material == Material::Stone
        ==> cells[p].material == Material::Stone) by {
        assert(start[p].material == cells[p].material);
        assert(after[p] == frame(cells, cs).0[p]);
    }
}

proof fn lemma_present(cells: Seq<Cell>, p: int)
    requires
        0 <= p < cells.len(),
    ensures
        amount(cells, cells[p].material) > 0,
{
    broadcast use vstd::seq_lib::to_multiset_contains;

    let ms = materials_seq(cells);
    assert(ms[p] == cells[p].material);
    assert(ms.contains(cells[p].material));
}

proof fn lemma_run_without_fire(state: (Seq<Cell>, Stats), cs: Seq<Choices>)
    requires
        state.0.len() == GRID_CELLS,
        cs.len() <= GRID_CELLS,
        amount(state.0, Material::Fire) == 0,
        amount(state.0, Material::Smoke) == 0,
    ensures
        materials_seq(run(state, cs).0).to_multiset() == materials_seq(state.0).to_multiset(),
        run(state, cs).0.len() == GRID_CELLS,
    decreases cs.len(),
{
    if cs.len() > 0 {
        let k = cs.len() - 1;
        let prev = run(state, cs.drop_last());
        lemma_run_without_fire(state, cs.drop_last());
        law_visits_cover_grid_once(k, k);
        let (x, y) = (visit_x(k), visit_y(k));
        if !prev.0[idx(x, y)].updated {
            lemma_present(prev.0, idx(x, y));
            match mat(prev.0, x, y) {
                Material::Sand => {
                    lemma_sand_shuffles(prev.0, x, y, cs.last());
                },
                Material::Water => {
                    lemma_water_shuffles(prev.0, x, y, cs.last());
                },
                _ => {},
            }
        }
    }
}

/// When no fire and no smoke is on the grid, a whole update, whatever its
/// random draws, keeps the number of cells of every material: nothing burns
/// and every move is a swap.
pub proof fn law_update_without_fire_keeps_counts(cells: Seq<Cell>, cs: Seq<Choices>, m: Material)
    requires
        cells.len() == GRID_CELLS,
        cs.len() == GRID_CELLS,
        forall|p: int|
            0 <= p < cells.len() ==> (#[trigger] cells[p]).material != Material::Fire
                && cells[p].material != Material::Smoke,
    ensures
        amount(frame(cells, cs).0, m) == amount(cells, m),
{
    broadcast use vstd::seq_lib::to_multiset_contains;

    let start = cleared(cells);
    assert(materials_seq(start) =~= materials_seq(cells));
    assert(!materials_seq(cells).contains(Material::Fire));
    assert(!materials_seq(cells).contains(Material::Smoke));
    lemma_run_without_fire((start, crate::grid::zero_stats()), cs);
}

/// Between `before` and `after` only cells in rows `y` and `y + 1`, at most
/// four columns from `x`, may differ.
pub open spec fn only_near(before: Seq<Cell>, after: Seq<Cell>, x: int, y: int) -> bool {
    &&& after.len() == before.len()
    &&& forall|px: int, py: int|
        in_grid(px, py) && !(y <= py <= y + 1 && x - 4 <= px <= x + 4) ==> #[trigger] after[idx(
            px,
            py,
        )] == before[idx(px, py)]
}

proof fn lemma_swap_near(cells: Seq<Cell>, x: int, y: int, tx: int, ty: int)
    requires
        cells.len() == GRID_CELLS,
        in_grid(x, y),
        in_grid(tx, ty),
        y <= ty <= y + 1,
        x - 4 <= tx <= x + 4,
    ensures
        only_near(cells, swapped(cells, idx(x, y), idx(tx, ty)), x, y),
{
    law_index_is_injective(x, y, x, y);
    law_index_is_injective(tx, ty, tx, ty);
    assert forall|px: int, py: int|
        in_grid(px, py) && !(y <= py <= y + 1 && x - 4 <= px <= x + 4) implies #[trigger] swapped(
        cells,
        idx(x, y),
        idx(tx, ty),
    )[idx(px, py)] == cells[idx(px, py)] by {
        law_index_is_injective(px, py, x, y);
        law_index_is_injective(px, py, tx, ty);
    }
}

proof fn lemma_first_move_near(cells: Seq<Cell>, x: int, y: int)
    requires
        cells.len() == GRID_CELLS,
        in_grid(x, y),
        y < GRID_HEIGHT - 1,
    ensures
        first_move(cells, x, y, 0, y + 1) matches Some(next) ==> only_near(cells, next, x, y),
{
    let m = mat(cells, x, y);
    let ty = y + 1;
    if in_grid(x, ty) && displaces(m, mat(cells, x, ty)) {
        lemma_swap_near(cells, x, y, x, ty);
    } else if x == 0 && displaces(m, mat(cells, 1, ty)) {
        lemma_swap_near(cells, x, y, 1, ty);
    } else if x == GRID_WIDTH - 1 && displaces(m, mat(cells, x - 1, ty)) {
        lemma_swap_near(cells, x, y, x - 1, ty);
    }
}

proof fn lemma_diagonal_near(cells: Seq<Cell>, x: int, y: int, dx: int)
    requires
        cells.len() == GRID_CELLS,
        in_grid(x, y),
        y < GRID_HEIGHT - 1,
        dx == -1 || dx == 1,
    ensures
        diagonal_move(cells, x, y, y + 1, dx) matches Some(next) ==> only_near(cells, next, x, y),
        only_near(cells, diagonal_fall(cells, x, y, y + 1, dx), x, y),
{
    let m = mat(cells, x, y);
    let ty = y + 1;
    if in_grid(x + dx, ty) && displaces(m, mat(cells, x + dx, ty)) {
        lemma_swap_near(cells, x, y, x + dx, ty);
    } else if in_grid(x - dx, ty) && displaces(m, mat(cells, x - dx, ty)) {
        lemma_swap_near(cells, x, y, x - dx, ty);
    }
}

proof fn lemma_spread_near(cells: Seq<Cell>, x: int, y: int, d: int, n: int, dir: int, air_only: bool)
    requires
        cells.len() == GRID_CELLS,
        in_grid(x, y),
        1 <= d,
        n <= 4,
        dir == -1 || dir == 1,
    ensures
        only_near(cells, spread_from(cells, x, y, d, n, dir, air_only), x, y),
    decreases n + 1 - d,
{
    if d <= n {
        let off = d * dir;
        assert(off == d || off == -d) by (nonlinear_arith)
            requires
                off == d * dir,
                dir == -1 || dir == 1,
        ;
        if in_grid(x + off, y) && takes(cells, x, y, x + off, air_only) {
            lemma_swap_near(cells, x, y, x + off, y);
        } else if in_grid(x - off, y) && takes(cells, x, y, x - off, air_only) {
            lemma_swap_near(cells, x, y, x - off, y);
        } else {
            lemma_spread_near(cells, x, y, d + 1, n, dir, air_only);
        }
    }
}

/// One update of a sand or water cell only moves cells: it keeps the
/// (material, lifetime) pairs of the grid, counted with multiplicity, and
/// changes no cell outside rows `y` and `y + 1` and four columns on either
/// side of `x`.
pub proof fn law_sand_and_water_move_locally(cells: Seq<Cell>, x: int, y: int, ch: Choices)
    requires
        cells.len() == GRID_CELLS,
        in_grid(x, y),
        mat(cells, x, y) == Material::Sand || mat(cells, x, y) == Material::Water,
        ch.wf(),
    ensures
        pairs(rule(cells, x, y, ch)) == pairs(cells),
        only_near(cells, rule(cells, x, y, ch), x, y),
{
    if mat(cells, x, y) == Material::Sand {
        lemma_sand_shuffles(cells, x, y, ch);
        if y < GRID_HEIGHT - 1 {
            lemma_first_move_near(cells, x, y);
            lemma_diagonal_near(cells, x, y, ch.side as int);
        }
    } else {
        lemma_water_shuffles(cells, x, y, ch);
        if y < GRID_HEIGHT - 1 {
            lemma_first_move_near(cells, x, y);
            lemma_diagonal_near(cells, x, y, ch.side as int);
        }
        lemma_spread_near(cells, x, y, 1, ch.water_spread as int, ch.direction as int, true);
    }
}

/// Every wood cell of `before` is untouched in `after`.
pub open spec fn spares_wood(before: Seq<Cell>, after: Seq<Cell>) -> bool {
    &&& after.len() == before.len()
    &&& forall|p: int|
        0 <= p < before.len() && (#[trigger] before[p]).material == Material::Wood ==> after[p] == before[p]
}

proof fn lemma_move_spares_wood(cells: Seq<Cell>, x: int, y: int, tx: int, ty: int)
    requires
        cells.len() == GRID_CELLS,
        in_grid(x, y),
        in_grid(tx, ty),
        density_of(mat(cells, x, y)) <= 4,
        fair_target(cells, x, y, idx(tx, ty)),
    ensures
        spares_wood(cells, swapped(cells, idx(x, y), idx(tx, ty))),
        density_of(mat(swapped(cells, idx(x, y), idx(tx, ty)), x, y)) <= 4,
{
    law_index_is_injective(x, y, tx, ty);
    law_index_is_injective(x, y, x, y);
}

proof fn lemma_first_move_spares_wood(cells: Seq<Cell>, x: int, y: int, dx: int, ty: int)
    requires
        cells.len() == GRID_CELLS,
        in_grid(x, y),
        density_of(mat(cells, x, y)) <= 4,
        0 <= ty < GRID_HEIGHT,
    ensures
        first_move(cells, x, y, dx, ty) matches Some(next) ==> spares_wood(cells, next),
{
    let m = mat(cells, x, y);
    if in_grid(x + dx, ty) && displaces(m, mat(cells, x + dx, ty)) {
        lemma_move_spares_wood(cells, x, y, x + dx, ty);
    } else if x == 0 && displaces(m, mat(cells, 1, ty)) {
        lemma_move_spares_wood(cells, x, y, 1, ty);
    } else if x == GRID_WIDTH - 1 && displaces(m, mat(cells, x - 1, ty)) {
        lemma_move_spares_wood(cells, x, y, x - 1, ty);
    }
}

proof fn lemma_diagonal_spares_wood(cells: Seq<Cell>, x: int, y: int, ty: int, dx: int)
    requires
        cells.len() == GRID_CELLS,
        in_grid(x, y),
        density_of(mat(cells, x, y)) <= 4,
        0 <= ty < GRID_HEIGHT,
    ensures
        diagonal_move(cells, x, y, ty, dx) matches Some(next) ==> spares_wood(cells, next),
        spares_wood(cells, diagonal_fall(cells, x, y, ty, dx)),
        density_of(mat(diagonal_fall(cells, x, y, ty, dx), x, y)) <= 4,
{
    let m = mat(cells, x, y);
    if in_grid(x + dx, ty) && displaces(m, mat(cells, x + dx, ty)) {
        lemma_move_spares_wood(cells, x, y, x + dx, ty);
    } else if in_grid(x - dx, ty) && displaces(m, mat(cells, x - dx, ty)) {
        lemma_move_spares_wood(cells, x, y, x - dx, ty);
    }
}

proof fn lemma_spread_spares_wood(cells: Seq<Cell>, x: int, y: int, d: int, n: int, dir: int, air_only: bool)
    requires
        cells.len() == GRID_CELLS,
        in_grid(x, y),
        density_of(mat(cells, x, y)) <= 4,
    ensures
        spares_wood(cells, spread_from(cells, x, y, d, n, dir, air_only)),
    decreases n + 1 - d,
{
    if d <= n {
        let off = d * dir;
        if in_grid(x + off, y) && takes(cells, x, y, x + off, air_only) {
            lemma_move_spares_wood(cells, x, y, x + off, y);
        } else if in_grid(x - off, y) && takes(cells, x, y, x - off, air_only) {
            lemma_move_spares_wood(cells, x, y, x - off, y);
        } else {
            lemma_spread_spares_wood(cells, x, y, d + 1, n, dir, air_only);
        }
    }
}

/// No rule moves wood: a wood cell stays as it is, or catches fire.
pub proof fn law_rule_only_burns_wood(cells: Seq<Cell>, x: int, y: int, ch: Choices, p: int)
    requires
        cells.len() == GRID_CELLS,
        in_grid(x, y),
        0 <= p < GRID_CELLS,
        cells[p].material == Material::Wood,
    ensures
        rule(cells, x, y, ch)[p] == cells[p] || (rule(cells, x, y, ch)[p].material == Material::Fire
            && rule(cells, x, y, ch)[p].updated),
{
    let i = idx(x, y);
    law_index_is_injective(x, y, x, y);
    match mat(cells, x, y) {
        Material::Sand => {
            if y < GRID_HEIGHT - 1 {
                lemma_first_move_spares_wood(cells, x, y, 0, y + 1);
                lemma_diagonal_spares_wood(cells, x, y, y + 1, ch.side as int);
            }
        },
        Material::Water => {
            if y < GRID_HEIGHT - 1 {
                lemma_first_move_spares_wood(cells, x, y, 0, y + 1);
                lemma_diagonal_spares_wood(cells, x, y, y + 1, ch.side as int);
            }
            lemma_spread_spares_wood(cells, x, y, 1, ch.water_spread as int, ch.direction as int, true);
        },
        Material::Smoke => {
            let left: u16 = if cells[i].lifetime > 0 { (cells[i].lifetime - 1) as u16 } else { 0 };
            let aged = cells.update(i, Cell { material: Material::Smoke, updated: true, lifetime: left });
            assert(aged[p] == cells[p]);
            if left != 0 && y > 1 {
                let dx: int = if ch.horizontal_move { ch.drift as int } else { 0 };
                lemma_first_move_spares_wood(aged, x, y, dx, y - 1);
                let rose = diagonal_fall(aged, x, y, y - 1, ch.side as int);
                lemma_diagonal_spares_wood(aged, x, y, y - 1, ch.side as int);
                lemma_spread_spares_wood(rose, x, y, 1, ch.smoke_spread as int, ch.direction as int, false);
                assert(rose[p] == cells[p]);
            }
        },
        Material::Fire => {
            let left = (cells[i].lifetime - 1) as u16;
            let burnt = cells.update(i, Cell { material: Material::Fire, updated: true, lifetime: left });
            assert(burnt[p] == cells[p]);
            if left != 0 {
                let spread = ignition(burnt, x, y, ch);
                lemma_ignition_evolves(burnt, x, y, ch);
                assert(spread[p] == cells[p] || (spread[p].material == Material::Fire && spread[p].updated));
                assert(spread[i] == burnt[i]);
            }
        },
        _ => {},
    }
}

/// A fire that does not burn out lights the wood directly left of, right
/// of, above and below it, each with its drawn lifetime, and changes nothing
/// else.
pub proof fn law_fire_lights_orthogonal_wood(cells: Seq<Cell>, x: int, y: int, ch: Choices, px: int, py: int)
    requires
        cells.len() == GRID_CELLS,
        in_grid(px, py),
    ensures
        ignition(cells, x, y, ch)[idx(px, py)] == if cells[idx(px, py)].material == Material::Wood {
            if px == x - 1 && py == y {
                lit(ch.kindle_left)
            } else if px == x + 1 && py == y {
                lit(ch.kindle_right)
            } else if px == x && py == y - 1 {
                lit(ch.kindle_up)
            } else if px == x && py == y + 1 {
                lit(ch.kindle_down)
            } else {
                cells[idx(px, py)]
            }
        } else {
            cells[idx(px, py)]
        },
{
    let c1 = ignite_at(cells, x - 1, y, ch.kindle_left);
    let c2 = ignite_at(c1, x + 1, y, ch.kindle_right);
    let c3 = ignite_at(c2, x, y - 1, ch.kindle_up);
    if in_grid(x - 1, y) {
        law_get_after_set(cells, x - 1, y, lit(ch.kindle_left), px, py);
    }
    if in_grid(x + 1, y) {
        law_get_after_set(c1, x + 1, y, lit(ch.kindle_right), px, py);
    }
    if in_grid(x, y - 1) {
        law_get_after_set(c2, x, y - 1, lit(ch.kindle_up), px, py);
    }
    if in_grid(x, y + 1) {
        law_get_after_set(c3, x, y + 1, lit(ch.kindle_down), px, py);
    }
}

/// A sand or water cell above the bottom row, with a lighter material right
/// below it, trades places with that cell, whatever the random draws: the
/// grain lands one row lower and what was below takes its place, both marked
/// as updated.
pub proof fn law_sand_and_water_fall_straight_down(cells: Seq<Cell>, x: int, y: int, ch: Choices)
    requires
        cells.len() == GRID_CELLS,
        in_grid(x, y),
        y < GRID_HEIGHT - 1,
        cells[idx(x, y)].material == Material::Sand || cells[idx(x, y)].material == Material::Water,
        displaces(cells[idx(x, y)].material, cells[idx(x, y + 1)].material),
    ensures
        rule(cells, x, y, ch)[idx(x, y + 1)] == (Cell {
            material: cells[idx(x, y)].material,
            updated: true,
            lifetime: cells[idx(x, y)].lifetime,
        }),
        rule(cells, x, y, ch)[idx(x, y)] == (Cell {
            material: cells[idx(x, y + 1)].material,
            updated: true,
            lifetime: cells[idx(x, y + 1)].lifetime,
        }),
{
    law_index_is_injective(x, y, x, y + 1);
}

/// A sand or water cell above the bottom row that cannot go straight down
/// slides to the cell diagonally below it on side `ch.side`, whatever lies
/// right below, when that cell holds a lighter material; failing that, to
/// the diagonal on the other side. The two cells trade places, both marked
/// as updated.
pub proof fn law_blocked_sand_and_water_slide_diagonally(cells: Seq<Cell>, x: int, y: int, ch: Choices)
    requires
        cells.len() == GRID_CELLS,
        in_grid(x, y),
        y < GRID_HEIGHT - 1,
        cells[idx(x, y)].material == Material::Sand || cells[idx(x, y)].material == Material::Water,
        !displaces(cells[idx(x, y)].material, cells[idx(x, y + 1)].material),
        ch.wf(),
    ensures
        ({
            let m = cells[idx(x, y)].material;
            let first = x + ch.side;
            let second = x - ch.side;
            let r = rule(cells, x, y, ch);
            &&& in_grid(first, y + 1) && displaces(m, cells[idx(first, y + 1)].material) ==> {
                &&& r[idx(first, y + 1)] == (Cell {
                    material: m,
                    updated: true,
                    lifetime: cells[idx(x, y)].lifetime,
                })
                &&& r[idx(x, y)] == (Cell {
                    material: cells[idx(first, y + 1)].material,
                    updated: true,
                    lifetime: cells[idx(first, y + 1)].lifetime,
                })
            }
            &&& !(in_grid(first, y + 1) && displaces(m, cells[idx(first, y + 1)].material)) && in_grid(
                second,
                y + 1,
            ) && displaces(m, cells[idx(second, y + 1)].material) ==> {
                &&& r[idx(second, y + 1)] == (Cell {
                    material: m,
                    updated: true,
                    lifetime: cells[idx(x, y)].lifetime,
                })
                &&& r[idx(x, y)] == (Cell {
                    material: cells[idx(second, y + 1)].material,
                    updated: true,
                    lifetime: cells[idx(second, y + 1)].lifetime,
                })
            }
        }),
{
    let first = x + ch.side;
    let second = x - ch.side;
    if in_grid(first, y + 1) {
        law_index_is_injective(x, y, first, y + 1);
    }
    if in_grid(second, y + 1) {
        law_index_is_injective(x, y, second, y + 1);
    }
}

/// Smoke with lifetime left, below the two top rows, that takes no drift and
/// cannot rise straight up rises to the cell diagonally above it on side
/// `ch.side` when that cell holds a lighter material (failing that, to the
/// other diagonal), before any sideways spread: it lands there one step
/// older, and what was there takes its place.
pub proof fn law_blocked_smoke_rises_diagonally(cells: Seq<Cell>, x: int, y: int, ch: Choices)
    requires
        cells.len() == GRID_CELLS,
        in_grid(x, y),
        y >= 2,
        cells[idx(x, y)].material == Material::Smoke,
        cells[idx(x, y)].lifetime >= 2,
        !ch.horizontal_move,
        !displaces(Material::Smoke, cells[idx(x, y - 1)].material),
        ch.wf(),
    ensures
        ({
            let first = x + ch.side;
            let second = x - ch.side;
            let r = rule(cells, x, y, ch);
            let older = Cell {
                material: Material::Smoke,
                updated: true,
                lifetime: (cells[idx(x, y)].lifetime - 1) as u16,
            };
            &&& in_grid(first, y - 1) && displaces(Material::Smoke, cells[idx(first, y - 1)].material) ==> {
                &&& r[idx(first, y - 1)] == older
                &&& r[idx(x, y)] == (Cell {
                    material: cells[idx(first, y - 1)].material,
                    updated: true,
                    lifetime: cells[idx(first, y - 1)].lifetime,
                })
            }
            &&& !(in_grid(first, y - 1) && displaces(Material::Smoke, cells[idx(first, y - 1)].material))
                && in_grid(second, y - 1) && displaces(
                Material::Smoke,
                cells[idx(second, y - 1)].material,
            ) ==> {
                &&& r[idx(second, y - 1)] == older
                &&& r[idx(x, y)] == (Cell {
                    material: cells[idx(second, y - 1)].material,
                    updated: true,
                    lifetime: cells[idx(second, y - 1)].lifetime,
                })
            }
        }),
{
    let first = x + ch.side;
    let second = x - ch.side;
    let i = idx(x, y);
    law_index_is_injective(x, y, x, y - 1);
    if in_grid(first, y - 1) {
        law_index_is_injective(x, y, first, y - 1);
    }
    if in_grid(second, y - 1) {
        law_index_is_injective(x, y, second, y - 1);
    }
    let left = (cells[i].lifetime - 1) as u16;
    let aged = cells.update(i, Cell { material: Material::Smoke, updated: true, lifetime: left });
    let rose = diagonal_fall(aged, x, y, y - 1, ch.side as int);
    if rose != aged {
        assert(mat(rose, x, y) == Material::Air);
        lemma_air_does_not_spread(rose, x, y, 1, ch.smoke_spread as int, ch.direction as int);
    }
}

proof fn lemma_air_does_not_spread(cells: Seq<Cell>, x: int, y: int, d: int, n: int, dir: int)
    requires
        mat(cells, x, y) == Material::Air,
    ensures
        spread_from(cells, x, y, d, n, dir, false) == cells,
    decreases n + 1 - d,
{
    if d <= n {
        lemma_air_does_not_spread(cells, x, y, d + 1, n, dir);
    }
}

/// An update does not depend on the `updated` marks the cells carry when it
/// starts: two grids that agree in every cell's material and lifetime give
/// the same cells and counts under the same draws, so a cell moved in one
/// frame is free to move again in the next.
pub proof fn law_update_ignores_incoming_marks(a: Seq<Cell>, b: Seq<Cell>, cs: Seq<Choices>)
    requires
        a.len() == b.len(),
        forall|i: int|
            0 <= i < a.len() ==> (#[trigger] a[i]).material == b[i].material && a[i].lifetime
                == b[i].lifetime,
    ensures
        frame(a, cs) == frame(b, cs),
{
    assert(cleared(a) =~= cleared(b));
}

/// Painting lays exactly the chosen material, unmarked, in every non-stone
/// cell within distance `DEFAULT_BRUSH_R` of the centre (fire with lifetime
/// 50, any other material with 0), and leaves stone cells and the cells
/// farther away as they were.
pub proof fn law_paint_lays_the_material(cells: Seq<Cell>, x: int, y: int, m: Material, px: int, py: int)
    requires
        cells.len() == GRID_CELLS,
        in_grid(px, py),
    ensures
        (px - x) * (px - x) + (py - y) * (py - y) <= DEFAULT_BRUSH_R * DEFAULT_BRUSH_R
            && cells[idx(px, py)].material != Material::Stone ==> paint_result(cells, x, y, m)[idx(
            px,
            py,
        )] == (Cell {
            material: m,
            updated: false,
            lifetime: if m == Material::Fire { 50 } else { 0 },
        }),
        (px - x) * (px - x) + (py - y) * (py - y) > DEFAULT_BRUSH_R * DEFAULT_BRUSH_R
            || cells[idx(px, py)].material == Material::Stone ==> paint_result(cells, x, y, m)[idx(
            px,
            py,
        )] == cells[idx(px, py)],
{
    lemma_paint_result_pointwise(cells, x, y, m);
    let ox = px - x;
    let oy = py - y;
    assert(ox * ox + oy * oy <= 9 ==> -3 <= ox <= 3 && -3 <= oy <= 3) by (nonlinear_arith);
}

} // verus!
