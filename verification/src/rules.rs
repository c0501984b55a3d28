use vstd::prelude::*;

use crate::config::{GRID_CELLS, GRID_HEIGHT, GRID_WIDTH};
use crate::grid::{idx, in_grid, swapped, Cell, Grid, Material};
use crate::random::gen_range_i32;

verus! {

/// Density of each material: a denser material sinks through a lighter one.
pub open spec fn density_of(m: Material) -> u8 {
    match m {
        Material::Air => 0,
        Material::Smoke => 1,
        Material::Fire => 2,
        Material::Water => 3,
        Material::Sand => 4,
        Material::Wood => 5,
        Material::Stone => 6,
    }
}

/// Whether `mover` may take the place of `target`.
pub open spec fn displaces(mover: Material, target: Material) -> bool {
    density_of(mover) > density_of(target)
}

pub fn density(material: Material) -> (d: u8)
    ensures
        d == density_of(material),
{
    match material {
        Material::Air => 0,
        Material::Smoke => 1,
        Material::Fire => 2,
        Material::Water => 3,
        Material::Sand => 4,
        Material::Wood => 5,
        Material::Stone => 6,
    }
}

pub fn can_displace(mover: Material, target: Material) -> (b: bool)
    ensures
        b == displaces(mover, target),
{
    density(mover) > density(target)
}

/// The outcome of every random draw one cell update may make. Each rule
/// reads only the fields it draws: sand `side`; water `side`, `water_spread`
/// and `direction`; smoke `horizontal_move`, `drift`, `side`, `smoke_spread`
/// and `direction`; fire the four `kindle_` lifetimes.
#[derive(Clone, Copy, Debug)]
pub struct Choices {
    /// Whether rising smoke first tries a diagonal (drawn with chance 1 in 3).
    pub horizontal_move: bool,
    /// The side of that diagonal, -1 or 1.
    pub drift: isize,
    /// The diagonal tried first when falling or rising, -1 or 1.
    pub side: isize,
    /// How far water looks sideways, 1 to 4.
    pub water_spread: isize,
    /// How far smoke looks sideways, 1 to 9.
    pub smoke_spread: isize,
    /// The side looked at first when spreading, -1 or 1.
    pub direction: isize,
    /// Starting lifetime of the fire lit in the wood on the left, 10 to 30.
    pub kindle_left: u16,
    /// Starting lifetime of the fire lit in the wood on the right, 10 to 30.
    pub kindle_right: u16,
    /// Starting lifetime of the fire lit in the wood above, 10 to 30.
    pub kindle_up: u16,
    /// Starting lifetime of the fire lit in the wood below, 10 to 30.
    pub kindle_down: u16,
}

impl Choices {
    /// Every field lies in the range its draw can produce.
    pub open spec fn wf(&self) -> bool {
        &&& (self.drift == -1 || self.drift == 1)
        &&& (self.side == -1 || self.side == 1)
        &&& (self.direction == -1 || self.direction == 1)
        &&& 1 <= self.water_spread <= 4
        &&& 1 <= self.smoke_spread <= 9
        &&& 10 <= self.kindle_left <= 30
        &&& 10 <= self.kindle_right <= 30
        &&& 10 <= self.kindle_up <= 30
        &&& 10 <= self.kindle_down <= 30
    }
}

/// The material at column `x`, row `y`.
pub open spec fn mat(cells: Seq<Cell>, x: int, y: int) -> Material {
    cells[idx(x, y)].material
}

/// The first move of a falling or rising cell toward row `ty`: to column
/// `x + dx`, else (at the left edge) to column 1, else (at the right edge) to
/// the column on its left; `None` when none of these applies.
pub open spec fn first_move(cells: Seq<Cell>, x: int, y: int, dx: int, ty: int) -> Option<Seq<Cell>> {
    let m = mat(cells, x, y);
    if in_grid(x + dx, ty) && displaces(m, mat(cells, x + dx, ty)) {
        Some(swapped(cells, idx(x, y), idx(x + dx, ty)))
    } else if x == 0 && displaces(m, mat(cells, 1, ty)) {
        Some(swapped(cells, idx(x, y), idx(1, ty)))
    } else if x == GRID_WIDTH - 1 && displaces(m, mat(cells, x - 1, ty)) {
        Some(swapped(cells, idx(x, y), idx(x - 1, ty)))
    } else {
        None
    }
}

/// A diagonal move toward row `ty`, column `x + dx` tried before `x - dx`;
/// `None` when neither cell can be displaced.
pub open spec fn diagonal_move(cells: Seq<Cell>, x: int, y: int, ty: int, dx: int) -> Option<Seq<Cell>> {
    let m = mat(cells, x, y);
    if in_grid(x + dx, ty) && displaces(m, mat(cells, x + dx, ty)) {
        Some(swapped(cells, idx(x, y), idx(x + dx, ty)))
    } else if in_grid(x - dx, ty) && displaces(m, mat(cells, x - dx, ty)) {
        Some(swapped(cells, idx(x, y), idx(x - dx, ty)))
    } else {
        None
    }
}

/// The cells after a diagonal move, or unchanged when there is none.
pub open spec fn diagonal_fall(cells: Seq<Cell>, x: int, y: int, ty: int, dx: int) -> Seq<Cell> {
    match diagonal_move(cells, x, y, ty, dx) {
        Some(next) => next,
        None => cells,
    }
}

/// Whether the cell at column `x` of row `y` may take the place of column
/// `tx`: only air when `air_only`, else any lighter material.
pub open spec fn takes(cells: Seq<Cell>, x: int, y: int, tx: int, air_only: bool) -> bool {
    if air_only {
        mat(cells, tx, y) == Material::Air
    } else {
        displaces(mat(cells, x, y), mat(cells, tx, y))
    }
}

/// Sideways spreading along row `y`: for distances `d` from `d` up to `n`, the
/// cell trades places with the first cell it may take `d` columns away, on
/// side `dir` before the other side.
pub open spec fn spread_from(cells: Seq<Cell>, x: int, y: int, d: int, n: int, dir: int, air_only: bool) -> Seq<Cell>
    decreases n + 1 - d,
{
    if d > n {
        cells
    } else {
        let off = d * dir;
        if in_grid(x + off, y) && takes(cells, x, y, x + off, air_only) {
            swapped(cells, idx(x, y), idx(x + off, y))
        } else if in_grid(x - off, y) && takes(cells, x, y, x - off, air_only) {
            swapped(cells, idx(x, y), idx(x - off, y))
        } else {
            spread_from(cells, x, y, d + 1, n, dir, air_only)
        }
    }
}

/// Sand falls straight down, else diagonally; on the bottom row it stays.
pub open spec fn sand_rule(cells: Seq<Cell>, x: int, y: int, ch: Choices) -> Seq<Cell> {
    if y >= GRID_HEIGHT - 1 {
        cells
    } else {
        match first_move(cells, x, y, 0, y + 1) {
            Some(next) => next,
            None => diagonal_fall(cells, x, y, y + 1, ch.side as int),
        }
    }
}

/// The fall of water, straight or diagonal, as sand falls; `None` when it
/// is stuck (always so on the bottom row).
pub open spec fn water_fall(cells: Seq<Cell>, x: int, y: int, ch: Choices) -> Option<Seq<Cell>> {
    if y >= GRID_HEIGHT - 1 {
        None
    } else {
        match first_move(cells, x, y, 0, y + 1) {
            Some(next) => Some(next),
            None => diagonal_move(cells, x, y, y + 1, ch.side as int),
        }
    }
}

/// Water falls like sand; stuck, it spreads sideways into the first air
/// cell at most `water_spread` columns away.
pub open spec fn water_rule(cells: Seq<Cell>, x: int, y: int, ch: Choices) -> Seq<Cell> {
    match water_fall(cells, x, y, ch) {
        Some(next) => next,
        None => spread_from(cells, x, y, 1, ch.water_spread as int, ch.direction as int, true),
    }
}

/// Smoke counts its lifetime down (smoke without lifetime left counts as
/// at its end) and turns into air at the end. Otherwise it rises like water
/// falls, sometimes drifting diagonally first, and spreads into lighter
/// cells; on the two top rows it stays.
pub open spec fn smoke_rule(cells: Seq<Cell>, x: int, y: int, ch: Choices) -> Seq<Cell> {
    let i = idx(x, y);
    let left: u16 = if cells[i].lifetime > 0 { (cells[i].lifetime - 1) as u16 } else { 0 };
    let aged = cells.update(i, Cell { material: Material::Smoke, updated: true, lifetime: left });
    if left == 0 {
        aged.update(i, Cell { material: Material::Air, updated: true, lifetime: 0 })
    } else if y <= 1 {
        aged
    } else {
        let dx: int = if ch.horizontal_move { ch.drift as int } else { 0 };
        match first_move(aged, x, y, dx, y - 1) {
            Some(next) => next,
            None => spread_from(
                diagonal_fall(aged, x, y, y - 1, ch.side as int),
                x,
                y,
                1,
                ch.smoke_spread as int,
                ch.direction as int,
                false,
            ),
        }
    }
}

/// A fire freshly lit from wood, burning for `life` steps.
pub open spec fn lit(life: u16) -> Cell {
    Cell { material: Material::Fire, updated: true, lifetime: life }
}

/// Wood at (`nx`, `ny`), if any, catches fire for `life` steps.
pub open spec fn ignite_at(cells: Seq<Cell>, nx: int, ny: int, life: u16) -> Seq<Cell> {
    if in_grid(nx, ny) && mat(cells, nx, ny) == Material::Wood {
        cells.update(idx(nx, ny), lit(life))
    } else {
        cells
    }
}

/// The wood left of, right of, above and below (`x`, `y`) catches fire, in
/// that order, each with its own drawn lifetime.
pub open spec fn ignition(cells: Seq<Cell>, x: int, y: int, ch: Choices) -> Seq<Cell> {
    let c1 = ignite_at(cells, x - 1, y, ch.kindle_left);
    let c2 = ignite_at(c1, x + 1, y, ch.kindle_right);
    let c3 = ignite_at(c2, x, y - 1, ch.kindle_up);
    ignite_at(c3, x, y + 1, ch.kindle_down)
}

/// Fire burns down one step of its lifetime; at the end it turns into smoke
/// with a fresh lifetime. Otherwise it lights the wood orthogonally next to
/// it and rises into air.
pub open spec fn fire_rule(cells: Seq<Cell>, x: int, y: int, ch: Choices) -> Seq<Cell> {
    let i = idx(x, y);
    let left = (cells[i].lifetime - 1) as u16;
    let burnt = cells.update(i, Cell { material: Material::Fire, updated: true, lifetime: left });
    if left == 0 {
        burnt.update(i, Cell { material: Material::Smoke, updated: true, lifetime: 150 })
    } else {
        let spread = ignition(burnt, x, y, ch);
        if in_grid(x, y - 1) && mat(spread, x, y - 1) == Material::Air {
            swapped(spread, i, idx(x, y - 1))
        } else {
            spread
        }
    }
}

/// One update of the cell at column `x`, row `y`, given the random draws.
pub open spec fn rule(cells: Seq<Cell>, x: int, y: int, ch: Choices) -> Seq<Cell> {
    match mat(cells, x, y) {
        Material::Sand => sand_rule(cells, x, y, ch),
        Material::Water => water_rule(cells, x, y, ch),
        Material::Fire => fire_rule(cells, x, y, ch),
        Material::Smoke => smoke_rule(cells, x, y, ch),
        _ => cells,
    }
}

/// Every fire cell still has time to burn.
pub open spec fn fire_ok(cells: Seq<Cell>) -> bool {
    forall|i: int| 0 <= i < cells.len() && #[trigger] cells[i].material == Material::Fire ==> cells[i].lifetime >= 1
}

/// The draws of `given`, when there is one, are the draws `ch` stands for.
pub open spec fn agrees(ch: Choices, given: Option<Choices>) -> bool {
    given matches Some(g) ==> ch == g
}

pub(crate) open spec fn default_choices() -> Choices {
    Choices {
        horizontal_move: false,
        drift: 1,
        side: 1,
        water_spread: 1,
        smoke_spread: 1,
        direction: 1,
        kindle_left: 20,
        kindle_right: 20,
        kindle_up: 20,
        kindle_down: 20,
    }
}

fn random_sign() -> (s: isize)
    ensures
        s == -1 || s == 1,
{
    let r = gen_range_i32(0, 2);
    (r * 2 - 1) as isize
}

fn random_spread(high: i32) -> (n: isize)
    requires
        1 < high <= 10,
    ensures
        1 <= n < high,
{
    gen_range_i32(1, high) as isize
}

fn random_drift() -> bool {
    gen_range_i32(0, 3) == 0
}

fn random_kindle() -> (life: u16)
    ensures
        10 <= life <= 30,
{
    gen_range_i32(10, 31) as u16
}

fn move_first(grid: &mut Grid, x: usize, y: usize, dx: isize, ty: usize) -> (done: bool)
    requires
        old(grid).wf(),
        x < GRID_WIDTH,
        y < GRID_HEIGHT,
        ty < GRID_HEIGHT,
        -1 <= dx <= 1,
    ensures
        final(grid).wf(),
        final(grid).extras() == old(grid).extras(),
        match first_move(old(grid)@, x as int, y as int, dx as int, ty as int) {
            Some(next) => done && final(grid)@ == next,
            None => !done && final(grid)@ == old(grid)@,
        },
{
    let tx = x as isize + dx;
    if grid.in_bounds(tx, ty as isize) && can_displace(
        grid.get(x, y).material,
        grid.get(tx as usize, ty).material,
    ) {
        grid.swap(x, y, tx as usize, ty);
        return true;
    }
    if x == 0 && can_displace(grid.get(x, y).material, grid.get(x + 1, ty).material) {
        grid.swap(x, y, x + 1, ty);
        return true;
    }
    if x == GRID_WIDTH - 1 && can_displace(grid.get(x, y).material, grid.get(x - 1, ty).material) {
        grid.swap(x, y, x - 1, ty);
        return true;
    }
    false
}

fn fall_diagonally(grid: &mut Grid, x: usize, y: usize, ty: usize, dx: isize, check_row: usize) -> (done: bool)
    requires
        old(grid).wf(),
        x < GRID_WIDTH,
        y < GRID_HEIGHT,
        ty < GRID_HEIGHT,
        check_row < GRID_HEIGHT,
        dx == -1 || dx == 1,
    ensures
        final(grid).wf(),
        final(grid).extras() == old(grid).extras(),
        match diagonal_move(old(grid)@, x as int, y as int, ty as int, dx as int) {
            Some(next) => done && final(grid)@ == next,
            None => !done && final(grid)@ == old(grid)@,
        },
{
    if grid.in_bounds(x as isize + dx, check_row as isize) && can_displace(
        grid.get(x, y).material,
        grid.get((x as isize + dx) as usize, ty).material,
    ) {
        grid.swap(x, y, (x as isize + dx) as usize, ty);
        return true;
    } else if grid.in_bounds(x as isize - dx, check_row as isize) && can_displace(
        grid.get(x, y).material,
        grid.get((x as isize - dx) as usize, ty).material,
    ) {
        grid.swap(x, y, (x as isize - dx) as usize, ty);
        return true;
    }
    false
}

fn may_take(grid: &Grid, x: usize, y: usize, tx: usize, air_only: bool) -> (b: bool)
    requires
        grid.wf(),
        x < GRID_WIDTH,
        tx < GRID_WIDTH,
        y < GRID_HEIGHT,
    ensures
        b == takes(grid@, x as int, y as int, tx as int, air_only),
{
    if air_only {
        grid.get(tx, y).material == Material::Air
    } else {
        can_displace(grid.get(x, y).material, grid.get(tx, y).material)
    }
}

fn spread(grid: &mut Grid, x: usize, y: usize, spread_distance: isize, direction: isize, air_only: bool)
    requires
        old(grid).wf(),
        x < GRID_WIDTH,
        y < GRID_HEIGHT,
        1 <= spread_distance <= 9,
        direction == -1 || direction == 1,
    ensures
        final(grid).wf(),
        final(grid).extras() == old(grid).extras(),
        final(grid)@ == spread_from(
            old(grid)@,
            x as int,
            y as int,
            1,
            spread_distance as int,
            direction as int,
            air_only,
        ),
{
    let ghost start = grid@;
    let mut dx: isize = 1;
    assert(start == old(grid)@);
    while dx <= spread_distance
        invariant
            grid.wf(),
            grid.extras() == old(grid).extras(),
            grid@ == start,
            start == old(grid)@,
            x < GRID_WIDTH,
            y < GRID_HEIGHT,
            1 <= spread_distance <= 9,
            direction == -1 || direction == 1,
            1 <= dx <= spread_distance + 1,
            spread_from(start, x as int, y as int, dx as int, spread_distance as int, direction as int, air_only)
                == spread_from(start, x as int, y as int, 1, spread_distance as int, direction as int, air_only),
        decreases spread_distance + 1 - dx,
    {
        assert(-9 <= dx * direction <= 9) by (nonlinear_arith)
            requires
                1 <= dx <= 9,
                direction == -1 || direction == 1,
        ;
        let off = dx * direction;
        if grid.in_bounds(x as isize + off, y as isize) && may_take(
            grid,
            x,
            y,
            (x as isize + off) as usize,
            air_only,
        ) {
            grid.swap(x, y, (x as isize + off) as usize, y);
            return;
        } else if grid.in_bounds(x as isize - off, y as isize) && may_take(
            grid,
            x,
            y,
            (x as isize - off) as usize,
            air_only,
        ) {
            grid.swap(x, y, (x as isize - off) as usize, y);
            return;
        }
        dx += 1;
    }
}

fn ignite(grid: &mut Grid, x: usize, y: usize, dx: isize, dy: isize, given: Option<u16>) -> (life: u16)
    requires
        old(grid).wf(),
        x < GRID_WIDTH,
        y < GRID_HEIGHT,
        -1 <= dx <= 1,
        -1 <= dy <= 1,
        given matches Some(g) ==> 10 <= g <= 30,
    ensures
        final(grid).wf(),
        final(grid).extras() == old(grid).extras(),
        10 <= life <= 30,
        given matches Some(g) ==> life == g,
        final(grid)@ == ignite_at(old(grid)@, x + dx, y + dy, life),
{
    let nx = x as isize + dx;
    let ny = y as isize + dy;
    if grid.in_bounds(nx, ny) && grid.get(nx as usize, ny as usize).material == Material::Wood {
        let life = match given {
            Some(g) => g,
            None => random_kindle(),
        };
        grid.set(nx as usize, ny as usize, Cell { material: Material::Fire, updated: true, lifetime: life });
        life
    } else {
        match given {
            Some(g) => g,
            None => 20,
        }
    }
}

fn update_fire(grid: &mut Grid, x: usize, y: usize, given: Option<Choices>)
    requires
        old(grid).wf(),
        x < GRID_WIDTH,
        y < GRID_HEIGHT,
        mat(old(grid)@, x as int, y as int) == Material::Fire,
        old(grid)@[idx(x as int, y as int)].lifetime >= 1,
        given matches Some(g) ==> g.wf(),
    ensures
        final(grid).wf(),
        final(grid).extras() == old(grid).extras(),
        exists|ch: Choices|
            ch.wf() && agrees(ch, given) && final(grid)@ == #[trigger] fire_rule(
                old(grid)@,
                x as int,
                y as int,
                ch,
            ),
{
    let ghost mut rec = match given {
        Some(g) => g,
        None => default_choices(),
    };
    grid.set(
        x,
        y,
        Cell { material: Material::Fire, updated: true, lifetime: grid.get(x, y).lifetime - 1 },
    );
    if grid.get(x, y).lifetime == 0 {
        grid.set(x, y, Cell { material: Material::Smoke, updated: true, lifetime: 150 });
        assert(grid@ == fire_rule(old(grid)@, x as int, y as int, rec));
        return;
    }
    let left = ignite(grid, x, y, -1, 0, match given {
        Some(g) => Some(g.kindle_left),
        None => None,
    });
    let right = ignite(grid, x, y, 1, 0, match given {
        Some(g) => Some(g.kindle_right),
        None => None,
    });
    let up = ignite(grid, x, y, 0, -1, match given {
        Some(g) => Some(g.kindle_up),
        None => None,
    });
    let down = ignite(grid, x, y, 0, 1, match given {
        Some(g) => Some(g.kindle_down),
        None => None,
    });
    proof {
        rec.kindle_left = left;
        rec.kindle_right = right;
        rec.kindle_up = up;
        rec.kindle_down = down;
    }
    if grid.in_bounds(x as isize, y as isize - 1) && grid.get(x, y - 1).material == Material::Air {
        grid.swap(x, y, x, y - 1);
    }
    assert(grid@ == fire_rule(old(grid)@, x as int, y as int, rec));
}

fn update_sand(grid: &mut Grid, x: usize, y: usize, given: Option<Choices>)
    requires
        old(grid).wf(),
        x < GRID_WIDTH,
        y < GRID_HEIGHT,
        given matches Some(g) ==> g.wf(),
    ensures
        final(grid).wf(),
        final(grid).extras() == old(grid).extras(),
        exists|ch: Choices|
            ch.wf() && agrees(ch, given) && final(grid)@ == #[trigger] sand_rule(
                old(grid)@,
                x as int,
                y as int,
                ch,
            ),
{
    let ghost mut rec = match given {
        Some(g) => g,
        None => default_choices(),
    };
    if y >= GRID_HEIGHT - 1 {
        assert(grid@ == sand_rule(old(grid)@, x as int, y as int, rec));
        return;
    }
    if move_first(grid, x, y, 0, y + 1) {
        assert(grid@ == sand_rule(old(grid)@, x as int, y as int, rec));
        return;
    }
    let side = match given {
        Some(g) => g.side,
        None => random_sign(),
    };
    proof {
        rec.side = side;
    }
    fall_diagonally(grid, x, y, y + 1, side, y);
    assert(grid@ == sand_rule(old(grid)@, x as int, y as int, rec));
}

fn update_water(grid: &mut Grid, x: usize, y: usize, given: Option<Choices>)
    requires
        old(grid).wf(),
        x < GRID_WIDTH,
        y < GRID_HEIGHT,
        given matches Some(g) ==> g.wf(),
    ensures
        final(grid).wf(),
        final(grid).extras() == old(grid).extras(),
        exists|ch: Choices|
            ch.wf() && agrees(ch, given) && final(grid)@ == #[trigger] water_rule(
                old(grid)@,
                x as int,
                y as int,
                ch,
            ),
{
    let ghost mut rec = match given {
        Some(g) => g,
        None => default_choices(),
    };
    if y < GRID_HEIGHT - 1 {
        if move_first(grid, x, y, 0, y + 1) {
            assert(grid@ == water_rule(old(grid)@, x as int, y as int, rec));
            return;
        }
        let side = match given {
            Some(g) => g.side,
            None => random_sign(),
        };
        proof {
            rec.side = side;
        }
        if fall_diagonally(grid, x, y, y + 1, side, y + 1) {
            assert(grid@ == water_rule(old(grid)@, x as int, y as int, rec));
            return;
        }
    }
    let spread_distance = match given {
        Some(g) => g.water_spread,
        None => random_spread(5),
    };
    let direction = match given {
        Some(g) => g.direction,
        None => random_sign(),
    };
    proof {
        rec.water_spread = spread_distance;
        rec.direction = direction;
    }
    spread(grid, x, y, spread_distance, direction, true);
    assert(grid@ == water_rule(old(grid)@, x as int, y as int, rec));
}

fn update_smoke(grid: &mut Grid, x: usize, y: usize, given: Option<Choices>)
    requires
        old(grid).wf(),
        x < GRID_WIDTH,
        y < GRID_HEIGHT,
        mat(old(grid)@, x as int, y as int) == Material::Smoke,
        given matches Some(g) ==> g.wf(),
    ensures
        final(grid).wf(),
        final(grid).extras() == old(grid).extras(),
        exists|ch: Choices|
            ch.wf() && agrees(ch, given) && final(grid)@ == #[trigger] smoke_rule(
                old(grid)@,
                x as int,
                y as int,
                ch,
            ),
{
    let ghost mut rec = match given {
        Some(g) => g,
        None => default_choices(),
    };
    let lifetime = grid.get(x, y).lifetime;
    let left: u16 = if lifetime > 0 {
        lifetime - 1
    } else {
        0
    };
    grid.set(x, y, Cell { material: Material::Smoke, updated: true, lifetime: left });
    if grid.get(x, y).lifetime == 0 {
        grid.set(x, y, Cell { material: Material::Air, updated: true, lifetime: 0 });
        assert(grid@ == smoke_rule(old(grid)@, x as int, y as int, rec));
        return;
    }
    if y <= 1 {
        assert(grid@ == smoke_rule(old(grid)@, x as int, y as int, rec));
        return;
    }
    let horizontal_move = match given {
        Some(g) => g.horizontal_move,
        None => random_drift(),
    };
    let dx: isize = if horizontal_move {
        match given {
            Some(g) => g.drift,
            None => random_sign(),
        }
    } else {
        0
    };
    proof {
        rec.horizontal_move = horizontal_move;
        if horizontal_move {
            rec.drift = dx;
        }
    }
    if move_first(grid, x, y, dx, y - 1) {
        assert(grid@ == smoke_rule(old(grid)@, x as int, y as int, rec));
        return;
    }
    let side = match given {
        Some(g) => g.side,
        None => random_sign(),
    };
    fall_diagonally(grid, x, y, y - 1, side, y - 1);
    let spread_distance = match given {
        Some(g) => g.smoke_spread,
        None => random_spread(10),
    };
    let direction = match given {
        Some(g) => g.direction,
        None => random_sign(),
    };
    proof {
        rec.side = side;
        rec.smoke_spread = spread_distance;
        rec.direction = direction;
    }
    spread(grid, x, y, spread_distance, direction, false);
    assert(grid@ == smoke_rule(old(grid)@, x as int, y as int, rec));
}

pub(crate) fn update_cell(grid: &mut Grid, x: usize, y: usize, given: Option<Choices>)
    requires
        old(grid).wf(),
        x < GRID_WIDTH,
        y < GRID_HEIGHT,
        mat(old(grid)@, x as int, y as int) == Material::Fire ==> old(grid)@[idx(
            x as int,
            y as int,
        )].lifetime >= 1,
        given matches Some(g) ==> g.wf(),
    ensures
        final(grid).wf(),
        final(grid).extras() == old(grid).extras(),
        exists|ch: Choices|
            ch.wf() && agrees(ch, given) && final(grid)@ == #[trigger] rule(
                old(grid)@,
                x as int,
                y as int,
                ch,
            ),
{
    let ghost rec = match given {
        Some(g) => g,
        None => default_choices(),
    };
    match grid.get(x, y).material {
        Material::Sand => {
            update_sand(grid, x, y, given);
            let ghost ch = choose|ch: Choices|
                ch.wf() && agrees(ch, given) && grid@ == #[trigger] sand_rule(
                    old(grid)@,
                    x as int,
                    y as int,
                    ch,
                );
            assert(grid@ == rule(old(grid)@, x as int, y as int, ch));
        },
        Material::Water => {
            update_water(grid, x, y, given);
            let ghost ch = choose|ch: Choices|
                ch.wf() && agrees(ch, given) && grid@ == #[trigger] water_rule(
                    old(grid)@,
                    x as int,
                    y as int,
                    ch,
                );
            assert(grid@ == rule(old(grid)@, x as int, y as int, ch));
        },
        Material::Fire => {
            update_fire(grid, x, y, given);
            let ghost ch = choose|ch: Choices|
                ch.wf() && agrees(ch, given) && grid@ == #[trigger] fire_rule(
                    old(grid)@,
                    x as int,
                    y as int,
                    ch,
                );
            assert(grid@ == rule(old(grid)@, x as int, y as int, ch));
        },
        Material::Smoke => {
            update_smoke(grid, x, y, given);
            let ghost ch = choose|ch: Choices|
                ch.wf() && agrees(ch, given) && grid@ == #[trigger] smoke_rule(
                    old(grid)@,
                    x as int,
                    y as int,
                    ch,
                );
            assert(grid@ == rule(old(grid)@, x as int, y as int, ch));
        },
        Material::Wood => {
            assert(grid@ == rule(old(grid)@, x as int, y as int, rec));
        },
        Material::Stone => {
            assert(grid@ == rule(old(grid)@, x as int, y as int, rec));
        },
        Material::Air => {
            assert(grid@ == rule(old(grid)@, x as int, y as int, rec));
        },
    }
}

/// Applies the rule of the material at column `x`, row `y` once, drawing the
/// random choices it needs from macroquad's global generator as it goes.
pub fn update(grid: &mut Grid, x: usize, y: usize)
    requires
        old(grid).wf(),
        x < GRID_WIDTH,
        y < GRID_HEIGHT,
        mat(old(grid)@, x as int, y as int) == Material::Fire ==> old(grid)@[idx(
            x as int,
            y as int,
        )].lifetime >= 1,
    ensures
        final(grid).wf(),
        final(grid).extras() == old(grid).extras(),
        exists|ch: Choices| ch.wf() && final(grid)@ == #[trigger] rule(old(grid)@, x as int, y as int, ch),
{
    update_cell(grid, x, y, None);
}

/// Applies the rule of the material at column `x`, row `y` once, with the
/// random choices given.
pub fn update_with(grid: &mut Grid, x: usize, y: usize, choices: Choices)
    requires
        old(grid).wf(),
        x < GRID_WIDTH,
        y < GRID_HEIGHT,
        mat(old(grid)@, x as int, y as int) == Material::Fire ==> old(grid)@[idx(
            x as int,
            y as int,
        )].lifetime >= 1,
        choices.wf(),
    ensures
        final(grid).wf(),
        final(grid).extras() == old(grid).extras(),
        final(grid)@ == rule(old(grid)@, x as int, y as int, choices),
{
    update_cell(grid, x, y, Some(choices));
}

proof fn lemma_swapped_keeps_fire_ok(cells: Seq<Cell>, i: int, j: int)
    requires
        fire_ok(cells),
        0 <= i < cells.len(),
        0 <= j < cells.len(),
    ensures
        fire_ok(swapped(cells, i, j)),
        swapped(cells, i, j).len() == cells.len(),
{
    let s = swapped(cells, i, j);
    assert forall|k: int| 0 <= k < s.len() && #[trigger] s[k].material == Material::Fire implies s[k].lifetime >= 1 by {
        if k == j {
            assert(cells[i].material == Material::Fire);
        } else if k == i {
            assert(cells[j].material == Material::Fire);
        } else {
            assert(cells[k].material == Material::Fire);
        }
    }
}

proof fn lemma_first_move_keeps_fire_ok(cells: Seq<Cell>, x: int, y: int, dx: int, ty: int)
    requires
        cells.len() == GRID_CELLS,
        in_grid(x, y),
        0 <= ty < GRID_HEIGHT,
        fire_ok(cells),
    ensures
        first_move(cells, x, y, dx, ty) matches Some(next) ==> fire_ok(next) && next.len() == cells.len(),
{
    let m = mat(cells, x, y);
    if in_grid(x + dx, ty) && displaces(m, mat(cells, x + dx, ty)) {
        lemma_swapped_keeps_fire_ok(cells, idx(x, y), idx(x + dx, ty));
    } else if x == 0 && displaces(m, mat(cells, 1, ty)) {
        lemma_swapped_keeps_fire_ok(cells, idx(x, y), idx(1, ty));
    } else if x == GRID_WIDTH - 1 && displaces(m, mat(cells, x - 1, ty)) {
        lemma_swapped_keeps_fire_ok(cells, idx(x, y), idx(x - 1, ty));
    }
}

proof fn lemma_diagonal_keeps_fire_ok(cells: Seq<Cell>, x: int, y: int, ty: int, dx: int)
    requires
        cells.len() == GRID_CELLS,
        in_grid(x, y),
        0 <= ty < GRID_HEIGHT,
        fire_ok(cells),
    ensures
        diagonal_move(cells, x, y, ty, dx) matches Some(next) ==> fire_ok(next) && next.len() == cells.len(),
        fire_ok(diagonal_fall(cells, x, y, ty, dx)),
        diagonal_fall(cells, x, y, ty, dx).len() == cells.len(),
{
    let m = mat(cells, x, y);
    if in_grid(x + dx, ty) && displaces(m, mat(cells, x + dx, ty)) {
        lemma_swapped_keeps_fire_ok(cells, idx(x, y), idx(x + dx, ty));
    } else if in_grid(x - dx, ty) && displaces(m, mat(cells, x - dx, ty)) {
        lemma_swapped_keeps_fire_ok(cells, idx(x, y), idx(x - dx, ty));
    }
}

proof fn lemma_spread_keeps_fire_ok(cells: Seq<Cell>, x: int, y: int, d: int, n: int, dir: int, air_only: bool)
    requires
        cells.len() == GRID_CELLS,
        in_grid(x, y),
        fire_ok(cells),
    ensures
        fire_ok(spread_from(cells, x, y, d, n, dir, air_only)),
        spread_from(cells, x, y, d, n, dir, air_only).len() == cells.len(),
    decreases n + 1 - d,
{
    if d <= n {
        let off = d * dir;
        if in_grid(x + off, y) && takes(cells, x, y, x + off, air_only) {
            lemma_swapped_keeps_fire_ok(cells, idx(x, y), idx(x + off, y));
        } else if in_grid(x - off, y) && takes(cells, x, y, x - off, air_only) {
            lemma_swapped_keeps_fire_ok(cells, idx(x, y), idx(x - off, y));
        } else {
            lemma_spread_keeps_fire_ok(cells, x, y, d + 1, n, dir, air_only);
        }
    }
}

proof fn lemma_ignite_at_keeps_fire_ok(cells: Seq<Cell>, nx: int, ny: int, life: u16)
    requires
        cells.len() == GRID_CELLS,
        fire_ok(cells),
        life >= 1,
    ensures
        fire_ok(ignite_at(cells, nx, ny, life)),
        ignite_at(cells, nx, ny, life).len() == cells.len(),
{
}

proof fn lemma_ignition_keeps_fire_ok(cells: Seq<Cell>, x: int, y: int, ch: Choices)
    requires
        cells.len() == GRID_CELLS,
        fire_ok(cells),
        ch.wf(),
    ensures
        fire_ok(ignition(cells, x, y, ch)),
        ignition(cells, x, y, ch).len() == cells.len(),
{
    let c1 = ignite_at(cells, x - 1, y, ch.kindle_left);
    let c2 = ignite_at(c1, x + 1, y, ch.kindle_right);
    let c3 = ignite_at(c2, x, y - 1, ch.kindle_up);
    lemma_ignite_at_keeps_fire_ok(cells, x - 1, y, ch.kindle_left);
    lemma_ignite_at_keeps_fire_ok(c1, x + 1, y, ch.kindle_right);
    lemma_ignite_at_keeps_fire_ok(c2, x, y - 1, ch.kindle_up);
    lemma_ignite_at_keeps_fire_ok(c3, x, y + 1, ch.kindle_down);
}

/// Every rule, with draws in range, keeps each fire cell's lifetime
/// positive, and the grid's size.
pub proof fn lemma_rule_keeps_fire_ok(cells: Seq<Cell>, x: int, y: int, ch: Choices)
    requires
        cells.len() == GRID_CELLS,
        in_grid(x, y),
        fire_ok(cells),
        ch.wf(),
    ensures
        fire_ok(rule(cells, x, y, ch)),
        rule(cells, x, y, ch).len() == GRID_CELLS,
{
    let i = idx(x, y);
    match mat(cells, x, y) {
        Material::Sand => {
            if y < GRID_HEIGHT - 1 {
                lemma_first_move_keeps_fire_ok(cells, x, y, 0, y + 1);
                lemma_diagonal_keeps_fire_ok(cells, x, y, y + 1, ch.side as int);
            }
        },
        Material::Water => {
            if y < GRID_HEIGHT - 1 {
                lemma_first_move_keeps_fire_ok(cells, x, y, 0, y + 1);
                lemma_diagonal_keeps_fire_ok(cells, x, y, y + 1, ch.side as int);
            }
            lemma_spread_keeps_fire_ok(cells, x, y, 1, ch.water_spread as int, ch.direction as int, true);
        },
        Material::Smoke => {
            let left: u16 = if cells[i].lifetime > 0 { (cells[i].lifetime - 1) as u16 } else { 0 };
            let aged = cells.update(i, Cell { material: Material::Smoke, updated: true, lifetime: left });
            assert(fire_ok(aged)) by {
                assert forall|k: int| 0 <= k < aged.len() && #[trigger] aged[k].material == Material::Fire implies aged[k].lifetime >= 1 by {
                    assert(k != i);
                    assert(cells[k].material == Material::Fire);
                }
            }
            if left == 0 {
                let gone = aged.update(i, Cell { material: Material::Air, updated: true, lifetime: 0 });
                assert forall|k: int| 0 <= k < gone.len() && #[trigger] gone[k].material == Material::Fire implies gone[k].lifetime >= 1 by {
                    assert(aged[k].material == Material::Fire);
                }
            } else if y > 1 {
                let dx: int = if ch.horizontal_move { ch.drift as int } else { 0 };
                lemma_first_move_keeps_fire_ok(aged, x, y, dx, y - 1);
                lemma_diagonal_keeps_fire_ok(aged, x, y, y - 1, ch.side as int);
                lemma_spread_keeps_fire_ok(
                    diagonal_fall(aged, x, y, y - 1, ch.side as int),
                    x,
                    y,
                    1,
                    ch.smoke_spread as int,
                    ch.direction as int,
                    false,
                );
            }
        },
        Material::Fire => {
            assert(cells[i].material == Material::Fire);
            let left = (cells[i].lifetime - 1) as u16;
            let burnt = cells.update(i, Cell { material: Material::Fire, updated: true, lifetime: left });
            if left != 0 {
                assert(fire_ok(burnt));
                lemma_ignition_keeps_fire_ok(burnt, x, y, ch);
                let lit_cells = ignition(burnt, x, y, ch);
                if in_grid(x, y - 1) {
                    lemma_swapped_keeps_fire_ok(lit_cells, i, idx(x, y - 1));
                }
            } else {
                let smoked = burnt.update(i, Cell { material: Material::Smoke, updated: true, lifetime: 150 });
                assert forall|k: int| 0 <= k < smoked.len() && #[trigger] smoked[k].material == Material::Fire implies smoked[k].lifetime >= 1 by {
                    assert(k != i);
                    assert(cells[k].material == Material::Fire);
                }
            }
        },
        _ => {},
    }
}

} // verus!
