use vstd::prelude::*;

use crate::config::{DEFAULT_BRUSH_R, GRID_CELLS, GRID_HEIGHT, GRID_WIDTH};
use crate::rules::{self, agrees, fire_ok, lemma_rule_keeps_fire_ok, rule, Choices};

verus! {

/// The substance held by one cell of the grid.
#[derive(Clone, Copy, PartialEq, Eq, Debug, Structural)]
pub enum Material {
    Air,
    Sand,
    Water,
    Stone,
    Wood,
    Fire,
    Smoke,
}

/// One cell of the grid: its material, whether it was already moved or
/// transformed during the current frame, and a countdown used by fire.
#[derive(Clone, Copy, PartialEq, Eq, Debug, Structural)]
pub struct Cell {
    pub material: Material,
    pub updated: bool,
    pub lifetime: u16,
}

/// How many cells of each material (but air) the last update met.
#[derive(Clone, Copy, PartialEq, Eq, Debug, Structural)]
pub struct Stats {
    pub sand_count: usize,
    pub water_count: usize,
    pub stone_count: usize,
    pub wood_count: usize,
    pub fire_count: usize,
    pub smoke_count: usize,
}

struct Config {
    draw_counts: bool,
}

/// Index in the row-major cell sequence of the cell at column `x`, row `y`.
pub open spec fn idx(x: int, y: int) -> int {
    y * GRID_WIDTH + x
}

/// Whether column `x`, row `y` lies on the grid.
pub open spec fn in_grid(x: int, y: int) -> bool {
    0 <= x < GRID_WIDTH && 0 <= y < GRID_HEIGHT
}

/// The cell `c` after a move: same material and lifetime, marked as updated.
pub open spec fn moved(c: Cell) -> Cell {
    Cell { material: c.material, updated: true, lifetime: c.lifetime }
}

/// The cells after the contents of positions `i` and `j` traded places,
/// both marked as updated.
pub open spec fn swapped(cells: Seq<Cell>, i: int, j: int) -> Seq<Cell> {
    cells.update(i, moved(cells[j])).update(j, moved(cells[i]))
}

/// An empty cell.
pub open spec fn air() -> Cell {
    Cell { material: Material::Air, updated: false, lifetime: 0 }
}

/// The RGBA colour a material is drawn with.
pub open spec fn color_of(m: Material) -> Seq<u8> {
    match m {
        Material::Air => seq![100u8, 100u8, 100u8, 255u8],
        Material::Sand => seq![194u8, 178u8, 128u8, 255u8],
        Material::Water => seq![64u8, 164u8, 223u8, 255u8],
        Material::Stone => seq![128u8, 128u8, 128u8, 255u8],
        Material::Wood => seq![139u8, 69u8, 19u8, 255u8],
        Material::Fire => seq![255u8, 69u8, 0u8, 255u8],
        Material::Smoke => seq![105u8, 105u8, 105u8, 128u8],
    }
}

/// `bytes` is the RGBA image of `cells`: four bytes per cell, in cell order.
pub open spec fn shows(bytes: Seq<u8>, cells: Seq<Cell>) -> bool {
    &&& bytes.len() == 4 * cells.len()
    &&& forall|i: int, k: int|
        0 <= i < cells.len() && 0 <= k < 4 ==> #[trigger] bytes[4 * i + k] == color_of(
            cells[i].material,
        )[k]
}

/// All counts at zero.
pub open spec fn zero_stats() -> Stats {
    Stats {
        sand_count: 0,
        water_count: 0,
        stone_count: 0,
        wood_count: 0,
        fire_count: 0,
        smoke_count: 0,
    }
}

/// The counts after one more cell of material `m` was met.
pub open spec fn counted(s: Stats, m: Material) -> Stats {
    match m {
        Material::Sand => Stats { sand_count: (s.sand_count + 1) as usize, ..s },
        Material::Water => Stats { water_count: (s.water_count + 1) as usize, ..s },
        Material::Stone => Stats { stone_count: (s.stone_count + 1) as usize, ..s },
        Material::Wood => Stats { wood_count: (s.wood_count + 1) as usize, ..s },
        Material::Fire => Stats { fire_count: (s.fire_count + 1) as usize, ..s },
        Material::Smoke => Stats { smoke_count: (s.smoke_count + 1) as usize, ..s },
        Material::Air => s,
    }
}

/// Every count is at most `n`.
pub open spec fn counts_at_most(s: Stats, n: int) -> bool {
    &&& s.sand_count <= n
    &&& s.water_count <= n
    &&& s.stone_count <= n
    &&& s.wood_count <= n
    &&& s.fire_count <= n
    &&& s.smoke_count <= n
}

/// The cells with every `updated` mark taken off.
pub open spec fn cleared(cells: Seq<Cell>) -> Seq<Cell> {
    cells.map_values(|c: Cell| Cell { material: c.material, updated: false, lifetime: c.lifetime })
}

/// Column of the `k`-th cell an update visits: rows go from the bottom up,
/// the bottom row from left to right, and each next row the other way.
pub open spec fn visit_x(k: int) -> int {
    if (k / GRID_WIDTH as int) % 2 == 1 {
        GRID_WIDTH - 1 - k % GRID_WIDTH as int
    } else {
        k % GRID_WIDTH as int
    }
}

/// Row of the `k`-th cell an update visits.
pub open spec fn visit_y(k: int) -> int {
    GRID_HEIGHT - 1 - k / GRID_WIDTH as int
}

/// One visit of an update: the cell is counted, and unless it was already
/// updated during this frame its rule runs with the draws `ch`.
pub open spec fn visit(state: (Seq<Cell>, Stats), x: int, y: int, ch: Choices) -> (Seq<Cell>, Stats) {
    let c = state.0[idx(x, y)];
    (if c.updated { state.0 } else { rule(state.0, x, y, ch) }, counted(state.1, c.material))
}

/// The state after the first `cs.len()` visits of an update, the `k`-th one
/// with the draws `cs[k]`.
pub open spec fn run(state: (Seq<Cell>, Stats), cs: Seq<Choices>) -> (Seq<Cell>, Stats)
    decreases cs.len(),
{
    if cs.len() == 0 {
        state
    } else {
        let k = cs.len() - 1;
        visit(run(state, cs.drop_last()), visit_x(k), visit_y(k), cs.last())
    }
}

/// One whole update of `cells`, the `k`-th visit drawing `cs[k]`: the cells
/// and the counts it leaves.
pub open spec fn frame(cells: Seq<Cell>, cs: Seq<Choices>) -> (Seq<Cell>, Stats) {
    run((cleared(cells), zero_stats()), cs)
}

/// Whether the offset (`ox`, `oy`) lies within the brush radius
/// `DEFAULT_BRUSH_R` of the centre.
pub open spec fn in_circle(ox: int, oy: int) -> bool {
    ox * ox + oy * oy <= DEFAULT_BRUSH_R * DEFAULT_BRUSH_R
}

/// Whether (`px`, `py`) is under the round brush of radius `DEFAULT_BRUSH_R`
/// centred on (`x`, `y`).
pub open spec fn under_brush(px: int, py: int, x: int, y: int) -> bool {
    &&& x - DEFAULT_BRUSH_R <= px <= x + DEFAULT_BRUSH_R
    &&& y - DEFAULT_BRUSH_R <= py <= y + DEFAULT_BRUSH_R
    &&& in_circle(px - x, py - y)
}

/// The cell a brush lays down: fire burns for 50 steps; every other
/// material starts with a lifetime of 0.
pub open spec fn painted(m: Material) -> Cell {
    Cell {
        material: m,
        updated: false,
        lifetime: if m == Material::Fire {
            50
        } else {
            0
        },
    }
}

/// The cells after painting `m` with the brush centred on (`x`, `y`): each
/// cell under the brush receives the material, whatever it held, except
/// stone, which stays; every other cell stays.
pub open spec fn paint_result(cells: Seq<Cell>, x: int, y: int, m: Material) -> Seq<Cell> {
    Seq::new(
        cells.len(),
        |i: int|
            if under_brush(i % GRID_WIDTH as int, i / GRID_WIDTH as int, x, y)
                && cells[i].material != Material::Stone {
                painted(m)
            } else {
                cells[i]
            },
    )
}

/// The simulation: `GRID_WIDTH` by `GRID_HEIGHT` cells stored row-major, the
/// RGBA image they were last drawn to, and the counts of the last update.
pub struct Grid {
    width: usize,
    height: usize,
    cells: Vec<Cell>,
    texture_bytes: Vec<u8>,
    stats: Stats,
    config: Config,
}

impl View for Grid {
    type V = Seq<Cell>;

    closed spec fn view(&self) -> Seq<Cell> {
        self.cells@
    }
}

impl Grid {
    /// The size fields agree with the fixed grid size, and the image buffer
    /// holds four bytes per cell.
    pub closed spec fn layout_ok(&self) -> bool {
        &&& self.width == GRID_WIDTH
        &&& self.height == GRID_HEIGHT
        &&& self.texture_bytes@.len() == 4 * GRID_CELLS
    }

    /// Well-formedness: one cell per position of the grid.
    pub open spec fn wf(&self) -> bool {
        &&& self@.len() == GRID_CELLS
        &&& self.layout_ok()
    }

    /// The counts of the last update.
    pub closed spec fn counts(&self) -> Stats {
        self.stats
    }

    /// The RGBA image buffer.
    pub closed spec fn image(&self) -> Seq<u8> {
        self.texture_bytes@
    }

    /// Whether the counts are meant to be shown.
    pub closed spec fn shows_counts(&self) -> bool {
        self.config.draw_counts
    }

    /// Everything but the cells.
    pub open spec fn extras(&self) -> (Stats, Seq<u8>, bool) {
        (self.counts(), self.image(), self.shows_counts())
    }

    /// A grid of `GRID_WIDTH` by `GRID_HEIGHT` empty cells, its image drawn,
    /// its counts at zero and shown.
    pub fn new() -> (g: Self)
        ensures
            g.wf(),
            g@ == Seq::new(GRID_CELLS as nat, |i: int| air()),
            shows(g.image(), g@),
            g.counts() == zero_stats(),
            g.shows_counts(),
    {
        let cells = vec![Cell { material: Material::Air, updated: false, lifetime: 0 }; GRID_WIDTH * GRID_HEIGHT];
        assert(cells@ =~= Seq::new(GRID_CELLS as nat, |i: int| air()));
        let bytes = texture_of(&cells);
        Grid {
            width: GRID_WIDTH,
            height: GRID_HEIGHT,
            cells,
            texture_bytes: bytes,
            stats: Stats {
                sand_count: 0,
                water_count: 0,
                stone_count: 0,
                wood_count: 0,
                fire_count: 0,
                smoke_count: 0,
            },
            config: Config { draw_counts: true },
        }
    }

    /// The cell at column `x`, row `y` (row-major, `y * width + x`).
    pub fn get(&self, x: usize, y: usize) -> (c: Cell)
        requires
            self.wf(),
            y * GRID_WIDTH + x < GRID_CELLS,
        ensures
            c == self@[idx(x as int, y as int)],
    {
        self.cells[y * self.width + x]
    }

    /// Writes `cell` at column `x`, row `y`.
    pub fn set(&mut self, x: usize, y: usize, cell: Cell)
        requires
            old(self).wf(),
            y * GRID_WIDTH + x < GRID_CELLS,
        ensures
            final(self).wf(),
            final(self)@ == old(self)@.update(idx(x as int, y as int), cell),
            final(self).extras() == old(self).extras(),
    {
        let i = y * self.width + x;
        self.cells.set(i, cell);
    }

    /// Trades the contents of two cells; both end up marked as updated.
    pub fn swap(&mut self, x1: usize, y1: usize, x2: usize, y2: usize)
        requires
            old(self).wf(),
            y1 * GRID_WIDTH + x1 < GRID_CELLS,
            y2 * GRID_WIDTH + x2 < GRID_CELLS,
        ensures
            final(self).wf(),
            final(self)@ == swapped(
                old(self)@,
                idx(x1 as int, y1 as int),
                idx(x2 as int, y2 as int),
            ),
            final(self).extras() == old(self).extras(),
    {
        let temp = self.get(x1, y1);
        self.set(
            x1,
            y1,
            Cell {
                material: self.get(x2, y2).material,
                updated: true,
                lifetime: self.get(x2, y2).lifetime,
            },
        );
        self.set(x2, y2, Cell { material: temp.material, updated: true, lifetime: temp.lifetime });
    }

    /// Whether the signed position (`x`, `y`) lies on the grid.
    pub fn in_bounds(&self, x: isize, y: isize) -> (b: bool)
        requires
            self.wf(),
        ensures
            b == in_grid(x as int, y as int),
    {
        x < self.width as isize && y < self.height as isize && x >= 0 && y >= 0
    }

    fn clear(&mut self)
        requires
            old(self).wf(),
        ensures
            final(self).wf(),
            final(self)@ == cleared(old(self)@),
            final(self).counts() == zero_stats(),
            final(self).image() == old(self).image(),
            final(self).shows_counts() == old(self).shows_counts(),
    {
        let mut i: usize = 0;
        while i < self.cells.len()
            invariant
                self.layout_ok(),
                self.cells@.len() == GRID_CELLS,
                old(self).cells@.len() == GRID_CELLS,
                self.texture_bytes@ == old(self).texture_bytes@,
                self.config.draw_counts == old(self).config.draw_counts,
                i <= GRID_CELLS,
                forall|j: int| 0 <= j < i ==> #[trigger] self.cells@[j] == cleared(old(self)@)[j],
                forall|j: int| i <= j < GRID_CELLS ==> #[trigger] self.cells@[j] == old(self)@[j],
            decreases GRID_CELLS - i,
        {
            let cell = self.cells[i];
            if cell.updated {
                self.cells.set(
                    i,
                    Cell { material: cell.material, updated: false, lifetime: cell.lifetime },
                );
            }
            i += 1;
        }
        assert(self.cells@ =~= cleared(old(self)@));
        self.stats = Stats {
            sand_count: 0,
            water_count: 0,
            stone_count: 0,
            wood_count: 0,
            fire_count: 0,
            smoke_count: 0,
        };
    }

    fn increment_stats(&mut self, material: Material)
        requires
            old(self).wf(),
            counts_at_most(old(self).counts(), GRID_CELLS as int),
        ensures
            final(self).wf(),
            final(self)@ == old(self)@,
            final(self).counts() == counted(old(self).counts(), material),
            final(self).image() == old(self).image(),
            final(self).shows_counts() == old(self).shows_counts(),
    {
        match material {
            Material::Sand => self.stats.sand_count += 1,
            Material::Water => self.stats.water_count += 1,
            Material::Stone => self.stats.stone_count += 1,
            Material::Wood => self.stats.wood_count += 1,
            Material::Fire => self.stats.fire_count += 1,
            Material::Smoke => self.stats.smoke_count += 1,
            Material::Air => {},
        }
    }

    fn scan(&mut self, given: Option<&Vec<Choices>>)
        requires
            old(self).wf(),
            fire_ok(old(self)@),
            given matches Some(g) ==> g.len() == GRID_CELLS && forall|k: int|
                0 <= k < g.len() ==> #[trigger] g@[k].wf(),
        ensures
            final(self).wf(),
            fire_ok(final(self)@),
            final(self).image() == old(self).image(),
            final(self).shows_counts() == old(self).shows_counts(),
            exists|cs: Seq<Choices>|
                cs.len() == GRID_CELLS && (forall|k: int| 0 <= k < cs.len() ==> #[trigger] cs[k].wf())
                    && (given matches Some(g) ==> cs == g@) && (final(self)@, final(self).counts())
                    == #[trigger] frame(old(self)@, cs),
    {
        self.clear();
        assert(fire_ok(self@)) by {
            assert forall|i: int| 0 <= i < self@.len() && #[trigger] self@[i].material == Material::Fire implies self@[i].lifetime >= 1 by {
                assert(old(self)@[i].material == Material::Fire);
            }
        }
        let ghost init = (self@, self.stats);
        let ghost mut rec: Seq<Choices> = Seq::empty();
        let mut left = false;
        let mut r: usize = 0;
        while r < self.height
            invariant
                self.wf(),
                fire_ok(self@),
                self.image() == old(self).image(),
                self.shows_counts() == old(self).shows_counts(),
                r <= GRID_HEIGHT,
                left == (r % 2 == 1),
                rec.len() == r * GRID_WIDTH,
                init == (cleared(old(self)@), zero_stats()),
                (self@, self.counts()) == run(init, rec),
                counts_at_most(self.counts(), rec.len() as int),
                forall|k: int| 0 <= k < rec.len() ==> #[trigger] rec[k].wf(),
                given matches Some(g) ==> g.len() == GRID_CELLS && (forall|k: int|
                    0 <= k < g.len() ==> #[trigger] g@[k].wf()) && rec == g@.take(rec.len() as int),
            decreases GRID_HEIGHT - r,
        {
            let y = self.height - 1 - r;
            let mut i: usize = 0;
            while i < self.width
                invariant
                    self.wf(),
                    fire_ok(self@),
                    self.image() == old(self).image(),
                    self.shows_counts() == old(self).shows_counts(),
                    r < GRID_HEIGHT,
                    y == GRID_HEIGHT - 1 - r,
                    i <= GRID_WIDTH,
                    left == (r % 2 == 1),
                    rec.len() == r * GRID_WIDTH + i,
                    init == (cleared(old(self)@), zero_stats()),
                    (self@, self.counts()) == run(init, rec),
                    counts_at_most(self.counts(), rec.len() as int),
                    forall|k: int| 0 <= k < rec.len() ==> #[trigger] rec[k].wf(),
                    given matches Some(g) ==> g.len() == GRID_CELLS && (forall|k: int|
                        0 <= k < g.len() ==> #[trigger] g@[k].wf()) && rec == g@.take(rec.len() as int),
                decreases GRID_WIDTH - i,
            {
                let x = if left {
                    self.width - 1 - i
                } else {
                    i
                };
                let k = r * self.width + i;
                proof {
                    lemma_visit_position(r as int, i as int);
                }
                let ghost before = (self@, self.counts());
                let cell = self.get(x, y);
                self.increment_stats(cell.material);
                let ghost mut ch: Choices = match given {
                    Some(g) => g@[k as int],
                    None => rules::default_choices(),
                };
                if !cell.updated {
                    let drawn = match given {
                        Some(g) => Some(g[k]),
                        None => None,
                    };
                    rules::update_cell(self, x, y, drawn);
                    proof {
                        ch = choose|c: Choices|
                            c.wf() && agrees(c, drawn) && self@ == #[trigger] rule(
                                before.0,
                                x as int,
                                y as int,
                                c,
                            );
                        lemma_rule_keeps_fire_ok(before.0, x as int, y as int, ch);
                    }
                }
                proof {
                    let prev = rec;
                    rec = rec.push(ch);
                    assert(rec.drop_last() =~= prev);
                    assert((self@, self.counts()) == visit(before, x as int, y as int, ch));
                    if given is Some {
                        assert(rec =~= given->0@.take(rec.len() as int));
                    }
                }
                i += 1;
            }
            left = !left;
            r += 1;
        }
        proof {
            if given is Some {
                assert(rec =~= given->0@);
            }
            assert(frame(old(self)@, rec) == run(init, rec));
        }
    }

    /// Advances the simulation by one frame: clears every cell's `updated`
    /// mark and the counts, then visits each cell from the bottom row up,
    /// alternating the direction of the rows, counts it, and applies its rule
    /// unless it was already moved during this frame. The rules draw their
    /// random choices from macroquad's global generator.
    pub fn update(&mut self)
        requires
            old(self).wf(),
            fire_ok(old(self)@),
        ensures
            final(self).wf(),
            fire_ok(final(self)@),
            final(self).image() == old(self).image(),
            final(self).shows_counts() == old(self).shows_counts(),
            exists|cs: Seq<Choices>|
                cs.len() == GRID_CELLS && (forall|k: int| 0 <= k < cs.len() ==> #[trigger] cs[k].wf())
                    && (final(self)@, final(self).counts()) == #[trigger] frame(old(self)@, cs),
    {
        self.scan(None);
    }

    /// Advances the simulation by one frame like `update`, the `k`-th visited
    /// cell using `choices[k]` for its random choices.
    pub fn update_with(&mut self, choices: &Vec<Choices>)
        requires
            old(self).wf(),
            fire_ok(old(self)@),
            choices.len() == GRID_CELLS,
            forall|k: int| 0 <= k < choices.len() ==> #[trigger] choices@[k].wf(),
        ensures
            final(self).wf(),
            fire_ok(final(self)@),
            final(self).image() == old(self).image(),
            final(self).shows_counts() == old(self).shows_counts(),
            (final(self)@, final(self).counts()) == frame(old(self)@, choices@),
    {
        self.scan(Some(choices));
    }

    /// Paints `material` with the round brush of radius `DEFAULT_BRUSH_R`
    /// centred on column `x`, row `y`: every cell under the brush and on the
    /// grid receives the material (fire with a lifetime of 50, anything else with 0),
    /// whatever it held, except stone cells, which stay; no other cell changes.
    pub fn paint(&mut self, x: usize, y: usize, material: Material)
        requires
            old(self).wf(),
        ensures
            final(self).wf(),
            final(self)@ == paint_result(old(self)@, x as int, y as int, material),
            final(self).extras() == old(self).extras(),
            fire_ok(old(self)@) ==> fire_ok(final(self)@),
    {
        if x >= GRID_WIDTH + DEFAULT_BRUSH_R || y >= GRID_HEIGHT + DEFAULT_BRUSH_R {
            proof {
                lemma_paint_result_pointwise(old(self)@, x as int, y as int, material);
                assert forall|i: int| 0 <= i < GRID_CELLS implies #[trigger] self@[i] == paint_result(
                    old(self)@,
                    x as int,
                    y as int,
                    material,
                )[i] by {
                    let px = i % GRID_WIDTH as int;
                    let py = i / GRID_WIDTH as int;
                    assert(i == idx(px, py) && in_grid(px, py));
                }
                assert(self@ =~= paint_result(old(self)@, x as int, y as int, material));
            }
            return;
        }
        let r = DEFAULT_BRUSH_R as isize;
        let mut dx: isize = -r;
        while dx <= r
            invariant
                self.wf(),
                self.extras() == old(self).extras(),
                old(self).wf(),
                x < GRID_WIDTH + DEFAULT_BRUSH_R,
                y < GRID_HEIGHT + DEFAULT_BRUSH_R,
                r == DEFAULT_BRUSH_R,
                -r <= dx <= r + 1,
                forall|px: int, py: int|
                    in_grid(px, py) ==> #[trigger] self@[idx(px, py)] == if under_brush(px, py, x as int, y as int)
                        && px - x < dx && old(self)@[idx(px, py)].material != Material::Stone {
                        painted(material)
                    } else {
                        old(self)@[idx(px, py)]
                    },
            decreases r + 1 - dx,
        {
            let mut dy: isize = -r;
            while dy <= r
                invariant
                    self.wf(),
                    self.extras() == old(self).extras(),
                    old(self).wf(),
                    x < GRID_WIDTH + DEFAULT_BRUSH_R,
                    y < GRID_HEIGHT + DEFAULT_BRUSH_R,
                    r == DEFAULT_BRUSH_R,
                    -r <= dx <= r,
                    -r <= dy <= r + 1,
                    forall|px: int, py: int|
                        in_grid(px, py) ==> #[trigger] self@[idx(px, py)] == if under_brush(px, py, x as int, y as int)
                            && (px - x < dx || (px - x == dx && py - y < dy))
                            && old(self)@[idx(px, py)].material != Material::Stone {
                            painted(material)
                        } else {
                            old(self)@[idx(px, py)]
                        },
                decreases r + 1 - dy,
            {
                assert(0 <= dx * dx <= 9 && 0 <= dy * dy <= 9) by (nonlinear_arith)
                    requires
                        -3 <= dx <= 3,
                        -3 <= dy <= 3,
                ;
                if dx * dx + dy * dy <= r * r {
                    let px = x as isize + dx;
                    let py = y as isize + dy;
                    if self.in_bounds(px, py) && self.get(px as usize, py as usize).material != Material::Stone {
                        self.set(
                            px as usize,
                            py as usize,
                            Cell {
                                material,
                                updated: false,
                                lifetime: if material == Material::Fire {
                                    50
                                } else {
                                    0
                                },
                            },
                        );
                    }
                }
                dy += 1;
            }
            dx += 1;
        }
        proof {
            lemma_paint_result_pointwise(old(self)@, x as int, y as int, material);
            assert forall|i: int| 0 <= i < GRID_CELLS implies #[trigger] self@[i] == paint_result(
                old(self)@,
                x as int,
                y as int,
                material,
            )[i] by {
                let px = i % GRID_WIDTH as int;
                let py = i / GRID_WIDTH as int;
                assert(i == idx(px, py) && in_grid(px, py));
            }
            assert(self@ =~= paint_result(old(self)@, x as int, y as int, material));
            assert forall|i: int| 0 <= i < self@.len() && #[trigger] self@[i].material == Material::Fire && fire_ok(old(self)@)
                implies self@[i].lifetime >= 1 by {
                if self@[i] != old(self)@[i] {
                    assert(self@[i] == painted(material));
                } else {
                    assert(old(self)@[i].material == Material::Fire);
                }
            }
        }
    }

    /// Redraws the RGBA image buffer from the cells.
    pub fn refresh_texture(&mut self)
        requires
            old(self).wf(),
        ensures
            final(self).wf(),
            final(self)@ == old(self)@,
            shows(final(self).image(), final(self)@),
            final(self).counts() == old(self).counts(),
            final(self).shows_counts() == old(self).shows_counts(),
    {
        let mut i: usize = 0;
        while i < self.cells.len()
            invariant
                self.wf(),
                self@ == old(self)@,
                self.counts() == old(self).counts(),
                self.shows_counts() == old(self).shows_counts(),
                i <= GRID_CELLS,
                forall|j: int, k: int|
                    0 <= j < i && 0 <= k < 4 ==> #[trigger] self.texture_bytes@[4 * j + k]
                        == color_of(self@[j].material)[k],
            decreases GRID_CELLS - i,
        {
            let color = color(self.cells[i].material);
            let byte_idx = i * 4;
            self.texture_bytes.set(byte_idx, color[0]);
            self.texture_bytes.set(byte_idx + 1, color[1]);
            self.texture_bytes.set(byte_idx + 2, color[2]);
            self.texture_bytes.set(byte_idx + 3, color[3]);
            assert forall|j: int, k: int| 0 <= j < i + 1 && 0 <= k < 4 implies #[trigger] self.texture_bytes@[4 * j + k]
                == color_of(self@[j].material)[k] by {
                if j == i {
                    assert(self.texture_bytes@[4 * j + k] == color@[k]);
                }
            }
            i += 1;
        }
    }

    /// The RGBA image buffer, four bytes per cell in cell order.
    pub fn texture_bytes(&self) -> (bytes: &Vec<u8>)
        ensures
            bytes@ == self.image(),
    {
        &self.texture_bytes
    }

    /// The counts of the last update.
    pub fn stats(&self) -> (s: Stats)
        ensures
            s == self.counts(),
    {
        self.stats
    }

    /// Whether the counts are meant to be shown.
    pub fn draw_counts(&self) -> (b: bool)
        ensures
            b == self.shows_counts(),
    {
        self.config.draw_counts
    }
}

/// `paint_result`, cell by cell.
pub proof fn lemma_paint_result_pointwise(cells: Seq<Cell>, x: int, y: int, m: Material)
    requires
        cells.len() == GRID_CELLS,
    ensures
        forall|px: int, py: int|
            in_grid(px, py) ==> #[trigger] paint_result(cells, x, y, m)[idx(px, py)] == if under_brush(px, py, x, y)
                && cells[idx(px, py)].material != Material::Stone {
                painted(m)
            } else {
                cells[idx(px, py)]
            },
{
    assert forall|px: int, py: int| in_grid(px, py) implies #[trigger] paint_result(cells, x, y, m)[idx(px, py)]
        == if under_brush(px, py, x, y) && cells[idx(px, py)].material != Material::Stone {
        painted(m)
    } else {
        cells[idx(px, py)]
    } by {
        vstd::arithmetic::div_mod::lemma_fundamental_div_mod_converse(idx(px, py), GRID_WIDTH as int, py, px);
    }
}

proof fn lemma_visit_position(r: int, i: int)
    requires
        0 <= r < GRID_HEIGHT,
        0 <= i < GRID_WIDTH,
    ensures
        visit_y(r * GRID_WIDTH + i) == GRID_HEIGHT - 1 - r,
        visit_x(r * GRID_WIDTH + i) == if r % 2 == 1 { GRID_WIDTH - 1 - i } else { i },
{
    vstd::arithmetic::div_mod::lemma_fundamental_div_mod_converse(r * GRID_WIDTH + i, GRID_WIDTH as int, r, i);
}

/// The RGBA colour a material is drawn with.
pub fn color(material: Material) -> (c: [u8; 4])
    ensures
        c@ == color_of(material),
{
    let c = match material {
        Material::Air => [100, 100, 100, 255],
        Material::Sand => [194, 178, 128, 255],
        Material::Water => [64, 164, 223, 255],
        Material::Stone => [128, 128, 128, 255],
        Material::Wood => [139, 69, 19, 255],
        Material::Fire => [255, 69, 0, 255],
        Material::Smoke => [105, 105, 105, 128],
    };
    assert(c@ =~= color_of(material));
    c
}

/// The RGBA image of `cells`.
fn texture_of(cells: &Vec<Cell>) -> (bytes: Vec<u8>)
    requires
        cells.len() <= GRID_CELLS,
    ensures
        shows(bytes@, cells@),
{
    let mut bytes: Vec<u8> = Vec::new();
    let mut i: usize = 0;
    while i < cells.len()
        invariant
            cells.len() <= GRID_CELLS,
            i <= cells.len(),
            bytes.len() == 4 * i,
            forall|j: int, k: int|
                0 <= j < i && 0 <= k < 4 ==> #[trigger] bytes@[4 * j + k] == color_of(
                    cells@[j].material,
                )[k],
        decreases cells.len() - i,
    {
        let c = color(cells[i].material);
        bytes.push(c[0]);
        bytes.push(c[1]);
        bytes.push(c[2]);
        bytes.push(c[3]);
        assert forall|j: int, k: int| 0 <= j < i + 1 && 0 <= k < 4 implies #[trigger] bytes@[4 * j + k]
            == color_of(cells@[j].material)[k] by {
            if j == i {
                assert(bytes@[4 * j + k] == c@[k]);
            }
        }
        i += 1;
    }
    bytes
}

} // verus!
