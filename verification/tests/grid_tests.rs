use sand_sim::config::{GRID_CELLS, GRID_HEIGHT, GRID_WIDTH};
use sand_sim::grid::{color, Cell, Grid, Material, Stats};
use sand_sim::rules::Choices;

fn cell(material: Material) -> Cell {
    let lifetime = match material {
        Material::Fire => 50,
        Material::Smoke => 150,
        _ => 0,
    };
    Cell { material, updated: false, lifetime }
}

fn count(grid: &Grid, material: Material) -> usize {
    let mut n = 0;
    for y in 0..GRID_HEIGHT {
        for x in 0..GRID_WIDTH {
            if grid.get(x, y).material == material {
                n += 1;
            }
        }
    }
    n
}

fn calm() -> Choices {
    Choices {
        horizontal_move: false,
        drift: 1,
        side: 1,
        water_spread: 1,
        smoke_spread: 1,
        direction: 1,
        kindle_left: 20,
        kindle_right: 20,
        kindle_up: 20,
        kindle_down: 20,
    }
}

#[test]
fn new_grid_is_empty_air() {
    let grid = Grid::new();
    assert_eq!(count(&grid, Material::Air), GRID_CELLS);
    let c = grid.get(GRID_WIDTH - 1, GRID_HEIGHT - 1);
    assert_eq!(c, Cell { material: Material::Air, updated: false, lifetime: 0 });
    assert_eq!(
        grid.stats(),
        Stats { sand_count: 0, water_count: 0, stone_count: 0, wood_count: 0, fire_count: 0, smoke_count: 0 }
    );
    assert!(grid.draw_counts());
}

#[test]
fn new_grid_image_is_air_coloured() {
    let grid = Grid::new();
    let bytes = grid.texture_bytes();
    assert_eq!(bytes.len(), 4 * GRID_CELLS);
    assert_eq!(&bytes[0..4], &[100, 100, 100, 255]);
    assert_eq!(&bytes[bytes.len() - 4..], &[100, 100, 100, 255]);
}

#[test]
fn colours_of_materials() {
    assert_eq!(color(Material::Sand), [194, 178, 128, 255]);
    assert_eq!(color(Material::Water), [64, 164, 223, 255]);
    assert_eq!(color(Material::Stone), [128, 128, 128, 255]);
    assert_eq!(color(Material::Wood), [139, 69, 19, 255]);
    assert_eq!(color(Material::Fire), [255, 69, 0, 255]);
    assert_eq!(color(Material::Smoke), [105, 105, 105, 128]);
}

#[test]
fn refresh_texture_draws_cells() {
    let mut grid = Grid::new();
    grid.set(1, 0, cell(Material::Water));
    grid.set(0, 1, cell(Material::Smoke));
    grid.refresh_texture();
    let bytes = grid.texture_bytes();
    assert_eq!(&bytes[4..8], &[64, 164, 223, 255]);
    let i = 4 * GRID_WIDTH;
    assert_eq!(&bytes[i..i + 4], &[105, 105, 105, 128]);
    assert_eq!(&bytes[0..4], &[100, 100, 100, 255]);
}

#[test]
fn set_then_get_round_trips() {
    let mut grid = Grid::new();
    let c = Cell { material: Material::Wood, updated: true, lifetime: 7 };
    grid.set(12, 34, c);
    assert_eq!(grid.get(12, 34), c);
    assert_eq!(grid.get(13, 34).material, Material::Air);
    assert_eq!(grid.get(12, 35).material, Material::Air);
}

#[test]
fn get_is_row_major() {
    let mut grid = Grid::new();
    grid.set(0, 1, cell(Material::Stone));
    // column GRID_WIDTH of row 0 is the first cell of row 1
    assert_eq!(grid.get(GRID_WIDTH, 0).material, Material::Stone);
}

#[test]
fn swap_exchanges_and_marks() {
    let mut grid = Grid::new();
    grid.set(3, 3, Cell { material: Material::Fire, updated: false, lifetime: 9 });
    grid.set(4, 5, cell(Material::Water));
    grid.swap(3, 3, 4, 5);
    assert_eq!(grid.get(3, 3), Cell { material: Material::Water, updated: true, lifetime: 0 });
    assert_eq!(grid.get(4, 5), Cell { material: Material::Fire, updated: true, lifetime: 9 });
}

#[test]
fn swap_twice_restores_contents() {
    let mut grid = Grid::new();
    grid.set(3, 3, cell(Material::Sand));
    grid.swap(3, 3, 3, 4);
    grid.swap(3, 3, 3, 4);
    assert_eq!(grid.get(3, 3).material, Material::Sand);
    assert_eq!(grid.get(3, 4).material, Material::Air);
}

#[test]
fn in_bounds_edges() {
    let grid = Grid::new();
    assert!(grid.in_bounds(0, 0));
    assert!(grid.in_bounds(GRID_WIDTH as isize - 1, GRID_HEIGHT as isize - 1));
    assert!(!grid.in_bounds(-1, 0));
    assert!(!grid.in_bounds(0, -1));
    assert!(!grid.in_bounds(GRID_WIDTH as isize, 0));
    assert!(!grid.in_bounds(0, GRID_HEIGHT as isize));
}

#[test]
fn paint_fills_a_round_brush_of_radius_three() {
    let mut grid = Grid::new();
    grid.paint(10, 20, Material::Sand);
    for y in 17..=23usize {
        for x in 7..=13usize {
            let dx = x as isize - 10;
            let dy = y as isize - 20;
            let expected = if dx * dx + dy * dy <= 9 { Material::Sand } else { Material::Air };
            assert_eq!(grid.get(x, y).material, expected);
        }
    }
    assert_eq!(grid.get(12, 20), Cell { material: Material::Sand, updated: false, lifetime: 0 });
    assert_eq!(grid.get(10, 22).material, Material::Sand);
    assert_eq!(grid.get(13, 20).material, Material::Sand);
    assert_eq!(grid.get(12, 22).material, Material::Sand);
    assert_eq!(grid.get(12, 23).material, Material::Air);
    assert_eq!(grid.get(14, 20).material, Material::Air);
    assert_eq!(count(&grid, Material::Sand), 29);
}

#[test]
fn paint_fire_gets_lifetime_fifty_and_smoke_zero() {
    let mut grid = Grid::new();
    grid.paint(50, 50, Material::Fire);
    assert_eq!(grid.get(50, 50), Cell { material: Material::Fire, updated: false, lifetime: 50 });
    grid.paint(100, 50, Material::Smoke);
    assert_eq!(grid.get(101, 51), Cell { material: Material::Smoke, updated: false, lifetime: 0 });
    // smoke painted without a lifetime fades at its first update
    sand_sim::rules::update(&mut grid, 101, 51);
    assert_eq!(grid.get(101, 51).material, Material::Air);
}

#[test]
fn paint_overwrites_everything_but_stone() {
    let mut grid = Grid::new();
    grid.set(10, 20, cell(Material::Stone));
    grid.set(11, 20, cell(Material::Sand));
    grid.set(10, 21, Cell { material: Material::Fire, updated: true, lifetime: 3 });
    grid.paint(10, 20, Material::Water);
    assert_eq!(grid.get(10, 20).material, Material::Stone);
    assert_eq!(grid.get(11, 20), cell(Material::Water));
    assert_eq!(grid.get(10, 21), cell(Material::Water));
    assert_eq!(count(&grid, Material::Water), 28);
}

#[test]
fn paint_over_sand_with_water() {
    let mut grid = Grid::new();
    grid.set(10, 10, cell(Material::Sand));
    grid.paint(10, 10, Material::Water);
    assert_eq!(grid.get(10, 10).material, Material::Water);
}

#[test]
fn paint_is_clipped_at_the_edges() {
    let mut grid = Grid::new();
    grid.paint(0, 0, Material::Sand);
    assert_eq!(count(&grid, Material::Sand), 11);
    grid.paint(GRID_WIDTH, GRID_HEIGHT, Material::Water);
    assert_eq!(count(&grid, Material::Water), 4);
    assert_eq!(grid.get(GRID_WIDTH - 1, GRID_HEIGHT - 1).material, Material::Water);
    grid.paint(GRID_WIDTH + 2, 5, Material::Wood);
    assert_eq!(count(&grid, Material::Wood), 1);
    assert_eq!(grid.get(GRID_WIDTH - 1, 5).material, Material::Wood);
    grid.paint(GRID_WIDTH + 3, 5, Material::Stone);
    grid.paint(usize::MAX, usize::MAX, Material::Stone);
    assert_eq!(count(&grid, Material::Stone), 0);
}

#[test]
fn update_makes_sand_fall_one_row() {
    let mut grid = Grid::new();
    grid.set(5, 5, cell(Material::Sand));
    grid.update();
    assert_eq!(grid.get(5, 5).material, Material::Air);
    let c = grid.get(5, 6);
    assert_eq!(c.material, Material::Sand);
    assert!(c.updated);
    assert_eq!(grid.stats().sand_count, 1);
}

#[test]
fn update_lets_sand_reach_the_floor_and_stay() {
    let mut grid = Grid::new();
    grid.set(7, GRID_HEIGHT - 3, cell(Material::Sand));
    for _ in 0..10 {
        grid.update();
    }
    assert_eq!(grid.get(7, GRID_HEIGHT - 1).material, Material::Sand);
    assert_eq!(count(&grid, Material::Sand), 1);
}

#[test]
fn update_piles_sand_on_stone() {
    let mut grid = Grid::new();
    grid.set(20, 10, cell(Material::Stone));
    grid.set(20, 9, cell(Material::Sand));
    grid.set(20, 8, cell(Material::Sand));
    grid.update();
    // the lower grain slides off diagonally, the upper one falls into its place
    assert_eq!(grid.get(20, 10).material, Material::Stone);
    assert_eq!(grid.get(20, 9).material, Material::Sand);
    assert_eq!(count(&grid, Material::Sand), 2);
    let lower_left = grid.get(19, 10).material == Material::Sand;
    let lower_right = grid.get(21, 10).material == Material::Sand;
    assert!(lower_left ^ lower_right);
}

#[test]
fn update_counts_materials() {
    let mut grid = Grid::new();
    grid.set(1, GRID_HEIGHT - 1, cell(Material::Stone));
    grid.set(2, GRID_HEIGHT - 1, cell(Material::Stone));
    grid.set(3, GRID_HEIGHT - 1, cell(Material::Wood));
    grid.set(4, GRID_HEIGHT - 1, cell(Material::Sand));
    grid.update();
    assert_eq!(
        grid.stats(),
        Stats { sand_count: 1, water_count: 0, stone_count: 2, wood_count: 1, fire_count: 0, smoke_count: 0 }
    );
}

#[test]
fn update_with_follows_given_choices() {
    let mut grid = Grid::new();
    // water on the floor cannot fall: it spreads, right first
    grid.set(10, GRID_HEIGHT - 1, cell(Material::Water));
    let choices = vec![calm(); GRID_CELLS];
    grid.update_with(&choices);
    // stuck on the floor, it spreads one column to the right
    assert_eq!(grid.get(11, GRID_HEIGHT - 1).material, Material::Water);
    assert_eq!(grid.get(10, GRID_HEIGHT - 1).material, Material::Air);
    let mut grid = Grid::new();
    grid.set(10, 100, cell(Material::Water));
    grid.set(10, 101, cell(Material::Stone));
    grid.set(9, 101, cell(Material::Stone));
    grid.set(11, 101, cell(Material::Stone));
    // row 100 is row index GRID_HEIGHT - 1 - 100 from the bottom
    let r = GRID_HEIGHT - 1 - 100;
    let i = if r % 2 == 1 { GRID_WIDTH - 1 - 10 } else { 10 };
    let mut given = vec![calm(); GRID_CELLS];
    given[r * GRID_WIDTH + i] = Choices { direction: -1, ..calm() };
    grid.update_with(&given);
    assert_eq!(grid.get(9, 100).material, Material::Water);
    assert_eq!(grid.get(10, 100).material, Material::Air);
}

#[test]
fn update_without_fire_keeps_every_count_and_stone() {
    let mut grid = Grid::new();
    for x in (40..80).step_by(3) {
        grid.paint(x, 30, Material::Sand);
        grid.paint(x + 1, 60, Material::Water);
    }
    for x in 30..90 {
        grid.set(x, 120, cell(Material::Stone));
    }
    let sand = count(&grid, Material::Sand);
    let water = count(&grid, Material::Water);
    let air = count(&grid, Material::Air);
    for _ in 0..60 {
        grid.update();
    }
    assert_eq!(count(&grid, Material::Sand), sand);
    assert_eq!(count(&grid, Material::Water), water);
    assert_eq!(count(&grid, Material::Air), air);
    assert_eq!(count(&grid, Material::Smoke), 0);
    for x in 30..90 {
        assert_eq!(grid.get(x, 120).material, Material::Stone);
    }
}

#[test]
fn fire_burns_wood_to_smoke_and_smoke_fades_to_air() {
    let mut grid = Grid::new();
    for x in 50..60 {
        for y in 200..205 {
            grid.set(x, y, cell(Material::Wood));
        }
    }
    grid.set(49, 202, cell(Material::Fire));
    let total = GRID_CELLS - count(&grid, Material::Stone);
    let mut wood = count(&grid, Material::Wood);
    for _ in 0..400 {
        grid.update();
        let now_wood = count(&grid, Material::Wood);
        assert!(now_wood <= wood);
        wood = now_wood;
        let now = count(&grid, Material::Air) + now_wood + count(&grid, Material::Fire) + count(&grid, Material::Smoke);
        assert_eq!(now, total);
    }
    assert_eq!(count(&grid, Material::Wood), 0);
    assert_eq!(count(&grid, Material::Fire), 0);
    assert_eq!(count(&grid, Material::Smoke), 0);
    assert_eq!(count(&grid, Material::Air), GRID_CELLS);
}
