use sand_sim::config::{GRID_HEIGHT, GRID_WIDTH};
use sand_sim::grid::{Cell, Grid, Material};
use sand_sim::rules::{can_displace, density, update, update_with, Choices};

fn cell(material: Material) -> Cell {
    let lifetime = match material {
        Material::Fire => 50,
        Material::Smoke => 150,
        _ => 0,
    };
    Cell { material, updated: false, lifetime }
}

fn calm() -> Choices {
    Choices {
        horizontal_move: false,
        drift: 1,
        side: 1,
        water_spread: 1,
        smoke_spread: 1,
        direction: 1,
        kindle_left: 20,
        kindle_right: 20,
        kindle_up: 20,
        kindle_down: 20,
    }
}

#[test]
fn densities() {
    assert_eq!(density(Material::Air), 0);
    assert_eq!(density(Material::Smoke), 1);
    assert_eq!(density(Material::Fire), 2);
    assert_eq!(density(Material::Water), 3);
    assert_eq!(density(Material::Sand), 4);
    assert_eq!(density(Material::Wood), 5);
    assert_eq!(density(Material::Stone), 6);
}

#[test]
fn displacement_examples() {
    assert!(can_displace(Material::Sand, Material::Water));
    assert!(can_displace(Material::Water, Material::Air));
    assert!(can_displace(Material::Smoke, Material::Air));
    assert!(!can_displace(Material::Water, Material::Sand));
    assert!(!can_displace(Material::Sand, Material::Sand));
    assert!(!can_displace(Material::Sand, Material::Stone));
    assert!(!can_displace(Material::Air, Material::Smoke));
}

#[test]
fn sand_falls_straight_down() {
    let mut grid = Grid::new();
    grid.set(30, 30, cell(Material::Sand));
    update_with(&mut grid, 30, 30, calm());
    assert_eq!(grid.get(30, 30), Cell { material: Material::Air, updated: true, lifetime: 0 });
    assert_eq!(grid.get(30, 31), Cell { material: Material::Sand, updated: true, lifetime: 0 });
}

#[test]
fn sand_sinks_through_water() {
    let mut grid = Grid::new();
    grid.set(30, 30, cell(Material::Sand));
    grid.set(30, 31, cell(Material::Water));
    update_with(&mut grid, 30, 30, calm());
    assert_eq!(grid.get(30, 30).material, Material::Water);
    assert_eq!(grid.get(30, 31).material, Material::Sand);
}

#[test]
fn sand_on_the_floor_stays() {
    let mut grid = Grid::new();
    grid.set(30, GRID_HEIGHT - 1, cell(Material::Sand));
    update_with(&mut grid, 30, GRID_HEIGHT - 1, calm());
    assert_eq!(grid.get(30, GRID_HEIGHT - 1), cell(Material::Sand));
}

#[test]
fn sand_slides_to_the_chosen_diagonal() {
    let mut grid = Grid::new();
    grid.set(30, 30, cell(Material::Sand));
    grid.set(30, 31, cell(Material::Stone));
    update_with(&mut grid, 30, 30, Choices { side: -1, ..calm() });
    assert_eq!(grid.get(29, 31).material, Material::Sand);
    assert_eq!(grid.get(30, 30).material, Material::Air);

    let mut grid = Grid::new();
    grid.set(30, 30, cell(Material::Sand));
    grid.set(30, 31, cell(Material::Stone));
    grid.set(31, 31, cell(Material::Stone));
    update_with(&mut grid, 30, 30, calm());
    assert_eq!(grid.get(29, 31).material, Material::Sand);
}

#[test]
fn sand_at_left_edge_slides_right() {
    let mut grid = Grid::new();
    grid.set(0, 30, cell(Material::Sand));
    grid.set(0, 31, cell(Material::Stone));
    update_with(&mut grid, 0, 30, Choices { side: -1, ..calm() });
    assert_eq!(grid.get(1, 31).material, Material::Sand);
}

#[test]
fn sand_at_right_edge_slides_left() {
    let mut grid = Grid::new();
    let x = GRID_WIDTH - 1;
    grid.set(x, 30, cell(Material::Sand));
    grid.set(x, 31, cell(Material::Stone));
    update_with(&mut grid, x, 30, calm());
    assert_eq!(grid.get(x - 1, 31).material, Material::Sand);
}

#[test]
fn blocked_sand_stays() {
    let mut grid = Grid::new();
    for x in 29..=31 {
        grid.set(x, 31, cell(Material::Stone));
    }
    grid.set(30, 30, cell(Material::Sand));
    update_with(&mut grid, 30, 30, calm());
    assert_eq!(grid.get(30, 30), cell(Material::Sand));
}

#[test]
fn water_spreads_sideways_when_blocked() {
    let mut grid = Grid::new();
    for x in 20..=40 {
        grid.set(x, 51, cell(Material::Stone));
    }
    grid.set(30, 50, cell(Material::Water));
    grid.set(31, 50, cell(Material::Stone));
    update_with(&mut grid, 30, 50, Choices { water_spread: 3, ..calm() });
    // right side is walled: the left neighbour one column away is taken
    assert_eq!(grid.get(29, 50).material, Material::Water);
    assert_eq!(grid.get(30, 50).material, Material::Air);
}

#[test]
fn water_spread_looks_further_out() {
    let mut grid = Grid::new();
    for x in 20..=40 {
        grid.set(x, 51, cell(Material::Stone));
    }
    grid.set(30, 50, cell(Material::Water));
    for x in 31..=32 {
        grid.set(x, 50, cell(Material::Sand));
    }
    grid.set(29, 50, cell(Material::Sand));
    grid.set(28, 50, cell(Material::Sand));
    update_with(&mut grid, 30, 50, Choices { water_spread: 3, ..calm() });
    assert_eq!(grid.get(33, 50).material, Material::Water);
    assert_eq!(grid.get(30, 50).material, Material::Air);
}

#[test]
fn water_falls_diagonally_and_stops_there() {
    let mut grid = Grid::new();
    grid.set(5, 11, cell(Material::Stone));
    grid.set(4, 11, cell(Material::Smoke));
    grid.set(6, 11, cell(Material::Smoke));
    grid.set(5, 10, cell(Material::Water));
    update(&mut grid, 5, 10);
    // the water swaps with one of the smoke cells below and the move ends
    assert_eq!(grid.get(5, 10).material, Material::Smoke);
    assert_eq!(grid.get(4, 10).material, Material::Air);
    assert_eq!(grid.get(6, 10).material, Material::Air);
    assert_eq!(grid.get(5, 11).material, Material::Stone);
    let left = grid.get(4, 11).material == Material::Water;
    let right = grid.get(6, 11).material == Material::Water;
    assert!(left ^ right);
}

#[test]
fn stuck_water_on_the_floor_spreads() {
    let mut grid = Grid::new();
    grid.set(0, GRID_HEIGHT - 1, cell(Material::Water));
    update(&mut grid, 0, GRID_HEIGHT - 1);
    assert_eq!(grid.get(1, GRID_HEIGHT - 1).material, Material::Water);
    assert_eq!(grid.get(0, GRID_HEIGHT - 1).material, Material::Air);
}

#[test]
fn water_spreads_only_into_air() {
    let mut grid = Grid::new();
    for x in 20..=40 {
        grid.set(x, 51, cell(Material::Stone));
    }
    grid.set(30, 50, cell(Material::Water));
    grid.set(31, 50, cell(Material::Smoke));
    grid.set(29, 50, cell(Material::Fire));
    update_with(&mut grid, 30, 50, Choices { water_spread: 2, ..calm() });
    assert_eq!(grid.get(32, 50).material, Material::Water);
    assert_eq!(grid.get(31, 50).material, Material::Smoke);
    assert_eq!(grid.get(29, 50).material, Material::Fire);
}

#[test]
fn smoke_rises() {
    let mut grid = Grid::new();
    grid.set(30, 30, cell(Material::Smoke));
    update_with(&mut grid, 30, 30, calm());
    assert_eq!(grid.get(30, 29), Cell { material: Material::Smoke, updated: true, lifetime: 149 });
    assert_eq!(grid.get(30, 30).material, Material::Air);
}

#[test]
fn smoke_fades_into_air() {
    let mut grid = Grid::new();
    grid.set(5, 10, Cell { material: Material::Smoke, updated: false, lifetime: 1 });
    update(&mut grid, 5, 10);
    assert_eq!(grid.get(5, 10), Cell { material: Material::Air, updated: true, lifetime: 0 });
    assert_eq!(grid.get(5, 9).material, Material::Air);
    grid.set(6, 10, Cell { material: Material::Smoke, updated: false, lifetime: 0 });
    update(&mut grid, 6, 10);
    assert_eq!(grid.get(6, 10).material, Material::Air);
}

#[test]
fn smoke_drifts_when_chosen() {
    let mut grid = Grid::new();
    grid.set(30, 30, cell(Material::Smoke));
    update_with(&mut grid, 30, 30, Choices { horizontal_move: true, drift: -1, ..calm() });
    assert_eq!(grid.get(29, 29).material, Material::Smoke);
}

#[test]
fn smoke_on_the_top_rows_stays() {
    let mut grid = Grid::new();
    grid.set(30, 1, cell(Material::Smoke));
    update_with(&mut grid, 30, 1, calm());
    assert_eq!(grid.get(30, 1), Cell { material: Material::Smoke, updated: true, lifetime: 149 });
}

#[test]
fn smoke_spread_jumps_past_obstacles() {
    let mut grid = Grid::new();
    for x in 28..=32 {
        grid.set(x, 29, cell(Material::Water));
    }
    grid.set(29, 30, cell(Material::Stone));
    grid.set(31, 30, cell(Material::Stone));
    grid.set(30, 30, cell(Material::Smoke));
    update_with(&mut grid, 30, 30, Choices { smoke_spread: 9, ..calm() });
    // water above is too dense to rise through; the first free cell two
    // columns away on the right is taken
    assert_eq!(grid.get(32, 30).material, Material::Smoke);
    assert_eq!(grid.get(30, 30).material, Material::Air);
}

#[test]
fn fire_counts_down_and_rises() {
    let mut grid = Grid::new();
    grid.set(30, 30, Cell { material: Material::Fire, updated: false, lifetime: 10 });
    update_with(&mut grid, 30, 30, calm());
    assert_eq!(grid.get(30, 29), Cell { material: Material::Fire, updated: true, lifetime: 9 });
    assert_eq!(grid.get(30, 30).material, Material::Air);
}

#[test]
fn fire_turns_to_smoke_at_the_end() {
    let mut grid = Grid::new();
    grid.set(30, 30, Cell { material: Material::Fire, updated: false, lifetime: 1 });
    grid.set(30, 31, cell(Material::Wood));
    update_with(&mut grid, 30, 30, calm());
    assert_eq!(grid.get(30, 30), Cell { material: Material::Smoke, updated: true, lifetime: 150 });
    assert_eq!(grid.get(30, 31).material, Material::Wood);
}

#[test]
fn fire_lights_orthogonal_wood_only() {
    let mut grid = Grid::new();
    for y in 29..=31 {
        for x in 29..=31 {
            grid.set(x, y, cell(Material::Wood));
        }
    }
    grid.set(30, 30, Cell { material: Material::Fire, updated: false, lifetime: 5 });
    let ch = Choices { kindle_left: 11, kindle_right: 12, kindle_up: 13, kindle_down: 14, ..calm() };
    update_with(&mut grid, 30, 30, ch);
    assert_eq!(grid.get(29, 30), Cell { material: Material::Fire, updated: true, lifetime: 11 });
    assert_eq!(grid.get(31, 30), Cell { material: Material::Fire, updated: true, lifetime: 12 });
    assert_eq!(grid.get(30, 29), Cell { material: Material::Fire, updated: true, lifetime: 13 });
    assert_eq!(grid.get(30, 31), Cell { material: Material::Fire, updated: true, lifetime: 14 });
    for (x, y) in [(29, 29), (31, 29), (29, 31), (31, 31)] {
        assert_eq!(grid.get(x, y), cell(Material::Wood));
    }
    assert_eq!(grid.get(30, 30), Cell { material: Material::Fire, updated: true, lifetime: 4 });
}

#[test]
fn fire_lights_wood_and_rises() {
    let mut grid = Grid::new();
    grid.set(5, 10, cell(Material::Fire));
    grid.set(6, 10, cell(Material::Wood));
    grid.set(6, 11, cell(Material::Wood));
    update(&mut grid, 5, 10);
    let lit = grid.get(6, 10);
    assert_eq!(lit.material, Material::Fire);
    assert!(lit.lifetime >= 10 && lit.lifetime <= 30);
    assert_eq!(grid.get(6, 11).material, Material::Wood);
    assert_eq!(grid.get(5, 9), Cell { material: Material::Fire, updated: true, lifetime: 49 });
    assert_eq!(grid.get(5, 10).material, Material::Air);
}

#[test]
fn fire_rises_only_into_air() {
    let mut grid = Grid::new();
    grid.set(5, 10, cell(Material::Fire));
    grid.set(5, 9, cell(Material::Smoke));
    update_with(&mut grid, 5, 10, calm());
    assert_eq!(grid.get(5, 10), Cell { material: Material::Fire, updated: true, lifetime: 49 });
    assert_eq!(grid.get(5, 9), cell(Material::Smoke));
}

#[test]
fn random_kindle_lifetimes_vary_within_range() {
    let mut seen = std::collections::BTreeSet::new();
    for _ in 0..200 {
        let mut grid = Grid::new();
        grid.set(5, 10, cell(Material::Fire));
        grid.set(6, 10, cell(Material::Wood));
        update(&mut grid, 5, 10);
        let lit = grid.get(6, 10);
        assert_eq!(lit.material, Material::Fire);
        assert!(lit.lifetime >= 10 && lit.lifetime <= 30);
        seen.insert(lit.lifetime);
    }
    assert!(seen.len() > 5);
}

#[test]
fn stone_wood_and_air_do_nothing() {
    let mut grid = Grid::new();
    grid.set(30, 30, cell(Material::Stone));
    grid.set(31, 30, cell(Material::Wood));
    update(&mut grid, 30, 30);
    update(&mut grid, 31, 30);
    update(&mut grid, 32, 30);
    assert_eq!(grid.get(30, 30), cell(Material::Stone));
    assert_eq!(grid.get(31, 30), cell(Material::Wood));
    assert_eq!(grid.get(32, 30), cell(Material::Air));
    assert_eq!(grid.get(30, 31), cell(Material::Air));
}

#[test]
fn random_update_makes_free_sand_fall() {
    let mut grid = Grid::new();
    grid.set(30, 30, cell(Material::Sand));
    update(&mut grid, 30, 30);
    assert_eq!(grid.get(30, 31).material, Material::Sand);
}

#[test]
fn random_diagonal_goes_both_ways() {
    let mut left = 0;
    let mut right = 0;
    for _ in 0..400 {
        let mut grid = Grid::new();
        grid.set(30, 30, cell(Material::Sand));
        grid.set(30, 31, cell(Material::Stone));
        update(&mut grid, 30, 30);
        if grid.get(29, 31).material == Material::Sand {
            left += 1;
        }
        if grid.get(31, 31).material == Material::Sand {
            right += 1;
        }
    }
    assert_eq!(left + right, 400);
    assert!(left > 0);
    assert!(right > 0);
}

#[test]
fn random_water_spread_stays_within_four() {
    let mut reached = [false; 5];
    for _ in 0..400 {
        let mut grid = Grid::new();
        for x in 10..=50 {
            grid.set(x, 51, cell(Material::Stone));
        }
        grid.set(30, 50, cell(Material::Water));
        for d in 1..=3 {
            grid.set(30 - d, 50, cell(Material::Sand));
            grid.set(30 + d, 50, cell(Material::Sand));
        }
        update(&mut grid, 30, 50);
        let mut found = 0;
        for d in 1..=6 {
            if grid.get(30 - d, 50).material == Material::Water || grid.get(30 + d, 50).material == Material::Water {
                found = d;
            }
        }
        assert!(found == 0 || found == 4);
        if found == 4 {
            reached[4] = true;
        } else {
            reached[0] = true;
        }
    }
    // the spread distance is drawn from 1 to 4: both outcomes happen
    assert!(reached[0] && reached[4]);
}

#[test]
fn random_smoke_drift_happens_sometimes() {
    let mut straight = 0;
    let mut drifted = 0;
    for _ in 0..600 {
        let mut grid = Grid::new();
        grid.set(30, 30, cell(Material::Smoke));
        update(&mut grid, 30, 30);
        if grid.get(30, 29).material == Material::Smoke {
            straight += 1;
        } else {
            drifted += 1;
        }
    }
    assert_eq!(straight + drifted, 600);
    // the drift is drawn with chance 1 in 3
    assert!(drifted > 120 && drifted < 300);
    assert!(straight > drifted);
}
