use pacman_sim::grid::{tile_from_char, Grid, LayoutError, Tile};
use pacman_sim::sim::SIM1_LAYOUT;

fn count_dots(grid: &Grid) -> u32 {
    let mut n = 0;
    let mut lines = grid.scan_lines();
    while let Some(row) = lines.next() {
        for tile in row {
            if *tile == Tile::Dot {
                n += 1;
            }
        }
    }
    n
}

fn small_grid() -> Grid {
    Grid::new("#####\n#.X #\n#..H#\n#####\n").unwrap()
}

#[test]
fn tile_symbols() {
    assert_eq!(tile_from_char('#'), Some(Tile::Wall));
    assert_eq!(tile_from_char('.'), Some(Tile::Dot));
    assert_eq!(tile_from_char(' '), Some(Tile::Empty));
    assert_eq!(tile_from_char('X'), Some(Tile::PowerUp));
    assert_eq!(tile_from_char('H'), Some(Tile::House));
    assert_eq!(tile_from_char('x'), None);
    assert_eq!(tile_from_char('\t'), None);
}

#[test]
fn layout_of_the_plain_simulator() {
    let grid = Grid::new(SIM1_LAYOUT).unwrap();
    assert_eq!(grid.width(), 28);
    assert_eq!(grid.height(), 10);
    assert_eq!(grid.pellets(), 26 * 8 - 3);
    assert_eq!(count_dots(&grid), 205);
    assert_eq!(grid.get(0, 0), Some(Tile::Wall));
    assert_eq!(grid.get(1, 1), Some(Tile::Dot));
    assert_eq!(grid.get(17, 1), Some(Tile::PowerUp));
    assert_eq!(grid.get(15, 5), Some(Tile::PowerUp));
    assert_eq!(grid.get(17, 5), Some(Tile::PowerUp));
    assert_eq!(grid.get(27, 9), Some(Tile::Wall));
}

#[test]
fn get_outside_the_grid_is_none() {
    let grid = small_grid();
    assert_eq!(grid.get(-1, 0), None);
    assert_eq!(grid.get(5, 0), None);
    assert_eq!(grid.get(0, -1), None);
    assert_eq!(grid.get(0, 4), None);
    assert_eq!(grid.get(i32::MIN, i32::MAX), None);
    assert_eq!(grid.get(4, 3), Some(Tile::Wall));
}

#[test]
fn walls_and_houses_block() {
    let grid = small_grid();
    assert!(grid.is_wall(0, 0));
    assert!(grid.is_wall(3, 2));
    assert!(!grid.is_wall(1, 1));
    assert!(!grid.is_wall(2, 1));
    assert!(!grid.is_wall(3, 1));
    assert!(!grid.is_wall(-1, 1));
    assert!(!grid.is_wall(1, 9));
    assert!(grid.is_house(3, 2));
    assert!(!grid.is_house(0, 0));
    assert!(!grid.is_house(7, 7));
}

#[test]
fn consume_takes_dots_and_counts_them() {
    let mut grid = small_grid();
    assert_eq!(grid.pellets(), 3);
    grid.consume(1, 1);
    assert_eq!(grid.get(1, 1), Some(Tile::Empty));
    assert_eq!(grid.pellets(), 2);
    // A second time nothing is left to take.
    grid.consume(1, 1);
    assert_eq!(grid.pellets(), 2);
    // A power-up is no dot.
    grid.consume(2, 1);
    assert_eq!(grid.get(2, 1), Some(Tile::Empty));
    assert_eq!(grid.pellets(), 2);
    // The cell is empty afterwards whatever it held.
    grid.consume(0, 0);
    assert_eq!(grid.get(0, 0), Some(Tile::Empty));
    assert_eq!(grid.pellets(), 2);
    assert_eq!(count_dots(&grid), 2);
}

#[test]
fn consume_outside_the_grid_changes_nothing() {
    let mut grid = small_grid();
    grid.consume(-1, 1);
    grid.consume(5, 0);
    grid.consume(1, 4);
    grid.consume(1, -1);
    assert_eq!(grid.pellets(), 3);
    assert_eq!(count_dots(&grid), 3);
    assert_eq!(grid.get(0, 1), Some(Tile::Wall));
    assert_eq!(grid.get(1, 1), Some(Tile::Dot));
}

#[test]
fn counter_equals_dots_after_any_consumes() {
    let mut grid = Grid::new(SIM1_LAYOUT).unwrap();
    let cells =
        [(1, 1), (2, 1), (2, 1), (17, 1), (0, 0), (30, 3), (5, 5), (-2, 4), (26, 8), (1, 1)];
    for (x, y) in cells {
        grid.consume(x, y);
        assert_eq!(grid.pellets(), count_dots(&grid));
    }
    assert_eq!(grid.pellets(), 205 - 4);
}

#[test]
fn reset_puts_the_original_dots_back() {
    let mut grid = small_grid();
    grid.consume(1, 1);
    grid.consume(2, 1);
    grid.consume(1, 2);
    grid.consume(2, 2);
    assert_eq!(grid.pellets(), 0);
    grid.reset();
    assert_eq!(grid.pellets(), 3);
    assert_eq!(count_dots(&grid), 3);
    assert_eq!(grid.get(1, 1), Some(Tile::Dot));
    assert_eq!(grid.get(1, 2), Some(Tile::Dot));
    assert_eq!(grid.get(2, 2), Some(Tile::Dot));
    // Power-ups do not come back.
    assert_eq!(grid.get(2, 1), Some(Tile::Empty));
}

#[test]
fn remove_all_pellets_leaves_no_dot() {
    let mut grid = small_grid();
    grid.remove_all_pellets();
    assert_eq!(grid.pellets(), 0);
    assert_eq!(count_dots(&grid), 0);
    assert_eq!(grid.get(1, 1), Some(Tile::Empty));
    assert_eq!(grid.get(2, 1), Some(Tile::PowerUp));
    assert_eq!(grid.get(0, 0), Some(Tile::Wall));
    grid.reset();
    assert_eq!(grid.pellets(), 3);
}

#[test]
fn scan_lines_hands_out_the_rows() {
    let grid = small_grid();
    let mut lines = grid.scan_lines();
    assert_eq!(lines.next(), Some(&[Tile::Wall; 5][..]));
    assert_eq!(
        lines.next(),
        Some(&[Tile::Wall, Tile::Dot, Tile::PowerUp, Tile::Empty, Tile::Wall][..])
    );
    assert_eq!(
        lines.next(),
        Some(&[Tile::Wall, Tile::Dot, Tile::Dot, Tile::House, Tile::Wall][..])
    );
    assert_eq!(lines.next(), Some(&[Tile::Wall; 5][..]));
    assert_eq!(lines.next(), None);
    assert_eq!(lines.next(), None);
}

#[test]
fn layout_rows_are_trimmed_and_blank_lines_left_out() {
    let grid = Grid::new("\n   ###  \r\n\t#.#\n\n ### \n   \n").unwrap();
    assert_eq!(grid.width(), 3);
    assert_eq!(grid.height(), 3);
    assert_eq!(grid.pellets(), 1);
    assert_eq!(grid.get(1, 1), Some(Tile::Dot));
}

#[test]
fn layout_keeps_spaces_inside_a_row() {
    let grid = Grid::new("#. .#").unwrap();
    assert_eq!(grid.width(), 5);
    assert_eq!(grid.height(), 1);
    assert_eq!(grid.get(2, 0), Some(Tile::Empty));
    assert_eq!(grid.pellets(), 2);
}

#[test]
fn layout_without_rows_is_refused() {
    assert_eq!(Grid::new("").err(), Some(LayoutError::Empty));
    assert_eq!(Grid::new("\n  \n\t\r\n").err(), Some(LayoutError::Empty));
}

#[test]
fn layout_with_wrong_tile_count_is_refused() {
    assert_eq!(Grid::new("###\n##\n").err(), Some(LayoutError::TileCountMismatch));
    assert_eq!(Grid::new("##\n###\n").err(), Some(LayoutError::TileCountMismatch));
    // A character that is no tile symbol is passed over, so a tile is missing.
    assert_eq!(Grid::new("#?#\n###\n").err(), Some(LayoutError::TileCountMismatch));
}

#[test]
fn open_cells_in_row_major_order() {
    let grid = small_grid();
    assert_eq!(grid.count_open(), 5);
    assert_eq!(grid.open_cell(0), Some((1, 1)));
    assert_eq!(grid.open_cell(1), Some((2, 1)));
    assert_eq!(grid.open_cell(2), Some((3, 1)));
    assert_eq!(grid.open_cell(3), Some((1, 2)));
    assert_eq!(grid.open_cell(4), Some((2, 2)));
    assert_eq!(grid.open_cell(5), None);
    assert_eq!(grid.open_cell(usize::MAX), None);
    let walls = Grid::new("##\n##").unwrap();
    assert_eq!(walls.count_open(), 0);
    assert_eq!(walls.open_cell(0), None);
}

#[test]
fn house_entrance_is_above_the_first_house_tile() {
    assert_eq!(small_grid().house_entrance(), (3, 1));
    let two = Grid::new("#####\n#   #\n#HH #\n# H #\n#####").unwrap();
    assert_eq!(two.house_entrance(), (1, 1));
}

#[test]
fn house_entrance_without_a_house_is_the_middle() {
    let grid = Grid::new(SIM1_LAYOUT).unwrap();
    assert_eq!(grid.house_entrance(), (14, 5));
    // A house in the top row has no cell above it.
    let top = Grid::new("H##\n#.#\n###").unwrap();
    assert_eq!(top.house_entrance(), (1, 1));
}

#[test]
fn layout_beyond_the_largest_grid_is_refused() {
    let text = "#".repeat((1usize << 30) + 1);
    assert_eq!(Grid::new(&text).err(), Some(LayoutError::TooLarge));
}

#[test]
fn layout_error_order() {
    // Without a row there is nothing to count.
    assert_eq!(Grid::new("\r\n").err(), Some(LayoutError::Empty));
    // One row is its own width.
    assert!(Grid::new("#").is_ok());
}

#[test]
fn reset_leaves_walls_houses_and_power_ups_alone() {
    let mut grid = small_grid();
    grid.consume(1, 1);
    grid.consume(1, 2);
    grid.reset();
    assert_eq!(grid.get(0, 0), Some(Tile::Wall));
    assert_eq!(grid.get(4, 3), Some(Tile::Wall));
    assert_eq!(grid.get(3, 2), Some(Tile::House));
    assert_eq!(grid.get(2, 1), Some(Tile::PowerUp));
    assert_eq!(grid.get(3, 1), Some(Tile::Empty));
    assert!(grid.is_wall(0, 1));
    assert!(grid.is_wall(3, 2));
    assert_eq!(grid.pellets(), 3);
    // A wall that was taken away stays away: it never held a dot.
    grid.consume(0, 0);
    grid.reset();
    assert_eq!(grid.get(0, 0), Some(Tile::Empty));
    assert_eq!(grid.pellets(), 3);
}

#[test]
fn a_row_cannot_begin_or_end_with_an_empty_cell() {
    assert_eq!(Grid::new("####\n  . \n####").err(), Some(LayoutError::TileCountMismatch));
    assert!(Grid::new("####\n.  .\n####").is_ok());
}
