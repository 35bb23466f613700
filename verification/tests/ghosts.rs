use pacman_sim::direction::Direction;
use pacman_sim::ghosts::{
    choose_direction, corner, dist2, landing, phase, GhostMode, GhostState, Ghosts, Interaction,
    Personality, FRIGHT_TICKS,
};
use pacman_sim::grid::Grid;
use pacman_sim::sim::SIM1_LAYOUT;

fn field() -> Grid {
    Grid::new(".....\n.....\n.....\n.....\n.....").unwrap()
}

fn big() -> Grid {
    Grid::new(SIM1_LAYOUT).unwrap()
}

// Index of the open cell `(x, y)` of the big grid among its open cells.
fn roll_for(x: usize, y: usize) -> usize {
    (y - 1) * 26 + (x - 1)
}

// Four frightened ghosts of the big grid on four cells of their own.
fn scattered_in_fright() -> Ghosts {
    let grid = big();
    let mut ghosts = Ghosts::new(grid.house_entrance());
    ghosts.frighten();
    let player = (1, 1, Direction::Right);
    ghosts.move_ghosts_with(&grid, player, [0, 0, 0, 0]);
    let left = roll_for(1, 6);
    let down = roll_for(14, 8);
    let right = roll_for(26, 6);
    let up = roll_for(13, 1);
    ghosts.move_ghosts_with(&grid, player, [left, down, right, left]);
    ghosts.move_ghosts_with(&grid, player, [left, down, right, up]);
    ghosts
}

#[test]
fn schedule_of_scatter_and_chase() {
    assert_eq!(phase(0), GhostMode::Scatter);
    assert_eq!(phase(41), GhostMode::Scatter);
    assert_eq!(phase(42), GhostMode::Chase);
    assert_eq!(phase(161), GhostMode::Chase);
    assert_eq!(phase(162), GhostMode::Scatter);
    assert_eq!(phase(203), GhostMode::Scatter);
    assert_eq!(phase(204), GhostMode::Chase);
    assert_eq!(phase(323), GhostMode::Chase);
    assert_eq!(phase(324), GhostMode::Scatter);
    assert_eq!(phase(353), GhostMode::Scatter);
    assert_eq!(phase(354), GhostMode::Chase);
    assert_eq!(phase(473), GhostMode::Chase);
    assert_eq!(phase(474), GhostMode::Scatter);
    assert_eq!(phase(503), GhostMode::Scatter);
    assert_eq!(phase(504), GhostMode::Chase);
    assert_eq!(phase(1_000_000), GhostMode::Chase);
    assert_eq!(phase(u32::MAX), GhostMode::Chase);
}

#[test]
fn squared_distance() {
    assert_eq!(dist2((0, 0), (3, 4)), 25);
    assert_eq!(dist2((3, 4), (0, 0)), 25);
    assert_eq!(dist2((-2, 7), (-2, 7)), 0);
    assert_eq!(dist2((1, 1), (2, 3)), 5);
    let far = (i32::MAX as i128 - i32::MIN as i128) * (i32::MAX as i128 - i32::MIN as i128);
    assert_eq!(dist2((i32::MIN, i32::MIN), (i32::MAX, i32::MAX)), 2 * far);
}

#[test]
fn corners_by_kind() {
    let grid = big();
    assert_eq!(corner(&grid, Personality::Blinky), (27, 0));
    assert_eq!(corner(&grid, Personality::Pinky), (0, 0));
    assert_eq!(corner(&grid, Personality::Inky), (27, 9));
    assert_eq!(corner(&grid, Personality::Clyde), (0, 9));
}

#[test]
fn landing_steps_and_blocks() {
    let grid = big();
    assert_eq!(landing(&grid, 1, 1, Direction::Right), Some((2, 1)));
    assert_eq!(landing(&grid, 1, 1, Direction::Down), Some((1, 2)));
    assert_eq!(landing(&grid, 1, 1, Direction::Up), None);
    assert_eq!(landing(&grid, 1, 1, Direction::Left), None);
}

#[test]
fn landing_wraps_sideways_only() {
    let grid = field();
    assert_eq!(landing(&grid, 0, 2, Direction::Left), Some((4, 2)));
    assert_eq!(landing(&grid, 4, 2, Direction::Right), Some((0, 2)));
    assert_eq!(landing(&grid, 2, 0, Direction::Up), None);
    assert_eq!(landing(&grid, 2, 4, Direction::Down), None);
    // Round the edge into a wall there is no way.
    let half = Grid::new("...#").unwrap();
    assert_eq!(landing(&half, 0, 0, Direction::Left), None);
    assert_eq!(landing(&half, 2, 0, Direction::Right), None);
}

#[test]
fn direction_goes_for_the_nearest_cell() {
    let grid = field();
    assert_eq!(
        choose_direction(&grid, (2, 2), Direction::Up, (2, 0), false),
        Some(Direction::Up)
    );
    assert_eq!(
        choose_direction(&grid, (2, 2), Direction::Right, (0, 4), false),
        Some(Direction::Down)
    );
    assert_eq!(
        choose_direction(&grid, (2, 2), Direction::Up, (4, 2), false),
        Some(Direction::Right)
    );
}

#[test]
fn direction_ties_go_by_the_fixed_order() {
    let grid = field();
    // Up and Left are as near: Up comes first.
    assert_eq!(
        choose_direction(&grid, (2, 2), Direction::Up, (0, 0), false),
        Some(Direction::Up)
    );
    // Left and Down are as near: Left comes first.
    assert_eq!(
        choose_direction(&grid, (2, 2), Direction::Left, (0, 4), false),
        Some(Direction::Left)
    );
    // Down and Right are as near: Down comes first.
    assert_eq!(
        choose_direction(&grid, (2, 2), Direction::Down, (4, 4), false),
        Some(Direction::Down)
    );
    // Up and Right are as near: Up comes first.
    assert_eq!(
        choose_direction(&grid, (2, 2), Direction::Right, (4, 0), false),
        Some(Direction::Up)
    );
    // Left and Right are as near, Up is turning back: Left comes first.
    assert_eq!(
        choose_direction(&grid, (2, 2), Direction::Down, (2, 2), false),
        Some(Direction::Left)
    );
}

#[test]
fn direction_never_turns_back_while_there_is_a_way_on() {
    let grid = field();
    // The target lies straight behind.
    assert_eq!(
        choose_direction(&grid, (2, 2), Direction::Up, (2, 4), false),
        Some(Direction::Left)
    );
    assert_eq!(
        choose_direction(&grid, (2, 2), Direction::Left, (4, 2), false),
        Some(Direction::Up)
    );
    let all = [Direction::Up, Direction::Left, Direction::Down, Direction::Right];
    for current in all {
        for tx in -1..6 {
            for ty in -1..6 {
                for x in 0..5 {
                    for y in 0..5 {
                        let chosen = choose_direction(&grid, (x, y), current, (tx, ty), false);
                        assert!(chosen.is_some());
                        assert_ne!(chosen, Some(current.opposite()));
                    }
                }
            }
        }
    }
}

#[test]
fn direction_turns_back_after_a_change_of_mode() {
    let grid = field();
    assert_eq!(
        choose_direction(&grid, (2, 2), Direction::Up, (2, 0), true),
        Some(Direction::Down)
    );
    // Where the way back is blocked, the ghost goes on as usual.
    let grid = big();
    assert_eq!(
        choose_direction(&grid, (1, 1), Direction::Right, (5, 1), true),
        Some(Direction::Right)
    );
}

#[test]
fn direction_turns_back_in_a_dead_end() {
    let grid = Grid::new("#####\n#...#\n#####").unwrap();
    assert_eq!(
        choose_direction(&grid, (3, 1), Direction::Right, (4, 1), false),
        Some(Direction::Left)
    );
    assert_eq!(
        choose_direction(&grid, (1, 1), Direction::Left, (3, 1), false),
        Some(Direction::Right)
    );
}

#[test]
fn direction_of_an_enclosed_ghost_is_none() {
    let grid = Grid::new("###\n#.#\n###").unwrap();
    let all = [Direction::Up, Direction::Left, Direction::Down, Direction::Right];
    for current in all {
        assert_eq!(choose_direction(&grid, (1, 1), current, (0, 0), false), None);
        assert_eq!(choose_direction(&grid, (1, 1), current, (0, 0), true), None);
    }
}

#[test]
fn ghosts_start_at_home_in_scatter_mode() {
    let ghosts = Ghosts::new((14, 5));
    let members = ghosts.get();
    assert_eq!(members.len(), 4);
    let kinds = [
        Personality::Blinky,
        Personality::Pinky,
        Personality::Inky,
        Personality::Clyde,
    ];
    for i in 0..4 {
        assert_eq!(
            members[i],
            GhostState {
                kind: kinds[i],
                x: 14,
                y: 5,
                direction: Direction::Up,
                mode: GhostMode::Scatter,
                turn_back: false,
            }
        );
    }
    assert_eq!(ghosts.ghost_mode(), GhostMode::Scatter);
}

#[test]
fn ghosts_scatter_towards_their_corners() {
    let grid = big();
    let ghosts = Ghosts::new(grid.house_entrance());
    assert_eq!(
        ghosts.targets(&grid, (1, 1, Direction::Right), [0, 0, 0, 0]),
        [(27, 0), (0, 0), (27, 9), (0, 9)]
    );
    let mut ghosts = ghosts;
    ghosts.move_ghosts_with(&grid, (1, 1, Direction::Right), [0, 0, 0, 0]);
    let members = ghosts.get();
    // Blinky and Inky go right, Pinky and Clyde left; nobody may start downwards.
    assert_eq!((members[0].x, members[0].y, members[0].direction), (15, 5, Direction::Right));
    assert_eq!((members[1].x, members[1].y, members[1].direction), (13, 5, Direction::Left));
    assert_eq!((members[2].x, members[2].y, members[2].direction), (15, 5, Direction::Right));
    assert_eq!((members[3].x, members[3].y, members[3].direction), (13, 5, Direction::Left));
}

#[test]
fn ghosts_chase_by_kind() {
    let grid = big();
    let mut ghosts = Ghosts::new(grid.house_entrance());
    let player = (5, 5, Direction::Right);
    for _ in 0..41 {
        ghosts.move_ghosts_with(&grid, (1, 8, Direction::Left), [0, 0, 0, 0]);
        assert_eq!(ghosts.ghost_mode(), GhostMode::Scatter);
    }
    ghosts.move_ghosts_with(&grid, (1, 8, Direction::Left), [0, 0, 0, 0]);
    assert_eq!(ghosts.ghost_mode(), GhostMode::Chase);
    for member in ghosts.get() {
        assert_eq!(member.mode, GhostMode::Chase);
    }
    let targets = ghosts.targets(&grid, player, [0, 0, 0, 0]);
    assert_eq!(targets[0], (5, 5));
    assert_eq!(targets[1], (9, 5));
    assert_eq!(targets[2], (7, 5));
    let clyde = ghosts.get()[3];
    let expected = if dist2((clyde.x, clyde.y), (5, 5)) > 64 {
        (5, 5)
    } else {
        (0, 9)
    };
    assert_eq!(targets[3], expected);
    assert_eq!(
        ghosts.targets(&grid, (5, 5, Direction::Up), [0, 0, 0, 0])[1],
        (5, 1)
    );
    assert_eq!(
        ghosts.targets(&grid, (5, 5, Direction::Down), [0, 0, 0, 0])[2],
        (5, 7)
    );
    assert_eq!(
        ghosts.targets(&grid, (2, 5, Direction::Left), [0, 0, 0, 0])[1],
        (-2, 5)
    );
}

#[test]
fn clyde_gives_up_the_chase_when_near() {
    let grid = big();
    let far = GhostState {
        kind: Personality::Clyde,
        x: 20,
        y: 5,
        direction: Direction::Left,
        mode: GhostMode::Chase,
        turn_back: false,
    };
    assert_eq!(far.target(&grid, (14, 5), (5, 5, Direction::Up), 0), (5, 5));
    let near = GhostState { x: 13, ..far };
    assert_eq!(near.target(&grid, (14, 5), (5, 5, Direction::Up), 0), (0, 9));
    // Exactly eight cells away is near.
    let edge = GhostState { x: 13, y: 5, ..far };
    assert_eq!(edge.target(&grid, (14, 5), (5, 5, Direction::Up), 0), (0, 9));
    let beyond = GhostState { x: 14, y: 5, ..far };
    assert_eq!(beyond.target(&grid, (14, 5), (5, 5, Direction::Up), 0), (5, 5));
}

#[test]
fn frightened_ghosts_flee_where_the_number_points() {
    let grid = big();
    let scared = GhostState {
        kind: Personality::Blinky,
        x: 14,
        y: 5,
        direction: Direction::Up,
        mode: GhostMode::Frightened,
        turn_back: false,
    };
    assert_eq!(scared.target(&grid, (14, 5), (1, 1, Direction::Up), 0), (1, 1));
    assert_eq!(scared.target(&grid, (14, 5), (1, 1, Direction::Up), 27), (2, 2));
    assert_eq!(scared.target(&grid, (14, 5), (1, 1, Direction::Up), 207), (26, 8));
    // The number counts round the open cells.
    assert_eq!(scared.target(&grid, (14, 5), (1, 1, Direction::Up), 208), (1, 1));
    assert_eq!(scared.target(&grid, (14, 5), (1, 1, Direction::Up), 208 * 5 + 26), (1, 2));
    let walls = Grid::new("##\n##").unwrap();
    let stuck = GhostState { x: 1, y: 1, ..scared };
    assert_eq!(stuck.target(&walls, (0, 0), (0, 0, Direction::Up), 9), (1, 1));
}

#[test]
fn eaten_ghosts_head_home() {
    let grid = big();
    let eaten = GhostState {
        kind: Personality::Inky,
        x: 3,
        y: 3,
        direction: Direction::Up,
        mode: GhostMode::Eaten,
        turn_back: false,
    };
    assert_eq!(eaten.target(&grid, (14, 5), (1, 1, Direction::Up), 77), (14, 5));
    // One step from home the ghost arrives and takes up the phase's mode.
    let close = GhostState { x: 13, y: 5, direction: Direction::Right, ..eaten };
    let arrived = close.step(&grid, (14, 5), GhostMode::Chase, (1, 1, Direction::Up), 0);
    assert_eq!(
        arrived,
        GhostState {
            kind: Personality::Inky,
            x: 14,
            y: 5,
            direction: Direction::Right,
            mode: GhostMode::Chase,
            turn_back: true,
        }
    );
}

#[test]
fn a_power_up_frightens_all_but_eaten_ghosts() {
    let mut ghosts = Ghosts::new((14, 5));
    ghosts.frighten();
    assert_eq!(ghosts.ghost_mode(), GhostMode::Frightened);
    for member in ghosts.get() {
        assert_eq!(member.mode, GhostMode::Frightened);
        assert!(member.turn_back);
    }
    assert_eq!(ghosts.interact_with_player((14, 5)), Some(Interaction::KillGhost(15)));
    ghosts.frighten();
    for member in ghosts.get() {
        assert_eq!(member.mode, GhostMode::Eaten);
    }
    assert_eq!(ghosts.ghost_mode(), GhostMode::Scatter);
}

#[test]
fn fright_ends_after_its_time() {
    let grid = big();
    let mut ghosts = Ghosts::new(grid.house_entrance());
    ghosts.frighten();
    for _ in 0..(FRIGHT_TICKS - 1) {
        ghosts.move_ghosts_with(&grid, (1, 1, Direction::Right), [3, 50, 100, 200]);
        assert_eq!(ghosts.ghost_mode(), GhostMode::Frightened);
    }
    ghosts.move_ghosts_with(&grid, (1, 1, Direction::Right), [3, 50, 100, 200]);
    assert_eq!(ghosts.ghost_mode(), GhostMode::Scatter);
    for member in ghosts.get() {
        assert_eq!(member.mode, GhostMode::Scatter);
    }
}

#[test]
fn frightened_ghosts_turn_back_first() {
    let grid = big();
    let mut ghosts = Ghosts::new(grid.house_entrance());
    ghosts.frighten();
    ghosts.move_ghosts_with(&grid, (1, 1, Direction::Right), [0, 0, 0, 0]);
    for member in ghosts.get() {
        assert_eq!((member.x, member.y, member.direction), (14, 6, Direction::Down));
        assert!(!member.turn_back);
    }
}

#[test]
fn eating_ghosts_in_a_row_doubles_the_factor() {
    let mut ghosts = scattered_in_fright();
    let cells: Vec<(i32, i32)> = ghosts.get().iter().map(|m| (m.x, m.y)).collect();
    assert_eq!(cells, vec![(12, 6), (14, 8), (16, 6), (13, 5)]);
    assert_eq!(ghosts.interact_with_player((1, 1)), None);
    assert_eq!(ghosts.interact_with_player(cells[0]), Some(Interaction::KillGhost(1)));
    assert_eq!(ghosts.get()[0].mode, GhostMode::Eaten);
    assert_eq!(ghosts.interact_with_player(cells[0]), None);
    assert_eq!(ghosts.interact_with_player(cells[1]), Some(Interaction::KillGhost(2)));
    assert_eq!(ghosts.interact_with_player(cells[2]), Some(Interaction::KillGhost(4)));
    assert_eq!(ghosts.interact_with_player(cells[3]), Some(Interaction::KillGhost(8)));
    for member in ghosts.get() {
        assert_eq!(member.mode, GhostMode::Eaten);
    }
}

#[test]
fn the_chain_starts_anew_with_each_power_up() {
    let mut ghosts = scattered_in_fright();
    let cells: Vec<(i32, i32)> = ghosts.get().iter().map(|m| (m.x, m.y)).collect();
    assert_eq!(ghosts.interact_with_player(cells[2]), Some(Interaction::KillGhost(1)));
    assert_eq!(ghosts.interact_with_player(cells[1]), Some(Interaction::KillGhost(2)));
    ghosts.frighten();
    assert_eq!(ghosts.interact_with_player(cells[3]), Some(Interaction::KillGhost(1)));
    assert_eq!(ghosts.interact_with_player(cells[0]), Some(Interaction::KillGhost(2)));
}

#[test]
fn a_hostile_ghost_catches_the_player() {
    let grid = big();
    let mut ghosts = Ghosts::new(grid.house_entrance());
    ghosts.move_ghosts_with(&grid, (1, 1, Direction::Right), [0, 0, 0, 0]);
    ghosts.move_ghosts_with(&grid, (1, 1, Direction::Right), [0, 0, 0, 0]);
    assert_eq!(ghosts.interact_with_player((1, 1)), None);
    let blinky = ghosts.get()[0];
    assert_eq!(
        ghosts.interact_with_player((blinky.x, blinky.y)),
        Some(Interaction::KillPlayer)
    );
    // All ghosts are back at their start.
    for member in ghosts.get() {
        assert_eq!((member.x, member.y), (14, 5));
        assert_eq!(member.mode, GhostMode::Scatter);
        assert_eq!(member.direction, Direction::Up);
    }
}

#[test]
fn a_hostile_ghost_wins_over_a_frightened_one() {
    let mut ghosts = scattered_in_fright();
    let cells: Vec<(i32, i32)> = ghosts.get().iter().map(|m| (m.x, m.y)).collect();
    assert_eq!(ghosts.interact_with_player(cells[3]), Some(Interaction::KillGhost(1)));
    // Ghost 3 walks home and is hostile again while the others are still frightened.
    let grid = big();
    let mut ticks = 0;
    while ghosts.get()[3].mode == GhostMode::Eaten {
        ghosts.move_ghosts_with(&grid, (1, 1, Direction::Right), [130, 195, 155, 0]);
        ticks += 1;
        assert!(ticks < 20);
    }
    let back = ghosts.get()[3];
    assert_eq!((back.x, back.y), (14, 5));
    assert_eq!(back.mode, GhostMode::Scatter);
    assert!(back.turn_back);
    assert_eq!(ghosts.ghost_mode(), GhostMode::Frightened);
    assert_eq!(ghosts.interact_with_player((14, 5)), Some(Interaction::KillPlayer));
    assert_eq!(ghosts.ghost_mode(), GhostMode::Scatter);
}

#[test]
fn ghosts_stay_inside_the_grid_and_off_the_walls() {
    let grid = big();
    let mut ghosts = Ghosts::new(grid.house_entrance());
    let mut roll = 7usize;
    for tick in 0..600 {
        if tick % 97 == 50 {
            ghosts.frighten();
        }
        roll = roll.wrapping_mul(6364136223846793005).wrapping_add(1442695040888963407);
        let rolls = [roll, roll >> 7, roll >> 13, roll >> 29];
        ghosts.move_ghosts_with(&grid, (3 + (tick % 20), 4, Direction::Left), rolls);
        for member in ghosts.get() {
            assert!(grid.get(member.x, member.y).is_some());
            assert!(!grid.is_wall(member.x, member.y));
        }
    }
}
