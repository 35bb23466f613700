use pacman_sim::direction::Direction;
use pacman_sim::game::{Game, Parameters, SetupError, Stats};
use pacman_sim::ghosts::GhostMode;
use pacman_sim::grid::{LayoutError, Tile};
use pacman_sim::input::Input;
use pacman_sim::sim::{FileLoader, RandGen, Sim1, Simulator};

// Ghosts walled in at (4, 1); a tunnel along the bottom row; an open cell in the top row.
const TUNNEL: &str = ".#####\n#.##.#\n#.##H#\n......";

// Ghosts walled in at (5, 1); the player's room holds two dots.
const TWO_DOTS: &str = "#######\n#. .# #\n#####H#";

// A corridor in which the ghosts start next to the player.
const CORRIDOR: &str = "#####\n#   #\n##.##";

struct Fixed {
    layout: &'static str,
    next: usize,
}

impl RandGen for Fixed {
    fn rand(&mut self) -> usize {
        self.next += 1;
        self.next
    }
}

impl FileLoader for Fixed {
    fn load_file(&mut self, _filename: &str) -> String {
        self.layout.to_string()
    }
}

impl Simulator for Fixed {}

fn game_on(layout: &'static str, x: i32, y: i32, dir: Direction) -> Game<Fixed> {
    let params = Parameters { start_pos: (x, y), start_dir: dir };
    Game::new(params, Fixed { layout, next: 0 }).unwrap()
}

fn plain_game(x: i32, y: i32, dir: Direction) -> Game<Sim1> {
    let params = Parameters { start_pos: (x, y), start_dir: dir };
    Game::new(params, Sim1::default()).unwrap()
}

#[test]
fn default_parameters() {
    let params = Parameters::default();
    assert_eq!(params.start_pos, (1, 1));
    assert_eq!(params.start_dir, Direction::Right);
}

#[test]
fn a_new_game() {
    let game = Game::new(Parameters::default(), Sim1::default()).unwrap();
    assert_eq!(game.get_player(), (1, 1, Direction::Right));
    assert_eq!(game.player(), (1, 1, Direction::Right));
    assert_eq!(game.intent(), Direction::Right);
    assert_eq!(game.get_stats(), Stats { lives: 5, score: 0, level: 1 });
    assert_eq!(game.stats(), Stats { lives: 5, score: 0, level: 1 });
    assert_eq!(game.get_map().pellets(), 205);
    assert_eq!(game.map().width(), 28);
    assert_eq!(game.ticks(), 0);
    assert!(!game.is_paused());
    assert!(!game.frightened());
    assert_eq!(game.ghost_mode(), GhostMode::Scatter);
    assert_eq!(game.get_ghosts().len(), 4);
    for member in game.ghosts() {
        assert_eq!((member.x, member.y), (14, 5));
    }
}

#[test]
fn a_game_asks_the_simulator_for_its_layout() {
    let game = game_on(TWO_DOTS, 2, 1, Direction::Left);
    assert_eq!(game.get_map().width(), 7);
    assert_eq!(game.get_map().height(), 3);
    assert_eq!(game.get_map().pellets(), 2);
    for member in game.get_ghosts() {
        assert_eq!((member.x, member.y), (5, 1));
    }
}

#[test]
fn a_start_outside_the_grid_is_refused() {
    for start in [(28, 1), (-1, 1), (1, 10), (1, -1)] {
        let params = Parameters { start_pos: start, start_dir: Direction::Up };
        assert_eq!(
            Game::new(params, Sim1::default()).err(),
            Some(SetupError::StartOutsideGrid)
        );
    }
    // On a wall the player may start.
    let params = Parameters { start_pos: (0, 0), start_dir: Direction::Up };
    assert!(Game::new(params, Sim1::default()).is_ok());
}

#[test]
fn a_bad_layout_is_refused() {
    let params = Parameters::default();
    assert_eq!(
        Game::from_layout(params, "", Sim1::default()).err(),
        Some(SetupError::Layout(LayoutError::Empty))
    );
    assert_eq!(
        Game::from_layout(params, "###\n#\n", Sim1::default()).err(),
        Some(SetupError::Layout(LayoutError::TileCountMismatch))
    );
    assert_eq!(
        Game::new(params, Fixed { layout: "##\n#", next: 0 }).err(),
        Some(SetupError::Layout(LayoutError::TileCountMismatch))
    );
}

#[test]
fn a_dot_is_worth_ten() {
    let mut game = plain_game(1, 1, Direction::Right);
    game.tick();
    assert_eq!(game.get_player(), (2, 1, Direction::Right));
    assert_eq!(game.get_stats().score, 10);
    assert_eq!(game.get_map().pellets(), 204);
    assert_eq!(game.get_map().get(2, 1), Some(Tile::Empty));
    assert_eq!(game.ticks(), 1);
    game.tick();
    assert_eq!(game.get_stats().score, 20);
    assert_eq!(game.get_map().pellets(), 203);
    assert!(!game.frightened());
}

#[test]
fn a_power_up_is_worth_fifty_and_frightens_the_ghosts() {
    let mut game = plain_game(16, 1, Direction::Right);
    game.tick();
    assert_eq!(game.get_player(), (17, 1, Direction::Right));
    assert_eq!(game.get_stats().score, 50);
    assert_eq!(game.get_map().pellets(), 205);
    assert_eq!(game.get_map().get(17, 1), Some(Tile::Empty));
    assert!(game.frightened());
    assert_eq!(game.ghost_mode(), GhostMode::Frightened);
    for member in game.get_ghosts() {
        assert_eq!(member.mode, GhostMode::Frightened);
    }
}

#[test]
fn a_wall_stops_the_player() {
    let mut game = plain_game(26, 1, Direction::Right);
    game.tick();
    assert_eq!(game.get_player(), (26, 1, Direction::Right));
    assert_eq!(game.get_stats().score, 0);
    assert_eq!(game.ticks(), 1);
    game.tick();
    assert_eq!(game.get_player(), (26, 1, Direction::Right));
}

#[test]
fn an_empty_cell_is_worth_nothing() {
    let mut game = game_on(TWO_DOTS, 1, 1, Direction::Right);
    game.tick();
    assert_eq!(game.get_player(), (2, 1, Direction::Right));
    assert_eq!(game.get_stats().score, 0);
    assert_eq!(game.get_map().pellets(), 2);
}

#[test]
fn the_intent_waits_until_the_way_is_free() {
    let mut game = plain_game(1, 1, Direction::Right);
    // Up is a wall: the player keeps heading right, but remembers.
    assert!(!game.input(Input::Up));
    assert_eq!(game.get_player(), (1, 1, Direction::Right));
    assert_eq!(game.player(), (1, 1, Direction::Right));
    assert_eq!(game.intent(), Direction::Up);
    game.tick();
    assert_eq!(game.get_player(), (2, 1, Direction::Right));
    assert_eq!(game.intent(), Direction::Up);
    // Down is free: the player turns at once.
    game.set_direction_intent(Direction::Down);
    assert_eq!(game.get_player(), (2, 1, Direction::Down));
    game.tick();
    assert_eq!(game.get_player(), (2, 2, Direction::Down));
    assert_eq!(game.intent(), Direction::Down);
    // Up is free now, and the intent is taken up at the next move.
    game.input(Input::Left);
    game.input(Input::Up);
    game.tick();
    assert_eq!(game.get_player(), (2, 1, Direction::Up));
    // Against the wall the player stalls, still heading up.
    game.tick();
    assert_eq!(game.get_player(), (2, 1, Direction::Up));
    assert_eq!(game.get_stats().score, 20);
}

#[test]
fn a_house_tile_blocks_the_player() {
    let mut game = game_on("#####\n#.H.#\n#####\n#...#", 1, 1, Direction::Right);
    game.tick();
    assert_eq!(game.get_player(), (1, 1, Direction::Right));
    assert_eq!(game.get_map().get(2, 1), Some(Tile::House));
}

#[test]
fn the_player_wraps_round_the_sides() {
    let mut game = game_on(TUNNEL, 0, 3, Direction::Left);
    game.tick();
    assert_eq!(game.get_player(), (5, 3, Direction::Left));
    // The cell come to by wrapping is not taken.
    assert_eq!(game.get_stats().score, 0);
    assert_eq!(game.get_map().get(5, 3), Some(Tile::Dot));
    game.tick();
    assert_eq!(game.get_player(), (4, 3, Direction::Left));
    assert_eq!(game.get_stats().score, 10);

    let mut game = game_on(TUNNEL, 5, 3, Direction::Right);
    game.tick();
    assert_eq!(game.get_player(), (0, 3, Direction::Right));
    game.tick();
    assert_eq!(game.get_player(), (1, 3, Direction::Right));
}

#[test]
fn the_player_may_turn_towards_the_far_side() {
    let mut game = game_on(TUNNEL, 0, 3, Direction::Right);
    game.input(Input::Left);
    game.tick();
    assert_eq!(game.get_player(), (5, 3, Direction::Left));
}

#[test]
fn top_and_bottom_do_not_wrap() {
    let mut game = game_on(TUNNEL, 2, 3, Direction::Down);
    game.tick();
    assert_eq!(game.get_player(), (2, 3, Direction::Down));
    let mut game = game_on(TUNNEL, 0, 0, Direction::Up);
    game.tick();
    assert_eq!(game.get_player(), (0, 0, Direction::Up));
    game.tick();
    assert_eq!(game.get_player(), (0, 0, Direction::Up));
    assert_eq!(game.get_stats().lives, 5);
}

#[test]
fn a_complete_level_starts_the_next() {
    let mut game = game_on(TWO_DOTS, 2, 1, Direction::Left);
    game.tick();
    assert_eq!(game.get_player(), (1, 1, Direction::Left));
    game.input(Input::Right);
    game.tick();
    game.tick();
    assert_eq!(game.get_player(), (3, 1, Direction::Right));
    assert_eq!(game.get_stats(), Stats { lives: 5, score: 20, level: 1 });
    assert_eq!(game.get_map().pellets(), 0);
    assert_eq!(game.ticks(), 3);
    // The next tick moves nobody.
    game.tick();
    assert_eq!(game.get_stats(), Stats { lives: 5, score: 20, level: 2 });
    assert_eq!(game.get_map().pellets(), 2);
    assert_eq!(game.get_map().get(1, 1), Some(Tile::Dot));
    assert_eq!(game.get_map().get(3, 1), Some(Tile::Dot));
    assert_eq!(game.get_player(), (2, 1, Direction::Right));
    assert_eq!(game.ticks(), 3);
    for member in game.get_ghosts() {
        assert_eq!((member.x, member.y), (5, 1));
        assert_eq!(member.mode, GhostMode::Scatter);
    }
    game.tick();
    assert_eq!(game.get_player(), (3, 1, Direction::Right));
    assert_eq!(game.get_stats(), Stats { lives: 5, score: 30, level: 2 });
}

#[test]
fn a_hostile_ghost_costs_a_life() {
    let mut game = game_on(CORRIDOR, 1, 1, Direction::Right);
    let mut ticks = 0;
    while game.get_stats().lives == 5 {
        game.tick();
        ticks += 1;
        assert!(ticks < 50);
    }
    assert_eq!(game.get_stats().lives, 4);
    assert_eq!(game.get_stats().level, 1);
    let (x, y, _) = game.get_player();
    assert_eq!((x, y), (1, 1));
    for member in game.get_ghosts() {
        assert_eq!((member.x, member.y), (2, 1));
        assert_eq!(member.mode, GhostMode::Scatter);
    }
}

#[test]
fn without_lives_nothing_moves() {
    let mut game = game_on(CORRIDOR, 1, 1, Direction::Right);
    let mut ticks = 0;
    while game.get_stats().lives > 0 {
        let before = game.get_stats().lives;
        game.tick();
        assert!(game.get_stats().lives == before || game.get_stats().lives == before - 1);
        ticks += 1;
        assert!(ticks < 500);
    }
    let stats = game.get_stats();
    let player = game.get_player();
    let counted = game.ticks();
    let ghosts: Vec<_> = game.get_ghosts().to_vec();
    assert!(!game.input(Input::Down));
    assert!(!game.input(Input::Left));
    game.set_direction_intent(Direction::Up);
    for _ in 0..10 {
        game.tick();
        game.update();
    }
    assert_eq!(game.get_stats(), stats);
    assert_eq!(game.get_player(), player);
    assert_eq!(game.ticks(), counted);
    assert_eq!(game.get_ghosts().to_vec(), ghosts);
}

#[test]
fn a_paused_game_takes_inputs_but_does_not_tick() {
    let mut game = plain_game(1, 1, Direction::Right);
    assert!(!game.input(Input::Pause));
    assert!(game.is_paused());
    game.update();
    game.update();
    assert_eq!(game.ticks(), 0);
    assert_eq!(game.get_player(), (1, 1, Direction::Right));
    game.input(Input::Down);
    assert_eq!(game.get_player(), (1, 1, Direction::Down));
    game.input(Input::Pause);
    assert!(!game.is_paused());
    game.update();
    assert_eq!(game.ticks(), 1);
    assert_eq!(game.get_player(), (1, 2, Direction::Down));
}

#[test]
fn quit_and_no_op_change_nothing() {
    let mut game = plain_game(1, 1, Direction::Right);
    assert!(game.input(Input::Quit));
    assert!(!game.input(Input::NoOp));
    assert_eq!(game.get_player(), (1, 1, Direction::Right));
    assert_eq!(game.get_stats(), Stats { lives: 5, score: 0, level: 1 });
    assert!(!game.is_paused());
    assert_eq!(game.ticks(), 0);
}

#[test]
fn the_same_numbers_give_the_same_tick() {
    let mut first = plain_game(16, 1, Direction::Right);
    let mut second = plain_game(16, 1, Direction::Right);
    let mut roll = 99usize;
    for _ in 0..60 {
        roll = roll.wrapping_mul(25214903917).wrapping_add(11);
        let rolls = [roll, roll / 3, roll / 5, roll / 7];
        first.tick_with(rolls);
        second.tick_with(rolls);
        assert_eq!(first.get_stats(), second.get_stats());
        assert_eq!(first.get_player(), second.get_player());
        assert_eq!(first.get_ghosts(), second.get_ghosts());
        assert_eq!(first.ticks(), second.ticks());
    }
}

#[test]
fn a_tick_draws_one_number_for_each_ghost() {
    let sim = Sim1::default();
    let params = Parameters { start_pos: (16, 1), start_dir: Direction::Right };
    let mut game = Game::new(params, sim).unwrap();
    let mut twin = plain_game(16, 1, Direction::Right);
    // The first tick takes the power-up; from the second on the numbers steer the ghosts.
    for tick in 0..20usize {
        game.tick();
        twin.tick_with([4 * tick + 1, 4 * tick + 2, 4 * tick + 3, 4 * tick + 4]);
        assert_eq!(game.get_ghosts(), twin.get_ghosts());
        assert_eq!(game.get_stats(), twin.get_stats());
    }
}

// A dead end with a power-up at its end; the ghosts start at (3, 1).
const DEAD_END: &str = "#######\n#X....#\n#######";

#[test]
fn eating_a_ghost_is_worth_two_hundred() {
    let mut game = game_on(DEAD_END, 2, 1, Direction::Left);
    // The player takes the power-up; ghost 0 flees his way, the others away from him.
    game.tick_with([1, 4, 4, 4]);
    assert_eq!(game.get_player(), (1, 1, Direction::Left));
    assert_eq!(game.get_stats().score, 50);
    assert!(game.frightened());
    let cells: Vec<(i32, i32)> = game.get_ghosts().iter().map(|m| (m.x, m.y)).collect();
    assert_eq!(cells, vec![(2, 1), (4, 1), (4, 1), (4, 1)]);
    // Ghost 0 cannot turn back and runs into the player.
    game.tick_with([0, 4, 4, 4]);
    assert_eq!(game.get_stats(), Stats { lives: 5, score: 250, level: 1 });
    assert_eq!(game.get_ghosts()[0].mode, GhostMode::Eaten);
    assert_eq!(game.get_ghosts()[1].mode, GhostMode::Frightened);
    assert_eq!(game.get_player(), (1, 1, Direction::Left));
}

#[test]
fn eating_two_ghosts_at_once_is_worth_six_hundred() {
    let mut game = game_on(DEAD_END, 2, 1, Direction::Left);
    game.tick_with([1, 2, 3, 4]);
    let cells: Vec<(i32, i32)> = game.get_ghosts().iter().map(|m| (m.x, m.y)).collect();
    assert_eq!(cells, vec![(2, 1), (2, 1), (4, 1), (4, 1)]);
    game.tick_with([5, 6, 7, 8]);
    assert_eq!(game.get_stats(), Stats { lives: 5, score: 50 + 200 + 400, level: 1 });
    assert_eq!(game.get_ghosts()[0].mode, GhostMode::Eaten);
    assert_eq!(game.get_ghosts()[1].mode, GhostMode::Eaten);
    assert_eq!(game.get_ghosts()[2].mode, GhostMode::Frightened);
    assert_eq!(game.get_ghosts()[3].mode, GhostMode::Frightened);
}

#[test]
fn a_ghost_that_came_home_catches_the_player_before_others_are_eaten() {
    let mut game = game_on(DEAD_END, 2, 1, Direction::Left);
    game.tick_with([1, 4, 4, 4]);
    game.tick_with([0, 4, 4, 4]);
    assert_eq!(game.get_stats().score, 250);
    // Ghost 0 walks home and comes back hostile, just as the others reach the player.
    for _ in 0..3 {
        game.tick_with([0, 0, 0, 0]);
        assert_eq!(game.get_stats(), Stats { lives: 5, score: 250, level: 1 });
    }
    assert_eq!(game.get_ghosts()[0].mode, GhostMode::Scatter);
    game.tick_with([0, 0, 0, 0]);
    assert_eq!(game.get_stats(), Stats { lives: 4, score: 250, level: 1 });
    assert_eq!(game.get_player(), (2, 1, Direction::Left));
    for member in game.get_ghosts() {
        assert_eq!((member.x, member.y, member.mode), (3, 1, GhostMode::Scatter));
    }
    assert!(!game.frightened());
}

#[test]
fn the_player_query_gives_the_heading_not_the_intent() {
    // Between walls above and below, a request to go up is noted but not followed.
    let mut game = game_on(TWO_DOTS, 1, 1, Direction::Right);
    game.input(Input::Up);
    assert_eq!(game.get_player(), (1, 1, Direction::Right));
    assert_eq!(game.intent(), Direction::Up);
    game.tick();
    assert_eq!(game.get_player(), (2, 1, Direction::Right));
    game.input(Input::Down);
    game.tick();
    assert_eq!(game.player(), (3, 1, Direction::Right));
    assert_eq!(game.intent(), Direction::Down);
}
