use crate::direction::Direction;
use crate::ghosts::{
    GhostMode, GhostState, Ghosts, GhostsModel, Interaction, dist_after, ghost_dest,
    is_candidate, is_at, lemma_no_reversal, lemma_tie_break, multiplier, phase_at, target_of,
};
use crate::grid::{Grid, GridModel, LayoutError, Tile, layout_grid};
use crate::input::Input;
use crate::sim::Simulator;
use vstd::prelude::*;

verus! {

/// Points for a dot.
pub const SCORE_PELLET: u32 = 10;

/// Points for a power-up.
pub const SCORE_PU: u32 = 50;

/// Points for the first ghost eaten after a power-up; each further one is
/// worth twice the one before.
pub const SCORE_GHOST: u32 = 200;

/// Lives at the start of a run.
pub const START_LIVES: u8 = 5;

/// The name under which the layout is asked from the simulator.
pub const LAYOUT_NAME: &'static str = "map.txt";

/// Constants that do not change while the game is running.
#[derive(Debug, Clone, Copy)]
pub struct Parameters {
    pub start_pos: (i32, i32),
    pub start_dir: Direction,
}

impl Default for Parameters {
    /// The usual start: the cell in the second column of the second row,
    /// heading right.
    fn default() -> (p: Parameters)
        ensures
            p.start_pos == (1i32, 1i32),
            p.start_dir == Direction::Right,
    {
        Parameters { start_pos: (1, 1), start_dir: Direction::Right }
    }
}

/// The figures of a run.
#[derive(Debug, Clone, Copy, PartialEq, Eq, Structural)]
pub struct Stats {
    pub lives: u8,
    pub score: u32,
    pub level: usize,
}

/// Why a simulation cannot start.
#[derive(Debug, Clone, Copy, PartialEq, Eq, Structural)]
pub enum SetupError {
    /// The layout text is no grid.
    Layout(LayoutError),
    /// The player's start lies outside the grid.
    StartOutsideGrid,
}

/// `score` raised by `points`, as far as the counter goes.
pub open spec fn raised(score: int, points: int) -> int {
    if score + points > u32::MAX {
        u32::MAX as int
    } else {
        score + points
    }
}

/// The simulation as a mathematical value: everything but the simulator that
/// it draws from.
pub struct GameModel {
    pub params: Parameters,
    pub grid: GridModel,
    pub lives: int,
    pub score: int,
    pub level: int,
    pub x: int,
    pub y: int,
    pub direction: Direction,
    pub intent: Direction,
    pub ghosts: GhostsModel,
    pub ticks: int,
    pub paused: bool,
}

impl GameModel {
    /// The simulation's invariant: grid and ghosts are valid, the player and
    /// the start are inside the grid, and the counters are in range.
    pub open spec fn wf(self) -> bool {
        &&& self.grid.wf()
        &&& self.ghosts.wf(self.grid.width, self.grid.height)
        &&& self.grid.in_bounds(self.x, self.y)
        &&& self.grid.in_bounds(self.params.start_pos.0 as int, self.params.start_pos.1 as int)
        &&& 0 <= self.lives <= u8::MAX
        &&& 0 <= self.score <= u32::MAX
        &&& 0 <= self.level <= usize::MAX
        &&& 0 <= self.ticks <= u32::MAX
    }

    /// The cell next to the player towards `d`.
    pub open spec fn cell_towards(self, d: Direction) -> (int, int) {
        (self.x + d.delta().0, self.y + d.delta().1)
    }

    /// The player may head towards `d`: the cell there lies in a row of the
    /// grid and does not block. A cell one past the left or right edge does
    /// not block: that way lies the other side.
    pub open spec fn can_head(self, d: Direction) -> bool {
        let c = self.cell_towards(d);
        0 <= c.1 < self.grid.height && !self.grid.is_blocking(c.0, c.1)
    }

    /// The simulation with the intent taken up as heading, where the player
    /// may head that way.
    pub open spec fn turned(self) -> GameModel {
        if self.can_head(self.intent) {
            GameModel { direction: self.intent, ..self }
        } else {
            self
        }
    }

    /// The simulation after the player has asked to head towards `d`; with no
    /// lives left the request is ignored.
    pub open spec fn with_intent(self, d: Direction) -> GameModel {
        if self.lives == 0 {
            self
        } else {
            (GameModel { intent: d, ..self }).turned()
        }
    }

    /// The simulation after an input; `Quit` and `NoOp` change nothing.
    pub open spec fn input(self, input: Input) -> GameModel {
        match input {
            Input::Up => self.with_intent(Direction::Up),
            Input::Down => self.with_intent(Direction::Down),
            Input::Left => self.with_intent(Direction::Left),
            Input::Right => self.with_intent(Direction::Right),
            Input::Pause => GameModel { paused: !self.paused, ..self },
            Input::Quit => self,
            Input::NoOp => self,
        }
    }

    /// The simulation after the player's move. The intent becomes the
    /// heading where the way is free. Then the player goes one cell on: not
    /// beyond the top or bottom row; round to the other side where the cell
    /// lies past the left or right edge; not into a wall or a house tile. A
    /// dot entered is taken for `SCORE_PELLET` points, a power-up for
    /// `SCORE_PU` points, and the power-up frightens the ghosts.
    pub open spec fn player_moved(self) -> GameModel {
        let s = self.turned();
        let c = s.cell_towards(s.direction);
        if !(0 <= c.1 < s.grid.height) {
            s
        } else if c.0 < 0 {
            GameModel { x: s.grid.width - 1, ..s }
        } else if c.0 >= s.grid.width {
            GameModel { x: 0, ..s }
        } else {
            match s.grid.get(c.0, c.1) {
                Some(Tile::Wall) => s,
                Some(Tile::House) => s,
                Some(Tile::Dot) => GameModel {
                    x: c.0,
                    y: c.1,
                    grid: s.grid.consume(c.0, c.1),
                    score: raised(s.score, SCORE_PELLET as int),
                    ..s
                },
                Some(Tile::PowerUp) => GameModel {
                    x: c.0,
                    y: c.1,
                    grid: s.grid.consume(c.0, c.1),
                    ghosts: s.ghosts.frighten(),
                    score: raised(s.score, SCORE_PU as int),
                    ..s
                },
                _ => GameModel { x: c.0, y: c.1, ..s },
            }
        }
    }

    /// The simulation at the start of the next level: the dots are back, the
    /// player and the ghosts are at their starts, and the lives are what
    /// they were.
    pub open spec fn level_advanced(self) -> GameModel {
        GameModel {
            level: if self.level < usize::MAX {
                self.level + 1
            } else {
                self.level
            },
            x: self.params.start_pos.0 as int,
            y: self.params.start_pos.1 as int,
            ghosts: self.ghosts.reset(),
            grid: self.grid.reset(),
            ..self
        }
    }

    /// The simulation after what came of player and ghosts sharing a cell.
    pub open spec fn settled(self) -> GameModel {
        let (ghosts, what) = self.ghosts.interact((self.x, self.y));
        match what {
            Some(Interaction::KillPlayer) => GameModel {
                x: self.params.start_pos.0 as int,
                y: self.params.start_pos.1 as int,
                lives: self.lives - 1,
                ghosts,
                ..self
            },
            Some(Interaction::KillGhost(n)) => GameModel {
                score: raised(self.score, SCORE_GHOST * n),
                ghosts,
                ..self
            },
            None => GameModel { ghosts, ..self },
        }
    }

    /// The ghosts after their part of a tick: the player has moved, the
    /// schedule has been applied and each ghost has taken its step, but what
    /// comes of a shared cell is not settled yet.
    pub open spec fn ghosts_moved(self, rolls: Seq<usize>) -> GhostsModel {
        let a = self.player_moved();
        a.ghosts.advance(a.grid, (a.x, a.y, a.direction), rolls)
    }

    /// In this tick a hostile ghost ends on the player's cell.
    pub open spec fn caught(self, rolls: Seq<usize>) -> bool {
        let a = self.player_moved();
        self.ghosts_moved(rolls).hostile_at((a.x, a.y))
    }

    /// The cell that ghost `k` steers towards in this tick, if the schedule
    /// leaves its mode as it is.
    pub open spec fn ghost_target(self, rolls: Seq<usize>, k: int) -> (int, int) {
        let a = self.player_moved();
        target_of(
            a.grid,
            a.ghosts.home,
            self.ghosts.members[k],
            (a.x, a.y, a.direction),
            rolls[k] as int,
        )
    }

    /// Whether a tick moves anyone: not when the level is complete, and not
    /// when no life is left.
    pub open spec fn in_play(self) -> bool {
        self.grid.pellets != 0 && self.lives != 0
    }

    /// The simulation one tick on, with the numbers `rolls` drawn for the
    /// ghosts. With no dot left the next level starts and nobody moves. With
    /// no life left nothing happens. Else the player moves, then the ghosts
    /// move with the player where he now is, then a shared cell is settled,
    /// and the tick is counted.
    pub open spec fn ticked(self, rolls: Seq<usize>) -> GameModel {
        if self.grid.pellets == 0 {
            self.level_advanced()
        } else if self.lives == 0 {
            self
        } else {
            let a = self.player_moved();
            let b = GameModel {
                ghosts: a.ghosts.advance(a.grid, (a.x, a.y, a.direction), rolls),
                ..a
            };
            let c = b.settled();
            GameModel {
                ticks: if c.ticks < u32::MAX {
                    c.ticks + 1
                } else {
                    c.ticks
                },
                ..c
            }
        }
    }

    /// The simulation after an update: a tick, unless it is paused.
    pub open spec fn updated(self, rolls: Seq<usize>) -> GameModel {
        if self.paused {
            self
        } else {
            self.ticked(rolls)
        }
    }

    /// Lives, score and level.
    pub open spec fn stats(self) -> (int, int, int) {
        (self.lives, self.score, self.level)
    }
}

/// The simulation that starts from the layout `text` with the parameters
/// `params`, or the reason why there is none.
pub open spec fn setup(params: Parameters, text: Seq<char>) -> Result<GameModel, SetupError> {
    match layout_grid(text) {
        Err(e) => Err(SetupError::Layout(e)),
        Ok(grid) => if !grid.in_bounds(params.start_pos.0 as int, params.start_pos.1 as int) {
            Err(SetupError::StartOutsideGrid)
        } else {
            Ok(
                GameModel {
                    params,
                    grid,
                    lives: START_LIVES as int,
                    score: 0,
                    level: 1,
                    x: params.start_pos.0 as int,
                    y: params.start_pos.1 as int,
                    direction: params.start_dir,
                    intent: params.start_dir,
                    ghosts: GhostsModel::initial(grid.house_entrance()),
                    ticks: 0,
                    paused: false,
                },
            )
        },
    }
}

impl GameModel {
    /// An input keeps the simulation valid.
    pub proof fn lemma_input_wf(self, input: Input)
        requires
            self.wf(),
        ensures
            self.input(input).wf(),
    {
    }

    /// The player's move keeps the simulation valid, and changes neither the
    /// size of the grid nor the parameters nor the lives.
    pub proof fn lemma_player_moved_wf(self)
        requires
            self.wf(),
        ensures
            self.player_moved().wf(),
            self.player_moved().grid.width == self.grid.width,
            self.player_moved().grid.height == self.grid.height,
            self.player_moved().params == self.params,
            self.player_moved().lives == self.lives,
    {
        let s = self.turned();
        let c = s.cell_towards(s.direction);
        if 0 <= c.1 < s.grid.height && 0 <= c.0 < s.grid.width {
            s.grid.lemma_consume_wf(c.0, c.1);
            s.ghosts.lemma_frighten_wf(s.grid.width, s.grid.height);
        }
    }

    /// The start of the next level keeps the simulation valid.
    pub proof fn lemma_level_advanced_wf(self)
        requires
            self.wf(),
        ensures
            self.level_advanced().wf(),
    {
        self.grid.lemma_reset_wf();
        GhostsModel::lemma_initial_wf(self.ghosts.home, self.grid.width, self.grid.height);
    }

    /// A tick keeps the simulation valid, whatever numbers are drawn.
    pub proof fn lemma_ticked_wf(self, rolls: Seq<usize>)
        requires
            self.wf(),
        ensures
            self.ticked(rolls).wf(),
            self.updated(rolls).wf(),
    {
        if self.grid.pellets == 0 {
            self.lemma_level_advanced_wf();
        } else if self.lives != 0 {
            self.lemma_player_moved_wf();
            let a = self.player_moved();
            a.ghosts.lemma_advance_wf(a.grid, (a.x, a.y, a.direction), rolls);
            let b = GameModel {
                ghosts: a.ghosts.advance(a.grid, (a.x, a.y, a.direction), rolls),
                ..a
            };
            b.lemma_settled_wf();
        }
    }

    /// An update keeps the simulation valid, whatever numbers are drawn.
    pub proof fn lemma_updated_wf(self, rolls: Seq<usize>)
        requires
            self.wf(),
        ensures
            self.updated(rolls).wf(),
    {
        self.lemma_ticked_wf(rolls);
    }

    /// Settling a shared cell keeps the simulation valid, as long as a life is
    /// left to lose.
    pub proof fn lemma_settled_wf(self)
        requires
            self.wf(),
            self.lives >= 1,
        ensures
            self.settled().wf(),
    {
        self.ghosts.lemma_interact_wf((self.x, self.y), self.grid.width, self.grid.height);
        self.ghosts.lemma_eaten_upto((self.x, self.y), 4);
    }
}

impl GameModel {
    /// The heading follows the intent only where the way is free: a request
    /// is always noted while a life is left, and it changes the heading
    /// exactly if the player may head that way; a move changes the heading
    /// only to the intent, and only where the way is free.
    pub proof fn lemma_heading_follows_intent(self, d: Direction)
        ensures
            self.lives != 0 ==> self.with_intent(d).intent == d,
            self.lives != 0 ==> self.with_intent(d).direction == (if (GameModel {
                intent: d,
                ..self
            }).can_head(d) {
                d
            } else {
                self.direction
            }),
            self.player_moved().direction == (if self.can_head(self.intent) {
                self.intent
            } else {
                self.direction
            }),
            self.player_moved().intent == self.intent,
    {
    }

    /// Wrap-around: a player who heads left from the first column comes to
    /// the last column of the same row, and one who heads right from the
    /// last column comes to the first. The top and bottom rows do not wrap:
    /// a player who heads up from the top row or down from the bottom row
    /// stays where he is.
    pub proof fn lemma_wrap_around(self)
        requires
            self.wf(),
        ensures
            self.turned().direction == Direction::Left && self.x == 0 ==> self.player_moved().x
                == self.grid.width - 1 && self.player_moved().y == self.y,
            self.turned().direction == Direction::Right && self.x == self.grid.width - 1
                ==> self.player_moved().x == 0 && self.player_moved().y == self.y,
            self.turned().direction == Direction::Up && self.y == 0 ==> self.player_moved().x
                == self.x && self.player_moved().y == self.y,
            self.turned().direction == Direction::Down && self.y == self.grid.height - 1
                ==> self.player_moved().x == self.x && self.player_moved().y == self.y,
    {
    }

    /// Pick-ups: a dot that the player enters is worth `SCORE_PELLET` points
    /// and leaves one dot less; a power-up is worth `SCORE_PU` points, and at
    /// once every ghost that is not eaten is frightened, every eaten ghost
    /// stays eaten, and the chain of eaten ghosts starts anew.
    pub proof fn lemma_pickup_scores(self)
        requires
            self.wf(),
        ensures
            ({
                let s = self.turned();
                let c = s.cell_towards(s.direction);
                let after = self.player_moved();
                &&& self.grid.get(c.0, c.1) == Some(Tile::Dot) ==> {
                    &&& after.score == raised(self.score, 10)
                    &&& after.grid.pellets == self.grid.pellets - 1
                    &&& after.grid.get(c.0, c.1) == Some(Tile::Empty)
                    &&& after.ghosts == self.ghosts
                    &&& (after.x, after.y) == c
                }
                &&& self.grid.get(c.0, c.1) == Some(Tile::PowerUp) ==> {
                    &&& after.score == raised(self.score, 50)
                    &&& after.grid.pellets == self.grid.pellets
                    &&& after.grid.get(c.0, c.1) == Some(Tile::Empty)
                    &&& after.ghosts.chain == 0
                    &&& (after.x, after.y) == c
                    &&& forall|i: int|
                        0 <= i < 4 ==> (#[trigger] after.ghosts.members[i]).mode == (if
                            self.ghosts.members[i].mode == GhostMode::Eaten {
                            GhostMode::Eaten
                        } else {
                            GhostMode::Frightened
                        })
                }
            }),
    {
        let s = self.turned();
        let c = s.cell_towards(s.direction);
        if self.grid.in_bounds(c.0, c.1) {
            crate::grid::lemma_index_in_range(self.grid.width, self.grid.height, c.0, c.1);
        }
    }

    /// The player's move leaves every wall and house tile where it is, so
    /// what blocks before the move blocks after it, and nothing else does.
    pub proof fn lemma_player_moved_blocking(self)
        requires
            self.wf(),
        ensures
            forall|x: int, y: int| #[trigger]
                self.player_moved().grid.is_blocking(x, y) == self.grid.is_blocking(x, y),
            self.player_moved().grid.width == self.grid.width,
            self.player_moved().grid.height == self.grid.height,
            self.player_moved().ghosts.home == self.ghosts.home,
    {
        let s = self.turned();
        let c = s.cell_towards(s.direction);
        if self.grid.in_bounds(c.0, c.1) {
            self.grid.lemma_consume_wf(c.0, c.1);
            let after = self.grid.consume(c.0, c.1);
            assert forall|x: int, y: int| #[trigger]
                after.is_blocking(x, y) == self.grid.is_blocking(x, y) || self.grid.is_blocking(
                    c.0,
                    c.1,
                ) by {
                if (x, y) != c {
                    assert(after.get(x, y) == self.grid.get(x, y));
                }
            }
        }
    }

    /// A tick in which the player is not caught is the player's move, the
    /// ghosts' moves, and the eating of the frightened ghosts on the
    /// player's cell: the player stays where his move took him, the grid as
    /// his move left it, lives and level as they were, and the score rises
    /// by `SCORE_GHOST` times the factors of the ghosts eaten.
    pub proof fn lemma_tick_without_catch(self, rolls: Seq<usize>)
        requires
            self.wf(),
            self.in_play(),
            !self.caught(rolls),
        ensures
            ({
                let a = self.player_moved();
                let moved = self.ghosts_moved(rolls);
                let t = self.ticked(rolls);
                &&& t.x == a.x
                &&& t.y == a.y
                &&& t.direction == a.direction
                &&& t.intent == a.intent
                &&& t.grid == a.grid
                &&& t.lives == self.lives
                &&& t.level == self.level
                &&& t.paused == self.paused
                &&& t.ghosts == moved.eaten_upto((a.x, a.y), 4)
                &&& t.score == raised(a.score, SCORE_GHOST * moved.bonus_upto((a.x, a.y), 4))
                &&& moved.chain == a.ghosts.chain
                &&& moved.home == self.ghosts.home
            }),
    {
        self.lemma_player_moved_wf();
        let a = self.player_moved();
        a.ghosts.lemma_advance_wf(a.grid, (a.x, a.y, a.direction), rolls);
        self.ghosts_moved(rolls).lemma_eaten_upto((a.x, a.y), 4);
    }

    /// Wrap-around in a tick: where the player is not caught, a tick takes
    /// a player who heads left from the first column to the last column of
    /// the same row, and one who heads right from the last column to the
    /// first; a player who heads up from the top row or down from the bottom
    /// row stays where he is. Lives and level are as before.
    pub proof fn lemma_tick_wrap_around(self, rolls: Seq<usize>)
        requires
            self.wf(),
            self.in_play(),
            !self.caught(rolls),
        ensures
            self.turned().direction == Direction::Left && self.x == 0 ==> self.ticked(rolls).x
                == self.grid.width - 1 && self.ticked(rolls).y == self.y,
            self.turned().direction == Direction::Right && self.x == self.grid.width - 1
                ==> self.ticked(rolls).x == 0 && self.ticked(rolls).y == self.y,
            self.turned().direction == Direction::Up && self.y == 0 ==> self.ticked(rolls).x
                == self.x && self.ticked(rolls).y == self.y,
            self.turned().direction == Direction::Down && self.y == self.grid.height - 1
                ==> self.ticked(rolls).x == self.x && self.ticked(rolls).y == self.y,
            self.ticked(rolls).lives == self.lives,
            self.ticked(rolls).level == self.level,
    {
        self.lemma_tick_without_catch(rolls);
        self.lemma_wrap_around();
    }

    /// The heading of a ghost in a tick. Take a tick in which the player is
    /// not caught, and a ghost that has no turn pending and is in the same
    /// mode after the tick as before it. If the ghost has a way on `e` that
    /// does not turn it back, then it does not turn back; it goes one cell in
    /// its new heading; that heading is a way on that leaves it no farther
    /// from its target than `e` does; and if `e` leaves it just as near, the
    /// heading taken comes no later than `e` in the order Up, Left, Down,
    /// Right.
    pub proof fn lemma_tick_ghost_heading(self, rolls: Seq<usize>, k: int, e: Direction)
        requires
            self.wf(),
            self.in_play(),
            !self.caught(rolls),
            0 <= k < 4,
            !self.ghosts.members[k].turn_back,
            self.ticked(rolls).ghosts.members[k].mode == self.ghosts.members[k].mode,
            is_candidate(
                self.grid,
                (self.ghosts.members[k].x as int, self.ghosts.members[k].y as int),
                self.ghosts.members[k].direction,
                e,
            ),
        ensures
            ({
                let before = self.ghosts.members[k];
                let after = self.ticked(rolls).ghosts.members[k];
                let p = (before.x as int, before.y as int);
                let target = self.ghost_target(rolls, k);
                &&& after.direction != before.direction.reversed()
                &&& is_candidate(self.grid, p, before.direction, after.direction)
                &&& (after.x as int, after.y as int) == ghost_dest(self.grid, p, after.direction)
                &&& dist_after(self.grid, p, target, after.direction) <= dist_after(
                    self.grid,
                    p,
                    target,
                    e,
                )
                &&& dist_after(self.grid, p, target, after.direction) == dist_after(
                    self.grid,
                    p,
                    target,
                    e,
                ) ==> after.direction.rank() <= e.rank()
            }),
    {
        self.lemma_tick_without_catch(rolls);
        self.lemma_player_moved_wf();
        self.lemma_player_moved_blocking();
        let a = self.player_moved();
        let pl = (a.x, a.y, a.direction);
        let before = self.ghosts.members[k];
        let p = (before.x as int, before.y as int);
        let timed = a.ghosts.scheduled();
        let moved = self.ghosts_moved(rolls);
        let target = self.ghost_target(rolls, k);
        moved.lemma_eaten_upto((a.x, a.y), 4);
        a.ghosts.lemma_advance_wf(a.grid, pl, rolls);
        // Every change of mode shows after the tick, so there was none.
        assert(a.ghosts.members[k] == before) by {
            if a.ghosts != self.ghosts {
                assert(a.ghosts == self.ghosts.frighten());
            }
        }
        assert(timed.members[k] == before);
        assert(moved.members[k] == crate::ghosts::step_ghost(
            a.grid,
            timed.home,
            phase_at(timed.clock),
            before,
            pl,
            rolls[k] as int,
        ));
        // What the ghost may do on the grid after the player's move is what
        // it may do on the grid before it.
        assert forall|d: Direction|
            #![trigger is_candidate(a.grid, p, before.direction, d)]
            is_candidate(a.grid, p, before.direction, d) == is_candidate(
                self.grid,
                p,
                before.direction,
                d,
            ) && ghost_dest(a.grid, p, d) == ghost_dest(self.grid, p, d) by {
            let c = ghost_dest(self.grid, p, d);
            assert(a.grid.is_blocking(c.0, c.1) == self.grid.is_blocking(c.0, c.1));
        }
        lemma_no_reversal(a.grid, p, before.direction, target, e);
        lemma_tie_break(a.grid, p, before.direction, target, e);
        assert(0 <= before.x < self.grid.width);
        assert(self.grid.width <= self.grid.width * self.grid.height) by (nonlinear_arith)
            requires
                1 <= self.grid.width,
                1 <= self.grid.height,
        ;
        assert(self.grid.height <= self.grid.width * self.grid.height) by (nonlinear_arith)
            requires
                1 <= self.grid.width,
                1 <= self.grid.height,
        ;
    }

    /// Eating one ghost in a tick. Take a tick in which the player is not
    /// caught and, after all have moved, shares his cell with exactly one
    /// frightened ghost, while `chain` ghosts (fewer than four) have been
    /// eaten since the last power-up. Then that ghost is eaten, the chain
    /// grows by one, lives stay, and the score rises by 200, 400, 800 or
    /// 1600 for a chain of 0, 1, 2 or 3, on top of what the player's own
    /// move earned.
    pub proof fn lemma_tick_eats_one(self, rolls: Seq<usize>, k: int)
        requires
            self.wf(),
            self.in_play(),
            !self.caught(rolls),
            0 <= k < 4,
            self.player_moved().ghosts.chain < 4,
            is_at(
                self.ghosts_moved(rolls).members[k],
                (self.player_moved().x, self.player_moved().y),
            ),
            self.ghosts_moved(rolls).members[k].mode == GhostMode::Frightened,
            forall|j: int|
                0 <= j < 4 && j != k ==> !(is_at(
                    #[trigger] self.ghosts_moved(rolls).members[j],
                    (self.player_moved().x, self.player_moved().y),
                ) && self.ghosts_moved(rolls).members[j].mode == GhostMode::Frightened),
        ensures
            self.ticked(rolls).score == raised(
                self.player_moved().score,
                SCORE_GHOST * multiplier(self.player_moved().ghosts.chain),
            ),
            SCORE_GHOST * multiplier(0) == 200,
            SCORE_GHOST * multiplier(1) == 400,
            SCORE_GHOST * multiplier(2) == 800,
            SCORE_GHOST * multiplier(3) == 1600,
            self.ticked(rolls).ghosts.members[k].mode == GhostMode::Eaten,
            self.ticked(rolls).ghosts.chain == self.player_moved().ghosts.chain + 1,
            self.ticked(rolls).lives == self.lives,
            self.ticked(rolls).level == self.level,
    {
        self.lemma_tick_without_catch(rolls);
        self.lemma_player_moved_wf();
        let a = self.player_moved();
        let moved = self.ghosts_moved(rolls);
        a.ghosts.lemma_advance_wf(a.grid, (a.x, a.y, a.direction), rolls);
        moved.lemma_eat_one((a.x, a.y), k);
    }

    /// A move onto a cell without a pick-up earns nothing and leaves grid
    /// and ghosts as they are; in particular the chain of eaten ghosts goes
    /// on.
    pub proof fn lemma_no_pickup(self)
        requires
            self.wf(),
            ({
                let s = self.turned();
                let c = s.cell_towards(s.direction);
                self.grid.get(c.0, c.1) != Some(Tile::Dot) && self.grid.get(c.0, c.1) != Some(
                    Tile::PowerUp,
                )
            }),
        ensures
            self.player_moved().score == self.score,
            self.player_moved().grid == self.grid,
            self.player_moved().ghosts == self.ghosts,
    {
    }

    /// Level completion: a tick that finds no dot left puts every initial
    /// dot back, sends the player and the ghosts to their starts, counts the
    /// level, and leaves lives and score as they were.
    pub proof fn lemma_level_completion(self, rolls: Seq<usize>)
        requires
            self.wf(),
            self.grid.pellets == 0,
        ensures
            self.ticked(rolls).grid == self.grid.reset(),
            self.ticked(rolls).grid.pellets == self.grid.origin.len(),
            self.ticked(rolls).grid.pellets == crate::grid::dot_count(
                self.ticked(rolls).grid.tiles,
            ),
            self.ticked(rolls).ghosts == GhostsModel::initial(self.ghosts.home),
            self.ticked(rolls).x == self.params.start_pos.0,
            self.ticked(rolls).y == self.params.start_pos.1,
            self.ticked(rolls).lives == self.lives,
            self.ticked(rolls).score == self.score,
            self.level < usize::MAX ==> self.ticked(rolls).level == self.level + 1,
    {
        self.grid.lemma_reset_wf();
    }

    /// With no life left nothing moves any more: a tick changes nothing, and
    /// a request to turn is ignored.
    pub proof fn lemma_game_over(self, rolls: Seq<usize>, d: Direction)
        requires
            self.wf(),
            self.lives == 0,
            self.grid.pellets != 0,
        ensures
            self.ticked(rolls) == self,
            self.with_intent(d) == self,
    {
    }

    /// A tick that moves anyone is counted, and costs at most one life.
    pub proof fn lemma_tick_counts(self, rolls: Seq<usize>)
        requires
            self.wf(),
            self.in_play(),
        ensures
            self.ticks < u32::MAX ==> self.ticked(rolls).ticks == self.ticks + 1,
            self.lives - 1 <= self.ticked(rolls).lives <= self.lives,
            self.ticked(rolls).score >= self.score,
    {
        self.lemma_player_moved_wf();
        let a = self.player_moved();
        let b = GameModel {
            ghosts: a.ghosts.advance(a.grid, (a.x, a.y, a.direction), rolls),
            ..a
        };
        a.ghosts.lemma_advance_wf(a.grid, (a.x, a.y, a.direction), rolls);
        b.ghosts.lemma_eaten_upto((b.x, b.y), 4);
    }
}

/// The simulation: the grid, the player, the ghosts, the figures of the run,
/// and the simulator that numbers and the layout come from.
pub struct Game<RG: Simulator> {
    params: Parameters,
    map: Grid,
    lives: u8,
    score: u32,
    level: usize,
    x: i32,
    y: i32,
    direction: Direction,
    direction_intent: Direction,
    ghosts: Ghosts,
    ticks: u32,
    paused: bool,
    rg: RG,
}

impl<RG: Simulator> View for Game<RG> {
    type V = GameModel;

    closed spec fn view(&self) -> GameModel {
        GameModel {
            params: self.params,
            grid: self.map@,
            lives: self.lives as int,
            score: self.score as int,
            level: self.level as int,
            x: self.x as int,
            y: self.y as int,
            direction: self.direction,
            intent: self.direction_intent,
            ghosts: self.ghosts@,
            ticks: self.ticks as int,
            paused: self.paused,
        }
    }
}

impl<RG: Simulator> Game<RG> {
    /// The simulator that numbers are drawn from.
    pub closed spec fn simulator(&self) -> RG {
        self.rg
    }

    /// Starts a simulation on the layout that `sim` hands out.
    pub fn new(params: Parameters, sim: RG) -> (r: Result<Self, SetupError>)
        ensures
            exists|text: Seq<char>|
                match r {
                    Ok(game) => #[trigger] setup(params, text) == Ok::<GameModel, SetupError>(
                        game@,
                    ) && game@.wf(),
                    Err(e) => setup(params, text) == Err::<GameModel, SetupError>(e),
                },
    {
        let mut sim = sim;
        let map_file = sim.load_file(LAYOUT_NAME);
        let r = Game::from_layout(params, map_file.as_str(), sim);
        proof {
            assert(match r {
                Ok(game) => setup(params, map_file@) == Ok::<GameModel, SetupError>(game@)
                    && game@.wf(),
                Err(e) => setup(params, map_file@) == Err::<GameModel, SetupError>(e),
            });
        }
        r
    }

    /// Starts a simulation on the layout `layout`. It is refused where the
    /// layout is no grid, or where the player's start lies outside it.
    pub fn from_layout(params: Parameters, layout: &str, sim: RG) -> (r: Result<Self, SetupError>)
        ensures
            match r {
                Ok(game) => setup(params, layout@) == Ok::<GameModel, SetupError>(game@)
                    && game@.wf() && game.simulator() == sim,
                Err(e) => setup(params, layout@) == Err::<GameModel, SetupError>(e),
            },
    {
        let map = match Grid::new(layout) {
            Ok(map) => map,
            Err(e) => {
                return Err(SetupError::Layout(e));
            },
        };
        if map.get(params.start_pos.0, params.start_pos.1).is_none() {
            return Err(SetupError::StartOutsideGrid);
        }
        let home = map.house_entrance();
        let ghosts = Ghosts::new(home);
        proof {
            assert(map@.width <= map@.width * map@.height && map@.height <= map@.width
                * map@.height) by (nonlinear_arith)
                requires
                    1 <= map@.width,
                    1 <= map@.height,
            ;
            GhostsModel::lemma_initial_wf(map@.house_entrance(), map@.width, map@.height);
        }
        Ok(
            Game {
                params,
                map,
                lives: START_LIVES,
                score: 0,
                level: 1,
                x: params.start_pos.0,
                y: params.start_pos.1,
                direction: params.start_dir,
                direction_intent: params.start_dir,
                ghosts,
                ticks: 0,
                paused: false,
                rg: sim,
            },
        )
    }

    /// Takes one input. Returns whether it asks to quit.
    pub fn input(&mut self, input: Input) -> (should_quit: bool)
        requires
            old(self)@.wf(),
        ensures
            final(self)@ == old(self)@.input(input),
            final(self)@.wf(),
            final(self).simulator() == old(self).simulator(),
            should_quit == (input == Input::Quit),
    {
        let mut should_quit = false;
        match input {
            Input::Up => self.set_direction_intent(Direction::Up),
            Input::Down => self.set_direction_intent(Direction::Down),
            Input::Left => self.set_direction_intent(Direction::Left),
            Input::Right => self.set_direction_intent(Direction::Right),
            Input::Quit => should_quit = true,
            Input::Pause => self.paused = !self.paused,
            Input::NoOp => (),
        }
        return should_quit;
    }

    /// One tick, unless the simulation is paused.
    pub fn update(&mut self)
        requires
            old(self)@.wf(),
        ensures
            final(self)@.wf(),
            exists|rolls: Seq<usize>|
                rolls.len() == 4 && final(self)@ == #[trigger] old(self)@.updated(rolls),
            old(self)@.paused || !old(self)@.in_play() ==> final(self).simulator() == old(
                self,
            ).simulator(),
    {
        if !self.paused {
            self.tick();
            proof {
                let rolls = choose|rolls: Seq<usize>|
                    rolls.len() == 4 && self@ == #[trigger] old(self)@.ticked(rolls);
                assert(self@ == old(self)@.updated(rolls));
            }
        } else {
            proof {
                let rolls = seq![0usize, 0usize, 0usize, 0usize];
                assert(self@ == old(self)@.updated(rolls));
            }
        }
    }

    /// One tick with the numbers `rolls` in place of numbers drawn, unless
    /// the simulation is paused.
    pub fn update_with(&mut self, rolls: [usize; 4])
        requires
            old(self)@.wf(),
        ensures
            final(self)@ == old(self)@.updated(rolls@),
            final(self)@.wf(),
            final(self).simulator() == old(self).simulator(),
    {
        if !self.paused {
            self.tick_with(rolls);
        }
    }

    /// The player's column and row, and the heading he moves in.
    pub fn get_player(&self) -> (p: (i32, i32, Direction))
        ensures
            p.0 == self@.x,
            p.1 == self@.y,
            p.2 == self@.direction,
    {
        self.player()
    }

    /// The grid.
    pub fn get_map(&self) -> (m: &Grid)
        ensures
            m@ == self@.grid,
    {
        self.map()
    }

    /// The ghosts, in their fixed order.
    pub fn get_ghosts(&self) -> (g: &[GhostState])
        ensures
            g@ == self@.ghosts.members,
    {
        self.ghosts()
    }

    /// Whether any ghost is frightened.
    pub fn frightened(&self) -> (b: bool)
        ensures
            b == self@.ghosts.any_frightened(),
    {
        self.ghost_mode() == GhostMode::Frightened
    }

    /// Lives, score and level.
    pub fn get_stats(&self) -> (s: Stats)
        ensures
            s.lives == self@.lives,
            s.score == self@.score,
            s.level == self@.level,
    {
        self.stats()
    }

    /// Notes the heading that the player asks for, and takes it up at once
    /// where the way is free. With no lives left the request is ignored.
    pub fn set_direction_intent(&mut self, direction: Direction)
        requires
            old(self)@.wf(),
        ensures
            final(self)@ == old(self)@.with_intent(direction),
            final(self)@.wf(),
            final(self).simulator() == old(self).simulator(),
    {
        if self.lives == 0 {
            return ;
        }
        self.direction_intent = direction;
        if self.can_turn() {
            self.direction = self.direction_intent;
        }
    }

    /// One tick, with four numbers drawn from the simulator where the tick
    /// moves anyone.
    pub fn tick(&mut self)
        requires
            old(self)@.wf(),
        ensures
            final(self)@.wf(),
            exists|rolls: Seq<usize>|
                rolls.len() == 4 && final(self)@ == #[trigger] old(self)@.ticked(rolls),
            !old(self)@.in_play() ==> final(self).simulator() == old(self).simulator(),
    {
        let rolls = if self.map.pellets() == 0 || self.lives == 0 {
            [0usize, 0usize, 0usize, 0usize]
        } else {
            let a = self.rg.rand();
            let b = self.rg.rand();
            let c = self.rg.rand();
            let d = self.rg.rand();
            [a, b, c, d]
        };
        self.tick_with(rolls);
        proof {
            assert(rolls@.len() == 4);
            assert(self@ == old(self)@.ticked(rolls@));
        }
    }

    /// One tick with the numbers `rolls` in place of numbers drawn, one for
    /// each ghost in order.
    pub fn tick_with(&mut self, rolls: [usize; 4])
        requires
            old(self)@.wf(),
        ensures
            final(self)@ == old(self)@.ticked(rolls@),
            final(self)@.wf(),
            final(self).simulator() == old(self).simulator(),
    {
        if self.map.pellets() == 0 {
            self.advance_level();
            return ;
        }
        if self.lives == 0 {
            return ;
        }
        self.move_pacman();
        self.ghosts.move_ghosts_with(&self.map, (self.x, self.y, self.direction), rolls);
        proof {
            self@.lemma_settled_wf();
        }
        match self.ghosts.interact_with_player((self.x, self.y)) {
            Some(Interaction::KillPlayer) => {
                self.x = self.params.start_pos.0;
                self.y = self.params.start_pos.1;
                self.lives = self.lives - 1;
            },
            Some(Interaction::KillGhost(n)) => {
                self.score = self.score.saturating_add(SCORE_GHOST * n);
            },
            None => (),
        }
        if self.ticks < u32::MAX {
            self.ticks = self.ticks + 1;
        }
    }

    /// The player's move.
    fn move_pacman(&mut self)
        requires
            old(self)@.wf(),
        ensures
            final(self)@ == old(self)@.player_moved(),
            final(self)@.wf(),
            final(self).rg == old(self).rg,
    {
        proof {
            self@.lemma_player_moved_wf();
        }
        if self.can_turn() {
            self.direction = self.direction_intent;
        }
        let (dx, dy) = self.direction.to_vector();
        let w = self.map.width() as i32;
        let h = self.map.height() as i32;
        let x = self.x + dx;
        let y = self.y + dy;
        if y < 0 || y >= h {
            return ;
        }
        if x < 0 {
            self.x = w - 1;
            return ;
        }
        if x >= w {
            self.x = 0;
            return ;
        }
        match self.map.get(x, y) {
            Some(Tile::Wall) => (),
            Some(Tile::House) => (),
            Some(Tile::Dot) => {
                self.x = x;
                self.y = y;
                self.map.consume(x, y);
                self.score = self.score.saturating_add(SCORE_PELLET);
            },
            Some(Tile::PowerUp) => {
                self.x = x;
                self.y = y;
                self.map.consume(x, y);
                self.ghosts.frighten();
                self.score = self.score.saturating_add(SCORE_PU);
            },
            _ => {
                self.x = x;
                self.y = y;
            },
        }
    }

    /// Whether the player may head the way last asked for.
    fn can_turn(&self) -> (b: bool)
        requires
            self@.wf(),
        ensures
            b == self@.can_head(self@.intent),
    {
        let (dx, dy) = self.direction_intent.to_vector();
        let h = self.map.height() as i32;
        let x = self.x + dx;
        let y = self.y + dy;
        if y < 0 || y >= h {
            false
        } else {
            !self.map.is_wall(x, y)
        }
    }

    /// Starts the next level.
    fn advance_level(&mut self)
        requires
            old(self)@.wf(),
        ensures
            final(self)@ == old(self)@.level_advanced(),
            final(self)@.wf(),
            final(self).rg == old(self).rg,
    {
        proof {
            self@.lemma_level_advanced_wf();
        }
        if self.level < usize::MAX {
            self.level = self.level + 1;
        }
        self.x = self.params.start_pos.0;
        self.y = self.params.start_pos.1;
        self.ghosts.reset();
        self.map.reset();
    }

    /// The grid.
    pub fn map(&self) -> (m: &Grid)
        ensures
            m@ == self@.grid,
    {
        &self.map
    }

    /// The player's column and row, and the heading he moves in.
    pub fn player(&self) -> (p: (i32, i32, Direction))
        ensures
            p.0 == self@.x,
            p.1 == self@.y,
            p.2 == self@.direction,
    {
        (self.x, self.y, self.direction)
    }

    /// The heading last asked for, which becomes the player's heading as
    /// soon as the way is free.
    pub fn intent(&self) -> (d: Direction)
        ensures
            d == self@.intent,
    {
        self.direction_intent
    }

    /// The ghosts, in their fixed order.
    pub fn ghosts(&self) -> (g: &[GhostState])
        ensures
            g@ == self@.ghosts.members,
    {
        self.ghosts.get()
    }

    /// The mode of the ghosts as a whole: frightened if any of them is, else
    /// what the schedule dictates.
    pub fn ghost_mode(&self) -> (m: GhostMode)
        ensures
            m == self@.ghosts.mode(),
    {
        self.ghosts.ghost_mode()
    }

    /// The cells that the four ghosts would steer towards now, the `i`-th
    /// with the number `rolls[i]`.
    pub fn ghost_targets(&self, rolls: [usize; 4]) -> (t: [(i32, i32); 4])
        requires
            self@.wf(),
        ensures
            forall|i: int|
                0 <= i < 4 ==> ((#[trigger] t@[i]).0 as int, t@[i].1 as int)
                    == crate::ghosts::target_of(
                    self@.grid,
                    self@.ghosts.home,
                    self@.ghosts.members[i],
                    (self@.x, self@.y, self@.direction),
                    rolls@[i] as int,
                ),
    {
        self.ghosts.targets(&self.map, (self.x, self.y, self.direction), rolls)
    }

    /// Lives, score and level.
    pub fn stats(&self) -> (s: Stats)
        ensures
            s.lives == self@.lives,
            s.score == self@.score,
            s.level == self@.level,
    {
        Stats { lives: self.lives, score: self.score, level: self.level }
    }

    /// The number of ticks that moved anyone.
    pub fn ticks(&self) -> (n: u32)
        ensures
            n == self@.ticks,
    {
        self.ticks
    }

    /// Whether the simulation is paused.
    pub fn is_paused(&self) -> (b: bool)
        ensures
            b == self@.paused,
    {
        self.paused
    }
}

} // verus!
