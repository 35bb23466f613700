use crate::direction::Direction;
use crate::grid::{Grid, GridModel, MAX_CELLS};
use crate::sim::RandGen;
use vstd::prelude::*;

verus! {

/// The regime a ghost is in.
#[derive(Clone, Copy, Debug, PartialEq, Eq, Structural)]
pub enum GhostMode {
    Scatter,
    Chase,
    Frightened,
    Eaten,
}

/// Which of the four ghosts one is; it decides the corner it scatters to and
/// how it aims at the player.
#[derive(Clone, Copy, Debug, PartialEq, Eq, Structural)]
pub enum Personality {
    Blinky,
    Pinky,
    Inky,
    Clyde,
}

/// One ghost: who it is, where it is, where it is heading, its mode, and
/// whether its mode has changed since it last moved.
#[derive(Clone, Copy, Debug, PartialEq, Eq, Structural)]
pub struct GhostState {
    pub kind: Personality,
    pub x: i32,
    pub y: i32,
    pub direction: Direction,
    pub mode: GhostMode,
    pub turn_back: bool,
}

/// What came of the player and the ghosts sharing a cell.
#[derive(Clone, Copy, Debug, PartialEq, Eq, Structural)]
pub enum Interaction {
    /// A hostile ghost caught the player.
    KillPlayer,
    /// The player ate frightened ghosts; the number is the sum of their
    /// chain multipliers.
    KillGhost(u32),
}

/// Ticks of the first two scatter phases.
pub const SCATTER_LONG: u32 = 42;

/// Ticks of the later scatter phases.
pub const SCATTER_SHORT: u32 = 30;

/// Ticks of a chase phase that is followed by another scatter phase.
pub const CHASE_TICKS: u32 = 120;

/// Ticks that ghosts stay frightened after a power-up.
pub const FRIGHT_TICKS: u32 = 36;

/// How far ahead of the player Pinky aims.
pub const PINKY_LEAD: i32 = 4;

/// How far ahead of the player Inky aims.
pub const INKY_LEAD: i32 = 2;

/// The squared distance within which Clyde gives up the chase.
pub const CLYDE_RANGE: i128 = 64;

/// The mode that the schedule dictates when the ghosts' clock shows `clock`:
/// scatter and chase take turns, four scatter phases in all, and after the
/// last of them the chase never ends.
pub open spec fn phase_at(clock: int) -> GhostMode {
    let a = SCATTER_LONG as int;
    let b = a + CHASE_TICKS;
    let c = b + SCATTER_LONG;
    let d = c + CHASE_TICKS;
    let e = d + SCATTER_SHORT;
    let f = e + CHASE_TICKS;
    let g = f + SCATTER_SHORT;
    if clock < a {
        GhostMode::Scatter
    } else if clock < b {
        GhostMode::Chase
    } else if clock < c {
        GhostMode::Scatter
    } else if clock < d {
        GhostMode::Chase
    } else if clock < e {
        GhostMode::Scatter
    } else if clock < f {
        GhostMode::Chase
    } else if clock < g {
        GhostMode::Scatter
    } else {
        GhostMode::Chase
    }
}

/// The mode that the schedule dictates at `clock`.
pub fn phase(clock: u32) -> (m: GhostMode)
    ensures
        m == phase_at(clock as int),
        m == GhostMode::Scatter || m == GhostMode::Chase,
{
    let a = SCATTER_LONG;
    let b = a + CHASE_TICKS;
    let c = b + SCATTER_LONG;
    let d = c + CHASE_TICKS;
    let e = d + SCATTER_SHORT;
    let f = e + CHASE_TICKS;
    let g = f + SCATTER_SHORT;
    if clock < a {
        GhostMode::Scatter
    } else if clock < b {
        GhostMode::Chase
    } else if clock < c {
        GhostMode::Scatter
    } else if clock < d {
        GhostMode::Chase
    } else if clock < e {
        GhostMode::Scatter
    } else if clock < f {
        GhostMode::Chase
    } else if clock < g {
        GhostMode::Scatter
    } else {
        GhostMode::Chase
    }
}

/// The squared straight-line distance between two cells.
pub open spec fn sq_dist(a: (int, int), b: (int, int)) -> int {
    (a.0 - b.0) * (a.0 - b.0) + (a.1 - b.1) * (a.1 - b.1)
}

/// The squared straight-line distance between two cells.
pub fn dist2(a: (i32, i32), b: (i32, i32)) -> (d: i128)
    ensures
        d == sq_dist((a.0 as int, a.1 as int), (b.0 as int, b.1 as int)),
        d >= 0,
{
    let dx: i128 = a.0 as i128 - b.0 as i128;
    let dy: i128 = a.1 as i128 - b.1 as i128;
    assert(0 <= dx * dx <= 0x1_0000_0000 * 0x1_0000_0000) by (nonlinear_arith)
        requires
            -0x1_0000_0000 <= dx <= 0x1_0000_0000,
    ;
    assert(0 <= dy * dy <= 0x1_0000_0000 * 0x1_0000_0000) by (nonlinear_arith)
        requires
            -0x1_0000_0000 <= dy <= 0x1_0000_0000,
    ;
    dx * dx + dy * dy
}

/// The cell a ghost at `p` comes to when it steps towards `d`: one cell on,
/// and round to the other side where that leaves the grid to the left or to
/// the right.
pub open spec fn ghost_dest(g: GridModel, p: (int, int), d: Direction) -> (int, int) {
    let x = p.0 + d.delta().0;
    let y = p.1 + d.delta().1;
    (
        if x < 0 {
            g.width - 1
        } else if x >= g.width {
            0
        } else {
            x
        },
        y,
    )
}

/// A ghost at `p` may step towards `d`: the cell it would come to lies in the
/// grid and does not block.
pub open spec fn ghost_can_step(g: GridModel, p: (int, int), d: Direction) -> bool {
    let c = ghost_dest(g, p, d);
    g.in_bounds(c.0, c.1) && !g.is_blocking(c.0, c.1)
}

/// `d` is a way on for a ghost at `p` that is heading `current`: it does not
/// turn the ghost back, and the ghost may step there.
pub open spec fn is_candidate(
    g: GridModel,
    p: (int, int),
    current: Direction,
    d: Direction,
) -> bool {
    d != current.reversed() && ghost_can_step(g, p, d)
}

/// The distance to `target` that is left after a step from `p` towards `d`.
pub open spec fn dist_after(g: GridModel, p: (int, int), target: (int, int), d: Direction) -> int {
    sq_dist(ghost_dest(g, p, d), target)
}

/// The best way on among the first `n` headings of the preference order: the
/// one that leaves the ghost nearest to `target`, and of several such the
/// first in the order.
pub open spec fn best_upto(
    g: GridModel,
    p: (int, int),
    current: Direction,
    target: (int, int),
    n: int,
) -> Option<Direction>
    decreases n,
{
    if n <= 0 {
        None
    } else {
        let before = best_upto(g, p, current, target, n - 1);
        let d = Direction::of_rank(n - 1);
        if is_candidate(g, p, current, d) && (before is None || dist_after(g, p, target, d)
            < dist_after(g, p, target, before.unwrap())) {
            Some(d)
        } else {
            before
        }
    }
}

/// The heading a ghost takes from `p`. Where its mode has just changed
/// (`forced`) it turns back if it can. Otherwise it takes the best way on;
/// only where there is none does it turn back, and where it cannot even do
/// that it stays (`None`).
pub open spec fn chosen_direction(
    g: GridModel,
    p: (int, int),
    current: Direction,
    target: (int, int),
    forced: bool,
) -> Option<Direction> {
    if forced && ghost_can_step(g, p, current.reversed()) {
        Some(current.reversed())
    } else {
        match best_upto(g, p, current, target, 4) {
            Some(d) => Some(d),
            None => if ghost_can_step(g, p, current.reversed()) {
                Some(current.reversed())
            } else {
                None
            },
        }
    }
}

/// What `best_upto` finds: nothing exactly if none of the first `n` headings
/// is a way on; else a way on that no other beats, neither by distance nor,
/// at the same distance, by its place in the preference order.
pub proof fn lemma_best_upto(
    g: GridModel,
    p: (int, int),
    current: Direction,
    target: (int, int),
    n: int,
)
    requires
        0 <= n <= 4,
    ensures
        best_upto(g, p, current, target, n) is None <==> forall|d: Direction|
            d.rank() < n ==> !#[trigger] is_candidate(g, p, current, d),
        best_upto(g, p, current, target, n) matches Some(b) ==> {
            &&& b.rank() < n
            &&& is_candidate(g, p, current, b)
            &&& forall|d: Direction|
                d.rank() < n && #[trigger] is_candidate(g, p, current, d) ==> {
                    ||| dist_after(g, p, target, b) < dist_after(g, p, target, d)
                    ||| dist_after(g, p, target, b) == dist_after(g, p, target, d) && b.rank()
                        <= d.rank()
                }
        },
    decreases n,
{
    if n > 0 {
        lemma_best_upto(g, p, current, target, n - 1);
        let last = Direction::of_rank(n - 1);
        assert(last.rank() == n - 1);
        assert forall|d: Direction| d.rank() < n implies d.rank() < n - 1 || d == last by {
            crate::direction::lemma_reversed_involution(d);
        }
    }
}

/// No reversal: a ghost whose mode has not just changed, and which has a way
/// on that does not turn it back, never turns back.
pub proof fn lemma_no_reversal(
    g: GridModel,
    p: (int, int),
    current: Direction,
    target: (int, int),
    d: Direction,
)
    requires
        is_candidate(g, p, current, d),
    ensures
        chosen_direction(g, p, current, target, false) is Some,
        chosen_direction(g, p, current, target, false) != Some(current.reversed()),
        is_candidate(g, p, current, chosen_direction(g, p, current, target, false).unwrap()),
{
    crate::direction::lemma_reversed_involution(d);
    lemma_best_upto(g, p, current, target, 4);
}

/// Nearest first, ties by the fixed order: the heading chosen without a
/// forced turn leaves the ghost no farther from its target than any other
/// way on, and where another way on leaves it just as near, the chosen one
/// comes first in the order Up, Left, Down, Right.
pub proof fn lemma_tie_break(
    g: GridModel,
    p: (int, int),
    current: Direction,
    target: (int, int),
    d: Direction,
)
    requires
        is_candidate(g, p, current, d),
    ensures
        chosen_direction(g, p, current, target, false) matches Some(b) && dist_after(
            g,
            p,
            target,
            b,
        ) <= dist_after(g, p, target, d) && (dist_after(g, p, target, b) == dist_after(
            g,
            p,
            target,
            d,
        ) ==> b.rank() <= d.rank()),
{
    crate::direction::lemma_reversed_involution(d);
    lemma_best_upto(g, p, current, target, 4);
}

/// The cell that a ghost at `(x, y)` comes to by a step towards `d`, if it
/// may take that step.
pub fn landing(grid: &Grid, x: i32, y: i32, d: Direction) -> (c: Option<(i32, i32)>)
    requires
        grid@.wf(),
        grid@.in_bounds(x as int, y as int),
    ensures
        match c {
            Some(q) => ghost_can_step(grid@, (x as int, y as int), d) && (q.0 as int, q.1 as int)
                == ghost_dest(grid@, (x as int, y as int), d),
            None => !ghost_can_step(grid@, (x as int, y as int), d),
        },
{
    let (dx, dy) = d.to_vector();
    let w = grid.width() as i32;
    let h = grid.height() as i32;
    let ny = y + dy;
    if ny < 0 || ny >= h {
        return None;
    }
    let step = x + dx;
    let nx = if step < 0 {
        w - 1
    } else if step >= w {
        0
    } else {
        step
    };
    if grid.is_wall(nx, ny) {
        None
    } else {
        Some((nx, ny))
    }
}

/// The heading a ghost at `pos` that is heading `current` takes towards
/// `target`; `forced` says that its mode has just changed.
pub fn choose_direction(
    grid: &Grid,
    pos: (i32, i32),
    current: Direction,
    target: (i32, i32),
    forced: bool,
) -> (r: Option<Direction>)
    requires
        grid@.wf(),
        grid@.in_bounds(pos.0 as int, pos.1 as int),
    ensures
        r == chosen_direction(
            grid@,
            (pos.0 as int, pos.1 as int),
            current,
            (target.0 as int, target.1 as int),
            forced,
        ),
{
    let ghost g = grid@;
    let ghost p = (pos.0 as int, pos.1 as int);
    let ghost t = (target.0 as int, target.1 as int);
    let back = current.opposite();
    let can_turn_back = landing(grid, pos.0, pos.1, back).is_some();
    if forced && can_turn_back {
        return Some(back);
    }
    let mut best: Option<Direction> = None;
    let mut best_dist: i128 = 0;
    let mut rank: u8 = 0;
    while rank < 4
        invariant
            rank <= 4,
            grid@.wf(),
            g == grid@,
            p == (pos.0 as int, pos.1 as int),
            t == (target.0 as int, target.1 as int),
            grid@.in_bounds(pos.0 as int, pos.1 as int),
            back == current.reversed(),
            best == best_upto(g, p, current, t, rank as int),
            best matches Some(b) ==> best_dist == dist_after(g, p, t, b),
        decreases 4 - rank,
    {
        let d = Direction::by_rank(rank);
        if d != back {
            match landing(grid, pos.0, pos.1, d) {
                Some(c) => {
                    let left = dist2(c, target);
                    if best.is_none() || left < best_dist {
                        best = Some(d);
                        best_dist = left;
                    }
                },
                None => {},
            }
        }
        rank += 1;
    }
    match best {
        Some(d) => Some(d),
        None => if can_turn_back {
            Some(back)
        } else {
            None
        },
    }
}

/// The corner that a ghost of this kind keeps to while it scatters.
pub open spec fn scatter_corner(g: GridModel, kind: Personality) -> (int, int) {
    match kind {
        Personality::Blinky => (g.width - 1, 0),
        Personality::Pinky => (0, 0),
        Personality::Inky => (g.width - 1, g.height - 1),
        Personality::Clyde => (0, g.height - 1),
    }
}

/// The cell `n` steps ahead of the player, who is given as column, row and
/// heading.
pub open spec fn ahead(player: (int, int, Direction), n: int) -> (int, int) {
    match player.2 {
        Direction::Up => (player.0, player.1 - n),
        Direction::Down => (player.0, player.1 + n),
        Direction::Left => (player.0 - n, player.1),
        Direction::Right => (player.0 + n, player.1),
    }
}

/// Where a chasing ghost aims: Blinky at the player's cell, Pinky and Inky
/// ahead of the player, Clyde at the player while far away and at his corner
/// when near.
pub open spec fn chase_target(g: GridModel, member: GhostState, player: (int, int, Direction)) -> (
    int,
    int,
) {
    match member.kind {
        Personality::Blinky => (player.0, player.1),
        Personality::Pinky => ahead(player, PINKY_LEAD as int),
        Personality::Inky => ahead(player, INKY_LEAD as int),
        Personality::Clyde => if sq_dist((member.x as int, member.y as int), (player.0, player.1))
            > CLYDE_RANGE {
            (player.0, player.1)
        } else {
            scatter_corner(g, Personality::Clyde)
        },
    }
}

/// Where a frightened ghost flees to: the walkable cell that the number
/// `roll` picks, or its own cell where no cell is walkable.
pub open spec fn fright_target(g: GridModel, member: GhostState, roll: int) -> (int, int) {
    if g.open_cells() > 0 {
        g.open_cell(roll % g.open_cells())
    } else {
        (member.x as int, member.y as int)
    }
}

/// The cell that the ghost steers towards this tick.
pub open spec fn target_of(
    g: GridModel,
    home: (int, int),
    member: GhostState,
    player: (int, int, Direction),
    roll: int,
) -> (int, int) {
    match member.mode {
        GhostMode::Scatter => scatter_corner(g, member.kind),
        GhostMode::Chase => chase_target(g, member, player),
        GhostMode::Frightened => fright_target(g, member, roll),
        GhostMode::Eaten => home,
    }
}

/// The ghost in mode `mode`; a change of mode is remembered, so that the
/// ghost turns back at its next step.
pub open spec fn switched(member: GhostState, mode: GhostMode) -> GhostState {
    if member.mode == mode {
        member
    } else {
        GhostState { mode, turn_back: true, ..member }
    }
}

/// The ghost after one step: it moves one cell in the heading chosen for its
/// target, or stays where no step is possible; an eaten ghost that comes
/// home takes up the mode `phase` again.
pub open spec fn step_ghost(
    g: GridModel,
    home: (int, int),
    phase: GhostMode,
    member: GhostState,
    player: (int, int, Direction),
    roll: int,
) -> GhostState {
    let p = (member.x as int, member.y as int);
    let moved = match chosen_direction(
        g,
        p,
        member.direction,
        target_of(g, home, member, player, roll),
        member.turn_back,
    ) {
        Some(d) => GhostState {
            x: ghost_dest(g, p, d).0 as i32,
            y: ghost_dest(g, p, d).1 as i32,
            direction: d,
            turn_back: false,
            ..member
        },
        None => GhostState { turn_back: false, ..member },
    };
    if moved.mode == GhostMode::Eaten && (moved.x as int, moved.y as int) == home {
        switched(moved, phase)
    } else {
        moved
    }
}

/// What the schedule makes of a ghost at the start of a tick: an eaten ghost
/// is left alone, a frightened one calms down when the fright is over
/// (`calm`), and the others follow the phase.
pub open spec fn retimed(member: GhostState, phase: GhostMode, calm: bool) -> GhostState {
    match member.mode {
        GhostMode::Eaten => member,
        GhostMode::Frightened => if calm {
            switched(member, phase)
        } else {
            member
        },
        _ => switched(member, phase),
    }
}

/// What a power-up makes of a ghost: frightened, unless it is eaten.
pub open spec fn startled(member: GhostState) -> GhostState {
    if member.mode == GhostMode::Eaten {
        member
    } else {
        switched(member, GhostMode::Frightened)
    }
}

/// The factor on the score for the next ghost eaten, when `chain` ghosts have
/// been eaten since the last power-up: 1, 2, 4, 8.
pub open spec fn multiplier(chain: int) -> int {
    if chain <= 0 {
        1
    } else if chain == 1 {
        2
    } else if chain == 2 {
        4
    } else {
        8
    }
}

/// A ghost as it starts out at `home`.
pub open spec fn newborn(kind: Personality, home: (int, int)) -> GhostState {
    GhostState {
        kind,
        x: home.0 as i32,
        y: home.1 as i32,
        direction: Direction::Up,
        mode: GhostMode::Scatter,
        turn_back: false,
    }
}

/// The ghost is at cell `p`.
pub open spec fn is_at(member: GhostState, p: (int, int)) -> bool {
    member.x == p.0 && member.y == p.1
}

/// The ghost harms the player: it is neither frightened nor eaten.
pub open spec fn is_hostile(member: GhostState) -> bool {
    member.mode == GhostMode::Scatter || member.mode == GhostMode::Chase
}

/// The four ghosts as a mathematical value: the ghosts in their fixed order,
/// the clock of the scatter and chase schedule, the ticks of fright that are
/// left, the number of ghosts eaten since the last power-up, and the cell at
/// which ghosts start and to which eaten ghosts return.
pub struct GhostsModel {
    pub members: Seq<GhostState>,
    pub clock: int,
    pub fright_left: int,
    pub chain: int,
    pub home: (int, int),
}

impl GhostsModel {
    /// The invariant of the ghosts on a grid of the given size: there are
    /// four of them, of the four kinds in order, each inside the grid, as is
    /// their home; the counters are in range; and no ghost is frightened
    /// when the time of fright is over.
    pub open spec fn wf(self, width: int, height: int) -> bool {
        &&& self.members.len() == 4
        &&& self.members[0].kind == Personality::Blinky
        &&& self.members[1].kind == Personality::Pinky
        &&& self.members[2].kind == Personality::Inky
        &&& self.members[3].kind == Personality::Clyde
        &&& forall|i: int|
            0 <= i < 4 ==> 0 <= (#[trigger] self.members[i]).x < width && 0 <= self.members[i].y
                < height
        &&& 0 <= self.home.0 < width
        &&& 0 <= self.home.1 < height
        &&& width <= MAX_CELLS
        &&& height <= MAX_CELLS
        &&& 0 <= self.clock <= u32::MAX
        &&& 0 <= self.fright_left <= FRIGHT_TICKS
        &&& 0 <= self.chain <= 4
        &&& forall|i: int|
            0 <= i < 4 && (#[trigger] self.members[i]).mode == GhostMode::Frightened
                ==> self.fright_left > 0
    }

    /// The ghosts as they start out at `home`.
    pub open spec fn initial(home: (int, int)) -> GhostsModel {
        GhostsModel {
            members: seq![
                newborn(Personality::Blinky, home),
                newborn(Personality::Pinky, home),
                newborn(Personality::Inky, home),
                newborn(Personality::Clyde, home),
            ],
            clock: 0,
            fright_left: 0,
            chain: 0,
            home,
        }
    }

    /// The ghosts back at their start.
    pub open spec fn reset(self) -> GhostsModel {
        GhostsModel::initial(self.home)
    }

    /// The ghosts after a power-up: every ghost that is not eaten is
    /// frightened, the fright lasts its full time, and the chain of eaten
    /// ghosts starts anew.
    pub open spec fn frighten(self) -> GhostsModel {
        GhostsModel {
            members: Seq::new(self.members.len(), |i: int| startled(self.members[i])),
            fright_left: FRIGHT_TICKS as int,
            chain: 0,
            ..self
        }
    }

    /// The ghosts after the schedule has been applied at the start of a tick:
    /// the clock is one tick on, the fright one tick shorter, and each ghost
    /// in the mode that this makes for it.
    pub open spec fn scheduled(self) -> GhostsModel {
        let clock = if self.clock < u32::MAX {
            self.clock + 1
        } else {
            self.clock
        };
        let fright_left = if self.fright_left > 0 {
            self.fright_left - 1
        } else {
            0
        };
        GhostsModel {
            members: Seq::new(
                self.members.len(),
                |i: int| retimed(self.members[i], phase_at(clock), fright_left == 0),
            ),
            clock,
            fright_left,
            ..self
        }
    }

    /// The ghosts after each has taken its step, the `i`-th with the number
    /// `rolls[i]`.
    pub open spec fn stepped(
        self,
        g: GridModel,
        player: (int, int, Direction),
        rolls: Seq<usize>,
    ) -> GhostsModel {
        GhostsModel {
            members: Seq::new(
                self.members.len(),
                |i: int|
                    step_ghost(
                        g,
                        self.home,
                        phase_at(self.clock),
                        self.members[i],
                        player,
                        rolls[i] as int,
                    ),
            ),
            ..self
        }
    }

    /// The ghosts after one tick of theirs: the schedule, then the steps.
    pub open spec fn advance(
        self,
        g: GridModel,
        player: (int, int, Direction),
        rolls: Seq<usize>,
    ) -> GhostsModel {
        self.scheduled().stepped(g, player, rolls)
    }

    /// Some ghost is frightened.
    pub open spec fn any_frightened(self) -> bool {
        exists|i: int|
            0 <= i < self.members.len() && (#[trigger] self.members[i]).mode
                == GhostMode::Frightened
    }

    /// The mode of the ghosts as a whole: frightened if any of them is, else
    /// what the schedule dictates.
    pub open spec fn mode(self) -> GhostMode {
        if self.any_frightened() {
            GhostMode::Frightened
        } else {
            phase_at(self.clock)
        }
    }

    /// A hostile ghost is at cell `p`.
    pub open spec fn hostile_at(self, p: (int, int)) -> bool {
        exists|i: int|
            0 <= i < self.members.len() && is_at(#[trigger] self.members[i], p) && is_hostile(
                self.members[i],
            )
    }

    /// The ghosts after the player at `p` has eaten those of the first `n`
    /// that are frightened and at `p`.
    pub open spec fn eaten_upto(self, p: (int, int), n: int) -> GhostsModel
        decreases n,
    {
        if n <= 0 {
            self
        } else {
            let before = self.eaten_upto(p, n - 1);
            let member = self.members[n - 1];
            if is_at(member, p) && member.mode == GhostMode::Frightened {
                GhostsModel {
                    members: before.members.update(n - 1, switched(member, GhostMode::Eaten)),
                    chain: if before.chain < 4 {
                        before.chain + 1
                    } else {
                        before.chain
                    },
                    ..before
                }
            } else {
                before
            }
        }
    }

    /// The sum of the multipliers earned by eating those of the first `n`
    /// ghosts that are frightened and at `p`.
    pub open spec fn bonus_upto(self, p: (int, int), n: int) -> int
        decreases n,
    {
        if n <= 0 {
            0
        } else {
            let member = self.members[n - 1];
            self.bonus_upto(p, n - 1) + if is_at(member, p) && member.mode
                == GhostMode::Frightened {
                multiplier(self.eaten_upto(p, n - 1).chain)
            } else {
                0
            }
        }
    }

    /// What comes of the player standing at `p`. A hostile ghost there
    /// catches the player, and the ghosts go back to their start. Else the
    /// frightened ghosts there are eaten.
    pub open spec fn interact(self, p: (int, int)) -> (GhostsModel, Option<Interaction>) {
        if self.hostile_at(p) {
            (self.reset(), Some(Interaction::KillPlayer))
        } else {
            let n = self.members.len() as int;
            (
                self.eaten_upto(p, n),
                if self.bonus_upto(p, n) > 0 {
                    Some(Interaction::KillGhost(self.bonus_upto(p, n) as u32))
                } else {
                    None
                },
            )
        }
    }

    /// Ghosts that start out inside the grid are valid.
    pub proof fn lemma_initial_wf(home: (int, int), width: int, height: int)
        requires
            0 <= home.0 < width <= MAX_CELLS,
            0 <= home.1 < height <= MAX_CELLS,
        ensures
            GhostsModel::initial(home).wf(width, height),
    {
    }

    /// A tick of the ghosts keeps them valid.
    pub proof fn lemma_advance_wf(
        self,
        g: GridModel,
        player: (int, int, Direction),
        rolls: Seq<usize>,
    )
        requires
            g.wf(),
            self.wf(g.width, g.height),
        ensures
            self.advance(g, player, rolls).wf(g.width, g.height),
    {
        let timed = self.scheduled();
        let after = self.advance(g, player, rolls);
        assert forall|i: int| 0 <= i < 4 implies g.in_bounds(
            (#[trigger] timed.members[i]).x as int,
            timed.members[i].y as int,
        ) && timed.members[i].kind == self.members[i].kind by {
            assert(0 <= self.members[i].x < g.width);
        }
        assert forall|i: int| 0 <= i < 4 implies 0 <= (#[trigger] after.members[i]).x < g.width
            && 0 <= after.members[i].y < g.height && after.members[i].kind
            == self.members[i].kind && (after.members[i].mode == GhostMode::Frightened
            ==> after.fright_left > 0) by {
            assert(g.in_bounds(timed.members[i].x as int, timed.members[i].y as int));
            lemma_step_ghost_in_bounds(
                g,
                timed.home,
                phase_at(timed.clock),
                timed.members[i],
                player,
                rolls[i] as int,
            );
            if self.members[i].mode == GhostMode::Frightened {
                assert(self.fright_left > 0);
            }
        }
    }

    /// A power-up keeps the ghosts valid.
    pub proof fn lemma_frighten_wf(self, width: int, height: int)
        requires
            self.wf(width, height),
        ensures
            self.frighten().wf(width, height),
    {
        let after = self.frighten();
        assert forall|i: int| 0 <= i < 4 implies 0 <= (#[trigger] after.members[i]).x < width && 0
            <= after.members[i].y < height by {
            assert(0 <= self.members[i].x < width);
        }
    }

    /// Eating changes neither where a ghost is nor what kind it is, leaves
    /// the ghosts beyond the first `n` alone, and makes eaten ghosts of the
    /// frightened ghosts at the player's cell and of no others.
    pub proof fn lemma_eaten_upto(self, p: (int, int), n: int)
        requires
            0 <= n <= self.members.len(),
        ensures
            self.eaten_upto(p, n).members.len() == self.members.len(),
            self.eaten_upto(p, n).clock == self.clock,
            self.eaten_upto(p, n).fright_left == self.fright_left,
            self.eaten_upto(p, n).home == self.home,
            self.chain <= self.eaten_upto(p, n).chain,
            self.chain <= 4 ==> self.eaten_upto(p, n).chain <= 4,
            0 <= self.bonus_upto(p, n) <= 8 * n,
            forall|i: int|
                0 <= i < self.members.len() ==> {
                    let m = #[trigger] self.eaten_upto(p, n).members[i];
                    &&& m.x == self.members[i].x
                    &&& m.y == self.members[i].y
                    &&& m.kind == self.members[i].kind
                    &&& m.direction == self.members[i].direction
                    &&& i >= n ==> m == self.members[i]
                    &&& m.mode == (if i < n && is_at(self.members[i], p) && self.members[i].mode
                        == GhostMode::Frightened {
                        GhostMode::Eaten
                    } else {
                        self.members[i].mode
                    })
                },
        decreases n,
    {
        if n > 0 {
            self.lemma_eaten_upto(p, n - 1);
        }
    }

    /// The life of a ghost's mode. The schedule leaves an eaten ghost eaten,
    /// calms a frightened one only when the fright is over, and puts every
    /// other ghost in the mode of the phase. A power-up frightens every
    /// ghost but an eaten one. The player eats frightened ghosts only. And a
    /// change of mode is always remembered for the ghost's next step.
    pub proof fn lemma_mode_lifecycle(self, p: (int, int), i: int)
        requires
            0 <= i < self.members.len(),
        ensures
            self.scheduled().members[i].mode == (match self.members[i].mode {
                GhostMode::Eaten => GhostMode::Eaten,
                GhostMode::Frightened => if self.fright_left <= 1 {
                    phase_at(self.scheduled().clock)
                } else {
                    GhostMode::Frightened
                },
                _ => phase_at(self.scheduled().clock),
            }),
            phase_at(self.clock) == GhostMode::Scatter || phase_at(self.clock) == GhostMode::Chase,
            self.frighten().members[i].mode == (if self.members[i].mode == GhostMode::Eaten {
                GhostMode::Eaten
            } else {
                GhostMode::Frightened
            }),
            !self.hostile_at(p) ==> self.interact(p).0.members[i].mode == (if is_at(
                self.members[i],
                p,
            ) && self.members[i].mode == GhostMode::Frightened {
                GhostMode::Eaten
            } else {
                self.members[i].mode
            }),
            self.scheduled().members[i].mode != self.members[i].mode
                ==> self.scheduled().members[i].turn_back,
            self.frighten().members[i].mode != self.members[i].mode
                ==> self.frighten().members[i].turn_back,
            !self.hostile_at(p) && self.interact(p).0.members[i].mode != self.members[i].mode
                ==> self.interact(p).0.members[i].turn_back,
    {
        self.lemma_eaten_upto(p, self.members.len() as int);
        self.lemma_eaten_turns(p, self.members.len() as int, i);
    }

    /// A ghost that the player eats will turn back.
    proof fn lemma_eaten_turns(self, p: (int, int), n: int, i: int)
        requires
            0 <= n <= self.members.len(),
            0 <= i < self.members.len(),
        ensures
            self.eaten_upto(p, n).members[i].mode != self.members[i].mode ==> self.eaten_upto(
                p,
                n,
            ).members[i].turn_back,
        decreases n,
    {
        if n > 0 {
            self.lemma_eaten_turns(p, n - 1, i);
            self.lemma_eaten_upto(p, n - 1);
        }
    }

    /// Eating one ghost: where the player shares his cell with exactly one
    /// frightened ghost and no hostile one, that ghost is eaten for the
    /// factor that the chain has reached, and the chain grows by one.
    pub proof fn lemma_eat_one(self, p: (int, int), i: int)
        requires
            self.members.len() == 4,
            0 <= i < 4,
            0 <= self.chain < 4,
            !self.hostile_at(p),
            is_at(self.members[i], p),
            self.members[i].mode == GhostMode::Frightened,
            forall|j: int|
                0 <= j < 4 && j != i ==> !(is_at(#[trigger] self.members[j], p)
                    && self.members[j].mode == GhostMode::Frightened),
        ensures
            self.interact(p).1 == Some(Interaction::KillGhost(multiplier(self.chain) as u32)),
            self.interact(p).0.chain == self.chain + 1,
            self.interact(p).0.members[i].mode == GhostMode::Eaten,
            forall|j: int|
                0 <= j < 4 && j != i ==> #[trigger] self.interact(p).0.members[j]
                    == self.members[j],
    {
        self.lemma_eat_one_upto(p, i, 4);
    }

    /// What eating makes of the first `n` ghosts where only ghost `i` can be
    /// eaten.
    proof fn lemma_eat_one_upto(self, p: (int, int), i: int, n: int)
        requires
            self.members.len() == 4,
            0 <= i < 4,
            0 <= n <= 4,
            0 <= self.chain < 4,
            is_at(self.members[i], p),
            self.members[i].mode == GhostMode::Frightened,
            forall|j: int|
                0 <= j < 4 && j != i ==> !(is_at(#[trigger] self.members[j], p)
                    && self.members[j].mode == GhostMode::Frightened),
        ensures
            n <= i ==> self.eaten_upto(p, n) == self && self.bonus_upto(p, n) == 0,
            n > i ==> self.bonus_upto(p, n) == multiplier(self.chain) && self.eaten_upto(p, n) == (
            GhostsModel {
                members: self.members.update(i, switched(self.members[i], GhostMode::Eaten)),
                chain: self.chain + 1,
                ..self
            }),
        decreases n,
    {
        if n > 0 {
            self.lemma_eat_one_upto(p, i, n - 1);
            if n - 1 != i {
                assert(!(is_at(self.members[n - 1], p) && self.members[n - 1].mode
                    == GhostMode::Frightened));
            }
        }
    }

    /// The chain of scores: the ghosts eaten after one power-up are worth
    /// one, two, four and eight times the base score, and a power-up starts
    /// the chain anew.
    pub proof fn lemma_chain(self)
        ensures
            multiplier(0) == 1,
            multiplier(1) == 2,
            multiplier(2) == 4,
            multiplier(3) == 8,
            self.frighten().chain == 0,
            self.frighten().fright_left == FRIGHT_TICKS,
            forall|i: int|
                0 <= i < self.members.len() ==> (#[trigger] self.frighten().members[i]).mode == (
                if self.members[i].mode == GhostMode::Eaten {
                    GhostMode::Eaten
                } else {
                    GhostMode::Frightened
                }),
    {
    }

    /// An eaten ghost never harms the player, and neither does a frightened
    /// one: where no ghost at the player's cell is in scatter or chase mode,
    /// the player is not caught.
    pub proof fn lemma_only_hostile_ghosts_kill(self, p: (int, int))
        requires
            forall|i: int|
                0 <= i < self.members.len() && is_at(#[trigger] self.members[i], p)
                    ==> self.members[i].mode == GhostMode::Eaten || self.members[i].mode
                    == GhostMode::Frightened,
        ensures
            self.interact(p).1 != Some(Interaction::KillPlayer),
    {
    }

    /// Settling a shared cell keeps the ghosts valid.
    pub proof fn lemma_interact_wf(self, p: (int, int), width: int, height: int)
        requires
            self.wf(width, height),
        ensures
            self.interact(p).0.wf(width, height),
    {
        self.lemma_eaten_upto(p, 4);
        let after = self.eaten_upto(p, 4);
        assert forall|i: int| 0 <= i < 4 implies 0 <= (#[trigger] after.members[i]).x < width && 0
            <= after.members[i].y < height by {
            assert(0 <= self.members[i].x < width);
        }
    }
}

/// A step leaves a ghost inside the grid and of its kind, and in its mode
/// unless it is an eaten ghost that comes home.
pub proof fn lemma_step_ghost_in_bounds(
    g: GridModel,
    home: (int, int),
    phase: GhostMode,
    member: GhostState,
    player: (int, int, Direction),
    roll: int,
)
    requires
        g.wf(),
        g.in_bounds(member.x as int, member.y as int),
    ensures
        g.in_bounds(
            step_ghost(g, home, phase, member, player, roll).x as int,
            step_ghost(g, home, phase, member, player, roll).y as int,
        ),
        step_ghost(g, home, phase, member, player, roll).kind == member.kind,
        step_ghost(g, home, phase, member, player, roll).mode == (if member.mode
            == GhostMode::Eaten && is_at(step_ghost(g, home, phase, member, player, roll), home) {
            phase
        } else {
            member.mode
        }),
{
    let p = (member.x as int, member.y as int);
    let t = target_of(g, home, member, player, roll);
    lemma_best_upto(g, p, member.direction, t, 4);
    assert(g.width <= g.width * g.height) by (nonlinear_arith)
        requires
            1 <= g.width,
            1 <= g.height,
    ;
    assert(g.height <= g.width * g.height) by (nonlinear_arith)
        requires
            1 <= g.width,
            1 <= g.height,
    ;
}

/// The corner that a ghost of this kind keeps to while it scatters.
pub fn corner(grid: &Grid, kind: Personality) -> (c: (i32, i32))
    requires
        grid@.wf(),
    ensures
        (c.0 as int, c.1 as int) == scatter_corner(grid@, kind),
{
    let w = grid.width() as i32;
    let h = grid.height() as i32;
    match kind {
        Personality::Blinky => (w - 1, 0),
        Personality::Pinky => (0, 0),
        Personality::Inky => (w - 1, h - 1),
        Personality::Clyde => (0, h - 1),
    }
}

/// The cell `n` steps ahead of the player.
fn cell_ahead(player: (i32, i32, Direction), n: i32) -> (c: (i32, i32))
    requires
        0 <= player.0 <= MAX_CELLS,
        0 <= player.1 <= MAX_CELLS,
        0 <= n <= 8,
    ensures
        (c.0 as int, c.1 as int) == ahead((player.0 as int, player.1 as int, player.2), n as int),
{
    match player.2 {
        Direction::Up => (player.0, player.1 - n),
        Direction::Down => (player.0, player.1 + n),
        Direction::Left => (player.0 - n, player.1),
        Direction::Right => (player.0 + n, player.1),
    }
}

impl GhostState {
    /// The cell that the ghost steers towards this tick; `roll` is the
    /// number drawn for it, which only a frightened ghost uses.
    pub fn target(
        &self,
        grid: &Grid,
        home: (i32, i32),
        player: (i32, i32, Direction),
        roll: usize,
    ) -> (t: (i32, i32))
        requires
            grid@.wf(),
            grid@.in_bounds(player.0 as int, player.1 as int),
        ensures
            (t.0 as int, t.1 as int) == target_of(
                grid@,
                (home.0 as int, home.1 as int),
                *self,
                (player.0 as int, player.1 as int, player.2),
                roll as int,
            ),
    {
        let w = grid.width();
        let h = grid.height();
        match self.mode {
            GhostMode::Scatter => corner(grid, self.kind),
            GhostMode::Chase => match self.kind {
                Personality::Blinky => (player.0, player.1),
                Personality::Pinky => cell_ahead(player, PINKY_LEAD),
                Personality::Inky => cell_ahead(player, INKY_LEAD),
                Personality::Clyde => if dist2((self.x, self.y), (player.0, player.1))
                    > CLYDE_RANGE {
                    (player.0, player.1)
                } else {
                    corner(grid, Personality::Clyde)
                },
            },
            GhostMode::Frightened => {
                let open = grid.count_open();
                if open > 0 {
                    match grid.open_cell(roll % open) {
                        Some(c) => c,
                        None => (self.x, self.y),
                    }
                } else {
                    (self.x, self.y)
                }
            },
            GhostMode::Eaten => home,
        }
    }

    /// The ghost in mode `mode`; a change of mode is remembered, so that the
    /// ghost turns back at its next step.
    pub fn switch_to(self, mode: GhostMode) -> (r: GhostState)
        ensures
            r == switched(self, mode),
    {
        if self.mode == mode {
            self
        } else {
            GhostState {
                kind: self.kind,
                x: self.x,
                y: self.y,
                direction: self.direction,
                mode,
                turn_back: true,
            }
        }
    }

    /// The ghost after one step on `grid`; `phase` is the mode that the
    /// schedule dictates, `roll` the number drawn for this ghost.
    pub fn step(
        self,
        grid: &Grid,
        home: (i32, i32),
        phase: GhostMode,
        player: (i32, i32, Direction),
        roll: usize,
    ) -> (r: GhostState)
        requires
            grid@.wf(),
            grid@.in_bounds(self.x as int, self.y as int),
            grid@.in_bounds(player.0 as int, player.1 as int),
        ensures
            r == step_ghost(
                grid@,
                (home.0 as int, home.1 as int),
                phase,
                self,
                (player.0 as int, player.1 as int, player.2),
                roll as int,
            ),
            grid@.in_bounds(r.x as int, r.y as int),
            r.kind == self.kind,
    {
        proof {
            lemma_step_ghost_in_bounds(
                grid@,
                (home.0 as int, home.1 as int),
                phase,
                self,
                (player.0 as int, player.1 as int, player.2),
                roll as int,
            );
        }
        let target = self.target(grid, home, player, roll);
        let moved = match choose_direction(
            grid,
            (self.x, self.y),
            self.direction,
            target,
            self.turn_back,
        ) {
            Some(d) => {
                match landing(grid, self.x, self.y, d) {
                    Some(c) => GhostState {
                        kind: self.kind,
                        x: c.0,
                        y: c.1,
                        direction: d,
                        mode: self.mode,
                        turn_back: false,
                    },
                    None => GhostState {
                        kind: self.kind,
                        x: self.x,
                        y: self.y,
                        direction: self.direction,
                        mode: self.mode,
                        turn_back: false,
                    },
                }
            },
            None => GhostState {
                kind: self.kind,
                x: self.x,
                y: self.y,
                direction: self.direction,
                mode: self.mode,
                turn_back: false,
            },
        };
        proof {
            lemma_best_upto(
                grid@,
                (self.x as int, self.y as int),
                self.direction,
                (target.0 as int, target.1 as int),
                4,
            );
        }
        if moved.mode == GhostMode::Eaten && moved.x == home.0 && moved.y == home.1 {
            moved.switch_to(phase)
        } else {
            moved
        }
    }
}

/// A ghost as it starts out at `home`.
fn newborn_ghost(kind: Personality, home: (i32, i32)) -> (r: GhostState)
    ensures
        r == newborn(kind, (home.0 as int, home.1 as int)),
{
    GhostState {
        kind,
        x: home.0,
        y: home.1,
        direction: Direction::Up,
        mode: GhostMode::Scatter,
        turn_back: false,
    }
}

/// The four ghosts, the clock of their schedule, and what is left of their
/// fright.
pub struct Ghosts {
    members: Vec<GhostState>,
    clock: u32,
    fright_left: u32,
    chain: u32,
    home: (i32, i32),
}

impl View for Ghosts {
    type V = GhostsModel;

    closed spec fn view(&self) -> GhostsModel {
        GhostsModel {
            members: self.members@,
            clock: self.clock as int,
            fright_left: self.fright_left as int,
            chain: self.chain as int,
            home: (self.home.0 as int, self.home.1 as int),
        }
    }
}

impl Ghosts {
    /// The four ghosts at their start, the cell `home`.
    pub fn new(home: (i32, i32)) -> (ghosts: Ghosts)
        ensures
            ghosts@ == GhostsModel::initial((home.0 as int, home.1 as int)),
    {
        let mut members: Vec<GhostState> = Vec::new();
        members.push(newborn_ghost(Personality::Blinky, home));
        members.push(newborn_ghost(Personality::Pinky, home));
        members.push(newborn_ghost(Personality::Inky, home));
        members.push(newborn_ghost(Personality::Clyde, home));
        let ghosts = Ghosts { members, clock: 0, fright_left: 0, chain: 0, home };
        proof {
            assert(ghosts@.members =~= GhostsModel::initial(
                (home.0 as int, home.1 as int),
            ).members);
        }
        ghosts
    }

    /// Sends the ghosts back to their start and the schedule to its
    /// beginning.
    pub fn reset(&mut self)
        ensures
            final(self)@ == old(self)@.reset(),
    {
        *self = Ghosts::new(self.home);
    }

    /// What a power-up does: frightens every ghost that is not eaten, for
    /// the full time, and starts the chain of eaten ghosts anew.
    pub fn frighten(&mut self)
        ensures
            final(self)@ == old(self)@.frighten(),
    {
        let n = self.members.len();
        let mut i: usize = 0;
        while i < n
            invariant
                i <= n == self.members@.len(),
                n == old(self).members@.len(),
                self.clock == old(self).clock,
                self.home == old(self).home,
                forall|j: int|
                    0 <= j < i ==> #[trigger] self.members@[j] == startled(
                        old(self).members@[j],
                    ),
                forall|j: int| i <= j < n ==> #[trigger] self.members@[j] == old(self).members@[j],
            decreases n - i,
        {
            let member = self.members[i];
            if member.mode != GhostMode::Eaten {
                self.members.set(i, member.switch_to(GhostMode::Frightened));
            }
            i += 1;
        }
        self.fright_left = FRIGHT_TICKS;
        self.chain = 0;
        proof {
            assert(self@.members =~= old(self)@.frighten().members);
        }
    }

    /// The ghosts, in their fixed order.
    pub fn get(&self) -> (members: &[GhostState])
        ensures
            members@ == self@.members,
    {
        self.members.as_slice()
    }

    /// The mode of the ghosts as a whole: frightened if any of them is, else
    /// what the schedule dictates.
    pub fn ghost_mode(&self) -> (m: GhostMode)
        ensures
            m == self@.mode(),
    {
        let n = self.members.len();
        let mut i: usize = 0;
        while i < n
            invariant
                i <= n == self.members@.len(),
                forall|j: int|
                    0 <= j < i ==> (#[trigger] self.members@[j]).mode != GhostMode::Frightened,
            decreases n - i,
        {
            if self.members[i].mode == GhostMode::Frightened {
                return GhostMode::Frightened;
            }
            i += 1;
        }
        phase(self.clock)
    }

    /// Applies the schedule at the start of a tick.
    fn schedule(&mut self)
        ensures
            final(self)@ == old(self)@.scheduled(),
    {
        if self.clock < u32::MAX {
            self.clock = self.clock + 1;
        }
        if self.fright_left > 0 {
            self.fright_left = self.fright_left - 1;
        }
        let now = phase(self.clock);
        let calm = self.fright_left == 0;
        let n = self.members.len();
        let mut i: usize = 0;
        while i < n
            invariant
                i <= n == self.members@.len(),
                n == old(self).members@.len(),
                self.clock == old(self)@.scheduled().clock,
                self.fright_left == old(self)@.scheduled().fright_left,
                self.chain == old(self).chain,
                self.home == old(self).home,
                now == phase_at(self.clock as int),
                calm == (self.fright_left == 0),
                forall|j: int|
                    0 <= j < i ==> #[trigger] self.members@[j] == retimed(
                        old(self).members@[j],
                        now,
                        calm,
                    ),
                forall|j: int| i <= j < n ==> #[trigger] self.members@[j] == old(self).members@[j],
            decreases n - i,
        {
            let member = self.members[i];
            let next = match member.mode {
                GhostMode::Eaten => member,
                GhostMode::Frightened => if calm {
                    member.switch_to(now)
                } else {
                    member
                },
                _ => member.switch_to(now),
            };
            self.members.set(i, next);
            i += 1;
        }
        proof {
            assert(self@.members =~= old(self)@.scheduled().members);
        }
    }

    /// One tick of the ghosts with the numbers `rolls`, one for each ghost in
    /// order: the schedule is applied, then each ghost takes its step; the
    /// player is given as column, row and heading.
    pub fn move_ghosts_with(
        &mut self,
        grid: &Grid,
        player: (i32, i32, Direction),
        rolls: [usize; 4],
    )
        requires
            grid@.wf(),
            old(self)@.wf(grid@.width, grid@.height),
            grid@.in_bounds(player.0 as int, player.1 as int),
        ensures
            final(self)@ == old(self)@.advance(
                grid@,
                (player.0 as int, player.1 as int, player.2),
                rolls@,
            ),
            final(self)@.wf(grid@.width, grid@.height),
    {
        let ghost p = (player.0 as int, player.1 as int, player.2);
        proof {
            self@.lemma_advance_wf(grid@, p, rolls@);
        }
        self.schedule();
        let ghost before = self@;
        let now = phase(self.clock);
        let mut i: usize = 0;
        while i < 4
            invariant
                i <= 4 == self.members@.len(),
                grid@.wf(),
                grid@.in_bounds(player.0 as int, player.1 as int),
                p == (player.0 as int, player.1 as int, player.2),
                before.members.len() == 4,
                self@.clock == before.clock,
                self@.fright_left == before.fright_left,
                self@.chain == before.chain,
                self@.home == before.home,
                now == phase_at(before.clock),
                forall|j: int|
                    0 <= j < 4 ==> grid@.in_bounds(
                        (#[trigger] before.members[j]).x as int,
                        before.members[j].y as int,
                    ),
                forall|j: int|
                    0 <= j < i ==> #[trigger] self.members@[j] == step_ghost(
                        grid@,
                        before.home,
                        now,
                        before.members[j],
                        p,
                        rolls@[j] as int,
                    ),
                forall|j: int| i <= j < 4 ==> #[trigger] self.members@[j] == before.members[j],
            decreases 4 - i,
        {
            let member = self.members[i];
            proof {
                assert(member == before.members[i as int]);
            }
            let next = member.step(grid, self.home, now, player, rolls[i]);
            self.members.set(i, next);
            i += 1;
        }
        proof {
            assert(self@.members =~= before.stepped(grid@, p, rolls@).members);
        }
    }

    /// One tick of the ghosts, with one number drawn from `rg` for each ghost
    /// in order.
    pub fn move_ghosts<RG: RandGen>(
        &mut self,
        grid: &Grid,
        player: (i32, i32, Direction),
        rg: &mut RG,
    )
        requires
            grid@.wf(),
            old(self)@.wf(grid@.width, grid@.height),
            grid@.in_bounds(player.0 as int, player.1 as int),
        ensures
            exists|rolls: Seq<usize>|
                rolls.len() == 4 && final(self)@ == #[trigger] old(self)@.advance(
                    grid@,
                    (player.0 as int, player.1 as int, player.2),
                    rolls,
                ),
            final(self)@.wf(grid@.width, grid@.height),
    {
        let a = rg.rand();
        let b = rg.rand();
        let c = rg.rand();
        let d = rg.rand();
        let rolls = [a, b, c, d];
        self.move_ghosts_with(grid, player, rolls);
    }

    /// Settles what comes of the player standing at `player`. A hostile ghost
    /// there catches the player and all ghosts go back to their start. Else
    /// the frightened ghosts there are eaten, each for twice the factor of
    /// the one before.
    pub fn interact_with_player(&mut self, player: (i32, i32)) -> (r: Option<Interaction>)
        requires
            old(self)@.members.len() == 4,
            0 <= old(self)@.chain <= 4,
        ensures
            final(self)@ == old(self)@.interact((player.0 as int, player.1 as int)).0,
            r == old(self)@.interact((player.0 as int, player.1 as int)).1,
            r matches Some(Interaction::KillGhost(n)) ==> 1 <= n <= 32,
            forall|w: int, h: int| #[trigger] old(self)@.wf(w, h) ==> final(self)@.wf(w, h),
    {
        let ghost p = (player.0 as int, player.1 as int);
        let ghost before = self@;
        proof {
            assert forall|w: int, h: int| #[trigger] before.wf(w, h) implies before.interact(
                p,
            ).0.wf(w, h) by {
                before.lemma_interact_wf(p, w, h);
                GhostsModel::lemma_initial_wf(before.home, w, h);
            }
        }
        if self.hostile_at(player) {
            self.reset();
            return Some(Interaction::KillPlayer);
        }
        let mut bonus: u32 = 0;
        let mut k: usize = 0;
        while k < 4
            invariant
                k <= 4 == self.members@.len(),
                before.members.len() == 4,
                0 <= before.chain <= 4,
                p == (player.0 as int, player.1 as int),
                self@ == before.eaten_upto(p, k as int),
                bonus == before.bonus_upto(p, k as int),
                bonus <= 8 * k,
            decreases 4 - k,
        {
            proof {
                before.lemma_eaten_upto(p, k as int);
                before.lemma_eaten_upto(p, k + 1);
            }
            let member = self.members[k];
            if member.x == player.0 && member.y == player.1 && member.mode
                == GhostMode::Frightened {
                let factor: u32 = if self.chain == 0 {
                    1
                } else if self.chain == 1 {
                    2
                } else if self.chain == 2 {
                    4
                } else {
                    8
                };
                bonus = bonus + factor;
                self.members.set(k, member.switch_to(GhostMode::Eaten));
                if self.chain < 4 {
                    self.chain = self.chain + 1;
                }
            }
            proof {
                assert(self@.members =~= before.eaten_upto(p, k + 1).members);
            }
            k += 1;
        }
        if bonus > 0 {
            Some(Interaction::KillGhost(bonus))
        } else {
            None
        }
    }

    /// Whether a hostile ghost is at the cell `player`.
    fn hostile_at(&self, player: (i32, i32)) -> (b: bool)
        ensures
            b == self@.hostile_at((player.0 as int, player.1 as int)),
    {
        let n = self.members.len();
        let mut i: usize = 0;
        while i < n
            invariant
                i <= n == self.members@.len(),
                forall|j: int|
                    0 <= j < i ==> !(is_at(
                        #[trigger] self.members@[j],
                        (player.0 as int, player.1 as int),
                    ) && is_hostile(self.members@[j])),
            decreases n - i,
        {
            let member = self.members[i];
            if member.x == player.0 && member.y == player.1 && (member.mode == GhostMode::Scatter
                || member.mode == GhostMode::Chase) {
                proof {
                    let p = (player.0 as int, player.1 as int);
                    assert(is_at(self@.members[i as int], p) && is_hostile(
                        self@.members[i as int],
                    ));
                }
                return true;
            }
            i += 1;
        }
        false
    }

    /// The cells that the four ghosts would steer towards now, the `i`-th
    /// with the number `rolls[i]`.
    pub fn targets(&self, grid: &Grid, player: (i32, i32, Direction), rolls: [usize; 4]) -> (t: [(
        i32,
        i32,
    ); 4])
        requires
            grid@.wf(),
            self@.members.len() == 4,
            grid@.in_bounds(player.0 as int, player.1 as int),
        ensures
            forall|i: int|
                0 <= i < 4 ==> ((#[trigger] t@[i]).0 as int, t@[i].1 as int) == target_of(
                    grid@,
                    self@.home,
                    self@.members[i],
                    (player.0 as int, player.1 as int, player.2),
                    rolls@[i] as int,
                ),
    {
        [
            self.members[0].target(grid, self.home, player, rolls[0]),
            self.members[1].target(grid, self.home, player, rolls[1]),
            self.members[2].target(grid, self.home, player, rolls[2]),
            self.members[3].target(grid, self.home, player, rolls[3]),
        ]
    }
}

} // verus!
