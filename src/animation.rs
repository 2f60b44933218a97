use vstd::prelude::*;
use crate::direction::Direction;
use crate::maze::Maze;
use crate::random::RandomSource;
use crate::specials::SpecialTiles;
use crate::walker::{Walker, walk_step};

verus! {

/// What the camera is doing.
#[derive(PartialEq, Eq, Structural, Debug, Clone, Copy)]
pub enum State {
    /// Moving forward to the centre of the walker's tile.
    Walking,
    /// Turning on the spot to face the walker's direction.
    Turning,
    /// Rolling over about its line of sight.
    Rolling,
}

/// The controller as the laws see it: its state, the walker's tile and
/// facing, the special tiles left, and whether the camera is upside down.
pub struct Phase {
    pub state: State,
    pub tile: (usize, usize),
    pub facing: Direction,
    pub specials: Set<(usize, usize)>,
    pub upside_down: bool,
}

/// A tile as (row, column) in the integers.
pub open spec fn cell_of(t: (usize, usize)) -> (int, int) {
    (t.0 as int, t.1 as int)
}

/// The state that follows a completed move or turn on tile `tile`.
pub open spec fn arrival_state(specials: Set<(usize, usize)>, tile: (usize, usize)) -> State {
    if specials.contains(tile) {
        State::Rolling
    } else {
        State::Walking
    }
}

/// One frame of the controller on maze `m`, from `a` to `b`, given whether
/// the camera completed its motion this frame and which grid direction, if
/// any, the camera faces.
pub open spec fn transition(
    m: Maze,
    a: Phase,
    b: Phase,
    completed: bool,
    camera_facing: Option<Direction>,
) -> bool {
    if !completed {
        b == a
    } else {
        match a.state {
            State::Walking => {
                &&& walk_step(m, cell_of(a.tile), a.facing, cell_of(b.tile), b.facing)
                &&& b.specials == a.specials
                &&& b.upside_down == a.upside_down
                &&& b.state == if camera_facing == Some(b.facing) {
                    arrival_state(a.specials, b.tile)
                } else {
                    State::Turning
                }
            },
            State::Turning => b == Phase { state: arrival_state(a.specials, a.tile), ..a },
            State::Rolling => b == Phase {
                state: State::Walking,
                specials: a.specials.remove(a.tile),
                upside_down: !a.upside_down,
                ..a
            },
        }
    }
}

/// `phases` is a run of the controller on maze `m`: each phase follows the
/// one before it by a frame whose camera report is the matching entry of
/// `reports`.
pub open spec fn is_run(m: Maze, phases: Seq<Phase>, reports: Seq<(bool, Option<Direction>)>) -> bool {
    &&& phases.len() == reports.len() + 1
    &&& forall|k: int|
        0 <= k < reports.len() ==> transition(
            m,
            #[trigger] phases[k],
            phases[k + 1],
            reports[k].0,
            reports[k].1,
        )
}

/// Frame `k` of the run starts a roll.
pub open spec fn starts_roll(phases: Seq<Phase>, k: int) -> bool {
    phases[k].state != State::Rolling && phases[k + 1].state == State::Rolling
}

/// A frame never adds special tiles, and a roll only starts on a special
/// tile, which stays special until that roll completes.
pub proof fn lemma_transition_specials(
    m: Maze,
    a: Phase,
    b: Phase,
    completed: bool,
    camera_facing: Option<Direction>,
)
    requires
        transition(m, a, b, completed, camera_facing),
    ensures
        b.specials.subset_of(a.specials),
        a.state != State::Rolling && b.state == State::Rolling ==> a.specials.contains(b.tile),
        a.state == State::Rolling ==> b.tile == a.tile && (b.state == State::Rolling || !b.specials.contains(
            a.tile,
        )),
{
}

/// A special tile starts at most one roll in a run: two rolls that start
/// at different frames happen on different tiles, so after its roll a
/// tile never starts another, however often the walker comes back.
pub proof fn lemma_one_roll_per_tile(
    m: Maze,
    phases: Seq<Phase>,
    reports: Seq<(bool, Option<Direction>)>,
    i: int,
    j: int,
)
    requires
        is_run(m, phases, reports),
        0 <= i < j < reports.len(),
        starts_roll(phases, i),
        starts_roll(phases, j),
    ensures
        phases[i + 1].tile != phases[j + 1].tile,
{
    let t = phases[i + 1].tile;
    lemma_roll_settles(m, phases, reports, i, j);
    assert(transition(m, phases[j], phases[j + 1], reports[j].0, reports[j].1));
    lemma_transition_specials(m, phases[j], phases[j + 1], reports[j].0, reports[j].1);
}

/// From the frame after a roll starts on tile `t`, the controller is still
/// rolling on `t` or `t` is no longer special.
proof fn lemma_roll_settles(
    m: Maze,
    phases: Seq<Phase>,
    reports: Seq<(bool, Option<Direction>)>,
    i: int,
    k: int,
)
    requires
        is_run(m, phases, reports),
        0 <= i < k <= reports.len(),
        starts_roll(phases, i),
    ensures
        (phases[k].state == State::Rolling && phases[k].tile == phases[i + 1].tile) || !phases[k].specials.contains(
            phases[i + 1].tile,
        ),
    decreases k - i,
{
    if k > i + 1 {
        lemma_roll_settles(m, phases, reports, i, k - 1);
        assert(transition(m, phases[k - 1], phases[k], reports[k - 1].0, reports[k - 1].1));
        lemma_transition_specials(m, phases[k - 1], phases[k], reports[k - 1].0, reports[k - 1].1);
    }
}

/// The controller that turns the walker's steps into camera motions: walk
/// to the next tile, turn to the new direction, and roll over once on each
/// special tile.
pub struct Animation<'a> {
    pub state: State,
    pub walker: Walker<'a>,
    pub specials: SpecialTiles,
    pub upside_down: bool,
}

impl<'a> Animation<'a> {
    pub open spec fn phase(&self) -> Phase {
        Phase {
            state: self.state,
            tile: (self.walker.i, self.walker.j),
            facing: self.walker.direction,
            specials: self.specials@,
            upside_down: self.upside_down,
        }
    }

    /// Starts walking, the right way up.
    pub fn new(walker: Walker<'a>, specials: SpecialTiles) -> (r: Animation<'a>)
        ensures
            r.state == State::Walking,
            r.walker == walker,
            r.specials == specials,
            !r.upside_down,
    {
        Animation { state: State::Walking, walker, specials, upside_down: false }
    }

    /// Runs the state machine for one frame. `completed` tells whether the
    /// camera finished its motion this frame, `camera_facing` along which
    /// grid direction, if any, the camera looks.
    pub fn update(&mut self, rng: &mut RandomSource, completed: bool, camera_facing: Option<Direction>)
        requires
            old(self).walker.wf(),
        ensures
            final(self).walker.wf(),
            final(self).walker.maze == old(self).walker.maze,
            transition(*old(self).walker.maze, old(self).phase(), final(self).phase(), completed, camera_facing),
    {
        if !completed {
            return;
        }
        match self.state {
            State::Walking => {
                self.walker.next(rng);
                let aligned = match camera_facing {
                    Some(d) => d == self.walker.direction,
                    None => false,
                };
                self.state = if aligned {
                    if self.specials.contains(self.walker.pos()) {
                        State::Rolling
                    } else {
                        State::Walking
                    }
                } else {
                    State::Turning
                };
            },
            State::Turning => {
                self.state = if self.specials.contains(self.walker.pos()) {
                    State::Rolling
                } else {
                    State::Walking
                };
            },
            State::Rolling => {
                self.upside_down = !self.upside_down;
                self.specials.remove(self.walker.pos());
                self.state = State::Walking;
            },
        }
    }
}

} // verus!
