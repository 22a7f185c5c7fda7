//! Agents, actions, paths and the timelines derived from them.
//!
//! Coordinates and times are integers: positions in length units and times
//! in whole ticks.
use vstd::prelude::*;

verus! {

/// Largest magnitude of a coordinate, a safety distance or a velocity
/// component that the planner works with.
pub const COORD_MAX: i64 = 1_099_511_627_776;

/// Latest point in time that the planner works with.
pub const TIME_MAX: i64 = 2_305_843_009_213_693_952;

/// A point in the plane.
#[derive(Clone, Copy, Debug, PartialEq, Eq, Structural)]
pub struct Coord {
    pub x: i64,
    pub y: i64,
}

/// Motion of constant velocity in two dimensions, in length units per tick.
#[derive(Clone, Copy, Debug, PartialEq, Eq, Structural)]
pub struct ConstVel2D {
    /// The velocity in the x-axis direction
    pub x: i64,
    /// The velocity in the y-axis direction
    pub y: i64,
}

/// An agent is a named entity that can execute actions.
#[derive(Clone, Debug)]
pub struct Agent {
    /// The name of the agent, which identifies it
    pub name: String,
    /// The initial position of the agent
    pub position: Coord,
    /// The velocity of the agent in two dimensions
    pub velocity: ConstVel2D,
    /// The safety distance in the x-axis direction
    pub safety_x: i64,
    /// The place of the agent in the left-to-right order along x
    pub order: i64,
}

/// The type of an action
#[derive(Clone, Copy, Debug, PartialEq, Eq, Structural)]
pub enum ActionType {
    /// An action requested by the schedule
    Scheduled,
    /// A move of a blocking agent out of the way
    Evasive,
    /// A wait at the current position
    Idle,
}

/// An action is an event that is executed by an agent at a given location.
#[derive(Clone, Debug)]
pub struct Action {
    /// The agent executing the action
    pub agent: Agent,
    /// The target location of the action
    pub target: Coord,
    /// The duration of the dwell at the target
    pub duration: i64,
    /// The type of the action
    pub kind: ActionType,
}

/// A schedule is a list of actions, determining the absolute order in which
/// they have to be executed.
#[derive(Clone, Debug)]
pub struct Schedule {
    /// The list of actions in the schedule
    pub actions: Vec<Action>,
}

/// A straight move of a path.
#[derive(Clone, Copy, Debug, PartialEq, Eq, Structural)]
pub struct Segment {
    /// The starting coordinate of the segment
    pub start: Coord,
    /// The ending coordinate of the segment
    pub end: Coord,
    /// The time needed to traverse the segment
    pub duration: i64,
}

/// A path is a list of moves necessary to arrive at the given action,
/// followed by the action's dwell.
#[derive(Clone, Debug)]
pub struct Path {
    /// The moves that take the agent from the previous action to `action`
    pub moves: Vec<Segment>,
    /// The action to be done
    pub action: Action,
    /// The start time of the path, which equals the end time of the previous path
    pub t_start: i64,
    /// The end time of the path, which is after the present action is finished
    pub t_end: i64,
}

/// A point in space-time.
#[derive(Clone, Copy, Debug, PartialEq, Eq, Structural)]
pub struct PointST {
    /// The x-coordinate of the point
    pub x: i64,
    /// The y-coordinate of the point
    pub y: i64,
    /// The time of the point
    pub t: i64,
}

pub open spec fn max_int(a: int, b: int) -> int {
    if a >= b { a } else { b }
}

pub open spec fn abs_int(a: int) -> int {
    if a >= 0 { a } else { -a }
}

/// The safety distance that two agents keep between each other.
pub open spec fn pair_safety(a: Agent, b: Agent) -> int {
    max_int(a.safety_x as int, b.safety_x as int)
}

pub open spec fn coord_ok(c: Coord) -> bool {
    -COORD_MAX <= c.x <= COORD_MAX && -COORD_MAX <= c.y <= COORD_MAX
}

/// The agent moves with positive speed on both axes and its values lie in
/// the range that the planner works with.
pub open spec fn agent_ok(a: Agent) -> bool {
    &&& 1 <= a.velocity.x <= COORD_MAX
    &&& 1 <= a.velocity.y <= COORD_MAX
    &&& 0 <= a.safety_x <= COORD_MAX
    &&& coord_ok(a.position)
}

/// The action's values lie in the range that the planner works with.
pub open spec fn action_ok(a: Action) -> bool {
    &&& agent_ok(a.agent)
    &&& coord_ok(a.target)
    &&& 0 <= a.duration <= TIME_MAX
}

/// Total duration of the first `k` moves.
pub open spec fn moves_time(moves: Seq<Segment>, k: int) -> int
    decreases k,
{
    if k <= 0 || moves.len() == 0 {
        0
    } else {
        moves_time(moves, k - 1) + moves[k - 1].duration
    }
}

/// The timeline of a path: where the agent is at the start of its first
/// move, at the end of each move, and at the end of the dwell.
pub open spec fn points_of(p: Path) -> Seq<PointST> {
    let m = p.moves@;
    let head = if m.len() > 0 {
        seq![PointST { x: m[0].start.x, y: m[0].start.y, t: p.t_start }]
    } else {
        Seq::<PointST>::empty()
    };
    let ends = Seq::new(
        m.len(),
        |k: int| PointST { x: m[k].end.x, y: m[k].end.y, t: (p.t_start + moves_time(m, k + 1)) as i64 },
    );
    let last = PointST {
        x: p.action.target.x,
        y: p.action.target.y,
        t: (p.t_start + moves_time(m, m.len() as int) + p.action.duration) as i64,
    };
    head + ends + seq![last]
}

/// Every clock value of the path's timeline fits in an `i64`.
pub open spec fn clock_fits(p: Path) -> bool {
    &&& forall|k: int|
        0 <= k <= p.moves@.len() ==> i64::MIN <= p.t_start + #[trigger] moves_time(p.moves@, k)
            <= i64::MAX
    &&& i64::MIN <= p.t_start + moves_time(p.moves@, p.moves@.len() as int) + p.action.duration
        <= i64::MAX
}

/// A committed path: moves and dwell within range, and `t_end` the end of
/// its dwell.
pub open spec fn path_ok(p: Path) -> bool {
    &&& forall|k: int|
        0 <= k < p.moves@.len() ==> {
            &&& 0 <= (#[trigger] p.moves@[k]).duration
            &&& coord_ok(p.moves@[k].start)
            &&& coord_ok(p.moves@[k].end)
        }
    &&& action_ok(p.action)
    &&& 0 <= p.t_start <= p.t_end <= TIME_MAX
    &&& p.t_end == p.t_start + moves_time(p.moves@, p.moves@.len() as int) + p.action.duration
}

pub proof fn lemma_moves_time_mono(moves: Seq<Segment>, j: int, k: int)
    requires
        0 <= j <= k <= moves.len(),
        forall|i: int| 0 <= i < moves.len() ==> 0 <= #[trigger] moves[i].duration,
    ensures
        0 <= moves_time(moves, j) <= moves_time(moves, k),
    decreases k,
{
    if k > 0 {
        if j < k {
            lemma_moves_time_mono(moves, j, k - 1);
        } else {
            lemma_moves_time_mono(moves, k - 1, k - 1);
        }
    }
}

/// The points of a committed path lie in range and within its time span.
pub proof fn lemma_points_in_range(p: Path)
    requires
        path_ok(p),
    ensures
        clock_fits(p),
        forall|i: int|
            0 <= i < points_of(p).len() ==> {
                &&& p.t_start <= #[trigger] points_of(p)[i].t <= p.t_end
                &&& -COORD_MAX <= points_of(p)[i].x <= COORD_MAX
                &&& -COORD_MAX <= points_of(p)[i].y <= COORD_MAX
            },
{
    let m = p.moves@;
    let n = m.len() as int;
    assert forall|k: int| 0 <= k <= n implies 0 <= #[trigger] moves_time(m, k) <= moves_time(m, n) by {
        lemma_moves_time_mono(m, k, n);
    }
    let pts = points_of(p);
    let head = if m.len() > 0 {
        seq![PointST { x: m[0].start.x, y: m[0].start.y, t: p.t_start }]
    } else {
        Seq::<PointST>::empty()
    };
    let ends = Seq::new(
        m.len(),
        |k: int| PointST { x: m[k].end.x, y: m[k].end.y, t: (p.t_start + moves_time(m, k + 1)) as i64 },
    );
    let last = PointST {
        x: p.action.target.x,
        y: p.action.target.y,
        t: (p.t_start + moves_time(m, m.len() as int) + p.action.duration) as i64,
    };
    assert(pts == head + ends + seq![last]);
    assert forall|i: int| 0 <= i < pts.len() implies {
        &&& p.t_start <= #[trigger] pts[i].t <= p.t_end
        &&& -COORD_MAX <= pts[i].x <= COORD_MAX
        &&& -COORD_MAX <= pts[i].y <= COORD_MAX
    } by {
        let h = head.len() as int;
        if i < h {
            assert(pts[i] == head[i]);
            assert(m[0].duration >= 0);
        } else if i < h + n {
            let k = i - h;
            assert(pts[i] == ends[k]);
            assert(m[k].duration >= 0);
            assert(0 <= moves_time(m, k + 1) <= moves_time(m, n));
        } else {
            assert(pts[i] == last);
        }
    }
}

impl Agent {
    /// The safety distance in the x-axis direction between this agent and
    /// another agent: the larger of the two.
    pub fn safety_x(&self, other: &Agent) -> (r: i64)
        ensures
            r == pair_safety(*self, *other),
    {
        if self.safety_x >= other.safety_x {
            self.safety_x
        } else {
            other.safety_x
        }
    }

    /// A copy of the agent.
    pub fn duplicate(&self) -> (r: Agent)
        ensures
            r == *self,
    {
        Agent {
            name: self.name.clone(),
            position: self.position,
            velocity: self.velocity,
            safety_x: self.safety_x,
            order: self.order,
        }
    }
}

impl Action {
    /// A copy of the action.
    pub fn duplicate(&self) -> (r: Action)
        ensures
            r == *self,
    {
        Action {
            agent: self.agent.duplicate(),
            target: self.target,
            duration: self.duration,
            kind: self.kind,
        }
    }
}

impl Path {
    /// A copy of the path.
    pub fn duplicate(&self) -> (r: Path)
        ensures
            r.moves@ == self.moves@,
            r.action == self.action,
            r.t_start == self.t_start,
            r.t_end == self.t_end,
    {
        let mut moves: Vec<Segment> = Vec::new();
        let mut k: usize = 0;
        while k < self.moves.len()
            invariant
                k <= self.moves@.len(),
                moves@ == self.moves@.take(k as int),
            decreases self.moves@.len() - k,
        {
            moves.push(self.moves[k]);
            k = k + 1;
            assert(moves@ =~= self.moves@.take(k as int));
        }
        assert(moves@ =~= self.moves@);
        Path { moves, action: self.action.duplicate(), t_start: self.t_start, t_end: self.t_end }
    }

    /// The timeline of the path: the start of the first move at `t_start`,
    /// the end of each move when it is reached, and the action's target at
    /// the end of the dwell.
    pub fn to_points_st(&self) -> (r: Vec<PointST>)
        requires
            clock_fits(*self),
        ensures
            r@ == points_of(*self),
    {
        let ghost m = self.moves@;
        let ghost head = if m.len() > 0 {
            seq![PointST { x: m[0].start.x, y: m[0].start.y, t: self.t_start }]
        } else {
            Seq::<PointST>::empty()
        };
        let ghost ends = Seq::new(
            m.len(),
            |k: int| PointST { x: m[k].end.x, y: m[k].end.y, t: (self.t_start + moves_time(m, k + 1)) as i64 },
        );
        let mut result: Vec<PointST> = Vec::new();
        if self.moves.len() > 0 {
            let s = self.moves[0];
            result.push(PointST { x: s.start.x, y: s.start.y, t: self.t_start });
        }
        assert(result@ =~= head);
        let mut clock: i64 = self.t_start;
        let mut k: usize = 0;
        assert(moves_time(m, 0) == 0);
        while k < self.moves.len()
            invariant
                m == self.moves@,
                clock_fits(*self),
                k <= m.len(),
                clock == self.t_start + moves_time(m, k as int),
                result@ == head + ends.take(k as int),
                ends.len() == m.len(),
                forall|j: int|
                    0 <= j < m.len() ==> #[trigger] ends[j] == (PointST {
                        x: m[j].end.x,
                        y: m[j].end.y,
                        t: (self.t_start + moves_time(m, j + 1)) as i64,
                    }),
            decreases m.len() - k,
        {
            let s = self.moves[k];
            assert(moves_time(m, k + 1) == moves_time(m, k as int) + s.duration);
            assert(0 <= k + 1 <= m.len());
            assert(i64::MIN <= self.t_start + moves_time(m, k + 1) <= i64::MAX);
            clock = clock + s.duration;
            let q = PointST { x: s.end.x, y: s.end.y, t: clock };
            assert(q == ends[k as int]);
            result.push(q);
            k = k + 1;
            assert(result@ =~= head + ends.take(k as int));
        }
        assert(ends.take(k as int) =~= ends);
        result.push(PointST { x: self.action.target.x, y: self.action.target.y, t: clock + self.action.duration });
        assert(result@ =~= points_of(*self));
        result
    }
}

} // verus!
