//! Routing of a schedule of actions over a set of agents.
//!
//! For each action the driver plans a direct move, moves blocking agents
//! aside by evasive actions (recursively), waits until the move keeps clear
//! of the other agents' committed timelines, and commits the move.
pub mod conflict;
pub mod data;
pub mod idle;
pub mod log;
pub mod progress;

use vstd::prelude::*;
use crate::actions::conflict::{
    apart, best_conflict, clear_of, conflict_of, evasion_of, evasion_target, first_conflict, Conflict,
    lemma_best_conflict_none, lemma_clear_of_symmetric, lemma_conflict_of_apart, max_end_x,
    min_end_x,
};
use crate::actions::data::{
    Action, ActionType, Agent, ConstVel2D, Coord, Path, Schedule, Segment, abs_int, action_ok, agent_ok,
    coord_ok, max_int, moves_time, pair_safety, path_ok, COORD_MAX, TIME_MAX,
};
use crate::actions::idle::{
    abs_exec, ceil_div, ceil_div_exec, committed_end, idle_action, idle_end, idle_path,
    lemma_ceil_div_le, lemma_idle_end_bound, lemma_idle_end_others,
};
use crate::actions::progress::{
    conflict_count, count_above, count_below, lemma_above_strict, lemma_below_strict,
    lemma_best_conflict_some, lemma_count_positive, lemma_counts_bounded,
    lemma_counts_same_agents, lemma_no_conflict_behind, lemma_round_progress,
};
use crate::actions::log::{
    acts_in, agent_index, contiguous, grows, lemma_unique_index, index_of, last_action,
    lemma_grows_trans, lemma_index_of, lemma_index_same_names, lemma_log_ok_actions,
    lemma_no_new_scheduled, lemma_scheduled_push, log_ok, same_scheduled, scheduled_of, separated,
};

verus! {

/// Why routing stopped.
#[derive(Clone, Copy, Debug, PartialEq, Eq, Structural)]
pub enum RouteError {
    /// The agents' positions contradict their order or their safety
    /// distances, so that resolving conflicts does not come to an end within
    /// the nesting that consistently placed agents never exceed.
    InvariantViolation,
    /// A position or a time left the range that the planner works with.
    OutOfRange,
}

/// The ticks needed to go from `from` to `to`: both axes move at once, and
/// the slower axis, rounded up to whole ticks, governs.
pub open spec fn travel_time(from: Coord, to: Coord, v: ConstVel2D) -> int {
    max_int(
        ceil_div(abs_int(to.x - from.x), v.x as int),
        ceil_div(abs_int(to.y - from.y), v.y as int),
    )
}

/// The straight move from `p` to the target of `a`.
pub open spec fn direct_segment(a: Action, p: Coord) -> Segment {
    Segment { start: p, end: a.target, duration: travel_time(p, a.target, a.agent.velocity) as i64 }
}

/// A single straight move from `p` to the target of the action.
pub fn find_path_2d(a: &Action, p: Coord) -> (r: Vec<Segment>)
    requires
        action_ok(*a),
        coord_ok(p),
    ensures
        r@ == seq![direct_segment(*a, p)],
        0 <= travel_time(p, a.target, a.agent.velocity) <= 2 * COORD_MAX + 1,
{
    let v = a.agent.velocity;
    let t_x = ceil_div_exec(abs_exec(a.target.x - p.x), v.x);
    let t_y = ceil_div_exec(abs_exec(a.target.y - p.y), v.y);
    let t = if t_x >= t_y {
        t_x
    } else {
        t_y
    };
    proof {
        let dx = abs_int(a.target.x - p.x);
        let dy = abs_int(a.target.y - p.y);
        assert(0 <= dx / (v.x as int)) by (nonlinear_arith)
            requires
                dx >= 0,
                v.x >= 1,
        ;
    }
    vec![Segment { start: p, end: a.target, duration: t }]
}

/// Commit `action` for its agent: an idle wait first, where one is needed,
/// then the move `path_2d` and the action's dwell.
pub fn commit_action(action: &Action, path_2d: &Vec<Segment>, log: Vec<(Agent, Vec<Path>)>) -> (r:
    Result<Vec<(Agent, Vec<Path>)>, RouteError>)
    requires
        action_ok(*action),
        log_ok(log@),
        acts_in(log@, *action),
        path_2d@.len() == 1,
        coord_ok(path_2d@[0].start),
        path_2d@[0].end == action.target,
        0 <= path_2d@[0].duration <= 2 * COORD_MAX + 1,
    ensures
        ({
            let i = index_of(log@, action.agent.name@);
            let t0 = committed_end(log@, *action);
            let e = idle_end(log@, action.agent, t0, path_2d@[0]);
            let n = log@[i].1@.len();
            &&& r is Ok <==> e + path_2d@[0].duration + action.duration <= TIME_MAX
            &&& r is Err ==> r == Err::<Vec<(Agent, Vec<Path>)>, RouteError>(RouteError::OutOfRange)
            &&& r matches Ok(out) ==> {
                let q = out@[i].1@;
                &&& log_ok(out@)
                &&& out@.len() == log@.len()
                &&& forall|j: int| 0 <= j < log@.len() && j != i ==> out@[j] == #[trigger] log@[j]
                &&& out@[i].0 == log@[i].0
                &&& q.len() == n + if e > t0 { 2int } else { 1int }
                &&& q.subrange(0, n as int) == log@[i].1@
                &&& e > t0 ==> {
                    &&& q[n as int].moves@.len() == 0
                    &&& q[n as int].action == idle_action(log@, *action, path_2d@[0])
                    &&& q[n as int].t_start == t0
                    &&& q[n as int].t_end == e
                }
                &&& q.last().moves@ == path_2d@
                &&& q.last().action == *action
                &&& q.last().t_start == e
                &&& q.last().t_end == e + path_2d@[0].duration + action.duration
            }
        }),
{
    let idle = idle_path(action, path_2d, &log);
    let seg = path_2d[0];
    if idle.t_end > TIME_MAX - seg.duration - action.duration {
        return Err(RouteError::OutOfRange);
    }
    let t_end = idle.t_end + seg.duration + action.duration;
    let path = Path {
        moves: vec![seg],
        action: action.duplicate(),
        t_start: idle.t_end,
        t_end,
    };
    let i = agent_index(&action.agent, &log);
    let ghost old_log = log@;
    let ghost n = log@[i as int].1@.len();
    let mut log = log;
    let (agent, mut paths) = log.remove(i);
    assert(old_log[i as int] == (agent, paths));
    assert(path_ok(paths@[n - 1]));
    if idle.t_end != idle.t_start {
        paths.push(idle);
    }
    paths.push(path);
    log.insert(i, (agent, paths));
    assert(path.moves@ =~= path_2d@);
    let ghost q = log@[i as int].1@;
    assert(q.subrange(0, n as int) =~= old_log[i as int].1@);
    assert forall|j: int| 0 <= j < old_log.len() && j != i implies log@[j] == #[trigger] old_log[j] by {
    }
    assert forall|a: int, b: int|
        0 <= a < log@.len() && 0 <= b < log@.len() && a != b implies (#[trigger] log@[a]).0.name@ != (
        #[trigger] log@[b]).0.name@ by {
        assert(log@[a].0 == old_log[a].0);
        assert(log@[b].0 == old_log[b].0);
    }
    assert forall|k: int| 0 <= k < q.len() implies path_ok(#[trigger] q[k]) by {
        if k < n {
            assert(q[k] == old_log[i as int].1@[k]);
        } else if k == q.len() - 1 {
            assert(q[k] == path);
            assert(moves_time(path.moves@, 1) == moves_time(path.moves@, 0) + seg.duration);
            assert(path_ok(path));
        } else {
            assert(q[k] == idle);
            assert(moves_time(idle.moves@, 0) == 0);
            assert(path_ok(idle));
        }
    }
    assert(contiguous(q));
    Ok(log)
}

/// Where the agent of `action` stands now: the target of its last action.
pub open spec fn current_x(log: Seq<(Agent, Vec<Path>)>, action: Action) -> int {
    last_action(log[index_of(log, action.agent.name@)].1@).target.x as int
}

/// The action moves its agent to the left, or keeps it in place.
pub open spec fn moving_left(log: Seq<(Agent, Vec<Path>)>, action: Action) -> bool {
    action.target.x <= current_x(log, action)
}

/// The action moves its agent to the right, or keeps it in place.
pub open spec fn moving_right(log: Seq<(Agent, Vec<Path>)>, action: Action) -> bool {
    action.target.x >= current_x(log, action)
}

/// The last targets are separated and `depth` leaves room for a nested
/// evasion of every agent before the acting one (unless it moves right) and
/// of every agent after it (unless it moves left).
pub open spec fn depth_ok(log: Seq<(Agent, Vec<Path>)>, action: Action, depth: int) -> bool {
    let n = log.len() as int;
    &&& separated(log)
    &&& depth >= count_below(log, action.agent.order as int, n) || moving_right(log, action)
    &&& depth >= count_above(log, action.agent.order as int, n) || moving_left(log, action)
}

/// How many executions one execution at `depth` may run in all, itself
/// included, among `n` agents: at most `n` nested ones per level.
pub open spec fn budget(n: int, depth: int) -> int
    decreases depth,
{
    if depth <= 0 {
        1
    } else {
        n * budget(n, depth - 1) + 1
    }
}

/// Every committed path ends by `h`.
pub open spec fn ends_by(log: Seq<(Agent, Vec<Path>)>, h: int) -> bool {
    forall|j: int, k: int|
        0 <= j < log.len() && 0 <= k < log[j].1@.len() ==> (#[trigger] log[j].1@[k]).t_end <= h
}

/// The last targets lie within `b + n * s` in x and `b` in y, and every
/// safety distance is at most `s`.
pub open spec fn band_ok(log: Seq<(Agent, Vec<Path>)>, b: int, s: int) -> bool {
    forall|j: int|
        0 <= j < log.len() ==> {
            &&& abs_int(last_action((#[trigger] log[j]).1@).target.x as int) <= b + log.len() * s
            &&& abs_int(last_action(log[j].1@).target.y as int) <= b
            &&& log[j].0.safety_x <= s
        }
}

/// How much later, at most, the last committed path ends after one commit.
pub open spec fn step_time(n: int, b: int, s: int, d: int) -> int {
    s + 2 * (b + n * s) + d
}

/// An execution at `depth` that keeps within the bounds `b`, `s`, `d`, `h`:
/// nested evasions stay within `b + n * s` and every end time within range.
pub open spec fn fits_run(
    log: Seq<(Agent, Vec<Path>)>,
    action: Action,
    depth: int,
    b: int,
    s: int,
    d: int,
    h: int,
) -> bool {
    let n = log.len() as int;
    &&& depth_ok(log, action, depth)
    &&& 0 <= depth <= n
    &&& 0 <= b && 0 <= s && 0 <= d && 0 <= h
    &&& b + n * s <= COORD_MAX
    &&& band_ok(log, b, s)
    &&& abs_int(action.target.x as int) <= b + (n - depth) * s
    &&& abs_int(action.target.y as int) <= b
    &&& action.duration <= d
    &&& ends_by(log, h)
    &&& h + step_time(n, b, s, d) * budget(n, depth) <= TIME_MAX
}

/// There is always room for the execution itself.
pub proof fn lemma_budget_pos(n: int, depth: int)
    requires
        n >= 0,
    ensures
        budget(n, depth) >= 1,
    decreases depth,
{
    if depth > 0 {
        lemma_budget_pos(n, depth - 1);
        assert(n * budget(n, depth - 1) >= 0) by (nonlinear_arith)
            requires
                n >= 0,
                budget(n, depth - 1) >= 1,
        ;
    }
}

/// The conflict to resolve first before `action` moves, on `log`.
pub open spec fn next_conflict(log: Seq<(Agent, Vec<Path>)>, action: Action) -> Option<Conflict> {
    best_conflict(action.agent, action.target.x as int, action.target.x as int, log, log.len() as int)
}

/// `out` is what committing `action` on `mid` gives, its move starting at
/// `start`: the idle the idle rule asks for, if any, then the direct move
/// and the dwell, every end time within range.
pub open spec fn commits(
    mid: Seq<(Agent, Vec<Path>)>,
    action: Action,
    start: Coord,
    out: Seq<(Agent, Vec<Path>)>,
) -> bool {
    let i = index_of(mid, action.agent.name@);
    let seg = direct_segment(action, start);
    let t0 = committed_end(mid, action);
    let e = idle_end(mid, action.agent, t0, seg);
    let n = mid[i].1@.len() as int;
    let q = out[i].1@;
    &&& e + seg.duration + action.duration <= TIME_MAX
    &&& out.len() == mid.len()
    &&& forall|j: int| 0 <= j < mid.len() && j != i ==> out[j] == #[trigger] mid[j]
    &&& out[i].0 == mid[i].0
    &&& q.len() == n + if e > t0 { 2int } else { 1int }
    &&& q.subrange(0, n) == mid[i].1@
    &&& e > t0 ==> {
        &&& q[n].moves@.len() == 0
        &&& q[n].action == idle_action(mid, action, seg)
        &&& q[n].t_start == t0
        &&& q[n].t_end == e
    }
    &&& q.last().moves@ == seq![seg]
    &&& q.last().action == action
    &&& q.last().t_start == e
    &&& q.last().t_end == e + seg.duration + action.duration
}

/// The log `nxt` may follow `cur`: it holds as many agents.
pub open spec fn follows(cur: Seq<(Agent, Vec<Path>)>, nxt: Seq<(Agent, Vec<Path>)>) -> bool {
    nxt.len() == cur.len()
}

/// `mid` is what resolving the conflicts in the way of `action` on `cur`
/// gives: while one is found, the agent that causes it evades, executed
/// with nesting `depth - 1`, at most `k` times.
pub open spec fn resolves(
    cur: Seq<(Agent, Vec<Path>)>,
    action: Action,
    depth: int,
    k: int,
    mid: Seq<(Agent, Vec<Path>)>,
) -> bool
    decreases depth, k,
{
    match next_conflict(cur, action) {
        None => mid == cur,
        Some(c) => {
            let ev = evasion_of(last_action(cur[c.cause as int].1@), c.resolution);
            &&& 0 < k
            &&& 0 < depth
            &&& coord_ok(ev.target)
            &&& exists|nxt: Seq<(Agent, Vec<Path>)>|
                #[trigger] follows(cur, nxt) && executes(cur, ev, depth - 1, nxt) && resolves(
                    nxt,
                    action,
                    depth,
                    k - 1,
                    mid,
                )
        },
    }
}

/// `out` is what executing `action` on `log` gives: the conflicts resolved,
/// then the action committed with its move from where its agent stood.
pub open spec fn executes(
    log: Seq<(Agent, Vec<Path>)>,
    action: Action,
    depth: int,
    out: Seq<(Agent, Vec<Path>)>,
) -> bool
    decreases depth, log.len() + 1,
{
    exists|mid: Seq<(Agent, Vec<Path>)>|
        #[trigger] follows(log, mid) && resolves(log, action, depth, log.len() as int, mid)
            && commits(mid, action, last_action(log[index_of(log, action.agent.name@)].1@).target, out)
}

proof fn lemma_resolves_step(
    cur: Seq<(Agent, Vec<Path>)>,
    action: Action,
    depth: int,
    k: int,
    nxt: Seq<(Agent, Vec<Path>)>,
    mid: Seq<(Agent, Vec<Path>)>,
)
    requires
        next_conflict(cur, action) is Some,
        0 < k,
        0 < depth,
        follows(cur, nxt),
        coord_ok(evasion_of(last_action(cur[next_conflict(cur, action)->Some_0.cause as int].1@), next_conflict(cur, action)->Some_0.resolution).target),
        executes(cur, evasion_of(last_action(cur[next_conflict(cur, action)->Some_0.cause as int].1@), next_conflict(cur, action)->Some_0.resolution), depth - 1, nxt),
        resolves(nxt, action, depth, k - 1, mid),
    ensures
        resolves(cur, action, depth, k, mid),
{
}

/// What executing `action` on `log` gave, when it succeeded: the log grew,
/// the action is committed as the agent's last path with the direct move
/// from where the agent stood, every other agent's last target keeps clear
/// of the action's target, and the scheduled actions grew by this action
/// alone, if it is scheduled.
pub open spec fn executed(log: Seq<(Agent, Vec<Path>)>, out: Seq<(Agent, Vec<Path>)>, action: Action) -> bool {
    let i = index_of(log, action.agent.name@);
    let q = out[i].1@;
    let seg = direct_segment(action, last_action(log[i].1@).target);
    &&& log_ok(out)
    &&& grows(log, out)
    &&& q.last().action == action
    &&& q.last().moves@ == seq![seg]
    &&& q.last().t_end == q.last().t_start + seg.duration + action.duration
    &&& forall|j: int|
        0 <= j < out.len() && (#[trigger] out[j]).0.name@ != action.agent.name@ ==> clear_of(
            action,
            last_action(out[j].1@),
        )
    &&& forall|j: int|
        0 <= j < out.len() ==> scheduled_of((#[trigger] out[j]).1@) == scheduled_of(log[j].1@) + if j
            == i && action.kind == ActionType::Scheduled {
            seq![action]
        } else {
            Seq::<Action>::empty()
        }
    &&& forall|j: int, k: int|
        0 <= j < out.len() && j != i && log[j].1@.len() <= k < out[j].1@.len() ==> (
        #[trigger] out[j].1@[k]).action.kind != ActionType::Scheduled
    &&& separated(log) ==> separated(out)
}

/// `new` is `old` followed by an idle wait, exactly where the move starts
/// later than `old` ends, and then the path that commits `action`.
pub open spec fn appended_after(old: Seq<Path>, new: Seq<Path>, action: Action) -> bool {
    let n = old.len() as int;
    let p = new.last();
    let t0 = old.last().t_end;
    &&& new.len() == n + 1 || new.len() == n + 2
    &&& new.subrange(0, n) == old
    &&& p.action == action
    &&& p.t_start >= t0
    &&& (new.len() == n + 2 <==> p.t_start != t0)
    &&& new.len() == n + 2 ==> {
        let w = new[n];
        &&& w.moves@.len() == 0
        &&& w.action.agent == action.agent
        &&& w.action.kind == ActionType::Idle
        &&& w.action.target == old.last().action.target
        &&& w.action.duration == p.t_start - t0
        &&& w.t_start == t0
        &&& w.t_end == p.t_start
    }
}

/// Every path after the first either waits where the previous one ended (an
/// idle) or makes the direct move from there to its action's target.
pub open spec fn moves_direct(ps: Seq<Path>) -> bool {
    forall|k: int|
        #![trigger ps[k], ps[k - 1]]
        1 <= k < ps.len() ==> if ps[k].action.kind == ActionType::Idle {
            &&& ps[k].moves@.len() == 0
            &&& ps[k].action.target == ps[k - 1].action.target
        } else {
            ps[k].moves@ == seq![direct_segment(ps[k].action, ps[k - 1].action.target)]
        }
}

/// Every agent's paths move directly, as [`moves_direct`] says.
pub open spec fn log_moves_direct(log: Seq<(Agent, Vec<Path>)>) -> bool {
    forall|j: int| 0 <= j < log.len() ==> moves_direct((#[trigger] log[j]).1@)
}

proof fn lemma_moves_direct_appended(old: Seq<Path>, new: Seq<Path>, action: Action)
    requires
        old.len() > 0,
        moves_direct(old),
        appended_after(old, new, action),
        action.kind != ActionType::Idle,
        new.last().moves@ == seq![direct_segment(action, old.last().action.target)],
    ensures
        moves_direct(new),
{
    let n = old.len() as int;
    assert forall|k: int|
        #![trigger new[k], new[k - 1]]
        1 <= k < new.len() implies if new[k].action.kind == ActionType::Idle {
            &&& new[k].moves@.len() == 0
            &&& new[k].action.target == new[k - 1].action.target
        } else {
            new[k].moves@ == seq![direct_segment(new[k].action, new[k - 1].action.target)]
        } by {
        if k < n {
            assert(new[k] == new.subrange(0, n)[k]);
            assert(new[k - 1] == new.subrange(0, n)[k - 1]);
            assert(old[k] == old[k] && old[k - 1] == old[k - 1]);
        } else {
            assert(new[n - 1] == new.subrange(0, n)[n - 1]);
        }
    }
}

/// The committed move of `action` starts when the idle rule allows it,
/// against the other agents' paths in `out`, counting from the end of the
/// agent's paths in `log`.
pub open spec fn starts_when_clear(
    log: Seq<(Agent, Vec<Path>)>,
    out: Seq<(Agent, Vec<Path>)>,
    action: Action,
) -> bool {
    let i = index_of(log, action.agent.name@);
    let old = log[i].1@;
    out[i].1@.last().t_start == idle_end(
        out,
        action.agent,
        old.last().t_end as int,
        direct_segment(action, old.last().action.target),
    )
}

/// A commit within the bounds ends at most one step after the latest
/// committed path.
proof fn lemma_commit_fits(
    mid: Seq<(Agent, Vec<Path>)>,
    action: Action,
    start: Coord,
    b: int,
    s: int,
    d: int,
    h: int,
    depth: int,
)
    requires
        log_ok(mid),
        acts_in(mid, action),
        action_ok(action),
        band_ok(mid, b, s),
        ends_by(mid, h),
        0 <= b,
        0 <= s,
        0 <= depth <= mid.len(),
        abs_int(action.target.x as int) <= b + (mid.len() - depth) * s,
        abs_int(action.target.y as int) <= b,
        action.duration <= d,
        abs_int(start.x as int) <= b + mid.len() * s,
        abs_int(start.y as int) <= b,
        b + mid.len() * s <= COORD_MAX,
    ensures
        ({
            let seg = direct_segment(action, start);
            let t0 = committed_end(mid, action);
            let e = idle_end(mid, action.agent, t0, seg);
            &&& t0 <= e
            &&& t0 <= h
            &&& e + travel_time(start, action.target, action.agent.velocity) + action.duration <= h
                + step_time(mid.len() as int, b, s, d)
        }),
{
    let n = mid.len() as int;
    let i = index_of(mid, action.agent.name@);
    lemma_index_of(mid, action.agent.name@);
    assert(mid[i] == mid[i]);
    let ps = mid[i].1@;
    assert(ps[ps.len() - 1] == ps[ps.len() - 1]);
    let seg = direct_segment(action, start);
    let t0 = committed_end(mid, action);
    let v = action.agent.velocity;
    let dx = abs_int(action.target.x - start.x);
    let dy = abs_int(action.target.y - start.y);
    lemma_ceil_div_le(dx, v.x as int);
    lemma_ceil_div_le(dy, v.y as int);
    assert((n - depth) * s <= n * s) by (nonlinear_arith)
        requires
            0 <= depth,
            0 <= s,
    ;
    assert(0 <= n * s) by (nonlinear_arith)
        requires
            0 <= n,
            0 <= s,
    ;
    assert forall|j: int|
        0 <= j < mid.len() implies {
            &&& agent_ok((#[trigger] mid[j]).0)
            &&& mid[j].0.safety_x <= s
            &&& forall|k: int|
                0 <= k < mid[j].1@.len() ==> path_ok(#[trigger] mid[j].1@[k]) && mid[j].1@[k].t_end
                    <= h
        } by {
        assert forall|k: int| 0 <= k < mid[j].1@.len() implies path_ok(#[trigger] mid[j].1@[k])
            && mid[j].1@[k].t_end <= h by {
            assert(mid[j].1@[k] == mid[j].1@[k]);
        }
    }
    lemma_idle_end_bound(mid, action.agent, t0, seg, h, s);
}

/// A commit that appends paths ending by `h2` to one agent keeps the log
/// within the band and all its paths ending by `h2`.
proof fn lemma_commit_band(
    mid: Seq<(Agent, Vec<Path>)>,
    out: Seq<(Agent, Vec<Path>)>,
    action: Action,
    i: int,
    b: int,
    s: int,
    h: int,
    h2: int,
)
    requires
        0 <= i < mid.len(),
        out.len() == mid.len(),
        band_ok(mid, b, s),
        ends_by(mid, h),
        h <= h2,
        0 <= s,
        abs_int(action.target.x as int) <= b + mid.len() * s,
        abs_int(action.target.y as int) <= b,
        forall|j: int| 0 <= j < mid.len() && j != i ==> out[j] == #[trigger] mid[j],
        out[i].0 == mid[i].0,
        out[i].1@.len() >= mid[i].1@.len(),
        out[i].1@.subrange(0, mid[i].1@.len() as int) == mid[i].1@,
        forall|k: int| mid[i].1@.len() <= k < out[i].1@.len() ==> (#[trigger] out[i].1@[k]).t_end <= h2,
        out[i].1@.len() > 0,
        last_action(out[i].1@) == action,
    ensures
        band_ok(out, b, s),
        ends_by(out, h2),
{
    assert forall|j: int| 0 <= j < out.len() implies {
        &&& abs_int(last_action((#[trigger] out[j]).1@).target.x as int) <= b + out.len() * s
        &&& abs_int(last_action(out[j].1@).target.y as int) <= b
        &&& out[j].0.safety_x <= s
    } by {
        assert(mid[j] == mid[j]);
    }
    assert forall|j: int, k: int| 0 <= j < out.len() && 0 <= k < out[j].1@.len() implies (
    #[trigger] out[j].1@[k]).t_end <= h2 by {
        if j != i {
            assert(out[j] == mid[j]);
            assert(mid[j].1@[k] == mid[j].1@[k]);
        } else if k < mid[i].1@.len() {
            assert(out[i].1@[k] == out[i].1@.subrange(0, mid[i].1@.len() as int)[k]);
            assert(mid[i].1@[k] == mid[i].1@[k]);
        }
    }
}

/// What a commit after the conflicts are resolved gives: the log grew, the
/// other agents keep clear of the action's target, the scheduled actions
/// grew by this one alone, if it is scheduled, and separation is kept.
proof fn lemma_committed(
    log: Seq<(Agent, Vec<Path>)>,
    mid: Seq<(Agent, Vec<Path>)>,
    o: Seq<(Agent, Vec<Path>)>,
    action: Action,
    i: int,
    x: int,
)
    requires
        log_ok(log),
        log_ok(mid),
        grows(log, mid),
        same_scheduled(log, mid),
        separated(log) ==> separated(mid),
        0 <= i < mid.len(),
        o.len() == mid.len(),
        mid[i].0.name@ == action.agent.name@,
        x == action.target.x,
        forall|j: int|
            0 <= j < mid.len() && (#[trigger] mid[j]).0.name@ != action.agent.name@ ==> conflict_of(
                action.agent,
                x,
                x,
                last_action(mid[j].1@),
            ) is None,
        forall|j: int| 0 <= j < mid.len() && j != i ==> o[j] == #[trigger] mid[j],
        o[i].0 == mid[i].0,
        o[i].1@.len() == mid[i].1@.len() + 1 || o[i].1@.len() == mid[i].1@.len() + 2,
        o[i].1@.subrange(0, mid[i].1@.len() as int) == mid[i].1@,
        o[i].1@.len() == mid[i].1@.len() + 2 ==> o[i].1@[mid[i].1@.len() as int].action.kind
            == ActionType::Idle,
        last_action(o[i].1@) == action,
    ensures
        grows(log, o),
        forall|j: int|
            0 <= j < o.len() && (#[trigger] o[j]).0.name@ != action.agent.name@ ==> clear_of(
                action,
                last_action(o[j].1@),
            ),
        forall|j: int|
            0 <= j < o.len() ==> scheduled_of((#[trigger] o[j]).1@) == scheduled_of(log[j].1@) + if j
                == i && action.kind == ActionType::Scheduled {
                seq![action]
            } else {
                Seq::<Action>::empty()
            },
        forall|j: int, k: int|
            0 <= j < o.len() && j != i && log[j].1@.len() <= k < o[j].1@.len() ==> (
            #[trigger] o[j].1@[k]).action.kind != ActionType::Scheduled,
        separated(log) ==> separated(o),
{
    let name = action.agent.name@;
    let q = o[i].1@;
    let n = mid[i].1@.len();
    assert forall|j: int| 0 <= j < mid.len() implies {
        &&& (#[trigger] o[j]).0 == mid[j].0
        &&& mid[j].1@.len() <= o[j].1@.len()
        &&& o[j].1@.subrange(0, mid[j].1@.len() as int) == mid[j].1@
    } by {
        if j != i {
            assert(o[j] == mid[j]);
            assert(o[j].1@.subrange(0, mid[j].1@.len() as int) =~= mid[j].1@);
        }
    }
    lemma_grows_trans(log, mid, o);
    assert forall|j: int|
        0 <= j < o.len() && (#[trigger] o[j]).0.name@ != name implies clear_of(
        action,
        last_action(o[j].1@),
    ) by {
        assert(o[j] == mid[j]);
        lemma_conflict_of_apart(action.agent, x, last_action(mid[j].1@));
    }
    assert forall|j: int| 0 <= j < o.len() implies scheduled_of((#[trigger] o[j]).1@)
        == scheduled_of(log[j].1@) + if j == i && action.kind
        == ActionType::Scheduled {
        seq![action]
    } else {
        Seq::<Action>::empty()
    } by {
        if j == i {
            let q0 = mid[j].1@;
            if q.len() == n + 2 {
                assert(q =~= q0.push(q[n as int]).push(q.last()));
                lemma_scheduled_push(q0, q[n as int]);
                lemma_scheduled_push(q0.push(q[n as int]), q.last());
            } else {
                assert(q =~= q0.push(q.last()));
                lemma_scheduled_push(q0, q.last());
            }
        } else {
            assert(o[j] == mid[j]);
            assert(scheduled_of(log[j].1@) + Seq::<Action>::empty() =~= scheduled_of(
                log[j].1@,
            ));
        }
    }
    if separated(log) {
        assert forall|j: int, k: int|
            0 <= j < o.len() && 0 <= k < o.len() && (#[trigger] o[j]).0.name@ != (
            #[trigger] o[k]).0.name@ implies clear_of(
            last_action(o[j].1@),
            last_action(o[k].1@),
        ) by {
            if j == i {
                lemma_conflict_of_apart(action.agent, x, last_action(mid[k].1@));
            } else if k == i {
                lemma_conflict_of_apart(action.agent, x, last_action(mid[j].1@));
                lemma_clear_of_symmetric(action, last_action(o[j].1@));
            } else {
                assert(o[j] == mid[j]);
                assert(o[k] == mid[k]);
                assert(mid[j].0.name@ != mid[k].0.name@);
            }
        }
    }
    assert forall|j: int, k: int|
        0 <= j < o.len() && j != i && log[j].1@.len() <= k < o[j].1@.len() implies (
        #[trigger] o[j].1@[k]).action.kind != ActionType::Scheduled by {
        assert(o[j] == o[j]);
        assert(scheduled_of(o[j].1@) == scheduled_of(log[j].1@) + Seq::<Action>::empty());
        assert(scheduled_of(log[j].1@) + Seq::<Action>::empty() =~= scheduled_of(log[j].1@));
        lemma_no_new_scheduled(log[j].1@, o[j].1@);
    }
}

/// The execution of `action`, for every bound on coordinates (`b`), safety
/// distances (`s`), dwells (`d`) and committed times (`h`) that the run
/// keeps within.
#[verifier::rlimit(60)]
fn execute_within(
    action: &Action,
    log: Vec<(Agent, Vec<Path>)>,
    depth: usize,
    gb: Ghost<int>,
    gs: Ghost<int>,
    gd: Ghost<int>,
    gh: Ghost<int>,
) -> (r: Result<Vec<(Agent, Vec<Path>)>, RouteError>)
    requires
        action_ok(*action),
        log_ok(log@),
        acts_in(log@, *action),
    ensures
        r matches Ok(out) ==> executes(log@, *action, depth as int, out@),
        r matches Ok(out) ==> executed(log@, out@, *action),
        r matches Ok(out) ==> (depth_ok(log@, *action, depth as int) && action.kind
            != ActionType::Idle && log_moves_direct(log@) ==> log_moves_direct(out@)),
        r matches Ok(out) ==> ((depth_ok(log@, *action, depth as int) || best_conflict(
            action.agent,
            action.target.x as int,
            action.target.x as int,
            log@,
            log@.len() as int,
        ) is None) ==> appended_after(
            log@[index_of(log@, action.agent.name@)].1@,
            out@[index_of(log@, action.agent.name@)].1@,
            *action,
        ) && starts_when_clear(log@, out@, *action)),
        r matches Ok(out) ==> (best_conflict(
            action.agent,
            action.target.x as int,
            action.target.x as int,
            log@,
            log@.len() as int,
        ) is None ==> forall|j: int|
            0 <= j < log@.len() && j != index_of(log@, action.agent.name@) ==> out@[j]
                == #[trigger] log@[j]),
        depth_ok(log@, *action, depth as int) ==> r != Err::<Vec<(Agent, Vec<Path>)>, RouteError>(
            RouteError::InvariantViolation,
        ),
        r matches Ok(out) ==> (depth_ok(log@, *action, depth as int) && moving_left(log@, *action)
            ==> forall|j: int|
            0 <= j < log@.len() && j != index_of(log@, action.agent.name@) && (#[trigger] log@[j]).0.order
                >= action.agent.order ==> out@[j] == log@[j]),
        r matches Ok(out) ==> (depth_ok(log@, *action, depth as int) && moving_right(log@, *action)
            ==> forall|j: int|
            0 <= j < log@.len() && j != index_of(log@, action.agent.name@) && (#[trigger] log@[j]).0.order
                <= action.agent.order ==> out@[j] == log@[j]),
        fits_run(log@, *action, depth as int, gb@, gs@, gd@, gh@) ==> r is Ok,
        r matches Ok(out) ==> (fits_run(log@, *action, depth as int, gb@, gs@, gd@, gh@) ==> {
            &&& band_ok(out@, gb@, gs@)
            &&& ends_by(
                out@,
                gh@ + step_time(log@.len() as int, gb@, gs@, gd@) * budget(log@.len() as int, depth as int),
            )
        }),
    decreases depth,
{
    let i = agent_index(&action.agent, &log);
    let ghost name = action.agent.name@;
    proof {
        lemma_index_of(log@, name);
        assert(path_ok(log@[i as int].1@[log@[i as int].1@.len() - 1]));
    }
    let start = log[i].1[log[i].1.len() - 1].action.target;
    let path_2d = find_path_2d(action, start);
    let ghost seg = path_2d@[0];
    let ghost x = action.target.x as int;
    assert(min_end_x(path_2d@, 1) == x);
    assert(max_end_x(path_2d@, 1) == x);
    let mut result = log;
    proof {
        lemma_log_ok_actions(result@);
        assert(result@.subrange(0, 0) =~= result@.subrange(0, 0));
        assert forall|j: int| 0 <= j < log@.len() implies {
            &&& (#[trigger] result@[j]).0 == log@[j].0
            &&& log@[j].1@.len() <= result@[j].1@.len()
            &&& result@[j].1@.subrange(0, log@[j].1@.len() as int) == log@[j].1@
        } by {
            assert(result@[j].1@.subrange(0, log@[j].1@.len() as int) =~= log@[j].1@);
        }
    }
    let ghost n0 = log@.len() as int;
    let ghost fr = fits_run(log@, *action, depth as int, gb@, gs@, gd@, gh@);
    let ghost step = step_time(n0, gb@, gs@, gd@);
    let ghost b1 = budget(n0, depth - 1);
    proof {
        lemma_budget_pos(n0, depth - 1);
        if fr {
            assert(0 <= step);
        }
    }
    let mut pending = first_conflict(&action.agent, &path_2d, &result);
    let mut rounds: usize = 0;
    while pending.is_some()
        invariant
            n0 == log@.len(),
            fr == fits_run(log@, *action, depth as int, gb@, gs@, gd@, gh@),
            step == step_time(n0, gb@, gs@, gd@),
            b1 == budget(n0, depth - 1),
            b1 >= 1,
            fr ==> 0 <= step,
            fr ==> band_ok(result@, gb@, gs@),
            fr ==> ends_by(result@, gh@ + step * rounds * b1),
            fr && depth == 0 ==> rounds == 0,
            i < log@.len(),
            depth_ok(log@, *action, depth as int) ==> result@[i as int] == log@[i as int],
            forall|m: Seq<(Agent, Vec<Path>)>|
                #[trigger] resolves(result@, *action, depth as int, log@.len() - rounds, m)
                    ==> resolves(log@, *action, depth as int, log@.len() as int, m),
            depth_ok(log@, *action, depth as int) && action.kind != ActionType::Idle
                && log_moves_direct(log@) ==> log_moves_direct(result@),
            start == last_action(log@[i as int].1@).target,
            action_ok(*action),
            log_ok(log@),
            log_ok(result@),
            grows(log@, result@),
            same_scheduled(log@, result@),
            acts_in(result@, *action),
            name == action.agent.name@,
            separated(log@) ==> separated(result@),
            rounds == 0 ==> result@ == log@,
            best_conflict(action.agent, x, x, log@, log@.len() as int) is None ==> rounds == 0,
            pending == best_conflict(action.agent, x, x, result@, result@.len() as int),
            path_2d@ == seq![seg],
            seg == direct_segment(*action, start),
            x == action.target.x,
            pending matches Some(c) ==> c.cause < result@.len(),
            i == index_of(log@, name),
            log@[i as int].0 == action.agent,
            depth_ok(log@, *action, depth as int) ==> rounds + conflict_count(
                action.agent,
                x,
                result@,
                log@.len() as int,
            ) <= conflict_count(action.agent, x, log@, log@.len() as int),
            depth_ok(log@, *action, depth as int) && moving_left(log@, *action) ==> forall|j: int|
                0 <= j < log@.len() && j != i && (#[trigger] log@[j]).0.order >= action.agent.order
                    ==> result@[j] == log@[j],
            depth_ok(log@, *action, depth as int) && moving_right(log@, *action) ==> forall|j: int|
                0 <= j < log@.len() && j != i && (#[trigger] log@[j]).0.order <= action.agent.order
                    ==> result@[j] == log@[j],
        decreases log@.len() - rounds,
    {
        let c = match pending {
            Some(c) => c,
            None => {
                return Err(RouteError::InvariantViolation);
            },
        };
        let cur_len = result.len();
        let ghost n = log@.len() as int;
        let ghost dok = depth_ok(log@, *action, depth as int);
        proof {
            lemma_best_conflict_some(action.agent, x, result@, n);
            lemma_counts_bounded(action.agent, x, log@, 0, n);
            lemma_count_positive(action.agent, x, result@, n, c.cause as int);
            lemma_counts_same_agents(result@, log@, action.agent.order as int, n);
            let cc = c.cause as int;
            assert(result@[cc] == result@[cc]);
            assert(last_action(result@[cc].1@).agent == result@[cc].0);
            assert(result@[cc].0 == log@[cc].0);
            if dok && moving_right(log@, *action) && c.resolution is LowerThanX {
                assert(result@[cc] == log@[cc]);
                lemma_no_conflict_behind(log@, *action, x, cc);
            }
            if dok && moving_left(log@, *action) && c.resolution is HigherThanX {
                assert(result@[cc] == log@[cc]);
                lemma_no_conflict_behind(log@, *action, x, cc);
            }
            let co = result@[cc].0.order as int;
            lemma_counts_bounded(action.agent, x, log@, co, n);
            lemma_counts_same_agents(result@, log@, co, n);
            if dok && c.resolution is LowerThanX {
                lemma_below_strict(log@, cc, action.agent.order as int, n);
                assert(depth >= 1);
            }
            if dok && c.resolution is HigherThanX {
                lemma_above_strict(log@, cc, action.agent.order as int, n);
                assert(depth >= 1);
            }
            assert(dok ==> rounds < n);
        }
        if rounds >= result.len() || depth == 0 {
            return Err(RouteError::InvariantViolation);
        }
        let ev = evasion_target(&c, &result);
        let ghost hr = gh@ + step * rounds * b1;
        proof {
            if fr {
                let cc = c.cause as int;
                let sd = pair_safety(result@[cc].0, action.agent);
                assert(result@[cc] == result@[cc]);
                assert(log@[i as int] == log@[i as int]);
                assert(result@[i as int] == result@[i as int]);
                assert(result@[i as int].0 == log@[i as int].0);
                assert(band_ok(result@, gb@, gs@));
                assert(action.agent.safety_x <= gs@);
                assert(sd <= gs@);
                let dd = depth as int;
                let ss = gs@;
                assert((n0 - dd) * ss + ss == (n0 - (dd - 1)) * ss) by (nonlinear_arith);
                assert((n0 - (dd - 1)) * ss <= n0 * ss) by (nonlinear_arith)
                    requires
                        dd >= 1,
                        ss >= 0,
                ;
                assert(abs_int(ev.target.x as int) <= gb@ + (n0 - (dd - 1)) * ss);
            }
        }
        if ev.target.x < -COORD_MAX || ev.target.x > COORD_MAX {
            return Err(RouteError::OutOfRange);
        }
        proof {
            let cp = result@[c.cause as int].1@;
            assert(path_ok(cp[cp.len() - 1]));
            assert(result@[c.cause as int].0 == ev.agent);
            lemma_unique_index(result@, c.cause as int);
            assert(dok ==> depth_ok(result@, ev, depth - 1));
            if fr {
                let r1 = rounds as int;
                lemma_budget_pos(n0, depth - 1);
                assert(step * r1 * b1 + step * b1 == step * (r1 + 1) * b1) by (nonlinear_arith);
                assert(step * (r1 + 1) * b1 <= step * n0 * b1) by (nonlinear_arith)
                    requires
                        step >= 0,
                        b1 >= 1,
                        r1 + 1 <= n0,
                ;
                assert(budget(n0, depth as int) == n0 * b1 + 1);
                assert(step * budget(n0, depth as int) == step * n0 * b1 + step) by (nonlinear_arith)
                    requires
                        budget(n0, depth as int) == n0 * b1 + 1,
                ;
                assert(result@.len() == n0);
                assert(fits_run(result@, ev, depth - 1, gb@, gs@, gd@, hr));
            }
        }
        let ghost before = result@;
        match execute_within(&ev, result, depth - 1, gb, gs, gd, Ghost(hr)) {
            Ok(next) => {
                result = next;
            },
            Err(e) => {
                return Err(e);
            },
        }
        proof {
            let cc = c.cause as int;
            assert(next_conflict(before, *action) == Some(c));
            assert(ev == evasion_of(last_action(before[c.cause as int].1@), c.resolution));
            assert(coord_ok(ev.target));
            assert(follows(before, result@));
            assert forall|m: Seq<(Agent, Vec<Path>)>|
                #[trigger] resolves(result@, *action, depth as int, log@.len() - (rounds + 1), m)
                    implies resolves(log@, *action, depth as int, log@.len() as int, m) by {
                let kk = log@.len() - rounds;
                assert(resolves(result@, *action, depth as int, kk - 1, m));
                lemma_resolves_step(before, *action, depth as int, kk, result@, m);
            }
            if dok {
                lemma_round_progress(action.agent, x, before, result@, cc, c.resolution);
                assert(before[i as int] == log@[i as int]);
                assert(before[i as int].0 == action.agent);
                assert(result@[i as int] == before[i as int]);
            }
            if fr {
                let r1 = rounds as int;
                assert(hr + step * b1 == gh@ + step * (r1 + 1) * b1) by (nonlinear_arith)
                    requires
                        hr == gh@ + step * r1 * b1,
                ;
            }
            lemma_grows_trans(log@, before, result@);
            lemma_log_ok_actions(result@);
            assert forall|j: int| 0 <= j < log@.len() implies scheduled_of(
                (#[trigger] result@[j]).1@,
            ) == scheduled_of(log@[j].1@) by {
                assert(before[j] == before[j]);
                assert(scheduled_of(result@[j].1@) =~= scheduled_of(before[j].1@));
            }
            let w = index_of(before, name);
            lemma_index_of(before, name);
            assert(result@[w].0 == before[w].0);
            lemma_unique_index(result@, w);
        }
        rounds = rounds + 1;
        pending = first_conflict(&action.agent, &path_2d, &result);
    }
    let ghost mid = result@;
    assert(resolves(mid, *action, depth as int, log@.len() - rounds, mid));
    assert(resolves(log@, *action, depth as int, log@.len() as int, mid));
    let ghost dok0 = depth_ok(log@, *action, depth as int);
    let ghost hm = gh@ + step * rounds * b1;
    let ghost h2 = gh@ + step * budget(n0, depth as int);
    proof {
        lemma_best_conflict_none(action.agent, x, x, mid, mid.len() as int);
        lemma_index_same_names(log@, mid, name, 0);
        assert(path_2d@[0].end == action.target);
        if fr {
            let r1 = rounds as int;
            lemma_counts_bounded(action.agent, x, log@, 0, n0);
            lemma_counts_bounded(action.agent, x, mid, 0, n0);
            assert(r1 <= n0);
            assert(log@[i as int] == log@[i as int]);
            assert(band_ok(log@, gb@, gs@));
            lemma_commit_fits(mid, *action, start, gb@, gs@, gd@, hm, depth as int);
            if depth == 0 {
                assert(step * r1 * b1 == 0) by (nonlinear_arith)
                    requires
                        r1 == 0,
                ;
                assert(budget(n0, 0) == 1);
            } else {
                assert(budget(n0, depth as int) == n0 * b1 + 1);
                assert(step * r1 * b1 <= step * n0 * b1) by (nonlinear_arith)
                    requires
                        step >= 0,
                        b1 >= 1,
                        r1 <= n0,
                ;
                assert(step * budget(n0, depth as int) == step * n0 * b1 + step) by (nonlinear_arith)
                    requires
                        budget(n0, depth as int) == n0 * b1 + 1,
                ;
            }
            assert(hm + step <= h2);
            let dd = depth as int;
            let ss = gs@;
            assert((n0 - dd) * ss <= n0 * ss) by (nonlinear_arith)
                requires
                    0 <= dd,
                    0 <= ss,
            ;
        }
    }
    let out = commit_action(action, &path_2d, result);
    match out {
        Ok(out) => {
            proof {
                let o = out@;
                let q = o[i as int].1@;
                let n = mid[i as int].1@.len();
                if q.len() == n + 2 {
                    assert(q[n as int].action.kind == ActionType::Idle);
                }
                lemma_committed(log@, mid, o, *action, i as int, x);
                assert(commits(mid, *action, start, o));
                assert(last_action(log@[index_of(log@, action.agent.name@)].1@).target == start);
                assert(follows(log@, mid));
                assert(executes(log@, *action, depth as int, o));
                if dok0 || best_conflict(action.agent, x, x, log@, log@.len() as int) is None {
                    assert(mid[i as int] == log@[i as int]);
                    assert(idle_end(mid, action.agent, committed_end(mid, *action), seg) >= committed_end(mid, *action));
                    assert(appended_after(log@[i as int].1@, q, *action));
                    assert forall|j: int| 0 <= j < o.len() implies (#[trigger] o[j]) == mid[j] || (
                    o[j].0.name@ == action.agent.name@ && mid[j].0.name@ == action.agent.name@) by {
                        if j != i {
                            assert(o[j] == mid[j]);
                        }
                    }
                    lemma_idle_end_others(o, mid, action.agent, committed_end(mid, *action), seg);
                    assert(starts_when_clear(log@, o, *action));
                    if dok0 && action.kind != ActionType::Idle && log_moves_direct(log@) {
                        assert(log@[i as int] == log@[i as int]);
                        lemma_moves_direct_appended(log@[i as int].1@, q, *action);
                        assert forall|j: int| 0 <= j < o.len() implies moves_direct(
                            (#[trigger] o[j]).1@,
                        ) by {
                            if j != i {
                                assert(o[j] == mid[j]);
                            }
                        }
                    }
                }
                if fr {
                    assert forall|k: int| n <= k < q.len() implies (#[trigger] q[k]).t_end <= h2 by {
                    }
                    lemma_commit_band(mid, o, *action, i as int, gb@, gs@, hm, h2);
                }
            }
            Ok(out)
        },
        Err(e) => Err(e),
    }
}

/// Execute an action, i.e., find a path for the agent to arrive at the
/// action's target and resolve any existing conflicts: each agent in the
/// way is moved aside by an evasive action, executed in turn, before the
/// action itself is committed. `depth` bounds the nesting of evasions.
///
/// The call succeeds whenever the last targets are separated, `depth`
/// leaves room for the nested evasions, and some bounds on coordinates,
/// safety distances, dwells and committed times keep the run within range
/// (see [`fits_run`]).
pub fn execute_action(action: &Action, log: Vec<(Agent, Vec<Path>)>, depth: usize) -> (r: Result<
    Vec<(Agent, Vec<Path>)>,
    RouteError,
>)
    requires
        action_ok(*action),
        log_ok(log@),
        acts_in(log@, *action),
    ensures
        r matches Ok(out) ==> executes(log@, *action, depth as int, out@),
        r matches Ok(out) ==> executed(log@, out@, *action),
        r matches Ok(out) ==> (depth_ok(log@, *action, depth as int) && action.kind
            != ActionType::Idle && log_moves_direct(log@) ==> log_moves_direct(out@)),
        r matches Ok(out) ==> ((depth_ok(log@, *action, depth as int) || best_conflict(
            action.agent,
            action.target.x as int,
            action.target.x as int,
            log@,
            log@.len() as int,
        ) is None) ==> appended_after(
            log@[index_of(log@, action.agent.name@)].1@,
            out@[index_of(log@, action.agent.name@)].1@,
            *action,
        ) && starts_when_clear(log@, out@, *action)),
        r matches Ok(out) ==> (best_conflict(
            action.agent,
            action.target.x as int,
            action.target.x as int,
            log@,
            log@.len() as int,
        ) is None ==> forall|j: int|
            0 <= j < log@.len() && j != index_of(log@, action.agent.name@) ==> out@[j]
                == #[trigger] log@[j]),
        depth_ok(log@, *action, depth as int) ==> r != Err::<Vec<(Agent, Vec<Path>)>, RouteError>(
            RouteError::InvariantViolation,
        ),
        r matches Ok(out) ==> (depth_ok(log@, *action, depth as int) && moving_left(log@, *action)
            ==> forall|j: int|
            0 <= j < log@.len() && j != index_of(log@, action.agent.name@) && (#[trigger] log@[j]).0.order
                >= action.agent.order ==> out@[j] == log@[j]),
        r matches Ok(out) ==> (depth_ok(log@, *action, depth as int) && moving_right(log@, *action)
            ==> forall|j: int|
            0 <= j < log@.len() && j != index_of(log@, action.agent.name@) && (#[trigger] log@[j]).0.order
                <= action.agent.order ==> out@[j] == log@[j]),
        (exists|t: (int, int, int, int)|
            fits_run(log@, *action, depth as int, t.0, t.1, t.2, t.3)) ==> r is Ok,
{
    let ghost fits = exists|t: (int, int, int, int)|
        fits_run(log@, *action, depth as int, t.0, t.1, t.2, t.3);
    let ghost t: (int, int, int, int) = if fits {
        choose|t: (int, int, int, int)| fits_run(log@, *action, depth as int, t.0, t.1, t.2, t.3)
    } else {
        (0, 0, 0, 0)
    };
    execute_within(action, log, depth, Ghost(t.0), Ghost(t.1), Ghost(t.2), Ghost(t.3))
}

/// The routes of all agents.
pub struct Routing {
    /// The list of paths for each agent.
    pub routes: Vec<(Agent, Vec<Path>)>,
}

/// No two agents share a name.
pub open spec fn names_unique(agents: Seq<Agent>) -> bool {
    forall|j: int, k: int|
        0 <= j < agents.len() && 0 <= k < agents.len() && j != k ==> (#[trigger] agents[j]).name@
            != (#[trigger] agents[k]).name@
}

/// The initial positions of every two agents keep clear of each other.
pub open spec fn agents_separated(agents: Seq<Agent>) -> bool {
    forall|j: int, k: int|
        0 <= j < agents.len() && 0 <= k < agents.len() && (#[trigger] agents[j]).name@ != (
        #[trigger] agents[k]).name@ ==> apart(
            agents[j],
            agents[j].position.x as int,
            agents[k],
            agents[k].position.x as int,
        )
}

/// Every action of the schedule is in range, scheduled, and done by one of
/// the agents.
pub open spec fn schedule_ok(agents: Seq<Agent>, actions: Seq<Action>) -> bool {
    forall|k: int|
        0 <= k < actions.len() ==> {
            &&& action_ok(#[trigger] actions[k])
            &&& actions[k].kind == ActionType::Scheduled
            &&& exists|j: int| 0 <= j < agents.len() && (#[trigger] agents[j]).name@ == actions[k].agent.name@
        }
}

/// The coordinates, safety distances and dwells of the input lie within
/// `b`, `s` and `d`, and these bounds leave room for every nested evasion
/// and for the end times of the whole schedule.
pub open spec fn route_bounds(agents: Seq<Agent>, actions: Seq<Action>, b: int, s: int, d: int) -> bool {
    let n = agents.len() as int;
    &&& 0 <= b && 0 <= s && 0 <= d
    &&& forall|j: int|
        0 <= j < n ==> {
            &&& abs_int((#[trigger] agents[j]).position.x as int) <= b
            &&& abs_int(agents[j].position.y as int) <= b
            &&& agents[j].safety_x <= s
        }
    &&& forall|k: int|
        0 <= k < actions.len() ==> {
            &&& abs_int((#[trigger] actions[k]).target.x as int) <= b
            &&& abs_int(actions[k].target.y as int) <= b
            &&& actions[k].duration <= d
        }
    &&& b + n * s <= COORD_MAX
    &&& actions.len() * (step_time(n, b, s, d) * budget(n, n)) <= TIME_MAX
}

/// Some bounds `(b, s, d)` fit the input.
pub open spec fn routes_fit(agents: Seq<Agent>, actions: Seq<Action>) -> bool {
    exists|t: (int, int, int)| route_bounds(agents, actions, t.0, t.1, t.2)
}

/// The actions of the schedule that the agent of the given name does, in
/// order.
pub open spec fn scheduled_for(actions: Seq<Action>, name: Seq<char>) -> Seq<Action> {
    actions.filter(|a: Action| a.agent.name@ == name)
}

/// The action as the given agent does it: the same target, dwell and type.
pub open spec fn done_by(a: Action, agent: Agent) -> Action {
    Action { agent, target: a.target, duration: a.duration, kind: a.kind }
}

/// The actions of the schedule that `agent` does, in order, as it does them.
pub open spec fn scheduled_as_done(actions: Seq<Action>, agent: Agent) -> Seq<Action> {
    scheduled_for(actions, agent.name@).map_values(|a: Action| done_by(a, agent))
}

proof fn lemma_scheduled_as_done_push(actions: Seq<Action>, a: Action, agent: Agent)
    ensures
        scheduled_as_done(actions.push(a), agent) == scheduled_as_done(actions, agent) + if a.agent.name@
            == agent.name@ {
            seq![done_by(a, agent)]
        } else {
            Seq::<Action>::empty()
        },
{
    lemma_scheduled_for_push(actions, a, agent.name@);
    let g = |b: Action| done_by(b, agent);
    let e = if a.agent.name@ == agent.name@ {
        seq![a]
    } else {
        Seq::<Action>::empty()
    };
    assert((scheduled_for(actions, agent.name@) + e).map_values(g) =~= scheduled_for(
        actions,
        agent.name@,
    ).map_values(g) + e.map_values(g));
    assert(scheduled_as_done(actions.push(a), agent) =~= scheduled_as_done(actions, agent) + if a.agent.name@
        == agent.name@ {
        seq![done_by(a, agent)]
    } else {
        Seq::<Action>::empty()
    });
}

/// The log that routing starts from: each agent of `agents`, in order,
/// with its initial idle alone.
pub open spec fn is_initial(agents: Seq<Agent>, log: Seq<(Agent, Vec<Path>)>) -> bool {
    &&& log.len() == agents.len()
    &&& forall|j: int|
        0 <= j < agents.len() ==> {
            &&& (#[trigger] log[j]).0 == agents[j]
            &&& log[j].1@.len() == 1
            &&& log[j].1@[0].moves@.len() == 0
            &&& log[j].1@[0].action == initial_idle(agents[j])
            &&& log[j].1@[0].t_start == 0
            &&& log[j].1@[0].t_end == 0
        }
}

/// `out` is what executing `actions` in order on `init` gives, each as done
/// by the agent of its name in the log, with nesting `depth`.
pub open spec fn runs(
    init: Seq<(Agent, Vec<Path>)>,
    actions: Seq<Action>,
    depth: int,
    out: Seq<(Agent, Vec<Path>)>,
) -> bool
    decreases actions.len(),
{
    if actions.len() == 0 {
        out == init
    } else {
        exists|mid: Seq<(Agent, Vec<Path>)>|
            #[trigger] follows(init, mid) && runs(init, actions.drop_last(), depth, mid) && executes(
                mid,
                done_by(actions.last(), mid[index_of(mid, actions.last().agent.name@)].0),
                depth,
                out,
            )
    }
}

/// The idle that every route starts with: the agent at its initial position
/// at time zero.
pub open spec fn initial_idle(a: Agent) -> Action {
    Action { agent: a, target: a.position, duration: 0, kind: ActionType::Idle }
}

proof fn lemma_scheduled_for_push(actions: Seq<Action>, a: Action, name: Seq<char>)
    ensures
        scheduled_for(actions.push(a), name) == scheduled_for(actions, name) + if a.agent.name@
            == name {
            seq![a]
        } else {
            Seq::<Action>::empty()
        },
{
    let f = |b: Action| b.agent.name@ == name;
    Seq::filter_distributes_over_add(actions, seq![a], f);
    assert(actions.push(a) == actions + seq![a]);
    reveal_with_fuel(Seq::filter, 2);
    assert(seq![a].drop_last() =~= Seq::<Action>::empty());
    if f(a) {
        assert(seq![a].filter(f) =~= seq![a]);
    } else {
        assert(seq![a].filter(f) =~= Seq::<Action>::empty());
    }
}

/// Whether the initial positions of every two agents keep clear of each
/// other.
pub fn positions_separated(agents: &Vec<Agent>) -> (r: bool)
    requires
        forall|j: int| 0 <= j < agents@.len() ==> agent_ok(#[trigger] agents@[j]),
    ensures
        r == agents_separated(agents@),
{
    let n = agents.len();
    let mut j: usize = 0;
    while j < n
        invariant
            n == agents@.len(),
            j <= n,
            forall|k: int| 0 <= k < agents@.len() ==> agent_ok(#[trigger] agents@[k]),
            forall|a: int, b: int|
                0 <= a < j && 0 <= b < n && (#[trigger] agents@[a]).name@ != (
                #[trigger] agents@[b]).name@ ==> apart(
                    agents@[a],
                    agents@[a].position.x as int,
                    agents@[b],
                    agents@[b].position.x as int,
                ),
        decreases n - j,
    {
        let mut k: usize = 0;
        while k < n
            invariant
                n == agents@.len(),
                j < n,
                k <= n,
                forall|m: int| 0 <= m < agents@.len() ==> agent_ok(#[trigger] agents@[m]),
                forall|a: int, b: int|
                    0 <= a < j && 0 <= b < n && (#[trigger] agents@[a]).name@ != (
                    #[trigger] agents@[b]).name@ ==> apart(
                        agents@[a],
                        agents@[a].position.x as int,
                        agents@[b],
                        agents@[b].position.x as int,
                    ),
                forall|b: int|
                    0 <= b < k && agents@[j as int].name@ != (#[trigger] agents@[b]).name@ ==> apart(
                        agents@[j as int],
                        agents@[j as int].position.x as int,
                        agents@[b],
                        agents@[b].position.x as int,
                    ),
            decreases n - k,
        {
            let a = &agents[j];
            let b = &agents[k];
            if a.name != b.name {
                let sd = a.safety_x(b);
                if b.order < a.order && b.position.x > a.position.x - sd {
                    return false;
                }
                if b.order > a.order && b.position.x < a.position.x + sd {
                    return false;
                }
            }
            k = k + 1;
        }
        j = j + 1;
    }
    true
}

/// Compute routes for each agent, given a schedule of actions: each route
/// starts with an idle at the agent's initial position at time zero, and
/// the actions are executed in the order of the schedule.
///
/// Each scheduled action is executed as done by the agent of the same name
/// in `agents` (see [`done_by`]): the agent record the action carries is
/// replaced by the listed one, which is the record its route keeps.
///
/// What the contract states of safety is separation at rest: every two
/// agents' last targets keep their order and safety distance, and each
/// move starts when the idle rule allows it against the other agents'
/// committed samples. Safety at every instant while agents move is not
/// stated: the idle rule reasons about the latest blocking sample of each
/// neighbour, and whether that always suffices between samples is not
/// proved here.
pub fn routes(agents: &Vec<Agent>, sched: Schedule) -> (r: Result<Routing, RouteError>)
    requires
        forall|j: int| 0 <= j < agents@.len() ==> agent_ok(#[trigger] agents@[j]),
        names_unique(agents@),
        schedule_ok(agents@, sched.actions@),
    ensures
        r == Err::<Routing, RouteError>(RouteError::InvariantViolation) <==> !agents_separated(
            agents@,
        ),
        agents_separated(agents@) && sched.actions@.len() == 0 ==> r is Ok,
        agents_separated(agents@) && routes_fit(agents@, sched.actions@) ==> r is Ok,
        r matches Ok(rt) ==> {
            &&& rt.routes@.len() == agents@.len()
            &&& log_ok(rt.routes@)
            &&& forall|j: int|
                0 <= j < agents@.len() ==> {
                    &&& (#[trigger] rt.routes@[j]).0 == agents@[j]
                    &&& rt.routes@[j].1@[0].moves@.len() == 0
                    &&& rt.routes@[j].1@[0].action == initial_idle(agents@[j])
                    &&& rt.routes@[j].1@[0].t_start == 0
                    &&& rt.routes@[j].1@[0].t_end == 0
                    &&& scheduled_of(rt.routes@[j].1@) == scheduled_as_done(
                        sched.actions@,
                        agents@[j],
                    )
                    &&& sched.actions@.len() == 0 ==> rt.routes@[j].1@.len() == 1
                }
            &&& separated(rt.routes@)
            &&& log_moves_direct(rt.routes@)
            &&& exists|init: Seq<(Agent, Vec<Path>)>|
                #[trigger] is_initial(agents@, init) && runs(
                    init,
                    sched.actions@,
                    agents@.len() as int,
                    rt.routes@,
                )
        },
{
    if !positions_separated(agents) {
        return Err(RouteError::InvariantViolation);
    }
    let mut init: Vec<(Agent, Vec<Path>)> = Vec::new();
    let mut j: usize = 0;
    while j < agents.len()
        invariant
            j <= agents@.len(),
            forall|k: int| 0 <= k < agents@.len() ==> agent_ok(#[trigger] agents@[k]),
            init@.len() == j,
            log_ok(init@),
            names_unique(agents@),
            forall|k: int|
                0 <= k < j ==> {
                    &&& (#[trigger] init@[k]).0 == agents@[k]
                    &&& init@[k].1@.len() == 1
                    &&& init@[k].1@[0].moves@.len() == 0
                    &&& init@[k].1@[0].action == initial_idle(agents@[k])
                    &&& init@[k].1@[0].t_start == 0
                    &&& init@[k].1@[0].t_end == 0
                },
        decreases agents@.len() - j,
    {
        let a = &agents[j];
        let idle = Path {
            moves: Vec::new(),
            action: Action {
                agent: a.duplicate(),
                target: a.position,
                duration: 0,
                kind: ActionType::Idle,
            },
            t_start: 0,
            t_end: 0,
        };
        assert(moves_time(idle.moves@, 0) == 0);
        assert(path_ok(idle));
        init.push((a.duplicate(), vec![idle]));
        proof {
            assert forall|p: int, q: int|
                0 <= p < init@.len() && 0 <= q < init@.len() && p != q implies (#[trigger] init@[p]).0.name@
                != (#[trigger] init@[q]).0.name@ by {
                assert(init@[p].0 == agents@[p]);
                assert(init@[q].0 == agents@[q]);
            }
        }
        j = j + 1;
    }
    let ghost first = init@;
    let mut log = init;
    let ghost fit = routes_fit(agents@, sched.actions@);
    let ghost bounds: (int, int, int) = if fit {
        choose|t: (int, int, int)| route_bounds(agents@, sched.actions@, t.0, t.1, t.2)
    } else {
        (0, 0, 0)
    };
    let ghost na = agents@.len() as int;
    let ghost unit = step_time(na, bounds.0, bounds.1, bounds.2) * budget(na, na);
    proof {
        if fit {
            assert(route_bounds(agents@, sched.actions@, bounds.0, bounds.1, bounds.2));
            let bb = bounds.0;
            let sb = bounds.1;
            assert(0 <= na * sb) by (nonlinear_arith)
                requires
                    0 <= na,
                    0 <= sb,
            ;
            assert(band_ok(log@, bb, sb));
            assert(ends_by(log@, 0));
            lemma_budget_pos(na, na);
            assert(0 <= unit) by (nonlinear_arith)
                requires
                    unit == step_time(na, bounds.0, bounds.1, bounds.2) * budget(na, na),
                    0 <= step_time(na, bounds.0, bounds.1, bounds.2),
                    budget(na, na) >= 1,
            ;
        }
    }
    proof {
        assert forall|k: int| 0 <= k < first.len() implies {
            &&& (#[trigger] log@[k]).0 == first[k].0
            &&& first[k].1@.len() <= log@[k].1@.len()
            &&& log@[k].1@.subrange(0, first[k].1@.len() as int) == first[k].1@
        } by {
            assert(log@[k].1@.subrange(0, first[k].1@.len() as int) =~= first[k].1@);
        }
        assert forall|k: int| 0 <= k < first.len() implies scheduled_of((#[trigger] log@[k]).1@)
            == scheduled_as_done(sched.actions@.take(0), agents@[k]) by {
            let ps = log@[k].1@;
            assert(ps =~= Seq::<Path>::empty().push(ps[0]));
            lemma_scheduled_push(Seq::<Path>::empty(), ps[0]);
            assert(scheduled_of(Seq::<Path>::empty()) =~= Seq::<Action>::empty());
            assert(scheduled_for(sched.actions@.take(0), agents@[k].name@) =~= Seq::<Action>::empty());
            assert(scheduled_as_done(sched.actions@.take(0), agents@[k]) =~= Seq::<Action>::empty());
        }
        if agents_separated(agents@) {
            assert forall|a: int, b: int|
                0 <= a < log@.len() && 0 <= b < log@.len() && (#[trigger] log@[a]).0.name@ != (
                #[trigger] log@[b]).0.name@ implies clear_of(
                last_action(log@[a].1@),
                last_action(log@[b].1@),
            ) by {
                assert(agents@[a].name@ != agents@[b].name@);
            }
        }
    }
    proof {
        assert forall|m: int| 0 <= m < log@.len() implies moves_direct((#[trigger] log@[m]).1@) by {
            assert(first[m] == first[m]);
        }
    }
    assert(sched.actions@.take(0).len() == 0);
    let mut k: usize = 0;
    while k < sched.actions.len()
        invariant
            k <= sched.actions@.len(),
            schedule_ok(agents@, sched.actions@),
            names_unique(agents@),
            first.len() == agents@.len(),
            forall|m: int|
                0 <= m < first.len() ==> {
                    &&& (#[trigger] first[m]).0 == agents@[m]
                    &&& first[m].1@.len() == 1
                    &&& first[m].1@[0].moves@.len() == 0
                    &&& first[m].1@[0].action == initial_idle(agents@[m])
                    &&& first[m].1@[0].t_start == 0
                    &&& first[m].1@[0].t_end == 0
                },
            log_ok(log@),
            grows(first, log@),
            k == 0 ==> log@ == first,
            forall|m: int|
                0 <= m < log@.len() ==> scheduled_of((#[trigger] log@[m]).1@) == scheduled_as_done(
                    sched.actions@.take(k as int),
                    agents@[m],
                ),
            agents_separated(agents@),
            separated(log@),
            na == agents@.len(),
            fit == routes_fit(agents@, sched.actions@),
            unit == step_time(na, bounds.0, bounds.1, bounds.2) * budget(na, na),
            fit ==> route_bounds(agents@, sched.actions@, bounds.0, bounds.1, bounds.2),
            fit ==> 0 <= unit,
            fit ==> band_ok(log@, bounds.0, bounds.1),
            fit ==> ends_by(log@, k * unit),
            log_moves_direct(log@),
            runs(first, sched.actions@.take(k as int), agents@.len() as int, log@),
        decreases sched.actions@.len() - k,
    {
        let a = &sched.actions[k];
        let ghost before = log@;
        proof {
            assert(action_ok(sched.actions@[k as int]));
            let w = choose|w: int| 0 <= w < agents@.len() && (#[trigger] agents@[w]).name@ == a.agent.name@;
            assert(before[w].0 == first[w].0);
            lemma_unique_index(before, w);
        }
        let j = agent_index(&a.agent, &log);
        let act = Action {
            agent: log[j].0.duplicate(),
            target: a.target,
            duration: a.duration,
            kind: a.kind,
        };
        proof {
            assert(before[j as int] == before[j as int]);
            assert(before[j as int].0 == agents@[j as int]);
            lemma_unique_index(before, j as int);
            assert(act == done_by(*a, agents@[j as int]));
            assert(action_ok(act));
            lemma_counts_bounded(act.agent, 0, before, act.agent.order as int, before.len() as int);
            assert(depth_ok(before, act, agents@.len() as int));
            if fit {
                let kk = k as int;
                let len = sched.actions@.len() as int;
                assert(action_ok(sched.actions@[kk]));
                assert(kk * unit + unit == (kk + 1) * unit) by (nonlinear_arith);
                assert((kk + 1) * unit <= len * unit) by (nonlinear_arith)
                    requires
                        kk + 1 <= len,
                        0 <= unit,
                ;
                assert(0 <= kk * unit) by (nonlinear_arith)
                    requires
                        0 <= kk,
                        0 <= unit,
                ;
                assert((na - na) * bounds.1 == 0) by (nonlinear_arith);
                assert(fits_run(before, act, na, bounds.0, bounds.1, bounds.2, kk * unit));
            }
            assert(fit ==> fits_run(before, act, na, bounds.0, bounds.1, bounds.2, k * unit));
        }
        match execute_within(
            &act,
            log,
            agents.len(),
            Ghost(bounds.0),
            Ghost(bounds.1),
            Ghost(bounds.2),
            Ghost(k * unit),
        ) {
            Ok(next) => {
                log = next;
            },
            Err(e) => {
                return Err(e);
            },
        }
        proof {
            let name = a.agent.name@;
            let i = index_of(before, name);
            lemma_index_of(before, name);
            assert(i == j);
            lemma_grows_trans(first, before, log@);
            if fit {
                let kk = k as int;
                assert(kk * unit + unit == (kk + 1) * unit) by (nonlinear_arith);
            }
            assert(sched.actions@.take(k + 1) =~= sched.actions@.take(k as int).push(*a));
            let tk = sched.actions@.take(k + 1);
            assert(tk.drop_last() =~= sched.actions@.take(k as int));
            assert(tk.last() == *a);
            assert(act == done_by(tk.last(), before[index_of(before, tk.last().agent.name@)].0));
            assert(follows(first, before));
            assert(runs(first, sched.actions@.take(k + 1), agents@.len() as int, log@));
            assert forall|m: int| 0 <= m < log@.len() implies scheduled_of((#[trigger] log@[m]).1@)
                == scheduled_as_done(sched.actions@.take(k + 1), agents@[m]) by {
                lemma_scheduled_as_done_push(sched.actions@.take(k as int), *a, agents@[m]);
                assert(before[m].0 == agents@[m]);
                assert(before[i].0 == agents@[i]);
                if agents@[m].name@ == name {
                    assert(m == i);
                } else {
                    assert(m != i);
                    assert(scheduled_of(before[m].1@) + Seq::<Action>::empty() =~= scheduled_of(
                        before[m].1@,
                    ));
                    assert(scheduled_as_done(sched.actions@.take(k as int), agents@[m])
                        + Seq::<Action>::empty() =~= scheduled_as_done(
                        sched.actions@.take(k as int),
                        agents@[m],
                    ));
                }
            }
        }
        k = k + 1;
    }
    proof {
        assert(sched.actions@.take(k as int) =~= sched.actions@);
        assert(is_initial(agents@, first));
        assert forall|m: int| 0 <= m < agents@.len() implies {
            &&& (#[trigger] log@[m]).0 == agents@[m]
            &&& log@[m].1@[0] == first[m].1@[0]
        } by {
            assert(log@[m].1@.subrange(0, 1)[0] == log@[m].1@[0]);
        }
    }
    Ok(Routing { routes: log })
}

/// At rest, agents keep their order along x and their safety distance: of
/// two agents in a well-formed log with separated last targets, the one of
/// lower order stands at least their safety distance to the left of the
/// other.
pub proof fn lemma_rest_keeps_order_and_distance(log: Seq<(Agent, Vec<Path>)>, j: int, k: int)
    requires
        log_ok(log),
        separated(log),
        0 <= j < log.len(),
        0 <= k < log.len(),
        log[j].0.order < log[k].0.order,
    ensures
        last_action(log[k].1@).target.x - last_action(log[j].1@).target.x >= pair_safety(
            log[j].0,
            log[k].0,
        ),
{
    assert(log[j] == log[j]);
    assert(log[k] == log[k]);
    assert(log[j].0.name@ != log[k].0.name@);
    assert(clear_of(last_action(log[j].1@), last_action(log[k].1@)));
}

} // verus!
