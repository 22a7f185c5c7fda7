//! The wait an agent takes before a move, so that the move keeps clear of
//! what the other agents have committed to.
use vstd::prelude::*;
use crate::actions::data::{
    Action, ActionType, Agent, Path, PointST, Segment, abs_int, action_ok, agent_ok, coord_ok, max_int,
    pair_safety, path_ok, points_of, lemma_points_in_range, COORD_MAX, TIME_MAX,
};
use crate::actions::log::{agent_index, has_agent, index_of, log_ok};

verus! {

/// The ceiling of `a / b`, for a positive `b`.
pub open spec fn ceil_div(a: int, b: int) -> int {
    if a >= 0 {
        a / b + if a % b == 0 { 0int } else { 1int }
    } else {
        -((-a) / b)
    }
}

/// A sample of a neighbour's timeline lies in the band around `xf` that the
/// acting agent must keep clear: on the left of it when the neighbour is
/// ordered before the acting agent, else on its right.
pub open spec fn blocks(p: PointST, xf: int, sd: int, left: bool) -> bool {
    if left {
        xf - p.x < sd
    } else {
        p.x - xf < sd
    }
}

/// The first sample of the last pair of consecutive samples whose first
/// sample blocks.
pub open spec fn last_blocking(pts: Seq<PointST>, xf: int, sd: int, left: bool) -> Option<PointST>
    decreases pts.len(),
{
    if pts.len() < 2 {
        None
    } else if blocks(pts[pts.len() - 2], xf, sd, left) {
        Some(pts[pts.len() - 2])
    } else {
        last_blocking(pts.drop_last(), xf, sd, left)
    }
}

/// The first index at or after `k` of a path that ends at or after `t0`, or
/// the number of paths.
pub open spec fn first_reaching(paths: Seq<Path>, t0: int, k: int) -> int
    decreases paths.len() - k,
{
    if k >= paths.len() {
        paths.len() as int
    } else if paths[k].t_end >= t0 {
        k
    } else {
        first_reaching(paths, t0, k + 1)
    }
}

/// The samples of the paths from `k` to `n`, in order.
pub open spec fn samples(paths: Seq<Path>, k: int, n: int) -> Seq<PointST> {
    paths.subrange(k, n).map_values(|p: Path| points_of(p)).flatten()
}

/// The timeline of an agent from the first path that ends at or after `t0`.
pub open spec fn timeline_after(paths: Seq<Path>, t0: int) -> Seq<PointST> {
    samples(paths, first_reaching(paths, t0, 0), paths.len() as int)
}

/// The earliest start, in whole ticks, of a move from `xi` to `xf` taking
/// `tau` that keeps clear of a neighbour last blocking at `blocker`: the neighbour
/// must be clear of the start x (at the acting agent's speed `va`) and out of
/// the band around the end x when the move arrives (at its own speed `vb`).
pub open spec fn wait_until(
    blocker: PointST,
    xi: int,
    xf: int,
    sd: int,
    va: int,
    vb: int,
    tau: int,
) -> int {
    max_int(
        blocker.t + ceil_div(sd - abs_int(blocker.x - xi), va),
        blocker.t - tau + ceil_div(sd - abs_int(blocker.x - xf), vb),
    )
}

/// The latest earliest start that the first `n` entries of the log ask of
/// `agent`, if any of them blocks.
pub open spec fn idle_bound(
    log: Seq<(Agent, Vec<Path>)>,
    n: int,
    agent: Agent,
    t0: int,
    xi: int,
    xf: int,
    tau: int,
) -> Option<int>
    decreases n,
{
    if n <= 0 {
        None
    } else {
        let prev = idle_bound(log, n - 1, agent, t0, xi, xf, tau);
        let b = log[n - 1].0;
        if b.name@ == agent.name@ {
            prev
        } else {
            match neighbour_wait(b, log[n - 1].1@, agent, t0, xi, xf, tau) {
                None => prev,
                Some(w) => match prev {
                    None => Some(w),
                    Some(m) => Some(max_int(m, w)),
                },
            }
        }
    }
}

/// The earliest start that neighbour `b`, with committed paths `paths`, asks
/// of `agent`, if its timeline from `t0` on blocks at all.
pub open spec fn neighbour_wait(
    b: Agent,
    paths: Seq<Path>,
    agent: Agent,
    t0: int,
    xi: int,
    xf: int,
    tau: int,
) -> Option<int> {
    let sd = pair_safety(b, agent);
    match last_blocking(timeline_after(paths, t0), xf, sd, b.order < agent.order) {
        None => None,
        Some(blocker) => Some(
            wait_until(blocker, xi, xf, sd, agent.velocity.x as int, b.velocity.x as int, tau),
        ),
    }
}

/// When the move `seg` of `agent` may start: not before `t0`, and not before
/// any neighbour asks.
pub open spec fn idle_end(log: Seq<(Agent, Vec<Path>)>, agent: Agent, t0: int, seg: Segment) -> int {
    match idle_bound(log, log.len() as int, agent, t0, seg.start.x as int, seg.end.x as int, seg.duration as int) {
        None => t0,
        Some(m) => max_int(m, t0),
    }
}

/// A move that no neighbour holds up starts without waiting: when no
/// neighbour's timeline from `t0` on blocks it, or none asks for a start
/// after `t0`, the idle ends at `t0`.
pub proof fn lemma_no_wait_when_unblocked(log: Seq<(Agent, Vec<Path>)>, agent: Agent, t0: int, seg: Segment)
    requires
        idle_bound(log, log.len() as int, agent, t0, seg.start.x as int, seg.end.x as int, seg.duration as int)
            matches Some(m) ==> m <= t0,
    ensures
        idle_end(log, agent, t0, seg) == t0,
{
}

/// The end of the last path committed for the agent of `action`.
pub open spec fn committed_end(log: Seq<(Agent, Vec<Path>)>, action: Action) -> int {
    log[index_of(log, action.agent.name@)].1@.last().t_end as int
}

/// The wait that precedes `action`, given the log and the move `seg`: at
/// the agent's last target, from the end of its committed paths until the
/// move may start.
pub open spec fn idle_action(log: Seq<(Agent, Vec<Path>)>, action: Action, seg: Segment) -> Action {
    let t0 = committed_end(log, action);
    Action {
        agent: action.agent,
        target: log[index_of(log, action.agent.name@)].1@.last().action.target,
        duration: (idle_end(log, action.agent, t0, seg) - t0) as i64,
        kind: ActionType::Idle,
    }
}

pub open spec fn point_in_range(p: PointST) -> bool {
    &&& 0 <= p.t <= TIME_MAX
    &&& -COORD_MAX <= p.x <= COORD_MAX
}

pub(crate) fn ceil_div_exec(a: i64, b: i64) -> (r: i64)
    requires
        b >= 1,
        -4 * COORD_MAX <= a <= 4 * COORD_MAX,
    ensures
        r == ceil_div(a as int, b as int),
        -4 * COORD_MAX <= r <= 4 * COORD_MAX + 1,
{
    if a >= 0 {
        assert(a / b <= a) by (nonlinear_arith)
            requires
                a >= 0,
                b >= 1,
        ;
        if a % b == 0 {
            a / b
        } else {
            a / b + 1
        }
    } else {
        let n = -a;
        assert(0 <= n / b <= n) by (nonlinear_arith)
            requires
                n >= 0,
                b >= 1,
        ;
        -(n / b)
    }
}

pub(crate) fn abs_exec(a: i64) -> (r: i64)
    requires
        a > i64::MIN,
    ensures
        r == abs_int(a as int),
{
    if a >= 0 {
        a
    } else {
        -a
    }
}

/// The last blocking sample of the timeline of `paths` from `t0` on.
#[verifier::loop_isolation(false)]
fn last_blocking_after(paths: &Vec<Path>, t0: i64, xf: i64, sd: i64, left: bool) -> (r: Option<
    PointST,
>)
    requires
        forall|k: int| 0 <= k < paths@.len() ==> path_ok(#[trigger] paths@[k]),
        -COORD_MAX <= xf <= COORD_MAX,
        0 <= sd <= COORD_MAX,
    ensures
        r == last_blocking(timeline_after(paths@, t0 as int), xf as int, sd as int, left),
        r matches Some(p) ==> point_in_range(p),
{
    let ghost ps = paths@;
    let mut k: usize = 0;
    while k < paths.len() && paths[k].t_end < t0
        invariant
            k <= ps.len(),
            ps == paths@,
            first_reaching(ps, t0 as int, 0) == first_reaching(ps, t0 as int, k as int),
        decreases ps.len() - k,
    {
        k = k + 1;
    }
    let ghost k0 = k as int;
    assert(first_reaching(ps, t0 as int, 0) == k0);
    let mut prev: Option<PointST> = None;
    let mut best: Option<PointST> = None;
    assert(samples(ps, k0, k0) =~= Seq::<PointST>::empty());
    while k < paths.len()
        invariant
            k0 <= k <= ps.len(),
            ps == paths@,
            forall|i: int| 0 <= i < ps.len() ==> path_ok(#[trigger] ps[i]),
            -COORD_MAX <= xf <= COORD_MAX,
            0 <= sd <= COORD_MAX,
            first_reaching(ps, t0 as int, 0) == k0,
            prev == (if samples(ps, k0, k as int).len() > 0 {
                Some(samples(ps, k0, k as int).last())
            } else {
                None::<PointST>
            }),
            best == last_blocking(samples(ps, k0, k as int), xf as int, sd as int, left),
            prev matches Some(p) ==> point_in_range(p),
            best matches Some(p) ==> point_in_range(p),
        decreases ps.len() - k,
    {
        let p = &paths[k];
        proof {
            lemma_points_in_range(*p);
        }
        let pts = p.to_points_st();
        let ghost before = samples(ps, k0, k as int);
        let mut m: usize = 0;
        while m < pts.len()
            invariant
                m <= pts@.len(),
                pts@ == points_of(*p),
                forall|i: int|
                    0 <= i < pts@.len() ==> p.t_start <= (#[trigger] pts@[i]).t <= p.t_end
                        && -COORD_MAX <= pts@[i].x <= COORD_MAX,
                path_ok(*p),
                -COORD_MAX <= xf <= COORD_MAX,
                0 <= sd <= COORD_MAX,
                prev == (if (before + pts@.take(m as int)).len() > 0 {
                    Some((before + pts@.take(m as int)).last())
                } else {
                    None::<PointST>
                }),
                best == last_blocking(before + pts@.take(m as int), xf as int, sd as int, left),
                prev matches Some(p) ==> point_in_range(p),
                best matches Some(p) ==> point_in_range(p),
            decreases pts@.len() - m,
        {
            let q = pts[m];
            let ghost seen = before + pts@.take(m as int);
            let ghost seen2 = before + pts@.take(m + 1);
            assert(seen2 =~= seen.push(q));
            assert(seen2.drop_last() =~= seen);
            if let Some(blocker) = prev {
                let b = if left {
                    xf - blocker.x < sd
                } else {
                    blocker.x - xf < sd
                };
                if b {
                    best = Some(blocker);
                }
            }
            prev = Some(q);
            m = m + 1;
        }
        proof {
            assert(pts@.take(pts@.len() as int) =~= pts@);
            let a = ps.subrange(k0, k as int).map_values(|p: Path| points_of(p));
            assert(ps.subrange(k0, k + 1).map_values(|p: Path| points_of(p)) =~= a.push(points_of(ps[k as int])));
            a.lemma_flatten_push(points_of(ps[k as int]));
        }
        k = k + 1;
    }
    assert(ps.subrange(k0, ps.len() as int) =~= ps.subrange(k0, k as int));
    best
}

/// The earliest start that neighbour `b` asks of `agent`, if any.
fn neighbour_wait_exec(
    b: &Agent,
    paths: &Vec<Path>,
    agent: &Agent,
    t0: i64,
    xi: i64,
    xf: i64,
    tau: i64,
) -> (r: Option<i64>)
    requires
        agent_ok(*b),
        agent_ok(*agent),
        forall|k: int| 0 <= k < paths@.len() ==> path_ok(#[trigger] paths@[k]),
        -COORD_MAX <= xi <= COORD_MAX,
        -COORD_MAX <= xf <= COORD_MAX,
        0 <= tau <= 2 * COORD_MAX + 1,
    ensures
        r == (match neighbour_wait(*b, paths@, *agent, t0 as int, xi as int, xf as int, tau as int) {
            None => None::<i64>,
            Some(w) => Some(w as i64),
        }),
        neighbour_wait(*b, paths@, *agent, t0 as int, xi as int, xf as int, tau as int) matches Some(w)
            ==> -8 * COORD_MAX <= w <= TIME_MAX + 8 * COORD_MAX,
{
    let sd = b.safety_x(agent);
    let left = b.order < agent.order;
    match last_blocking_after(paths, t0, xf, sd, left) {
        None => None,
        Some(blocker) => {
            let d1 = abs_exec(blocker.x - xi);
            let d2 = abs_exec(blocker.x - xf);
            let t1 = blocker.t + ceil_div_exec(sd - d1, agent.velocity.x);
            let t2 = blocker.t - tau + ceil_div_exec(sd - d2, b.velocity.x);
            if t1 >= t2 {
                Some(t1)
            } else {
                Some(t2)
            }
        },
    }
}

/// Return the idle path that lets the agent of `action` start the move
/// `path_2d[0]` without coming within the safety distance of any other
/// agent's committed timeline; the wait is rounded up to whole ticks.
pub fn idle_path(action: &Action, path_2d: &Vec<Segment>, log: &Vec<(Agent, Vec<Path>)>) -> (r:
    Path)
    requires
        action_ok(*action),
        path_2d@.len() > 0,
        coord_ok(path_2d@[0].start),
        coord_ok(path_2d@[0].end),
        0 <= path_2d@[0].duration <= 2 * COORD_MAX + 1,
        log_ok(log@),
        has_agent(log@, action.agent.name@),
    ensures
        r.moves@.len() == 0,
        r.action == idle_action(log@, *action, path_2d@[0]),
        r.t_start == committed_end(log@, *action),
        0 <= r.t_start <= r.t_end <= TIME_MAX + 8 * COORD_MAX,
        r.t_end == idle_end(log@, action.agent, r.t_start as int, path_2d@[0]),
{
    let i = agent_index(&action.agent, log);
    let paths = &log[i].1;
    assert(log@[i as int].1@.len() > 0);
    let last_path = &paths[paths.len() - 1];
    assert(path_ok(log@[i as int].1@[paths@.len() - 1]));
    let t0 = last_path.t_end;
    let seg = path_2d[0];
    let tau = seg.duration;
    let xi = seg.start.x;
    let xf = seg.end.x;
    let va = action.agent.velocity.x;
    let mut bound: Option<i64> = None;
    let mut j: usize = 0;
    while j < log.len()
        invariant
            j <= log@.len(),
            log_ok(log@),
            action_ok(*action),
            -COORD_MAX <= xi <= COORD_MAX,
            -COORD_MAX <= xf <= COORD_MAX,
            0 <= tau <= 2 * COORD_MAX + 1,
            va == action.agent.velocity.x,
            bound == (match idle_bound(log@, j as int, action.agent, t0 as int, xi as int, xf as int, tau as int) {
                None => None::<i64>,
                Some(m) => Some(m as i64),
            }),
            idle_bound(log@, j as int, action.agent, t0 as int, xi as int, xf as int, tau as int) matches Some(m) ==> -8 * COORD_MAX <= m <= TIME_MAX + 8 * COORD_MAX,
        decreases log@.len() - j,
    {
        let entry = &log[j];
        assert(log@[j as int] == *entry);
        if entry.0.name != action.agent.name {
            assert(agent_ok(entry.0));
            let found = neighbour_wait_exec(&entry.0, &entry.1, &action.agent, t0, xi, xf, tau);
            if let Some(w) = found {
                bound = match bound {
                    None => Some(w),
                    Some(m) => if m >= w {
                        Some(m)
                    } else {
                        Some(w)
                    },
                };
            }
        }
        j = j + 1;
    }
    let end = match bound {
        None => t0,
        Some(m) => if m >= t0 {
            m
        } else {
            t0
        },
    };
    Path {
        moves: Vec::new(),
        action: Action {
            agent: action.agent.duplicate(),
            target: last_path.action.target,
            duration: end - t0,
            kind: ActionType::Idle,
        },
        t_start: t0,
        t_end: end,
    }
}

/// A ceiling of a division by a positive number is no larger than the
/// dividend, and no larger than zero for a negative dividend.
pub proof fn lemma_ceil_div_le(a: int, v: int)
    requires
        v >= 1,
    ensures
        ceil_div(a, v) <= max_int(a, 0),
        a >= 0 ==> ceil_div(a, v) >= 0,
{
    if a >= 0 {
        vstd::arithmetic::div_mod::lemma_fundamental_div_mod(a, v);
        let q = a / v;
        let r = a % v;
        assert(0 <= r < v);
        assert(q >= 0) by {
            vstd::arithmetic::div_mod::lemma_div_pos_is_pos(a, v);
        }
        if r != 0 {
            assert(q + 1 <= a) by (nonlinear_arith)
                requires
                    a == v * q + r,
                    1 <= r < v,
                    q >= 0,
                    v >= 1,
            ;
        } else {
            assert(q <= a) by (nonlinear_arith)
                requires
                    a == v * q + r,
                    r == 0,
                    q >= 0,
                    v >= 1,
            ;
        }
    } else {
        vstd::arithmetic::div_mod::lemma_div_pos_is_pos(-a, v);
    }
}

pub proof fn lemma_first_reaching_range(paths: Seq<Path>, t0: int, k: int)
    requires
        0 <= k <= paths.len(),
    ensures
        k <= first_reaching(paths, t0, k) <= paths.len(),
    decreases paths.len() - k,
{
    if k < paths.len() {
        lemma_first_reaching_range(paths, t0, k + 1);
    }
}

/// Every sample of the paths from `k` to `n` is taken by `h` when each of
/// those paths ends by `h`.
pub proof fn lemma_samples_by(paths: Seq<Path>, k: int, n: int, h: int)
    requires
        0 <= k <= n <= paths.len(),
        forall|i: int| 0 <= i < paths.len() ==> path_ok(#[trigger] paths[i]) && paths[i].t_end <= h,
    ensures
        forall|i: int| 0 <= i < samples(paths, k, n).len() ==> (#[trigger] samples(paths, k, n)[i]).t <= h,
    decreases n - k,
{
    if n > k {
        lemma_samples_by(paths, k, n - 1, h);
        let a = paths.subrange(k, n - 1).map_values(|p: Path| points_of(p));
        assert(paths.subrange(k, n).map_values(|p: Path| points_of(p)) =~= a.push(points_of(paths[n - 1])));
        a.lemma_flatten_push(points_of(paths[n - 1]));
        assert(path_ok(paths[n - 1]));
        lemma_points_in_range(paths[n - 1]);
        let s0 = samples(paths, k, n - 1);
        let s1 = samples(paths, k, n);
        assert(s1 == s0 + points_of(paths[n - 1]));
        assert forall|i: int| 0 <= i < s1.len() implies (#[trigger] s1[i]).t <= h by {
            if i < s0.len() {
                assert(s1[i] == s0[i]);
            } else {
                assert(s1[i] == points_of(paths[n - 1])[i - s0.len()]);
            }
        }
    } else {
        assert(paths.subrange(k, n).map_values(|p: Path| points_of(p)) =~= Seq::<Seq<PointST>>::empty());
    }
}

pub proof fn lemma_last_blocking_by(pts: Seq<PointST>, xf: int, sd: int, left: bool, h: int)
    requires
        forall|i: int| 0 <= i < pts.len() ==> (#[trigger] pts[i]).t <= h,
    ensures
        last_blocking(pts, xf, sd, left) matches Some(p) ==> p.t <= h,
    decreases pts.len(),
{
    if pts.len() >= 2 && !blocks(pts[pts.len() - 2], xf, sd, left) {
        let d = pts.drop_last();
        assert forall|i: int| 0 <= i < d.len() implies (#[trigger] d[i]).t <= h by {
            assert(d[i] == pts[i]);
        }
        lemma_last_blocking_by(d, xf, sd, left, h);
    }
}

/// The wait ends by the time the last committed path ends plus the largest
/// safety distance, or at `t0` if that is later.
pub proof fn lemma_idle_end_bound(
    log: Seq<(Agent, Vec<Path>)>,
    agent: Agent,
    t0: int,
    seg: Segment,
    h: int,
    s: int,
)
    requires
        agent_ok(agent),
        agent.safety_x <= s,
        0 <= seg.duration,
        forall|j: int|
            0 <= j < log.len() ==> {
                &&& agent_ok((#[trigger] log[j]).0)
                &&& log[j].0.safety_x <= s
                &&& forall|k: int|
                    0 <= k < log[j].1@.len() ==> path_ok(#[trigger] log[j].1@[k]) && log[j].1@[k].t_end
                        <= h
            },
    ensures
        idle_end(log, agent, t0, seg) <= max_int(t0, h + s),
{
    lemma_idle_bound_by(log, log.len() as int, agent, t0, seg, h, s);
}

proof fn lemma_idle_bound_by(
    log: Seq<(Agent, Vec<Path>)>,
    n: int,
    agent: Agent,
    t0: int,
    seg: Segment,
    h: int,
    s: int,
)
    requires
        0 <= n <= log.len(),
        agent_ok(agent),
        agent.safety_x <= s,
        0 <= seg.duration,
        forall|j: int|
            0 <= j < log.len() ==> {
                &&& agent_ok((#[trigger] log[j]).0)
                &&& log[j].0.safety_x <= s
                &&& forall|k: int|
                    0 <= k < log[j].1@.len() ==> path_ok(#[trigger] log[j].1@[k]) && log[j].1@[k].t_end
                        <= h
            },
    ensures
        idle_bound(log, n, agent, t0, seg.start.x as int, seg.end.x as int, seg.duration as int) matches Some(m)
            ==> m <= h + s,
    decreases n,
{
    if n > 0 {
        lemma_idle_bound_by(log, n - 1, agent, t0, seg, h, s);
        let b = log[n - 1].0;
        assert(log[n - 1] == log[n - 1]);
        let ps = log[n - 1].1@;
        let sd = pair_safety(b, agent);
        let k0 = first_reaching(ps, t0, 0);
        lemma_first_reaching_range(ps, t0, 0);
        lemma_samples_by(ps, k0, ps.len() as int, h);
        let left = b.order < agent.order;
        let xi = seg.start.x as int;
        let xf = seg.end.x as int;
        lemma_last_blocking_by(timeline_after(ps, t0), xf, sd, left, h);
        match last_blocking(timeline_after(ps, t0), xf, sd, left) {
            Some(p) => {
                lemma_ceil_div_le(sd - abs_int(p.x - xi), agent.velocity.x as int);
                lemma_ceil_div_le(sd - abs_int(p.x - xf), b.velocity.x as int);
            },
            None => {},
        }
    }
}

/// The wait depends on the other agents' entries only.
pub proof fn lemma_idle_end_others(
    a: Seq<(Agent, Vec<Path>)>,
    b: Seq<(Agent, Vec<Path>)>,
    agent: Agent,
    t0: int,
    seg: Segment,
)
    requires
        a.len() == b.len(),
        forall|j: int|
            0 <= j < a.len() ==> (#[trigger] a[j]) == b[j] || (a[j].0.name@ == agent.name@
                && b[j].0.name@ == agent.name@),
    ensures
        idle_end(a, agent, t0, seg) == idle_end(b, agent, t0, seg),
{
    lemma_idle_bound_others(a, b, a.len() as int, agent, t0, seg);
}

proof fn lemma_idle_bound_others(
    a: Seq<(Agent, Vec<Path>)>,
    b: Seq<(Agent, Vec<Path>)>,
    n: int,
    agent: Agent,
    t0: int,
    seg: Segment,
)
    requires
        0 <= n <= a.len(),
        a.len() == b.len(),
        forall|j: int|
            0 <= j < a.len() ==> (#[trigger] a[j]) == b[j] || (a[j].0.name@ == agent.name@
                && b[j].0.name@ == agent.name@),
    ensures
        idle_bound(a, n, agent, t0, seg.start.x as int, seg.end.x as int, seg.duration as int)
            == idle_bound(b, n, agent, t0, seg.start.x as int, seg.end.x as int, seg.duration as int),
    decreases n,
{
    if n > 0 {
        assert(a[n - 1] == b[n - 1] || (a[n - 1].0.name@ == agent.name@ && b[n - 1].0.name@
            == agent.name@));
        lemma_idle_bound_others(a, b, n - 1, agent, t0, seg);
    }
}

} // verus!
