//! Detection of agents that stand in the way of a path, and the evasive
//! actions that move them aside.
use vstd::prelude::*;
use crate::actions::data::{
    Action, ActionType, Agent, Coord, Path, Segment, agent_ok, coord_ok, pair_safety, COORD_MAX,
};
use crate::actions::log::{last_action, log_actions_ok};

verus! {

/// Indicator on how a conflict is resolved
#[derive(Clone, Copy, Debug, PartialEq, Eq, Structural)]
pub enum ConflictResolution {
    /// The conflict is resolved by an x-pos lower than the value
    LowerThanX(i64),
    /// The conflict is resolved by an x-pos higher than the value
    HigherThanX(i64),
}

/// A conflict is caused by an agent, being at the position of its latest
/// action, and hindering the action now to be done by some other agent.
#[derive(Clone, Copy, Debug, PartialEq, Eq, Structural)]
pub struct Conflict {
    /// The index, in the commit log, of the agent that must move to resolve
    /// the conflict; its latest action is the cause.
    pub cause: usize,
    /// The resolution for the conflict.
    pub resolution: ConflictResolution,
}

/// Smallest end x of the first `n` segments.
pub open spec fn min_end_x(path: Seq<Segment>, n: int) -> int
    decreases n,
{
    if n <= 1 {
        path[0].end.x as int
    } else {
        let m = min_end_x(path, n - 1);
        if path[n - 1].end.x < m { path[n - 1].end.x as int } else { m }
    }
}

/// Largest end x of the first `n` segments.
pub open spec fn max_end_x(path: Seq<Segment>, n: int) -> int
    decreases n,
{
    if n <= 1 {
        path[0].end.x as int
    } else {
        let m = max_end_x(path, n - 1);
        if path[n - 1].end.x > m { path[n - 1].end.x as int } else { m }
    }
}

/// How an agent whose latest action is `last` must move so that `agent`
/// can reach every x in `[min_x, max_x]`, if it stands in the way at all.
pub open spec fn conflict_of(agent: Agent, min_x: int, max_x: int, last: Action) -> Option<
    ConflictResolution,
> {
    let sd = pair_safety(last.agent, agent);
    if last.agent.order < agent.order && last.target.x > min_x - sd {
        Some(ConflictResolution::LowerThanX((min_x - sd) as i64))
    } else if last.agent.order > agent.order && last.target.x < max_x + sd {
        Some(ConflictResolution::HigherThanX((max_x + sd) as i64))
    } else {
        None
    }
}

/// `c1` is resolved before `c2`: the tightest squeeze from the left first,
/// then the tightest squeeze from the right.
pub open spec fn precedes(c1: ConflictResolution, c2: ConflictResolution) -> bool {
    match c1 {
        ConflictResolution::LowerThanX(l1) => match c2 {
            ConflictResolution::LowerThanX(l2) => l1 > l2,
            ConflictResolution::HigherThanX(_) => true,
        },
        ConflictResolution::HigherThanX(l1) => match c2 {
            ConflictResolution::HigherThanX(l2) => l1 < l2,
            ConflictResolution::LowerThanX(_) => false,
        },
    }
}

/// The conflict to resolve first among the first `n` entries of the log:
/// of two conflicts the later one is kept unless the earlier precedes it.
pub open spec fn best_conflict(
    agent: Agent,
    min_x: int,
    max_x: int,
    log: Seq<(Agent, Vec<Path>)>,
    n: int,
) -> Option<Conflict>
    decreases n,
{
    if n <= 0 {
        None
    } else {
        let prev = best_conflict(agent, min_x, max_x, log, n - 1);
        let c = if log[n - 1].0.name@ == agent.name@ {
            None
        } else {
            conflict_of(agent, min_x, max_x, last_action(log[n - 1].1@))
        };
        match c {
            None => prev,
            Some(res) => match prev {
                Some(p) if precedes(p.resolution, res) => prev,
                _ => Some(Conflict { cause: (n - 1) as usize, resolution: res }),
            },
        }
    }
}

/// Agent `b` at `xb` keeps the safety distance to agent `a` at `xa`, on the
/// side of `a` that their order gives.
pub open spec fn apart(a: Agent, xa: int, b: Agent, xb: int) -> bool {
    let sd = pair_safety(a, b);
    &&& b.order < a.order ==> xb <= xa - sd
    &&& b.order > a.order ==> xb >= xa + sd
}

/// The target of `b` keeps clear of the target of `a`.
pub open spec fn clear_of(a: Action, b: Action) -> bool {
    apart(a.agent, a.target.x as int, b.agent, b.target.x as int)
}

/// No agent stands in the way of a path that ends at a single x exactly when
/// every other agent is apart from that x.
pub proof fn lemma_conflict_of_apart(agent: Agent, x: int, last: Action)
    ensures
        conflict_of(agent, x, x, last) is None <==> apart(agent, x, last.agent, last.target.x as int),
{
}

/// Being clear of each other does not depend on which agent is named first.
pub proof fn lemma_clear_of_symmetric(a: Action, b: Action)
    ensures
        clear_of(a, b) <==> clear_of(b, a),
{
}

/// When no conflict is found among the first `n` entries, no entry of
/// another agent conflicts.
pub proof fn lemma_best_conflict_none(
    agent: Agent,
    min_x: int,
    max_x: int,
    log: Seq<(Agent, Vec<Path>)>,
    n: int,
)
    requires
        0 <= n <= log.len(),
    ensures
        best_conflict(agent, min_x, max_x, log, n) is None <==> forall|j: int|
            0 <= j < n && (#[trigger] log[j]).0.name@ != agent.name@ ==> conflict_of(
                agent,
                min_x,
                max_x,
                last_action(log[j].1@),
            ) is None,
    decreases n,
{
    if n > 0 {
        lemma_best_conflict_none(agent, min_x, max_x, log, n - 1);
    }
}

/// The conflict found first is the tightest one: no conflict of another
/// agent among the first `n` entries is resolved before it. So it asks for
/// the largest bound to the left when some agent before `agent` is in the
/// way, and otherwise for the smallest bound to the right.
pub proof fn lemma_best_conflict_tightest(
    agent: Agent,
    min_x: int,
    max_x: int,
    log: Seq<(Agent, Vec<Path>)>,
    n: int,
)
    requires
        0 <= n <= log.len() <= usize::MAX,
    ensures
        best_conflict(agent, min_x, max_x, log, n) matches Some(c) ==> {
            &&& 0 <= c.cause < n
            &&& log[c.cause as int].0.name@ != agent.name@
            &&& conflict_of(agent, min_x, max_x, last_action(log[c.cause as int].1@)) == Some(
                c.resolution,
            )
            &&& forall|j: int|
                0 <= j < n && (#[trigger] log[j]).0.name@ != agent.name@ ==> (conflict_of(
                    agent,
                    min_x,
                    max_x,
                    last_action(log[j].1@),
                ) matches Some(r) ==> !precedes(r, c.resolution))
        },
        best_conflict(agent, min_x, max_x, log, n) is None ==> forall|j: int|
            0 <= j < n && (#[trigger] log[j]).0.name@ != agent.name@ ==> conflict_of(
                agent,
                min_x,
                max_x,
                last_action(log[j].1@),
            ) is None,
    decreases n,
{
    if n > 0 {
        lemma_best_conflict_tightest(agent, min_x, max_x, log, n - 1);
        assert(log[n - 1] == log[n - 1]);
        let best = best_conflict(agent, min_x, max_x, log, n);
        if let Some(c) = best {
            assert forall|j: int|
                0 <= j < n && (#[trigger] log[j]).0.name@ != agent.name@ implies (conflict_of(
                agent,
                min_x,
                max_x,
                last_action(log[j].1@),
            ) matches Some(r) ==> !precedes(r, c.resolution)) by {
                if j < n - 1 && conflict_of(agent, min_x, max_x, last_action(log[j].1@)) is Some {
                    let prev = best_conflict(agent, min_x, max_x, log, n - 1);
                    assert(prev is Some);
                }
            }
        }
    }
}

/// The x-coordinate that a resolution asks for.
pub open spec fn resolution_x(r: ConflictResolution) -> i64 {
    match r {
        ConflictResolution::LowerThanX(l) => l,
        ConflictResolution::HigherThanX(l) => l,
    }
}

/// The evasive action that moves the cause of a conflict: the same agent,
/// to the x of the resolution at its current y, with no dwell.
pub open spec fn evasion_of(cause: Action, r: ConflictResolution) -> Action {
    Action {
        agent: cause.agent,
        target: Coord { x: resolution_x(r), y: cause.target.y },
        duration: 0,
        kind: ActionType::Evasive,
    }
}

/// Return the first conflict to be resolved, if any.
pub fn first_conflict(agent: &Agent, path: &Vec<Segment>, log: &Vec<(Agent, Vec<Path>)>) -> (r:
    Option<Conflict>)
    requires
        agent_ok(*agent),
        path@.len() > 0,
        forall|k: int| 0 <= k < path@.len() ==> coord_ok(#[trigger] path@[k].end),
        log_actions_ok(log@),
    ensures
        r == best_conflict(
            *agent,
            min_end_x(path@, path@.len() as int),
            max_end_x(path@, path@.len() as int),
            log@,
            log@.len() as int,
        ),
        r matches Some(c) ==> c.cause < log@.len(),
{
    let mut min_x: i64 = path[0].end.x;
    let mut max_x: i64 = path[0].end.x;
    let mut k: usize = 1;
    while k < path.len()
        invariant
            1 <= k <= path@.len(),
            forall|i: int| 0 <= i < path@.len() ==> coord_ok(#[trigger] path@[i].end),
            min_x == min_end_x(path@, k as int),
            max_x == max_end_x(path@, k as int),
            -COORD_MAX <= min_x <= COORD_MAX,
            -COORD_MAX <= max_x <= COORD_MAX,
        decreases path@.len() - k,
    {
        let x = path[k].end.x;
        if x < min_x {
            min_x = x;
        }
        if x > max_x {
            max_x = x;
        }
        k = k + 1;
    }
    let mut best: Option<Conflict> = None;
    let mut j: usize = 0;
    while j < log.len()
        invariant
            j <= log@.len(),
            agent_ok(*agent),
            log_actions_ok(log@),
            -COORD_MAX <= min_x <= COORD_MAX,
            -COORD_MAX <= max_x <= COORD_MAX,
            best == best_conflict(*agent, min_x as int, max_x as int, log@, j as int),
            best matches Some(c) ==> c.cause < j,
        decreases log@.len() - j,
    {
        let entry = &log[j];
        if entry.0.name != agent.name {
            assert(log@[j as int] == *entry);
            let last = &entry.1[entry.1.len() - 1].action;
            let sd = last.agent.safety_x(agent);
            let c: Option<ConflictResolution> = if last.agent.order < agent.order && last.target.x
                > min_x - sd {
                Some(ConflictResolution::LowerThanX(min_x - sd))
            } else if last.agent.order > agent.order && last.target.x < max_x + sd {
                Some(ConflictResolution::HigherThanX(max_x + sd))
            } else {
                None
            };
            if let Some(res) = c {
                let keep = match best {
                    Some(p) => match p.resolution {
                        ConflictResolution::LowerThanX(l1) => match res {
                            ConflictResolution::LowerThanX(l2) => l1 > l2,
                            ConflictResolution::HigherThanX(_) => true,
                        },
                        ConflictResolution::HigherThanX(l1) => match res {
                            ConflictResolution::HigherThanX(l2) => l1 < l2,
                            ConflictResolution::LowerThanX(_) => false,
                        },
                    },
                    None => false,
                };
                if !keep {
                    best = Some(Conflict { cause: j, resolution: res });
                }
            }
        }
        j = j + 1;
    }
    best
}

/// The evasive action that resolves a conflict.
pub fn evasion_target(conflict: &Conflict, log: &Vec<(Agent, Vec<Path>)>) -> (r: Action)
    requires
        conflict.cause < log@.len(),
        log@[conflict.cause as int].1@.len() > 0,
    ensures
        r == evasion_of(last_action(log@[conflict.cause as int].1@), conflict.resolution),
{
    let paths = &log[conflict.cause].1;
    let cause = &paths[paths.len() - 1].action;
    let target_x = match conflict.resolution {
        ConflictResolution::LowerThanX(l) => l,
        ConflictResolution::HigherThanX(l) => l,
    };
    Action {
        agent: cause.agent.duplicate(),
        target: Coord { x: target_x, y: cause.target.y },
        duration: 0,
        kind: ActionType::Evasive,
    }
}

} // verus!
