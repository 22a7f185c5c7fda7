//! Why resolving conflicts comes to an end: every evasion leaves fewer
//! agents in the way, and nested evasions go to agents further out in the
//! order.
use vstd::prelude::*;
use crate::actions::conflict::{
    best_conflict, clear_of, conflict_of, evasion_of, ConflictResolution,
};
use crate::actions::data::{Action, Agent, Path, agent_ok, pair_safety, COORD_MAX};
use crate::actions::log::{
    acts_in, index_of, last_action, lemma_index_of, log_ok, separated,
};

verus! {

/// The entry holds another agent than `agent`, whose last target stands in
/// the way of a move of `agent` to `x`.
pub open spec fn in_the_way(agent: Agent, x: int, entry: (Agent, Vec<Path>)) -> bool {
    &&& entry.0.name@ != agent.name@
    &&& conflict_of(agent, x, x, last_action(entry.1@)) is Some
}

/// How many of the first `n` entries stand in the way of `agent` going to `x`.
pub open spec fn conflict_count(agent: Agent, x: int, log: Seq<(Agent, Vec<Path>)>, n: int) -> int
    decreases n,
{
    if n <= 0 {
        0
    } else {
        conflict_count(agent, x, log, n - 1) + if in_the_way(agent, x, log[n - 1]) {
            1int
        } else {
            0int
        }
    }
}

/// How many of the first `n` agents come before order `o`.
pub open spec fn count_below(log: Seq<(Agent, Vec<Path>)>, o: int, n: int) -> int
    decreases n,
{
    if n <= 0 {
        0
    } else {
        count_below(log, o, n - 1) + if log[n - 1].0.order < o {
            1int
        } else {
            0int
        }
    }
}

/// How many of the first `n` agents come after order `o`.
pub open spec fn count_above(log: Seq<(Agent, Vec<Path>)>, o: int, n: int) -> int
    decreases n,
{
    if n <= 0 {
        0
    } else {
        count_above(log, o, n - 1) + if log[n - 1].0.order > o {
            1int
        } else {
            0int
        }
    }
}

pub proof fn lemma_counts_bounded(agent: Agent, x: int, log: Seq<(Agent, Vec<Path>)>, o: int, n: int)
    requires
        0 <= n,
    ensures
        0 <= conflict_count(agent, x, log, n) <= n,
        0 <= count_below(log, o, n) <= n,
        0 <= count_above(log, o, n) <= n,
    decreases n,
{
    if n > 0 {
        lemma_counts_bounded(agent, x, log, o, n - 1);
    }
}

/// Counts by order depend on the agents alone.
pub proof fn lemma_counts_same_agents(
    a: Seq<(Agent, Vec<Path>)>,
    b: Seq<(Agent, Vec<Path>)>,
    o: int,
    n: int,
)
    requires
        0 <= n <= a.len(),
        n <= b.len(),
        forall|j: int| 0 <= j < n ==> (#[trigger] a[j]).0 == b[j].0,
    ensures
        count_below(a, o, n) == count_below(b, o, n),
        count_above(a, o, n) == count_above(b, o, n),
    decreases n,
{
    if n > 0 {
        assert(a[n - 1].0 == b[n - 1].0);
        lemma_counts_same_agents(a, b, o, n - 1);
    }
}

/// An agent of order `oc`, itself before `oa`, has fewer agents before it.
pub proof fn lemma_below_strict(log: Seq<(Agent, Vec<Path>)>, c: int, oa: int, n: int)
    requires
        0 <= c < n <= log.len(),
        log[c].0.order < oa,
    ensures
        count_below(log, log[c].0.order as int, n) + 1 <= count_below(log, oa, n),
    decreases n,
{
    if n - 1 > c {
        lemma_below_strict(log, c, oa, n - 1);
    } else {
        lemma_below_le(log, log[c].0.order as int, oa, n - 1);
    }
}

proof fn lemma_below_le(log: Seq<(Agent, Vec<Path>)>, o1: int, o2: int, n: int)
    requires
        o1 <= o2,
        0 <= n <= log.len(),
    ensures
        count_below(log, o1, n) <= count_below(log, o2, n),
        count_above(log, o2, n) <= count_above(log, o1, n),
    decreases n,
{
    if n > 0 {
        lemma_below_le(log, o1, o2, n - 1);
    }
}

/// An agent of order `oc`, itself after `oa`, has fewer agents after it.
pub proof fn lemma_above_strict(log: Seq<(Agent, Vec<Path>)>, c: int, oa: int, n: int)
    requires
        0 <= c < n <= log.len(),
        log[c].0.order > oa,
    ensures
        count_above(log, log[c].0.order as int, n) + 1 <= count_above(log, oa, n),
    decreases n,
{
    if n - 1 > c {
        lemma_above_strict(log, c, oa, n - 1);
    } else {
        lemma_below_le(log, oa, log[c].0.order as int, n - 1);
    }
}

/// Some entry is in the way exactly when the count is positive.
pub proof fn lemma_count_positive(agent: Agent, x: int, log: Seq<(Agent, Vec<Path>)>, n: int, c: int)
    requires
        0 <= c < n <= log.len(),
        in_the_way(agent, x, log[c]),
    ensures
        conflict_count(agent, x, log, n) >= 1,
    decreases n,
{
    lemma_counts_bounded(agent, x, log, 0, n - 1);
    if n - 1 > c {
        lemma_count_positive(agent, x, log, n - 1, c);
    }
}

/// Fewer entries are in the way when none that was clear comes in the way
/// and entry `c` leaves it.
pub proof fn lemma_count_drops(
    agent: Agent,
    x: int,
    a: Seq<(Agent, Vec<Path>)>,
    b: Seq<(Agent, Vec<Path>)>,
    n: int,
    c: int,
)
    requires
        0 <= n <= a.len(),
        n <= b.len(),
        forall|j: int| 0 <= j < n && in_the_way(agent, x, #[trigger] b[j]) ==> in_the_way(agent, x, a[j]),
        0 <= c < n ==> in_the_way(agent, x, a[c]) && !in_the_way(agent, x, b[c]),
    ensures
        conflict_count(agent, x, b, n) <= conflict_count(agent, x, a, n),
        0 <= c < n ==> conflict_count(agent, x, b, n) < conflict_count(agent, x, a, n),
    decreases n,
{
    if n > 0 {
        assert(in_the_way(agent, x, b[n - 1]) ==> in_the_way(agent, x, a[n - 1]));
        if c == n - 1 {
            lemma_count_drops(agent, x, a, b, n - 1, -1);
        } else {
            lemma_count_drops(agent, x, a, b, n - 1, c);
        }
    }
}

/// The conflict found first is one with an entry in the way.
pub proof fn lemma_best_conflict_some(agent: Agent, x: int, log: Seq<(Agent, Vec<Path>)>, n: int)
    requires
        0 <= n <= log.len() <= usize::MAX,
        best_conflict(agent, x, x, log, n) is Some,
    ensures
        ({
            let c = best_conflict(agent, x, x, log, n)->Some_0;
            &&& 0 <= c.cause < n
            &&& in_the_way(agent, x, log[c.cause as int])
            &&& conflict_of(agent, x, x, last_action(log[c.cause as int].1@)) == Some(c.resolution)
        }),
    decreases n,
{
    if n > 0 {
        if best_conflict(agent, x, x, log, n - 1) is Some {
            lemma_best_conflict_some(agent, x, log, n - 1);
        }
    }
}

/// With separated last targets, an agent moving towards `x` on its left is
/// not blocked by the agents on its right, and the other way round.
pub proof fn lemma_no_conflict_behind(
    log: Seq<(Agent, Vec<Path>)>,
    action: Action,
    x: int,
    j: int,
)
    requires
        log_ok(log),
        separated(log),
        acts_in(log, action),
        0 <= j < log.len(),
        log[j].0.name@ != action.agent.name@,
    ensures
        ({
            let cur = last_action(log[index_of(log, action.agent.name@)].1@).target.x as int;
            &&& x <= cur && log[j].0.order > action.agent.order ==> !in_the_way(action.agent, x, log[j])
            &&& x >= cur && log[j].0.order < action.agent.order ==> !in_the_way(action.agent, x, log[j])
        }),
{
    let i = index_of(log, action.agent.name@);
    lemma_index_of(log, action.agent.name@);
    assert(log[i] == log[i]);
    assert(log[j] == log[j]);
    assert(clear_of(last_action(log[i].1@), last_action(log[j].1@)));
}

/// An evasion of the agent in the way at `c` leaves one entry fewer in the
/// way, provided only agents further out than it have moved, each keeping
/// clear of its new target.
pub proof fn lemma_round_progress(
    agent: Agent,
    x: int,
    result: Seq<(Agent, Vec<Path>)>,
    out: Seq<(Agent, Vec<Path>)>,
    c: int,
    res: ConflictResolution,
)
    requires
        agent_ok(agent),
        -COORD_MAX <= x <= COORD_MAX,
        log_ok(result),
        log_ok(out),
        separated(out),
        out.len() == result.len(),
        forall|j: int| 0 <= j < result.len() ==> (#[trigger] out[j]).0 == result[j].0,
        0 <= c < result.len(),
        result[c].0.name@ != agent.name@,
        conflict_of(agent, x, x, last_action(result[c].1@)) == Some(res),
        last_action(out[c].1@) == evasion_of(last_action(result[c].1@), res),
        res is LowerThanX ==> forall|j: int|
            0 <= j < result.len() && j != c && (#[trigger] result[j]).0.order >= result[c].0.order
                ==> out[j] == result[j],
        res is HigherThanX ==> forall|j: int|
            0 <= j < result.len() && j != c && (#[trigger] result[j]).0.order <= result[c].0.order
                ==> out[j] == result[j],
    ensures
        conflict_count(agent, x, out, result.len() as int) < conflict_count(
            agent,
            x,
            result,
            result.len() as int,
        ),
{
    let n = result.len() as int;
    let cag = result[c].0;
    assert(result[c] == result[c]);
    assert(out[c] == out[c]);
    assert(last_action(result[c].1@).agent == cag);
    assert(last_action(out[c].1@).agent == cag);
    assert forall|j: int| 0 <= j < n && in_the_way(agent, x, #[trigger] out[j]) implies in_the_way(
        agent,
        x,
        result[j],
    ) by {
        if out[j] != result[j] {
            assert(out[j].0 == result[j].0);
            assert(last_action(out[j].1@).agent == out[j].0);
            if j == c {
            } else {
                assert(out[c].0.name@ != out[j].0.name@);
                assert(clear_of(last_action(out[c].1@), last_action(out[j].1@)));
                let jag = out[j].0;
                assert(agent_ok(jag));
                assert(agent_ok(cag));
                assert(pair_safety(jag, agent) <= pair_safety(cag, agent) + pair_safety(cag, jag));
            }
        }
    }
    assert(agent_ok(cag));
    assert(!in_the_way(agent, x, out[c]));
    lemma_count_drops(agent, x, result, out, n, c);
}

} // verus!
