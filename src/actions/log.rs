//! The commit log: for each agent, the paths committed so far.
use vstd::prelude::*;
use crate::actions::data::{Action, ActionType, Agent, Path, action_ok, agent_ok, path_ok};
use crate::actions::conflict::clear_of;

verus! {

/// The last action committed in a list of paths.
pub open spec fn last_action(paths: Seq<Path>) -> Action {
    paths.last().action
}

/// Every agent of the log has a committed action within range.
pub open spec fn log_actions_ok(log: Seq<(Agent, Vec<Path>)>) -> bool {
    forall|j: int|
        0 <= j < log.len() ==> {
            &&& (#[trigger] log[j]).1@.len() > 0
            &&& action_ok(last_action(log[j].1@))
        }
}

/// The paths of one agent follow each other without gap: each starts when
/// the previous one ends.
pub open spec fn contiguous(paths: Seq<Path>) -> bool {
    forall|k: int|
        #![trigger paths[k], paths[k + 1]]
        0 <= k < paths.len() - 1 ==> paths[k].t_end == paths[k + 1].t_start
}

/// No two agents of the log share a name.
pub open spec fn log_names_unique(log: Seq<(Agent, Vec<Path>)>) -> bool {
    forall|j: int, k: int|
        0 <= j < log.len() && 0 <= k < log.len() && j != k ==> (#[trigger] log[j]).0.name@ != (
        #[trigger] log[k]).0.name@
}

/// A well-formed commit log: agents of distinct names, each with at least
/// one path, every path in range, each agent's paths contiguous in time, and
/// the last action of each agent done by that agent.
pub open spec fn log_ok(log: Seq<(Agent, Vec<Path>)>) -> bool {
    &&& log_names_unique(log)
    &&& forall|j: int|
        0 <= j < log.len() ==> {
            &&& agent_ok((#[trigger] log[j]).0)
            &&& log[j].1@.len() > 0
            &&& forall|k: int| 0 <= k < log[j].1@.len() ==> path_ok(#[trigger] log[j].1@[k])
            &&& contiguous(log[j].1@)
            &&& last_action(log[j].1@).agent == log[j].0
        }
}

/// The log holds the agent of `action`, as the action knows it.
pub open spec fn acts_in(log: Seq<(Agent, Vec<Path>)>, action: Action) -> bool {
    &&& has_agent(log, action.agent.name@)
    &&& log[index_of(log, action.agent.name@)].0 == action.agent
}

/// The actions of the scheduled paths, in order.
pub open spec fn scheduled_of(paths: Seq<Path>) -> Seq<Action> {
    paths.filter(|p: Path| p.action.kind == ActionType::Scheduled).map_values(|p: Path| p.action)
}

/// The last targets of every two agents of different names keep clear of
/// each other.
pub open spec fn separated(log: Seq<(Agent, Vec<Path>)>) -> bool {
    forall|j: int, k: int|
        0 <= j < log.len() && 0 <= k < log.len() && (#[trigger] log[j]).0.name@ != (
        #[trigger] log[k]).0.name@ ==> clear_of(last_action(log[j].1@), last_action(log[k].1@))
}

/// The log holds an agent of the given name.
pub open spec fn has_agent(log: Seq<(Agent, Vec<Path>)>, name: Seq<char>) -> bool {
    exists|i: int| 0 <= i < log.len() && (#[trigger] log[i]).0.name@ == name
}

/// The first index at or after `k` whose agent has the given name, or the
/// length of the log.
pub open spec fn index_from(log: Seq<(Agent, Vec<Path>)>, name: Seq<char>, k: int) -> int
    decreases log.len() - k,
{
    if k >= log.len() {
        log.len() as int
    } else if log[k].0.name@ == name {
        k
    } else {
        index_from(log, name, k + 1)
    }
}

/// The index of the agent of the given name in the log.
pub open spec fn index_of(log: Seq<(Agent, Vec<Path>)>, name: Seq<char>) -> int {
    index_from(log, name, 0)
}

pub proof fn lemma_index_from(log: Seq<(Agent, Vec<Path>)>, name: Seq<char>, k: int)
    requires
        0 <= k <= log.len(),
    ensures
        k <= index_from(log, name, k) <= log.len(),
        index_from(log, name, k) < log.len() ==> log[index_from(log, name, k)].0.name@ == name,
        forall|i: int| k <= i < index_from(log, name, k) ==> (#[trigger] log[i]).0.name@ != name,
        (exists|i: int| k <= i < log.len() && (#[trigger] log[i]).0.name@ == name) ==> index_from(
            log,
            name,
            k,
        ) < log.len(),
    decreases log.len() - k,
{
    if k < log.len() {
        lemma_index_from(log, name, k + 1);
    }
}

pub proof fn lemma_index_of(log: Seq<(Agent, Vec<Path>)>, name: Seq<char>)
    requires
        has_agent(log, name),
    ensures
        0 <= index_of(log, name) < log.len(),
        log[index_of(log, name)].0.name@ == name,
{
    lemma_index_from(log, name, 0);
}

/// The index, in the log, of the given agent, found by its name.
pub fn agent_index(agent: &Agent, log: &Vec<(Agent, Vec<Path>)>) -> (r: usize)
    requires
        has_agent(log@, agent.name@),
    ensures
        r == index_of(log@, agent.name@),
        r < log@.len(),
        log@[r as int].0.name@ == agent.name@,
{
    proof {
        lemma_index_of(log@, agent.name@);
    }
    let mut k: usize = 0;
    while k < log.len()
        invariant
            k <= index_of(log@, agent.name@) < log@.len(),
            index_from(log@, agent.name@, k as int) == index_of(log@, agent.name@),
        decreases log@.len() - k,
    {
        if log[k].0.name == agent.name {
            return k;
        }
        proof {
            lemma_index_from(log@, agent.name@, k + 1);
        }
        k = k + 1;
    }
    k
}

/// The paths committed for the given agent.
pub fn agent_paths<'a>(agent: &Agent, log: &'a Vec<(Agent, Vec<Path>)>) -> (r: &'a Vec<Path>)
    requires
        has_agent(log@, agent.name@),
    ensures
        r == log@[index_of(log@, agent.name@)].1,
{
    let i = agent_index(agent, log);
    &log[i].1
}

/// `out` keeps the agents of `log` and extends each of their path lists.
pub open spec fn grows(log: Seq<(Agent, Vec<Path>)>, out: Seq<(Agent, Vec<Path>)>) -> bool {
    &&& out.len() == log.len()
    &&& forall|j: int|
        0 <= j < log.len() ==> {
            &&& (#[trigger] out[j]).0 == log[j].0
            &&& log[j].1@.len() <= out[j].1@.len()
            &&& out[j].1@.subrange(0, log[j].1@.len() as int) == log[j].1@
        }
}

/// `out` holds the same scheduled actions as `log`, agent by agent.
pub open spec fn same_scheduled(log: Seq<(Agent, Vec<Path>)>, out: Seq<(Agent, Vec<Path>)>) -> bool {
    forall|j: int| 0 <= j < log.len() ==> scheduled_of((#[trigger] out[j]).1@) == scheduled_of(log[j].1@)
}

pub proof fn lemma_grows_trans(
    a: Seq<(Agent, Vec<Path>)>,
    b: Seq<(Agent, Vec<Path>)>,
    c: Seq<(Agent, Vec<Path>)>,
)
    requires
        grows(a, b),
        grows(b, c),
    ensures
        grows(a, c),
{
    assert forall|j: int| 0 <= j < a.len() implies {
        &&& (#[trigger] c[j]).0 == a[j].0
        &&& a[j].1@.len() <= c[j].1@.len()
        &&& c[j].1@.subrange(0, a[j].1@.len() as int) == a[j].1@
    } by {
        assert(b[j].1@.subrange(0, a[j].1@.len() as int) == a[j].1@);
        assert(c[j].1@.subrange(0, b[j].1@.len() as int) == b[j].1@);
        assert(c[j].1@.subrange(0, a[j].1@.len() as int) =~= b[j].1@.subrange(
            0,
            a[j].1@.len() as int,
        ));
    }
}

/// Logs whose agents have the same names find an agent at the same index.
pub proof fn lemma_index_same_names(
    a: Seq<(Agent, Vec<Path>)>,
    b: Seq<(Agent, Vec<Path>)>,
    name: Seq<char>,
    k: int,
)
    requires
        a.len() == b.len(),
        0 <= k <= a.len(),
        forall|j: int| 0 <= j < a.len() ==> (#[trigger] a[j]).0.name@ == b[j].0.name@,
    ensures
        index_from(a, name, k) == index_from(b, name, k),
    decreases a.len() - k,
{
    if k < a.len() {
        assert(a[k].0.name@ == b[k].0.name@);
        lemma_index_same_names(a, b, name, k + 1);
    }
}

/// In a log of distinct names, an agent is found at its own index.
pub proof fn lemma_unique_index(log: Seq<(Agent, Vec<Path>)>, c: int)
    requires
        log_names_unique(log),
        0 <= c < log.len(),
    ensures
        index_of(log, log[c].0.name@) == c,
        has_agent(log, log[c].0.name@),
{
    assert(log[c] == log[c]);
    lemma_index_of(log, log[c].0.name@);
}

pub proof fn lemma_log_ok_actions(log: Seq<(Agent, Vec<Path>)>)
    requires
        log_ok(log),
    ensures
        log_actions_ok(log),
{
    assert forall|j: int| 0 <= j < log.len() implies {
        &&& (#[trigger] log[j]).1@.len() > 0
        &&& action_ok(last_action(log[j].1@))
    } by {
        assert(path_ok(log[j].1@[log[j].1@.len() - 1]));
    }
}

/// Appending a path adds its action to the scheduled ones exactly when it
/// is scheduled.
pub proof fn lemma_scheduled_push(ps: Seq<Path>, p: Path)
    ensures
        scheduled_of(ps.push(p)) == scheduled_of(ps) + if p.action.kind == ActionType::Scheduled {
            seq![p.action]
        } else {
            Seq::<Action>::empty()
        },
{
    let f = |q: Path| q.action.kind == ActionType::Scheduled;
    Seq::filter_distributes_over_add(ps, seq![p], f);
    assert(ps.push(p) == ps + seq![p]);
    reveal_with_fuel(Seq::filter, 2);
    assert(seq![p].drop_last() =~= Seq::<Path>::empty());
    if f(p) {
        assert(seq![p].filter(f) =~= seq![p]);
    } else {
        assert(seq![p].filter(f) =~= Seq::<Path>::empty());
    }
    let g = |q: Path| q.action;
    assert((ps.filter(f) + seq![p].filter(f)).map_values(g) =~= ps.filter(f).map_values(g)
        + seq![p].filter(f).map_values(g));
    assert(scheduled_of(ps.push(p)) =~= scheduled_of(ps) + if p.action.kind
        == ActionType::Scheduled {
        seq![p.action]
    } else {
        Seq::<Action>::empty()
    });
}

/// When a list grows and its scheduled actions do not, every path it gained
/// is an idle or an evasive one.
pub proof fn lemma_no_new_scheduled(old: Seq<Path>, new: Seq<Path>)
    requires
        old.len() <= new.len(),
        new.subrange(0, old.len() as int) == old,
        scheduled_of(new) == scheduled_of(old),
    ensures
        forall|k: int|
            old.len() <= k < new.len() ==> (#[trigger] new[k]).action.kind != ActionType::Scheduled,
{
    let f = |p: Path| p.action.kind == ActionType::Scheduled;
    let ext = new.subrange(old.len() as int, new.len() as int);
    assert(new =~= old + ext);
    Seq::filter_distributes_over_add(old, ext, f);
    assert(scheduled_of(new).len() == old.filter(f).len() + ext.filter(f).len());
    assert(ext.filter(f).len() == 0);
    ext.filter_lemma(f);
    assert forall|k: int| old.len() <= k < new.len() implies (#[trigger] new[k]).action.kind
        != ActionType::Scheduled by {
        assert(new[k] == ext[k - old.len()]);
        if f(ext[k - old.len()]) {
            assert(ext.filter(f).contains(ext[k - old.len()]));
        }
    }
}

} // verus!
