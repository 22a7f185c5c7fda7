use keiro::actions::conflict::{evasion_target, first_conflict, ConflictResolution};
use keiro::actions::data::{
    Action, ActionType, Agent, ConstVel2D, Coord, Path, PointST, Schedule, Segment, COORD_MAX,
    TIME_MAX,
};
use keiro::actions::idle::idle_path;
use keiro::actions::{
    commit_action, execute_action, find_path_2d, positions_separated, routes, RouteError,
};

fn agent(name: &str, order: i64, x: i64, safety_x: i64) -> Agent {
    Agent {
        name: String::from(name),
        position: Coord { x, y: 10 },
        velocity: ConstVel2D { x: 2, y: 1 },
        safety_x,
        order,
    }
}

fn scheduled(a: &Agent, x: i64, y: i64, duration: i64) -> Action {
    Action {
        agent: a.clone(),
        target: Coord { x, y },
        duration,
        kind: ActionType::Scheduled,
    }
}

fn initial_log(agents: &[Agent]) -> Vec<(Agent, Vec<Path>)> {
    agents
        .iter()
        .map(|a| {
            (
                a.clone(),
                vec![Path {
                    moves: vec![],
                    action: Action {
                        agent: a.clone(),
                        target: a.position,
                        duration: 0,
                        kind: ActionType::Idle,
                    },
                    t_start: 0,
                    t_end: 0,
                }],
            )
        })
        .collect()
}

fn summary(paths: &[Path]) -> Vec<(i64, i64, i64, i64, ActionType)> {
    paths
        .iter()
        .map(|p| (p.action.target.x, p.action.target.y, p.t_start, p.t_end, p.action.kind))
        .collect()
}

fn two_agents() -> Vec<Agent> {
    vec![agent("a1", 0, 10, 10), agent("a2", 1, 30, 10)]
}

#[test]
fn routing_no_conflict_no_idle() {
    let agents = two_agents();
    let sched = Schedule { actions: vec![scheduled(&agents[0], 20, 20, 6)] };
    let r = routes(&agents, sched).unwrap();
    let a1 = &r.routes[0].1;
    assert_eq!(a1.len(), 2);
    assert_eq!(
        a1[1].moves,
        vec![Segment { start: Coord { x: 10, y: 10 }, end: Coord { x: 20, y: 20 }, duration: 10 }]
    );
    assert_eq!(a1[1].action.duration, 6);
    assert_eq!((a1[1].t_start, a1[1].t_end), (0, 16));
    assert_eq!(summary(&r.routes[1].1), vec![(30, 10, 0, 0, ActionType::Idle)]);
}

#[test]
fn routing_idle_inserted() {
    let agents = two_agents();
    let sched = Schedule {
        actions: vec![scheduled(&agents[1], 5, 20, 6), scheduled(&agents[0], 20, 20, 6)],
    };
    let r = routes(&agents, sched).unwrap();
    assert_eq!(
        summary(&r.routes[0].1),
        vec![
            (10, 10, 0, 0, ActionType::Idle),
            (-5, 10, 0, 8, ActionType::Evasive),
            (-5, 10, 8, 19, ActionType::Idle),
            (20, 20, 19, 38, ActionType::Scheduled),
        ]
    );
    assert_eq!(
        summary(&r.routes[1].1),
        vec![
            (30, 10, 0, 0, ActionType::Idle),
            (5, 20, 0, 19, ActionType::Scheduled),
            (30, 20, 19, 32, ActionType::Evasive),
        ]
    );
    assert_eq!(r.routes[0].1[2].action.duration, 11);
    assert!(r.routes[0].1[2].moves.is_empty());
}

#[test]
fn routing_cascading_evasion() {
    let agents = vec![agent("a1", 0, 10, 10), agent("a2", 1, 30, 10), agent("a3", 2, 50, 10)];
    let sched = Schedule { actions: vec![scheduled(&agents[0], 40, 20, 5)] };
    let r = routes(&agents, sched).unwrap();
    assert_eq!(
        summary(&r.routes[0].1),
        vec![(10, 10, 0, 0, ActionType::Idle), (40, 20, 0, 20, ActionType::Scheduled)]
    );
    assert_eq!(
        summary(&r.routes[1].1),
        vec![(30, 10, 0, 0, ActionType::Idle), (50, 10, 0, 10, ActionType::Evasive)]
    );
    assert_eq!(
        summary(&r.routes[2].1),
        vec![(50, 10, 0, 0, ActionType::Idle), (60, 10, 0, 5, ActionType::Evasive)]
    );
}

#[test]
fn routing_boundary_is_not_a_conflict() {
    let agents = vec![agent("a1", 0, 10, 10), agent("a2", 1, 30, 10), agent("a3", 2, 50, 10)];
    let sched = Schedule { actions: vec![scheduled(&agents[1], 40, 10, 0)] };
    let r = routes(&agents, sched).unwrap();
    // a3 at 50 is exactly the safety distance away from 40
    assert_eq!(r.routes[2].1.len(), 1);
    assert_eq!(r.routes[0].1.len(), 1);
}

#[test]
fn routing_order_inversion_rejected() {
    let agents = vec![agent("a1", 0, 50, 10), agent("a2", 1, 30, 10)];
    assert!(!positions_separated(&agents));
    let sched = Schedule { actions: vec![scheduled(&agents[0], 60, 10, 0)] };
    assert!(matches!(routes(&agents, sched), Err(RouteError::InvariantViolation)));
}

#[test]
fn too_close_start_rejected() {
    let agents = vec![agent("a1", 0, 25, 10), agent("a2", 1, 30, 10)];
    assert!(!positions_separated(&agents));
    assert!(positions_separated(&two_agents()));
}

#[test]
fn routing_empty_schedule() {
    let agents = two_agents();
    let r = routes(&agents, Schedule { actions: vec![] }).unwrap();
    assert_eq!(r.routes.len(), 2);
    for (i, (a, paths)) in r.routes.iter().enumerate() {
        assert_eq!(a.name, agents[i].name);
        assert_eq!(paths.len(), 1);
        assert!(paths[0].moves.is_empty());
        assert_eq!(paths[0].action.target, agents[i].position);
        assert_eq!(paths[0].action.kind, ActionType::Idle);
        assert_eq!((paths[0].t_start, paths[0].t_end), (0, 0));
    }
}

#[test]
fn schedule_order_kept_per_agent() {
    let agents = two_agents();
    let sched = Schedule {
        actions: vec![
            scheduled(&agents[1], 60, 10, 3),
            scheduled(&agents[0], 15, 10, 2),
            scheduled(&agents[1], 40, 30, 1),
            scheduled(&agents[0], 5, 20, 4),
        ],
    };
    let r = routes(&agents, sched).unwrap();
    for (a, paths) in r.routes.iter() {
        let got: Vec<(i64, i64, i64)> = paths
            .iter()
            .filter(|p| p.action.kind == ActionType::Scheduled)
            .map(|p| (p.action.target.x, p.action.target.y, p.action.duration))
            .collect();
        if a.name == "a1" {
            assert_eq!(got, vec![(15, 10, 2), (5, 20, 4)]);
        } else {
            assert_eq!(got, vec![(60, 10, 3), (40, 30, 1)]);
        }
        for w in paths.windows(2) {
            assert_eq!(w[0].t_end, w[1].t_start);
        }
        for p in paths {
            assert!(p.t_start <= p.t_end);
        }
    }
}

#[test]
fn final_positions_keep_safety() {
    let agents = vec![agent("a1", 0, 0, 10), agent("a2", 1, 15, 15), agent("a3", 2, 35, 20)];
    let sched = Schedule {
        actions: vec![
            scheduled(&agents[2], 20, 10, 3),
            scheduled(&agents[0], 40, 30, 2),
            scheduled(&agents[1], 10, 40, 5),
            scheduled(&agents[2], 90, 0, 1),
            scheduled(&agents[0], 70, 5, 0),
        ],
    };
    let r = routes(&agents, sched).unwrap();
    let last: Vec<(i64, i64, i64)> = r
        .routes
        .iter()
        .map(|(a, ps)| (a.order, a.safety_x, ps.last().unwrap().action.target.x))
        .collect();
    for &(o1, s1, x1) in &last {
        for &(o2, s2, x2) in &last {
            if o1 < o2 {
                assert!(x2 - x1 >= s1.max(s2));
            }
        }
    }
}

#[test]
fn moving_agents_keep_safety_at_samples() {
    let agents = vec![agent("a1", 0, 0, 10), agent("a2", 1, 20, 10)];
    let sched = Schedule {
        actions: vec![scheduled(&agents[1], 50, 10, 4), scheduled(&agents[0], 35, 10, 0)],
    };
    let r = routes(&agents, sched).unwrap();
    let a1 = &r.routes[0].1;
    let a2 = &r.routes[1].1;
    // a1 may only leave once a2 is far enough ahead
    let go = a1.last().unwrap();
    assert_eq!(go.moves[0].start.x, 0);
    let pts2: Vec<PointST> = a2.iter().flat_map(|p| p.to_points_st()).collect();
    for p in go.to_points_st() {
        // position of a2 at time p.t (a2 has arrived at 50 by t = 15)
        let x2 = if p.t >= 15 { 50 } else { 20 + 2 * p.t };
        assert!(x2 - p.x >= 10, "{:?} {:?}", p, pts2);
    }
}

#[test]
fn points_of_path() {
    let a = agent("a", 0, 0, 1);
    let p = Path {
        moves: vec![
            Segment { start: Coord { x: 0, y: 0 }, end: Coord { x: 4, y: 2 }, duration: 2 },
            Segment { start: Coord { x: 4, y: 2 }, end: Coord { x: 4, y: 7 }, duration: 5 },
        ],
        action: Action { agent: a, target: Coord { x: 4, y: 7 }, duration: 3, kind: ActionType::Scheduled },
        t_start: 10,
        t_end: 20,
    };
    assert_eq!(
        p.to_points_st(),
        vec![
            PointST { x: 0, y: 0, t: 10 },
            PointST { x: 4, y: 2, t: 12 },
            PointST { x: 4, y: 7, t: 17 },
            PointST { x: 4, y: 7, t: 20 },
        ]
    );
}

#[test]
fn points_of_idle_path() {
    let a = agent("a", 0, 0, 1);
    let p = Path {
        moves: vec![],
        action: Action { agent: a, target: Coord { x: 3, y: 1 }, duration: 4, kind: ActionType::Idle },
        t_start: 6,
        t_end: 10,
    };
    assert_eq!(p.to_points_st(), vec![PointST { x: 3, y: 1, t: 10 }]);
}

#[test]
fn direct_path_slower_axis_governs() {
    let a = agent("a", 0, 0, 1);
    let act = scheduled(&a, 9, 2, 0);
    let s = find_path_2d(&act, Coord { x: 0, y: 0 });
    assert_eq!(s, vec![Segment { start: Coord { x: 0, y: 0 }, end: Coord { x: 9, y: 2 }, duration: 5 }]);
    let act = scheduled(&a, -4, 7, 0);
    let s = find_path_2d(&act, Coord { x: 0, y: 1 });
    assert_eq!(s[0].duration, 6);
}

#[test]
fn safety_is_pairwise_maximum() {
    let a = agent("a", 0, 0, 7);
    let b = agent("b", 1, 30, 12);
    assert_eq!(a.safety_x(&b), 12);
    assert_eq!(b.safety_x(&a), 12);
}

#[test]
fn tightest_left_squeeze_first() {
    let agents = vec![agent("l1", 0, 21, 5), agent("l2", 1, 15, 12), agent("me", 2, 60, 5), agent("r", 3, 80, 5)];
    let log = initial_log(&agents);
    let act = scheduled(&agents[2], 25, 10, 0);
    let path = find_path_2d(&act, Coord { x: 60, y: 10 });
    let c = first_conflict(&agents[2], &path, &log).unwrap();
    // l2 asks for x < 13, l1 for x < 20: the larger bound comes first
    assert_eq!(c.cause, 0);
    assert_eq!(c.resolution, ConflictResolution::LowerThanX(20));
    let ev = evasion_target(&c, &log);
    assert_eq!(ev.agent.name, "l1");
    assert_eq!(ev.target, Coord { x: 20, y: 10 });
    assert_eq!(ev.duration, 0);
    assert_eq!(ev.kind, ActionType::Evasive);
}

#[test]
fn right_squeeze_when_no_left_one() {
    let agents = vec![agent("me", 0, 0, 5), agent("r1", 1, 20, 5), agent("r2", 2, 30, 9)];
    let log = initial_log(&agents);
    let act = scheduled(&agents[0], 18, 10, 0);
    let path = find_path_2d(&act, Coord { x: 0, y: 10 });
    let c = first_conflict(&agents[0], &path, &log).unwrap();
    assert_eq!(c.cause, 1);
    assert_eq!(c.resolution, ConflictResolution::HigherThanX(23));
}

#[test]
fn no_conflict_far_apart() {
    let agents = two_agents();
    let log = initial_log(&agents);
    let act = scheduled(&agents[0], 12, 10, 0);
    let path = find_path_2d(&act, Coord { x: 10, y: 10 });
    assert!(first_conflict(&agents[0], &path, &log).is_none());
}

#[test]
fn idle_waits_for_neighbour_to_leave() {
    let agents = two_agents();
    let log = initial_log(&agents);
    let log = execute_action(&scheduled(&agents[1], 5, 20, 6), log, 2).unwrap();
    let act = scheduled(&agents[0], 20, 20, 6);
    let log = execute_action(
        &Action {
            agent: agents[1].clone(),
            target: Coord { x: 30, y: 20 },
            duration: 0,
            kind: ActionType::Evasive,
        },
        log,
        2,
    )
    .unwrap();
    let path = find_path_2d(&act, Coord { x: -5, y: 10 });
    let idle = idle_path(&act, &path, &log);
    assert_eq!((idle.t_start, idle.t_end), (8, 19));
    assert_eq!(idle.action.duration, 11);
    assert_eq!(idle.action.target, Coord { x: -5, y: 10 });
    assert_eq!(idle.action.kind, ActionType::Idle);
}

#[test]
fn no_idle_without_blocking_samples() {
    let agents = two_agents();
    let log = initial_log(&agents);
    let act = scheduled(&agents[0], 20, 20, 6);
    let path = find_path_2d(&act, Coord { x: 10, y: 10 });
    let idle = idle_path(&act, &path, &log);
    assert_eq!((idle.t_start, idle.t_end), (0, 0));
    let log = commit_action(&act, &path, log).unwrap();
    assert_eq!(log[0].1.len(), 2);
    assert_eq!(log[1].1.len(), 1);
}

#[test]
fn no_evasion_when_nobody_blocks() {
    let agents = vec![agent("a1", 0, 0, 10), agent("a2", 1, 40, 10), agent("a3", 2, 80, 10)];
    let log = initial_log(&agents);
    let out = execute_action(&scheduled(&agents[1], 50, 10, 1), log, 3).unwrap();
    assert_eq!(out[0].1.len(), 1);
    assert_eq!(out[2].1.len(), 1);
    assert_eq!(out[1].1.len(), 2);
}

#[test]
fn evasion_out_of_range() {
    let low = -COORD_MAX + 5;
    let agents = vec![agent("a1", 0, low, 20), agent("a2", 1, 100, 10)];
    let sched = Schedule { actions: vec![scheduled(&agents[1], low + 10, 10, 0)] };
    assert!(matches!(routes(&agents, sched), Err(RouteError::OutOfRange)));
}

#[test]
fn time_out_of_range() {
    let agents = two_agents();
    let sched = Schedule {
        actions: vec![scheduled(&agents[0], 0, 10, TIME_MAX), scheduled(&agents[0], 5, 10, 0)],
    };
    assert!(matches!(routes(&agents, sched), Err(RouteError::OutOfRange)));
}

#[test]
fn idle_despite_clear_last_targets() {
    let agents = vec![agent("a", 0, 20, 10), agent("b", 1, 30, 10)];
    let sched = Schedule {
        actions: vec![
            scheduled(&agents[1], 30, 10, 10),
            scheduled(&agents[1], 60, 10, 0),
            scheduled(&agents[0], 25, 10, 0),
        ],
    };
    let r = routes(&agents, sched).unwrap();
    // b's last target is far from 25, yet b only leaves 30 at t = 10
    assert_eq!(
        summary(&r.routes[0].1),
        vec![
            (20, 10, 0, 0, ActionType::Idle),
            (20, 10, 0, 10, ActionType::Idle),
            (25, 10, 10, 13, ActionType::Scheduled),
        ]
    );
    assert_eq!(
        summary(&r.routes[1].1),
        vec![
            (30, 10, 0, 0, ActionType::Idle),
            (30, 10, 0, 10, ActionType::Scheduled),
            (60, 10, 10, 25, ActionType::Scheduled),
        ]
    );
}

struct Lcg(u64);

impl Lcg {
    fn next(&mut self, bound: i64) -> i64 {
        self.0 = self.0.wrapping_mul(6364136223846793005).wrapping_add(1442695040888963407);
        ((self.0 >> 33) % (bound as u64)) as i64
    }
}

fn x_at(t: i64, v: i64, pts: &[PointST]) -> Option<i64> {
    let i = pts.iter().position(|pt| t < pt.t)?;
    if i == 0 {
        return None;
    }
    let (p1, p2) = (pts[i - 1], pts[i]);
    let dx = p2.x - p1.x;
    let step = (v * (t - p1.t)).min(dx.abs());
    Some(p1.x + dx.signum() * step)
}

fn random_run(seed: u64) {
    let mut rng = Lcg(seed);
    let sds: Vec<i64> = (0..3).map(|_| 10 + rng.next(11)).collect();
    let mut left = vec![0];
    for i in 0..2 {
        left.push(left[i] + sds[i].max(sds[i + 1]));
    }
    let mut right = vec![200];
    for i in (1..3).rev() {
        let last = *right.last().unwrap();
        right.push(last - sds[i].max(sds[i - 1]));
    }
    right.reverse();
    let agents: Vec<Agent> = (0..3)
        .map(|i| Agent {
            name: format!("agent-{}", i),
            position: Coord { x: left[i], y: 10 },
            velocity: ConstVel2D { x: 2, y: 1 },
            safety_x: sds[i],
            order: i as i64,
        })
        .collect();
    let actions: Vec<Action> = (0..100)
        .map(|_| {
            let i = rng.next(3) as usize;
            let x = left[i] + rng.next(right[i] - left[i] + 1);
            let y = rng.next(51);
            scheduled(&agents[i], x, y, 1 + rng.next(19))
        })
        .collect();
    let r = routes(&agents, Schedule { actions }).unwrap();
    let timelines: Vec<Vec<PointST>> =
        r.routes.iter().map(|(_, ps)| ps.iter().flat_map(|p| p.to_points_st()).collect()).collect();
    for (j, (a1, ps)) in r.routes.iter().enumerate() {
        for w in ps.windows(2) {
            assert_eq!(w[0].t_end, w[1].t_start);
        }
        for (k, (a2, _)) in r.routes.iter().enumerate() {
            if j == k {
                continue;
            }
            let sd = a1.safety_x.max(a2.safety_x);
            for p in &timelines[j] {
                if let Some(x2) = x_at(p.t, a2.velocity.x, &timelines[k]) {
                    if a1.order < a2.order {
                        assert!(x2 - p.x >= sd, "seed {} {:?} {} {}", seed, p, x2, sd);
                    } else {
                        assert!(p.x - x2 >= sd, "seed {} {:?} {} {}", seed, p, x2, sd);
                    }
                }
            }
        }
    }
}

#[test]
fn random_schedules_keep_safety_at_samples() {
    for seed in 1..40 {
        random_run(seed);
    }
}
