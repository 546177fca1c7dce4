use navmesh::agent::{AgentError, AgentState, NavmeshAgent};
use navmesh::geometry::{distance_squared, Point3};
use navmesh::mesh::{IndexTriple, Navmesh, PathError};

fn arena() -> Navmesh {
    let vertices = vec![
        Point3::new(-1000, 0, 1000),
        Point3::new(1000, 0, 1000),
        Point3::new(1000, 0, -1000),
        Point3::new(-1000, 0, -1000),
    ];
    let triangles = vec![IndexTriple::new(0, 1, 2), IndexTriple::new(0, 2, 3)];
    Navmesh::new(triangles, vertices).unwrap()
}

fn two_islands() -> Navmesh {
    let vertices = vec![
        Point3::new(0, 0, 0),
        Point3::new(100, 0, 0),
        Point3::new(0, 0, 100),
        Point3::new(1000, 0, 0),
        Point3::new(1100, 0, 0),
        Point3::new(1000, 0, 100),
    ];
    let triangles = vec![IndexTriple::new(0, 1, 2), IndexTriple::new(3, 4, 5)];
    Navmesh::new(triangles, vertices).unwrap()
}

fn l_shape() -> Navmesh {
    let vertices = vec![
        Point3::new(0, 0, 0),
        Point3::new(1000, 0, 0),
        Point3::new(1000, 0, 1000),
        Point3::new(0, 0, 1000),
        Point3::new(2000, 0, 0),
        Point3::new(2000, 0, 1000),
        Point3::new(2000, 0, 2000),
        Point3::new(1000, 0, 2000),
    ];
    let triangles = vec![
        IndexTriple::new(0, 1, 2),
        IndexTriple::new(0, 2, 3),
        IndexTriple::new(1, 4, 5),
        IndexTriple::new(1, 5, 2),
        IndexTriple::new(2, 5, 6),
        IndexTriple::new(2, 6, 7),
    ];
    Navmesh::new(triangles, vertices).unwrap()
}

#[test]
fn new_agent_is_idle_where_it_was_put() {
    let agent = NavmeshAgent::new(Point3::new(1, 2, 3), 1000);
    assert_eq!(agent.position(), Point3::new(1, 2, 3));
    assert_eq!(agent.target(), Point3::new(1, 2, 3));
    assert_eq!(agent.speed(), 1000);
    assert!(agent.is_idle());
    assert!(!agent.is_following());
    assert!(!agent.is_stuck());
}

#[test]
fn set_speed_and_target_are_recorded() {
    let mut agent = NavmeshAgent::new(Point3::new(0, 0, 0), 1);
    agent.set_speed(250);
    agent.set_target(Point3::new(5, 6, 7));
    assert_eq!(agent.speed(), 250);
    assert_eq!(agent.target(), Point3::new(5, 6, 7));
    assert_eq!(agent.position(), Point3::new(0, 0, 0));
    assert!(agent.is_idle());
}

#[test]
fn agent_reaches_its_target_in_finitely_many_ticks() {
    let mut mesh = arena();
    let start = Point3::new(900, 0, 900);
    let target = Point3::new(-900, 0, -900);
    let mut agent = NavmeshAgent::new(start, 1000);
    agent.set_target(target);
    let mut ticks = 0;
    loop {
        let before = agent.position();
        assert_eq!(agent.update(16, &mut mesh), Ok(()));
        ticks += 1;
        let after = agent.position();
        assert!(distance_squared(after, before) <= 16 * 16);
        if agent.is_idle() {
            break;
        }
        assert!(agent.is_following());
        assert!(distance_squared(after, target) < distance_squared(before, target));
        assert!(ticks < 1000);
    }
    assert_eq!(agent.position(), target);
    assert!(ticks >= 160);
}

#[test]
fn agent_walks_around_a_corner() {
    let mut mesh = l_shape();
    let start = Point3::new(200, 0, 800);
    let target = Point3::new(1200, 0, 1800);
    let corner = Point3::new(1000, 0, 1000);
    let mut agent = NavmeshAgent::new(start, 2000);
    agent.set_target(target);
    let mut seen_corner = false;
    let mut ticks = 0;
    while ticks < 1000 {
        assert_eq!(agent.update(10, &mut mesh), Ok(()));
        ticks += 1;
        if agent.position() == corner {
            seen_corner = true;
        }
        if agent.is_idle() {
            break;
        }
    }
    assert!(seen_corner);
    assert_eq!(agent.position(), target);
}

#[test]
fn slow_agent_still_arrives() {
    let mut mesh = arena();
    let start = Point3::new(0, 0, 0);
    let target = Point3::new(5, 0, 5);
    let mut agent = NavmeshAgent::new(start, 1000);
    agent.set_target(target);
    let mut ticks = 0;
    while ticks < 100 {
        assert_eq!(agent.update(1, &mut mesh), Ok(()));
        ticks += 1;
        if agent.is_idle() {
            break;
        }
    }
    assert_eq!(agent.position(), target);
    assert_eq!(ticks, 10);
}

#[test]
fn agent_without_speed_does_not_move() {
    let mut mesh = arena();
    let start = Point3::new(0, 0, 0);
    let mut agent = NavmeshAgent::new(start, 0);
    agent.set_target(Point3::new(500, 0, 500));
    for _ in 0..10 {
        assert_eq!(agent.update(16, &mut mesh), Ok(()));
        assert_eq!(agent.position(), start);
        assert!(agent.is_following());
    }
}

#[test]
fn arrival_tolerance_ends_the_walk_early() {
    let mut mesh = arena();
    let start = Point3::new(0, 0, 0);
    let target = Point3::new(100, 0, 0);
    let mut agent = NavmeshAgent::new(start, 1000);
    agent.set_arrival_tolerance(30);
    agent.set_target(target);
    let mut ticks = 0;
    while ticks < 100 {
        assert_eq!(agent.update(20, &mut mesh), Ok(()));
        ticks += 1;
        if agent.is_idle() {
            break;
        }
    }
    assert_eq!(ticks, 4);
    assert_eq!(agent.position(), Point3::new(80, 0, 0));
    assert!(distance_squared(agent.position(), target) <= 30 * 30);
}

#[test]
fn agent_without_a_path_is_stuck_and_stays_put() {
    let mut mesh = two_islands();
    let start = Point3::new(10, 0, 10);
    let mut agent = NavmeshAgent::new(start, 1000);
    agent.set_target(Point3::new(1010, 0, 10));
    for _ in 0..200 {
        assert_eq!(agent.update(16, &mut mesh), Err(AgentError::Planning(PathError::NoPath)));
        assert!(agent.is_stuck());
        assert_eq!(agent.position(), start);
    }
}

#[test]
fn stuck_agent_recovers_when_the_target_changes() {
    let mut mesh = two_islands();
    let start = Point3::new(10, 0, 10);
    let mut agent = NavmeshAgent::new(start, 1000);
    agent.set_target(Point3::new(1010, 0, 10));
    assert!(agent.update(16, &mut mesh).is_err());
    assert!(agent.is_stuck());
    agent.set_target(Point3::new(40, 0, 10));
    assert_eq!(agent.update(16, &mut mesh), Ok(()));
    assert!(agent.is_following());
    assert_eq!(agent.position(), Point3::new(26, 0, 10));
    assert_eq!(agent.update(16, &mut mesh), Ok(()));
    assert!(agent.is_idle());
    assert_eq!(agent.position(), Point3::new(40, 0, 10));
}

#[test]
fn stuck_agent_retries_after_the_retry_interval() {
    let mut islands = two_islands();
    let start = Point3::new(10, 0, 10);
    let mut agent = NavmeshAgent::new(start, 1000);
    agent.set_retry_interval(100);
    agent.set_replan_threshold(5000);
    agent.set_target(Point3::new(1010, 0, 10));
    assert!(agent.update(40, &mut islands).is_err());
    let mut joined = {
        let vertices = vec![
            Point3::new(0, 0, 0),
            Point3::new(2000, 0, 0),
            Point3::new(0, 0, 2000),
        ];
        Navmesh::new(vec![IndexTriple::new(0, 1, 2)], vertices).unwrap()
    };
    assert!(agent.update(40, &mut joined).is_err());
    assert_eq!(agent.position(), start);
    assert!(agent.update(40, &mut joined).is_err());
    assert_eq!(agent.position(), start);
    assert_eq!(agent.update(40, &mut joined), Ok(()));
    assert!(agent.is_following());
    assert_eq!(agent.position(), Point3::new(50, 0, 10));
}

#[test]
fn agent_on_an_empty_mesh_is_stuck() {
    let mut mesh = Navmesh::empty();
    let mut agent = NavmeshAgent::new(Point3::new(0, 0, 0), 1000);
    agent.set_target(Point3::new(10, 0, 0));
    assert_eq!(agent.update(16, &mut mesh), Err(AgentError::Planning(PathError::EmptyMesh)));
    assert!(agent.is_stuck());
    assert_eq!(agent.position(), Point3::new(0, 0, 0));
}

#[test]
fn moving_target_does_not_snap_the_agent_back() {
    let mut mesh = arena();
    let start = Point3::new(900, 0, 900);
    let mut agent = NavmeshAgent::new(start, 1000);
    agent.set_target(Point3::new(-900, 0, -900));
    for _ in 0..40 {
        assert_eq!(agent.update(16, &mut mesh), Ok(()));
    }
    let before = agent.position();
    assert_ne!(before, start);
    agent.set_target(Point3::new(900, 0, -900));
    assert_eq!(agent.update(16, &mut mesh), Ok(()));
    let after = agent.position();
    assert!(distance_squared(after, before) <= 16 * 16);
    assert!(distance_squared(after, Point3::new(900, 0, -900)) < distance_squared(before, Point3::new(900, 0, -900)));
    let mut ticks = 0;
    while !agent.is_idle() && ticks < 1000 {
        assert_eq!(agent.update(16, &mut mesh), Ok(()));
        ticks += 1;
    }
    assert_eq!(agent.position(), Point3::new(900, 0, -900));
}

#[test]
fn small_target_moves_keep_the_path_until_it_is_walked() {
    let mut mesh = arena();
    let start = Point3::new(0, 0, 0);
    let first = Point3::new(100, 0, 0);
    let second = Point3::new(100, 0, 30);
    let mut agent = NavmeshAgent::new(start, 1000);
    agent.set_replan_threshold(50);
    agent.set_target(first);
    assert_eq!(agent.update(50, &mut mesh), Ok(()));
    assert_eq!(agent.position(), Point3::new(50, 0, 0));
    agent.set_target(second);
    assert_eq!(agent.update(50, &mut mesh), Ok(()));
    assert_eq!(agent.position(), first);
    assert!(agent.is_idle());
    assert_eq!(agent.update(50, &mut mesh), Ok(()));
    assert_eq!(agent.position(), second);
    assert!(agent.is_idle());
}

#[test]
fn large_target_moves_replan_at_once() {
    let mut mesh = arena();
    let start = Point3::new(0, 0, 0);
    let mut agent = NavmeshAgent::new(start, 1000);
    agent.set_replan_threshold(50);
    agent.set_target(Point3::new(100, 0, 0));
    assert_eq!(agent.update(50, &mut mesh), Ok(()));
    assert_eq!(agent.position(), Point3::new(50, 0, 0));
    agent.set_target(Point3::new(50, 0, 100));
    assert_eq!(agent.update(50, &mut mesh), Ok(()));
    assert_eq!(agent.position(), Point3::new(50, 0, 50));
}

#[test]
fn idle_agent_at_its_target_stays() {
    let mut mesh = arena();
    let here = Point3::new(10, 0, 10);
    let mut agent = NavmeshAgent::new(here, 1000);
    for _ in 0..5 {
        assert_eq!(agent.update(16, &mut mesh), Ok(()));
        assert!(agent.is_idle());
        assert_eq!(agent.position(), here);
    }
}

#[test]
fn state_shows_the_path_and_the_cursor() {
    let mut mesh = arena();
    let start = Point3::new(0, 0, 0);
    let target = Point3::new(100, 0, 0);
    let mut agent = NavmeshAgent::new(start, 1000);
    assert!(matches!(agent.state(), AgentState::Idle));
    agent.set_target(target);
    assert_eq!(agent.update(10, &mut mesh), Ok(()));
    match agent.state() {
        AgentState::Following { path, cursor } => {
            assert_eq!(path, &vec![start, target]);
            assert_eq!(*cursor, 1);
        }
        other => panic!("unexpected state {:?}", other),
    }
    let mut none = Navmesh::empty();
    agent.set_target(Point3::new(0, 0, 100));
    assert!(agent.update(10, &mut none).is_err());
    match agent.state() {
        AgentState::Stuck { cause, waited } => {
            assert_eq!(*cause, PathError::EmptyMesh);
            assert_eq!(*waited, 0);
        }
        other => panic!("unexpected state {:?}", other),
    }
    assert!(agent.update(10, &mut none).is_err());
    assert!(matches!(agent.state(), AgentState::Stuck { waited: 10, .. }));
}

#[test]
fn agent_with_a_step_below_one_grid_unit_arrives() {
    let mut mesh = arena();
    let start = Point3::new(0, 0, 0);
    let target = Point3::new(1, 0, 1);
    let mut agent = NavmeshAgent::new(start, 999);
    agent.set_target(target);
    assert_eq!(agent.update(1, &mut mesh), Ok(()));
    assert_eq!(agent.position(), start);
    assert!(agent.is_following());
    assert_eq!(agent.update(1, &mut mesh), Ok(()));
    assert_eq!(agent.position(), Point3::new(1, 0, 0));
    assert!(agent.is_following());
    assert_eq!(agent.update(1, &mut mesh), Ok(()));
    assert_eq!(agent.position(), target);
    assert!(agent.is_idle());
}

#[test]
fn slowest_agent_covers_one_grid_unit_in_a_thousand_ticks() {
    let mut mesh = arena();
    let start = Point3::new(0, 0, 0);
    let target = Point3::new(3, 0, 0);
    let mut agent = NavmeshAgent::new(start, 1);
    agent.set_target(target);
    for tick in 1..=3000 {
        assert_eq!(agent.update(1, &mut mesh), Ok(()));
        assert_eq!(agent.position(), Point3::new(tick / 1000, 0, 0));
        assert_eq!(agent.is_idle(), tick == 3000);
    }
}

#[test]
fn sixty_ticks_a_second_cover_the_speed() {
    let mut mesh = arena();
    let start = Point3::new(-500, 0, 0);
    let target = Point3::new(500, 0, 0);
    let mut agent = NavmeshAgent::new(start, 1);
    agent.set_target(target);
    let mut walked: u128 = 0;
    let mut ticks: u64 = 0;
    while !agent.is_idle() || ticks == 0 {
        let before = agent.position();
        assert_eq!(agent.update(17, &mut mesh), Ok(()));
        ticks += 1;
        let moved = distance_squared(agent.position(), before);
        assert!(moved <= 1);
        walked += moved;
        assert!(walked * 1000 <= ticks as u128 * 17);
        assert!(ticks < 100_000);
    }
    assert_eq!(agent.position(), target);
    assert_eq!(walked, 1000);
    assert_eq!(ticks, 58_824);
}

#[test]
fn what_is_left_over_is_dropped_when_the_agent_comes_to_rest() {
    let mut mesh = arena();
    let mut agent = NavmeshAgent::new(Point3::new(0, 0, 0), 1500);
    agent.set_target(Point3::new(1, 0, 0));
    assert_eq!(agent.update(1, &mut mesh), Ok(()));
    assert!(agent.is_idle());
    agent.set_speed(500);
    agent.set_target(Point3::new(2, 0, 0));
    assert_eq!(agent.update(1, &mut mesh), Ok(()));
    assert_eq!(agent.position(), Point3::new(1, 0, 0));
    assert_eq!(agent.update(1, &mut mesh), Ok(()));
    assert_eq!(agent.position(), Point3::new(2, 0, 0));
    assert!(agent.is_idle());
}
