use dining_philosophers::agent::{Philosopher, Policy};
use dining_philosophers::authors::{get_authors, Author};
use dining_philosophers::config::{init_philosophers, validate, ConfigurationError, Descriptor};
use dining_philosophers::harness::{run, Event, EventKind, Phase, StepOutcome, Table};
use dining_philosophers::pixel::extrax_rgb;
use dining_philosophers::pool::{init_forks, AcquisitionFailure, Pool, TABLE_FORKS};

fn descriptors(pairs: &[(usize, usize)]) -> Vec<Descriptor> {
    pairs
        .iter()
        .enumerate()
        .map(|(i, &(a, b))| Descriptor::new(&format!("p{}", i), a, b))
        .collect()
}

fn table(pairs: &[(usize, usize)], forks: u32, policy: Policy) -> Table {
    let agents = validate(&descriptors(pairs), forks as usize).unwrap();
    Table::new(agents, forks, policy)
}

/// Replays a log and checks that no fork is picked up while someone holds it
/// and that only its holder puts it down.
fn replay_is_exclusive(events: &[Event], forks: usize) -> bool {
    let mut holder: Vec<Option<u32>> = vec![None; forks];
    for e in events {
        match e.kind {
            EventKind::Acquired => {
                if holder[e.resource].is_some() {
                    return false;
                }
                holder[e.resource] = Some(e.agent);
            }
            EventKind::Released => {
                if holder[e.resource] != Some(e.agent) {
                    return false;
                }
                holder[e.resource] = None;
            }
        }
    }
    true
}

fn kinds(log: &[Event]) -> Vec<(EventKind, usize)> {
    log.iter().map(|e| (e.kind, e.resource)).collect()
}

#[test]
fn init_forks_gives_four_free_forks_in_order() {
    let forks = init_forks();
    assert_eq!(forks.len(), 4);
    assert_eq!(TABLE_FORKS, 4);
    for (i, f) in forks.iter().enumerate() {
        assert_eq!(f.id, i as u32);
        assert_eq!(f.holder, None);
        assert!(!f.poisoned);
    }
}

#[test]
fn pool_initialize_makes_requested_size() {
    let pool = Pool::initialize(7);
    assert_eq!(pool.forks.len(), 7);
    assert_eq!(pool.forks[6].id, 6);
    assert!(pool.forks.iter().all(|f| f.holder.is_none() && !f.poisoned));
    assert_eq!(Pool::initialize(0).forks.len(), 0);
}

#[test]
fn try_acquire_takes_free_fork_and_refuses_held_one() {
    let mut pool = Pool::initialize(2);
    assert_eq!(pool.try_acquire(1, 5), Ok(true));
    assert_eq!(pool.forks[1].holder, Some(5));
    assert_eq!(pool.try_acquire(1, 6), Ok(false));
    assert_eq!(pool.forks[1].holder, Some(5));
    pool.release(1, false);
    assert_eq!(pool.forks[1].holder, None);
    assert_eq!(pool.try_acquire(1, 6), Ok(true));
    assert_eq!(pool.forks[1].holder, Some(6));
}

#[test]
fn poisoned_fork_fails_acquisition() {
    let mut pool = Pool::initialize(3);
    assert_eq!(pool.try_acquire(2, 0), Ok(true));
    pool.release(2, true);
    assert!(pool.forks[2].poisoned);
    assert_eq!(pool.try_acquire(2, 1), Err(AcquisitionFailure { fork: 2 }));
    assert_eq!(pool.forks[2].holder, None);
}

#[test]
fn reset_frees_every_fork_whatever_the_previous_run_left() {
    let mut pool = Pool::initialize(4);
    assert_eq!(pool.try_acquire(0, 1), Ok(true));
    assert_eq!(pool.try_acquire(3, 2), Ok(true));
    pool.release(3, true);
    pool.reset();
    assert_eq!(pool.forks.len(), 4);
    for (i, f) in pool.forks.iter().enumerate() {
        assert_eq!(f.id, i as u32);
        assert_eq!(f.holder, None);
        assert!(!f.poisoned);
    }
}

#[test]
fn philosopher_new_keeps_its_fields() {
    let p = Philosopher::new(3, "Plato", 2, 3);
    assert_eq!(p.id, 3);
    assert_eq!(p.name, "Plato");
    assert_eq!(p.left_fork, 2);
    assert_eq!(p.right_fork, 3);
}

#[test]
fn global_order_picks_lower_fork_first() {
    let p = Philosopher::new(2, "Thomas Piketty", 3, 0);
    assert_eq!(p.acquisition_order(Policy::GlobalOrder), (0, 3));
    let q = Philosopher::new(1, "Socrates", 1, 2);
    assert_eq!(q.acquisition_order(Policy::GlobalOrder), (1, 2));
}

#[test]
fn parity_order_follows_id() {
    let even = Philosopher::new(2, "Thomas Piketty", 3, 0);
    assert_eq!(even.acquisition_order(Policy::Parity), (3, 0));
    let odd = Philosopher::new(1, "Friedrich Engels", 1, 2);
    assert_eq!(odd.acquisition_order(Policy::Parity), (2, 1));
}

#[test]
fn classic_table_has_twenty_nine_philosophers_on_four_forks() {
    let ds = init_philosophers();
    assert_eq!(ds.len(), 29);
    assert_eq!(ds[0].name, "Hans Gadamer");
    assert_eq!((ds[2].resource_a, ds[2].resource_b), (3, 0));
    assert_eq!(ds[28].name, "Epicuro");
    assert!(ds.iter().all(|d| d.resource_a < 4 && d.resource_b < 4));
}

#[test]
fn validate_builds_philosophers_in_order() {
    let ds = descriptors(&[(0, 1), (1, 2)]);
    let ps = validate(&ds, 3).unwrap();
    assert_eq!(ps.len(), 2);
    assert_eq!(ps[1].id, 1);
    assert_eq!(ps[1].name, "p1");
    assert_eq!((ps[1].left_fork, ps[1].right_fork), (1, 2));
}

#[test]
fn resource_a_equal_to_pool_size_is_a_configuration_error() {
    let ds = descriptors(&[(0, 1), (4, 1), (9, 9)]);
    let err = validate(&ds, 4).err().unwrap();
    assert_eq!(err, ConfigurationError { agent: 1, resource: 4 });
    let r = run(&ds, 4, Policy::GlobalOrder);
    assert_eq!(r.err(), Some(ConfigurationError { agent: 1, resource: 4 }));
}

#[test]
fn resource_b_out_of_range_is_a_configuration_error() {
    let ds = descriptors(&[(0, 5)]);
    assert_eq!(validate(&ds, 4).err(), Some(ConfigurationError { agent: 0, resource: 5 }));
}

#[test]
fn single_philosopher_eats_without_waiting() {
    let ds = descriptors(&[(0, 1)]);
    let res = run(&ds, 2, Policy::GlobalOrder).unwrap();
    assert!(res.completed);
    assert_eq!(res.phases, vec![Phase::Done]);
    assert_eq!(res.events.len(), 4);
    assert_eq!(res.total_duration, 3);
    assert_eq!(
        kinds(&res.events),
        vec![
            (EventKind::Acquired, 0),
            (EventKind::Acquired, 1),
            (EventKind::Released, 1),
            (EventKind::Released, 0),
        ]
    );
    for fork in 0..2 {
        let acquired = res.events.iter().filter(|e| e.resource == fork && e.kind == EventKind::Acquired).count();
        let released = res.events.iter().filter(|e| e.resource == fork && e.kind == EventKind::Released).count();
        assert_eq!((acquired, released), (1, 1));
    }
}

#[test]
fn full_cycle_completes_under_global_order() {
    let pairs: Vec<(usize, usize)> = (0..4).map(|i| (i, (i + 1) % 4)).collect();
    let res = run(&descriptors(&pairs), 4, Policy::GlobalOrder).unwrap();
    assert!(res.completed);
    assert!(res.phases.iter().all(|p| *p == Phase::Done));
    assert_eq!(res.events.len(), 16);
    assert!(replay_is_exclusive(&res.events, 4));
    for (i, &(a, b)) in pairs.iter().enumerate() {
        let log = res.agent_log(i as u32);
        let (f, s) = if a < b { (a, b) } else { (b, a) };
        assert_eq!(
            kinds(&log),
            vec![
                (EventKind::Acquired, f),
                (EventKind::Acquired, s),
                (EventKind::Released, s),
                (EventKind::Released, f),
            ]
        );
        for fork in [a, b] {
            let acquired = log.iter().filter(|e| e.resource == fork && e.kind == EventKind::Acquired).count();
            let released = log.iter().filter(|e| e.resource == fork && e.kind == EventKind::Released).count();
            assert_eq!((acquired, released), (1, 1));
        }
    }
}

#[test]
fn parity_policy_can_deadlock() {
    // Philosopher 0 (even) takes fork 0 then 1, philosopher 1 (odd) takes
    // fork 1 then 0: each ends up holding the fork the other waits for.
    let mut t = table(&[(0, 1), (0, 1)], 2, Policy::Parity);
    assert_eq!(t.step(0), StepOutcome::Progressed);
    assert_eq!(t.step(1), StepOutcome::Progressed);
    assert_eq!(t.phases, vec![Phase::HoldingFirst, Phase::HoldingFirst]);
    assert_eq!(t.step(0), StepOutcome::Blocked);
    assert_eq!(t.step(1), StepOutcome::Blocked);
    assert!(t.is_stuck());
    assert_eq!(t.find_enabled(), None);
    assert!(!t.run_to_completion());
    assert_eq!(t.phases, vec![Phase::HoldingFirst, Phase::HoldingFirst]);
}

#[test]
fn global_order_cannot_be_driven_into_the_same_deadlock() {
    let mut t = table(&[(0, 1), (0, 1)], 2, Policy::GlobalOrder);
    assert_eq!(t.step(0), StepOutcome::Progressed);
    assert_eq!(t.step(1), StepOutcome::Blocked);
    assert!(!t.is_stuck());
    assert!(t.run_to_completion());
    assert_eq!(t.phases, vec![Phase::Done, Phase::Done]);
}

#[test]
fn classic_table_completes_under_global_order() {
    let res = run(&init_philosophers(), 4, Policy::GlobalOrder).unwrap();
    assert!(res.completed);
    assert_eq!(res.phases.len(), 29);
    assert_eq!(res.events.len(), 29 * 4);
    assert!(res.total_duration <= 3 * 29);
    assert!(replay_is_exclusive(&res.events, 4));
}

#[test]
fn interleaved_steps_keep_the_log_exclusive() {
    let pairs = [(0, 1), (1, 2), (2, 0), (0, 2), (1, 0)];
    let mut t = table(&pairs, 3, Policy::GlobalOrder);
    for round in 0..6 {
        for i in (0..pairs.len()).rev() {
            if (i + round) % 2 == 0 {
                t.step(i);
            }
        }
    }
    assert!(t.run_to_completion());
    assert!(replay_is_exclusive(&t.events, 3));
    assert!(t.pool.forks.iter().all(|f| f.holder.is_none()));
}

#[test]
fn failure_while_holding_poisons_forks_for_the_next_contender() {
    let mut t = table(&[(0, 1), (1, 2)], 3, Policy::GlobalOrder);
    assert_eq!(t.step(0), StepOutcome::Progressed);
    assert_eq!(t.step(0), StepOutcome::Progressed);
    assert_eq!(t.phases[0], Phase::HoldingBoth);
    assert!(t.fail(0));
    assert_eq!(t.phases[0], Phase::Failed);
    assert!(t.pool.forks[0].poisoned && t.pool.forks[1].poisoned);
    assert!(!t.pool.forks[2].poisoned);
    assert!(!t.fail(0));
    // Philosopher 1 picks up fork 1 first and fails on it without taking
    // anything.
    assert_eq!(t.step(1), StepOutcome::Progressed);
    assert_eq!(t.phases[1], Phase::Failed);
    assert_eq!(t.step(1), StepOutcome::Finished);
    assert!(t.run_to_completion());
    assert!(replay_is_exclusive(&t.events, 3));
    assert!(t.pool.forks.iter().all(|f| f.holder.is_none()));
}

#[test]
fn poisoned_second_fork_releases_the_first() {
    let mut t = table(&[(1, 2), (0, 1)], 3, Policy::GlobalOrder);
    assert_eq!(t.step(0), StepOutcome::Progressed);
    assert!(t.fail(0));
    assert!(t.pool.forks[1].poisoned);
    // Philosopher 1 takes fork 0, then fails on poisoned fork 1 and puts
    // fork 0 back down.
    assert_eq!(t.step(1), StepOutcome::Progressed);
    assert_eq!(t.step(1), StepOutcome::Progressed);
    assert_eq!(t.phases[1], Phase::Failed);
    assert_eq!(t.pool.forks[0].holder, None);
    assert!(!t.pool.forks[0].poisoned);
    let last = t.events[t.events.len() - 1];
    assert_eq!((last.agent, last.kind, last.resource), (1, EventKind::Released, 0));
}

#[test]
fn extrax_rgb_drops_alpha() {
    assert_eq!(extrax_rgb([10, 20, 30, 255]), (10, 20, 30));
}

#[test]
fn author_new_keeps_name() {
    assert_eq!(Author::new("Dante").name, "Dante");
    assert_eq!(Author::new("Homer").name, "Homer");
    let authors = get_authors();
    assert_eq!(authors.len(), 6);
    assert_eq!(authors[5].name, "Shakespeare");
}
