use dining_philosophers::kitchen::{
    first_fork_id, picks_up_left_first, second_fork_id, Kitchen, WaiterAlgorithm,
};
use dining_philosophers::locked_resource::{LockedResource, TryGetError};
use dining_philosophers::philosopher::{create_philosophers, Philosopher, NUM_PHILOSOPHERS};

fn philosopher(id: usize, left: usize, right: usize) -> Philosopher {
    Philosopher { id, left_fork_id: left, right_fork_id: right, name: format!("p{}", id) }
}

#[test]
fn test_left_right_acquires_smaller_id_first() {
    let p = philosopher(0, 3, 1);
    assert!(!picks_up_left_first(WaiterAlgorithm::LeftRight, &p));
    assert_eq!(first_fork_id(WaiterAlgorithm::LeftRight, &p), 1);
    assert_eq!(second_fork_id(WaiterAlgorithm::LeftRight, &p), 3);

    let q = philosopher(1, 0, 2);
    assert!(picks_up_left_first(WaiterAlgorithm::LeftRight, &q));
    assert_eq!(first_fork_id(WaiterAlgorithm::LeftRight, &q), 0);
}

#[test]
fn test_id_based_order_by_parity() {
    let even = philosopher(2, 2, 3);
    assert!(picks_up_left_first(WaiterAlgorithm::IdBased, &even));
    assert_eq!(first_fork_id(WaiterAlgorithm::IdBased, &even), 2);
    assert_eq!(second_fork_id(WaiterAlgorithm::IdBased, &even), 3);

    let odd = philosopher(3, 3, 0);
    assert!(!picks_up_left_first(WaiterAlgorithm::IdBased, &odd));
    assert_eq!(first_fork_id(WaiterAlgorithm::IdBased, &odd), 0);
    assert_eq!(second_fork_id(WaiterAlgorithm::IdBased, &odd), 3);
}

#[test]
fn test_deadlock_always_takes_left_first() {
    let p = philosopher(5, 3, 1);
    assert!(picks_up_left_first(WaiterAlgorithm::Deadlock, &p));
    assert_eq!(first_fork_id(WaiterAlgorithm::Deadlock, &p), 3);
    assert_eq!(second_fork_id(WaiterAlgorithm::Deadlock, &p), 1);
}

#[test]
fn test_create_philosophers_builds_ring() {
    let philosophers = create_philosophers(4, 4);
    assert_eq!(philosophers.len(), 4);
    for (i, p) in philosophers.iter().enumerate() {
        assert_eq!(p.id, i);
        assert_eq!(p.left_fork_id, i % 4);
        assert_eq!(p.right_fork_id, (i + 1) % 4);
        assert!(!p.name.is_empty());
    }
    assert_eq!(philosophers[0].name, "Jürgen Habermas");
}

#[test]
fn test_create_philosophers_caps_at_roster_size() {
    let philosophers = create_philosophers(100, 4);
    assert_eq!(philosophers.len(), NUM_PHILOSOPHERS);
    let two = create_philosophers(2, 4);
    assert_eq!(two.len(), 2);
}

#[test]
fn test_locked_resource_try_get_reports_would_block() {
    let resource = LockedResource::new(7u64);
    let held = resource.get();
    assert_eq!(*held.read(), 7);
    match resource.try_get() {
        Err(TryGetError::WouldBlock) => {}
        _ => panic!("a held resource must not be acquirable"),
    }
    drop(held);
    let reacquired = resource.try_get().expect("free resource must be acquirable");
    assert_eq!(*reacquired.read(), 7);
}

#[test]
fn test_get_forks_returns_requested_forks_in_place() {
    let kitchen = Kitchen::new(4, WaiterAlgorithm::LeftRight);
    let p = philosopher(0, 3, 1);
    let forks = kitchen.waiter().get_forks(&p);
    assert_eq!(forks.0.read().id, 3);
    assert_eq!(forks.1.read().id, 1);
}

#[test]
fn test_greedy_get_forks_returns_two_distinct_forks() {
    let kitchen = Kitchen::new(4, WaiterAlgorithm::Greedy);
    let p = philosopher(0, 0, 1);
    let forks = kitchen.waiter().get_forks(&p);
    let a = forks.0.read().id;
    let b = forks.1.read().id;
    assert_ne!(a, b);
    assert!(a < 4 && b < 4);
}
