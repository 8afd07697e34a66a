// Four philosophers, four forks in a closed ring, everyone grabbing the left
// fork first: once each one holds its first fork, nobody can get a second.
// The run must not finish within the observation window, and zero finish
// events are recorded in it.

use dining_philosophers::kitchen::{first_fork_id, second_fork_id, Fork, WaiterAlgorithm};
use dining_philosophers::locked_resource::LockedResource;
use dining_philosophers::philosopher::create_philosophers;
use std::sync::mpsc;
use std::sync::{Arc, Barrier};
use std::time::Duration;

#[test]
fn test_deadlock_ring_does_not_terminate() {
    let forks: Arc<Vec<LockedResource<Fork>>> =
        Arc::new((0..4).map(|id| LockedResource::new(Fork { id })).collect());
    let philosophers = create_philosophers(4, 4);
    let barrier = Arc::new(Barrier::new(4));
    let (tx, rx) = mpsc::channel();
    let pool = threadpool::ThreadPool::new(4);
    for philosopher in philosophers {
        let forks = Arc::clone(&forks);
        let barrier = Arc::clone(&barrier);
        let tx = tx.clone();
        pool.execute(move || {
            let first = first_fork_id(WaiterAlgorithm::Deadlock, &philosopher);
            let second = second_fork_id(WaiterAlgorithm::Deadlock, &philosopher);
            assert_eq!(first, philosopher.left_fork_id);
            assert_eq!(second, philosopher.right_fork_id);
            let first_held = forks[first].get();
            assert_eq!(first_held.read().id, first);
            // Every philosopher now holds its left fork: the circular wait.
            barrier.wait();
            let second_held = forks[second].get();
            // Unreachable: the second fork is the next philosopher's held first.
            tx.send((philosopher.id, second_held.read().id)).unwrap();
        });
    }
    drop(tx);
    match rx.recv_timeout(Duration::from_secs(2)) {
        Err(mpsc::RecvTimeoutError::Timeout) => {}
        other => panic!("the deadlocked ring must record no finish event, got {:?}", other),
    }
    // The pool's workers stay blocked forever; the process ends without them.
}
