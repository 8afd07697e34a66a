// Four philosophers, four forks in a closed ring, id-based ordering: the run
// terminates, and each philosopher records exactly one eat-start and one
// eat-finish.

use dining_philosophers::kitchen::{Kitchen, WaiterAlgorithm};
use dining_philosophers::philosopher::create_philosophers;
use std::sync::mpsc;
use std::sync::{Arc, Barrier};
use std::time::Duration;

#[derive(Debug, Clone, Copy, PartialEq, Eq)]
enum Event {
    Start(usize),
    Finish(usize),
}

#[test]
fn test_id_based_ring_terminates() {
    let kitchen = Arc::new(Kitchen::new(4, WaiterAlgorithm::IdBased));
    let philosophers = create_philosophers(4, 4);
    let barrier = Arc::new(Barrier::new(4));
    let (tx, rx) = mpsc::channel();
    let pool = threadpool::ThreadPool::new(4);
    for philosopher in philosophers {
        let kitchen = Arc::clone(&kitchen);
        let barrier = Arc::clone(&barrier);
        let tx = tx.clone();
        pool.execute(move || {
            barrier.wait();
            let forks = kitchen.waiter().get_forks(&philosopher);
            tx.send(Event::Start(philosopher.id)).unwrap();
            assert_eq!(forks.0.read().id, philosopher.left_fork_id);
            assert_eq!(forks.1.read().id, philosopher.right_fork_id);
            tx.send(Event::Finish(philosopher.id)).unwrap();
        });
    }
    drop(tx);
    let mut starts = [0usize; 4];
    let mut finishes = [0usize; 4];
    for _ in 0..8 {
        match rx.recv_timeout(Duration::from_secs(10)) {
            Ok(Event::Start(id)) => starts[id] += 1,
            Ok(Event::Finish(id)) => finishes[id] += 1,
            Err(e) => panic!("the id-based ring must terminate: {:?}", e),
        }
    }
    assert_eq!(starts, [1, 1, 1, 1]);
    assert_eq!(finishes, [1, 1, 1, 1]);
    pool.join();
}
