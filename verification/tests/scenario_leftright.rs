// Four philosophers, four forks in a closed ring, smaller-id-first ordering:
// the global total order on forks precludes a circular wait, so the run
// terminates.

use dining_philosophers::kitchen::{Kitchen, WaiterAlgorithm};
use dining_philosophers::philosopher::create_philosophers;
use std::sync::mpsc;
use std::sync::{Arc, Barrier};
use std::time::Duration;

#[test]
fn test_left_right_ring_terminates() {
    let kitchen = Arc::new(Kitchen::new(4, WaiterAlgorithm::LeftRight));
    let philosophers = create_philosophers(4, 4);
    let barrier = Arc::new(Barrier::new(4));
    let (tx, rx) = mpsc::channel();
    let pool = threadpool::ThreadPool::new(4);
    for philosopher in philosophers {
        let kitchen = Arc::clone(&kitchen);
        let barrier = Arc::clone(&barrier);
        let tx = tx.clone();
        pool.execute(move || {
            barrier.wait();
            let forks = kitchen.waiter().get_forks(&philosopher);
            assert_eq!(forks.0.read().id, philosopher.left_fork_id);
            assert_eq!(forks.1.read().id, philosopher.right_fork_id);
            tx.send(philosopher.id).unwrap();
        });
    }
    drop(tx);
    for _ in 0..4 {
        rx.recv_timeout(Duration::from_secs(10)).expect("the ordered ring must terminate");
    }
    pool.join();
}
