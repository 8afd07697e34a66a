// Two philosophers, four forks, greedy allocation: both complete, exactly
// four acquisition events occur, no fork id is ever held twice at once.

use dining_philosophers::kitchen::{Kitchen, WaiterAlgorithm};
use dining_philosophers::philosopher::create_philosophers;
use std::sync::mpsc;
use std::sync::{Arc, Barrier, Mutex};
use std::time::Duration;

#[test]
fn test_greedy_two_philosophers_complete() {
    let kitchen = Arc::new(Kitchen::new(4, WaiterAlgorithm::Greedy));
    let philosophers = create_philosophers(2, 4);
    let barrier = Arc::new(Barrier::new(2));
    let held_ids: Arc<Mutex<Vec<usize>>> = Arc::new(Mutex::new(Vec::new()));
    let (tx, rx) = mpsc::channel();
    let pool = threadpool::ThreadPool::new(2);
    for philosopher in philosophers {
        let kitchen = Arc::clone(&kitchen);
        let barrier = Arc::clone(&barrier);
        let held_ids = Arc::clone(&held_ids);
        let tx = tx.clone();
        pool.execute(move || {
            barrier.wait();
            let forks = kitchen.waiter().get_forks(&philosopher);
            let a = forks.0.read().id;
            let b = forks.1.read().id;
            // The same fork id is never acquired twice for one philosopher.
            assert_ne!(a, b);
            {
                let mut held = held_ids.lock().unwrap();
                // No fork id is double-held at any instant.
                assert!(!held.contains(&a));
                assert!(!held.contains(&b));
                held.push(a);
                held.push(b);
            }
            {
                let mut held = held_ids.lock().unwrap();
                held.retain(|id| *id != a && *id != b);
            }
            tx.send((philosopher.id, a, b)).unwrap();
        });
    }
    drop(tx);
    let mut acquisitions = 0;
    for _ in 0..2 {
        match rx.recv_timeout(Duration::from_secs(10)) {
            Ok((_, a, b)) => {
                assert_ne!(a, b);
                acquisitions += 2;
            }
            Err(e) => panic!("both greedy philosophers must complete: {:?}", e),
        }
    }
    assert_eq!(acquisitions, 4);
    pool.join();
}

#[test]
fn test_greedy_full_ring_terminates() {
    let kitchen = Arc::new(Kitchen::new(4, WaiterAlgorithm::Greedy));
    let philosophers = create_philosophers(4, 4);
    let (tx, rx) = mpsc::channel();
    let pool = threadpool::ThreadPool::new(4);
    for philosopher in philosophers {
        let kitchen = Arc::clone(&kitchen);
        let tx = tx.clone();
        pool.execute(move || {
            let forks = kitchen.waiter().get_forks(&philosopher);
            assert_ne!(forks.0.read().id, forks.1.read().id);
            tx.send(philosopher.id).unwrap();
        });
    }
    drop(tx);
    for _ in 0..4 {
        rx.recv_timeout(Duration::from_secs(10)).expect("the greedy ring must terminate");
    }
    pool.join();
}
