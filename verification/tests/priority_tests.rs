use std::cmp::Ordering;
use envelope_buffer::priority::{Priority, Readiness};

fn prio(ready: bool, received_at: i64, next_project_fetch: u64) -> Priority {
    Priority {
        readiness: Readiness { own_project_ready: ready, sampling_project_ready: ready },
        received_at,
        next_project_fetch,
    }
}

#[test]
fn test_total_order() {
    let p1 = Priority {
        readiness: Readiness { own_project_ready: true, sampling_project_ready: true },
        received_at: 1000,
        next_project_fetch: 77,
    };
    let mut p2 = p1.clone();
    p2.next_project_fetch += 1;

    // Last peek does not matter because project is ready:
    assert_eq!(p1.cmp(&p2), Ordering::Equal);
    assert_eq!(p1, p2);
}

#[test]
fn test_ready_orders_by_received_at_newest_first() {
    let older = prio(true, 1000, 0);
    let newer = prio(true, 2000, 0);
    assert_eq!(older.cmp(&newer), Ordering::Less);
    assert_eq!(newer.cmp(&older), Ordering::Greater);
}

#[test]
fn test_ready_outranks_not_ready() {
    let ready = prio(true, 1000, 0);
    let not_ready = prio(false, 9999, 0);
    assert_eq!(ready.cmp(&not_ready), Ordering::Greater);
    assert_eq!(not_ready.cmp(&ready), Ordering::Less);
}

#[test]
fn test_not_ready_orders_by_next_fetch_then_age() {
    // Among not-ready stacks the earlier next fetch wins ...
    let sooner = prio(false, 1000, 10);
    let later = prio(false, 1000, 20);
    assert_eq!(sooner.cmp(&later), Ordering::Greater);

    // ... and on equal deadlines the older traffic wins.
    let old_traffic = prio(false, 1000, 10);
    let new_traffic = prio(false, 2000, 10);
    assert_eq!(old_traffic.cmp(&new_traffic), Ordering::Greater);
}

#[test]
fn test_half_ready_counts_as_not_ready() {
    let half = Priority {
        readiness: Readiness { own_project_ready: true, sampling_project_ready: false },
        received_at: 5000,
        next_project_fetch: 0,
    };
    let ready = prio(true, 1, 0);
    assert_eq!(ready.cmp(&half), Ordering::Greater);
}

#[test]
fn test_new_priority_is_optimistic() {
    let p = Priority::new(42);
    assert!(p.readiness.own_project_ready);
    assert!(p.readiness.sampling_project_ready);
    assert_eq!(p.received_at, 42);
}
