use wunderkammer::ObservableQueue;
use wunderkammer::Observer;

#[test]
fn test_next_single() {
    let mut queue = ObservableQueue::new();
    let observer = queue.subscribe();

    queue.push(3);
    queue.push(12);

    assert_eq!(queue.next(&observer), Some(3));
    queue.synchronize();
    assert_eq!(queue.len(), 1);
    assert_eq!(queue.next(&observer), Some(12));
    queue.synchronize();
    assert_eq!(queue.len(), 0);
}

#[test]
fn test_map_next_single() {
    let mut queue = ObservableQueue::new();
    let observer = queue.subscribe();

    queue.push(3);
    queue.push(12);

    assert_eq!(queue.map_next(&observer, |a| *a), Some(3));
    queue.synchronize();
    assert_eq!(queue.len(), 1);
    assert_eq!(queue.map_next(&observer, |a| *a), Some(12));
    queue.synchronize();
    assert_eq!(queue.len(), 0);
}

#[test]
fn test_next_many() {
    let mut queue = ObservableQueue::new();
    let observers: Vec<Observer> = (0..3).map(|_| queue.subscribe()).collect();

    queue.push(3);
    queue.push(12);
    queue.push(2);

    assert_eq!(queue.next(&observers[0]), Some(3));
    assert_eq!(queue.next(&observers[0]), Some(12));

    assert_eq!(queue.next(&observers[1]), Some(3));

    queue.synchronize();
    // no item should be removed yet as observers[2] still has not read
    assert_eq!(queue.len(), 3);

    assert_eq!(queue.next(&observers[0]), Some(2));
    assert_eq!(queue.next(&observers[2]), Some(3));

    queue.synchronize();
    assert_eq!(queue.len(), 2);
}

#[test]
fn test_map_next_many() {
    let mut queue = ObservableQueue::new();
    let observers: Vec<Observer> = (0..3).map(|_| queue.subscribe()).collect();

    queue.push(3);
    queue.push(12);
    queue.push(2);

    assert_eq!(queue.map_next(&observers[0], |a| *a), Some(3));
    assert_eq!(queue.map_next(&observers[0], |a| *a), Some(12));

    assert_eq!(queue.map_next(&observers[1], |a| *a), Some(3));

    queue.synchronize();
    // no item should be removed yet as observers[2] still has not read
    assert_eq!(queue.len(), 3);

    assert_eq!(queue.map_next(&observers[0], |a| *a), Some(2));
    assert_eq!(queue.map_next(&observers[2], |a| *a), Some(3));

    queue.synchronize();
    assert_eq!(queue.len(), 2);
}

#[test]
fn test_next_after() {
    let mut queue = ObservableQueue::new();

    queue.push(3);
    queue.push(12);

    let observer_0 = queue.subscribe();

    queue.push(1);

    let observer_1 = queue.subscribe();

    assert_eq!(queue.next(&observer_0), Some(1));
    assert_eq!(queue.next(&observer_1), None);
}

#[test]
fn test_map_next_after() {
    let mut queue = ObservableQueue::new();

    queue.push(3);
    queue.push(12);

    let observer_0 = queue.subscribe();

    queue.push(1);

    let observer_1 = queue.subscribe();

    assert_eq!(queue.map_next(&observer_0, |a| *a), Some(1));
    assert_eq!(queue.map_next(&observer_1, |a| *a), None);
}

#[test]
fn test_drop_observer() {
    let mut queue = ObservableQueue::new();
    let observer = queue.subscribe();

    queue.push(3);
    queue.push(12);

    queue.unsubscribe(observer);
    queue.synchronize();
    assert!(!queue.has_observers());
    assert_eq!(queue.len(), 0);
}

#[test]
fn round_trip_reads() {
    let mut queue = ObservableQueue::new();
    let observer = queue.subscribe();

    // nothing was pushed yet
    assert_eq!(queue.next(&observer), None);

    queue.push(5);
    queue.push(6);
    queue.push(7);

    // exactly the pushed values come back, in push order
    assert_eq!(queue.next(&observer), Some(5));
    assert_eq!(queue.next(&observer), Some(6));
    assert_eq!(queue.next(&observer), Some(7));
    assert_eq!(queue.next(&observer), None);
}

#[test]
fn push_without_observers_buffers_nothing() {
    let mut queue = ObservableQueue::new();
    queue.push(3);
    queue.push(4);
    assert_eq!(queue.len(), 0);

    // a late subscriber sees none of the dropped history
    let observer = queue.subscribe();
    assert_eq!(queue.next(&observer), None);
}

#[test]
fn push_reclaims_after_last_unsubscribe() {
    let mut queue = ObservableQueue::new();
    let observer = queue.subscribe();

    queue.push(3);
    queue.unsubscribe(observer);

    // the next push finds no live reader: it is dropped and the stale
    // history reclaimed with it
    queue.push(4);
    assert_eq!(queue.len(), 0);
}

#[test]
fn unsubscribe_keeps_other_readers() {
    let mut queue = ObservableQueue::new();
    let keep = queue.subscribe();
    let gone = queue.subscribe();

    queue.push(9);
    queue.unsubscribe(gone);

    assert_eq!(queue.next(&keep), Some(9));
}
