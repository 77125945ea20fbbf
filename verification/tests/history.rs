use dual::history::{LagCompensationHistory, PhysicsHistory};

#[derive(Debug, Clone, PartialEq)]
struct Snap(u32);

#[test]
fn history_o1_lookup() {
    let mut history = PhysicsHistory::new(64);

    for tick in 0..100u32 {
        history.push(tick, Snap(tick));
    }

    assert!(history.get(50).is_some());
    assert!(history.get(30).is_none());
}

#[test]
fn latest_before() {
    let mut history = PhysicsHistory::new(64);

    history.push(10, Snap(10));
    history.push(20, Snap(20));
    history.push(30, Snap(30));

    let (tick, _) = history.latest_before(25).unwrap();
    assert_eq!(tick, 20);
}

#[test]
fn get_returns_what_push_stored() {
    let mut history = PhysicsHistory::new(8);
    history.push(3, Snap(33));
    assert_eq!(history.get(3), Some(&Snap(33)));
    history.push(11, Snap(111));
    // 11 shares the slot of 3
    assert_eq!(history.get(3), None);
    assert_eq!(history.get(11), Some(&Snap(111)));
}

#[test]
fn latest_before_is_strict_and_clear_forgets() {
    let mut history = PhysicsHistory::new(16);
    history.push(5, Snap(5));
    history.push(9, Snap(9));
    assert!(history.latest_before(5).is_none());
    let (tick, snap) = history.latest_before(9).unwrap();
    assert_eq!(tick, 5);
    assert_eq!(snap, &Snap(5));
    let (tick, _) = history.latest_before(1000).unwrap();
    assert_eq!(tick, 9);
    history.clear();
    assert!(history.get(5).is_none());
    assert!(history.latest_before(1000).is_none());
}

#[test]
fn lag_history_brackets_target_time() {
    let mut lag = LagCompensationHistory::new(100);
    lag.record(1, 100, (1, 1));
    lag.record(2, 200, (2, 2));
    lag.record(3, 300, (3, 3));
    let (before, after) = lag.find_bracketing(250).unwrap();
    assert_eq!(before.tick, 2);
    assert_eq!(after.tick, 3);
    let (before, after) = lag.find_bracketing(200).unwrap();
    assert_eq!(before.tick, 2);
    assert_eq!(after.tick, 3);
    assert!(lag.find_bracketing(50).is_none());
    assert!(lag.find_bracketing(300).is_none());
}

#[test]
fn lag_history_get_by_tick() {
    let mut lag = LagCompensationHistory::new(3);
    // capacity rounds up to 4
    lag.record(1, 10, 'a');
    lag.record(5, 50, 'b');
    assert!(lag.get(1).is_none());
    assert_eq!(lag.get(5).unwrap().pose, 'b');
    assert_eq!(lag.get(5).unwrap().server_time_ms, 50);
    assert!(lag.get(2).is_none());
}

#[test]
fn lag_history_overwrites_only_the_same_slot() {
    let mut lag = LagCompensationHistory::new(100);
    // capacity 128
    lag.record(3, 30, 'a');
    lag.record(4, 40, 'b');
    lag.record(131, 50, 'c');
    assert!(lag.get(3).is_none());
    assert_eq!(lag.get(131).unwrap().pose, 'c');
    assert_eq!(lag.get(4).unwrap().pose, 'b');
}

#[test]
fn latest_before_skips_overwritten_slots() {
    let mut history = PhysicsHistory::new(4);
    history.push(1, Snap(1));
    history.push(5, Snap(5));
    let (tick, snap) = history.latest_before(10).unwrap();
    assert_eq!((tick, snap), (5, &Snap(5)));
    assert!(history.latest_before(5).is_none());
}
