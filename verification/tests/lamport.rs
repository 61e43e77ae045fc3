use vector_clock_rs::lamport::LamportClock;

#[test]
fn test_initial_timestamp() {
    let clock = LamportClock::new();
    assert_eq!(clock.timestamp(), 0);
}

#[test]
fn lamport_test_increment() {
    let mut clock = LamportClock::new();
    assert_eq!(clock.increment(), 1);
    assert_eq!(clock.increment(), 2);
}

#[test]
fn test_send_increments() {
    let mut clock = LamportClock::new();
    let ts = clock.send();
    assert_eq!(ts, 1);
    assert_eq!(clock.timestamp(), 1);
}

#[test]
fn test_receive_higher() {
    let mut clock = LamportClock::with_timestamp(5);
    let ts = clock.receive(10);
    assert_eq!(ts, 11);
}

#[test]
fn test_receive_lower() {
    let mut clock = LamportClock::with_timestamp(10);
    let ts = clock.receive(3);
    assert_eq!(ts, 11);
}

#[test]
fn test_receive_equal() {
    let mut clock = LamportClock::with_timestamp(5);
    let ts = clock.receive(5);
    assert_eq!(ts, 6);
}
