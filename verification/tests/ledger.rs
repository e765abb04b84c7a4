use protohackers::means::ledger::{handle, Ledger, Reply, INSERT, QUERY};

#[test]
fn ledger_mean_of_a_period() {
    let mut ledger = Ledger::new();
    assert!(ledger.insert(12345, 101));
    assert!(ledger.insert(12346, 102));
    assert!(ledger.insert(12347, 100));
    assert!(ledger.insert(40960, 5));
    assert_eq!(Some(101), ledger.mean(12288, 16384));
    assert_eq!(Some(77), ledger.mean(0, 50000));
    assert_eq!(Some(5), ledger.mean(40960, 40960));
}

#[test]
fn ledger_keeps_the_first_price_of_a_time() {
    let mut ledger = Ledger::new();
    assert!(ledger.insert(1, 10));
    assert!(!ledger.insert(1, 20));
    assert_eq!(Some(10), ledger.mean(1, 1));
}

#[test]
fn ledger_has_no_mean_without_prices() {
    let mut ledger = Ledger::new();
    assert_eq!(None, ledger.mean(0, 10));
    assert!(ledger.insert(5, 10));
    assert_eq!(None, ledger.mean(6, 10));
    assert_eq!(None, ledger.mean(0, 4));
    assert_eq!(None, ledger.mean(10, 0));
    assert_eq!(Some(10), ledger.mean(5, 5));
}

#[test]
fn ledger_rounds_halves_away_from_zero() {
    let mut ledger = Ledger::new();
    assert!(ledger.insert(1, 1));
    assert!(ledger.insert(2, 2));
    assert_eq!(Some(2), ledger.mean(1, 2));
    let mut ledger = Ledger::new();
    assert!(ledger.insert(1, -1));
    assert!(ledger.insert(2, -2));
    assert_eq!(Some(-2), ledger.mean(1, 2));
    let mut ledger = Ledger::new();
    assert!(ledger.insert(1, 1));
    assert!(ledger.insert(2, 1));
    assert!(ledger.insert(3, 2));
    assert_eq!(Some(1), ledger.mean(1, 3));
    assert!(ledger.insert(4, 3));
    assert!(ledger.insert(5, 3));
    assert_eq!(Some(2), ledger.mean(1, 5));
}

#[test]
fn ledger_takes_the_whole_range_of_times_and_prices() {
    let mut ledger = Ledger::new();
    assert!(ledger.insert(i32::MIN, i32::MAX));
    assert!(ledger.insert(i32::MAX, i32::MAX));
    assert_eq!(Some(i32::MAX), ledger.mean(i32::MIN, i32::MAX));
    let mut ledger = Ledger::new();
    assert!(ledger.insert(i32::MIN, i32::MIN));
    assert!(ledger.insert(0, i32::MIN));
    assert!(ledger.insert(i32::MAX, i32::MIN));
    assert_eq!(Some(i32::MIN), ledger.mean(i32::MIN, i32::MAX));
    assert_eq!(Some(i32::MIN), ledger.mean(i32::MAX, i32::MAX));
}

#[test]
fn messages_are_carried_out_on_the_ledger() {
    let mut ledger = Ledger::new();
    assert_eq!(Reply::Mean(0), handle(&mut ledger, QUERY, 0, 100));
    assert_eq!(Reply::Nothing, handle(&mut ledger, INSERT, 12345, 101));
    assert_eq!(Reply::Nothing, handle(&mut ledger, b'I', 12346, 102));
    assert_eq!(Reply::Mean(102), handle(&mut ledger, b'Q', 12345, 12346));
    assert_eq!(Reply::Mean(0), handle(&mut ledger, QUERY, 12346, 12345));
    assert_eq!(Reply::Close, handle(&mut ledger, INSERT, 12345, 5));
    assert_eq!(Reply::Mean(101), handle(&mut ledger, QUERY, 12345, 12345));
    assert_eq!(Reply::Close, handle(&mut ledger, b'X', 1, 2));
    assert_eq!(Reply::Mean(102), handle(&mut ledger, QUERY, 0, 20000));
}
