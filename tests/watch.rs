use realized_volatility::watch::{has_enough_ticks, order_newest_first, plan_newest_first, WatchError};

#[test]
fn files_are_ordered_newest_first_stably() {
    let ends = vec![10u64, 30, 20, 30, 5];
    assert_eq!(order_newest_first(&ends), vec![1, 3, 2, 0, 4]);
    assert_eq!(order_newest_first(&vec![]), Vec::<usize>::new());
}

#[test]
fn plan_needs_new_blocks() {
    let ends = vec![10u64, 30, 20];
    assert_eq!(plan_newest_first(&ends, 25), Ok((vec![1, 2, 0], 30)));
    assert_eq!(plan_newest_first(&ends, 30), Err(WatchError::NoNewBlocks));
    assert_eq!(plan_newest_first(&vec![], 0), Err(WatchError::NoFiles));
}

#[test]
fn reading_stops_at_enough_ticks() {
    assert!(!has_enough_ticks(8191));
    assert!(has_enough_ticks(8192));
}
