use vibevoice::decoding::GreedyDecoding;

#[test]
fn greedy_decoding_stops_at_end_of_text() {
    let mut d = GreedyDecoding::new(10, Some(9), 5);
    assert_eq!(d.accept(1), Some(5));
    assert_eq!(d.accept(2), Some(6));
    assert!(!d.is_stopped());
    assert_eq!(d.accept(9), None);
    assert!(d.is_stopped());
    assert_eq!(d.accept(3), None);
    assert_eq!(d.finish(), vec![1, 2]);
}

#[test]
fn greedy_decoding_stops_at_token_budget() {
    let mut d = GreedyDecoding::new(2, None, 0);
    assert_eq!(d.accept(4), Some(0));
    assert_eq!(d.accept(4), Some(1));
    assert_eq!(d.accept(4), None);
    assert!(d.is_stopped());
    assert_eq!(d.finish(), vec![4, 4]);
}

#[test]
fn greedy_decoding_with_no_budget_keeps_nothing() {
    let mut d = GreedyDecoding::new(0, Some(1), 3);
    assert_eq!(d.accept(7), None);
    assert_eq!(d.finish(), Vec::<u32>::new());
}

#[test]
fn greedy_decoding_stops_when_positions_run_out() {
    let mut d = GreedyDecoding::new(5, None, usize::MAX - 1);
    assert_eq!(d.accept(1), Some(usize::MAX - 1));
    assert_eq!(d.accept(2), None);
    assert_eq!(d.finish(), vec![1]);
}
