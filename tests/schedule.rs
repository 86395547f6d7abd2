use pathtrace::schedule::{pool_size, reports_progress, share, worker_count, Frame};

#[test]
fn even_budget_gives_equal_shares() {
    let shares: Vec<usize> = (0..4).map(|w| share(100, 4, w)).collect();
    assert_eq!(shares, vec![25, 25, 25, 25]);
}

#[test]
fn remainder_goes_to_first_workers() {
    let shares: Vec<usize> = (0..4).map(|w| share(10, 4, w)).collect();
    assert_eq!(shares, vec![3, 3, 2, 2]);
    assert_eq!(shares.iter().sum::<usize>(), 10);
}

#[test]
fn fewer_samples_than_workers() {
    let shares: Vec<usize> = (0..8).map(|w| share(4, 8, w)).collect();
    assert_eq!(shares, vec![1, 1, 1, 1, 0, 0, 0, 0]);
}

#[test]
fn shares_sum_to_total_for_many_splits() {
    for total in 0..60 {
        for workers in 1..13 {
            let sum: usize = (0..workers).map(|w| share(total, workers, w)).sum();
            assert_eq!(sum, total);
        }
    }
}

#[test]
fn pool_has_at_least_one_worker() {
    assert_eq!(pool_size(0), 1);
    assert_eq!(pool_size(1), 1);
    assert_eq!(pool_size(16), 16);
    assert!(worker_count() >= 1);
}

#[test]
fn progress_every_hundred_rows() {
    assert!(reports_progress(0));
    assert!(reports_progress(100));
    assert!(reports_progress(700));
    assert!(!reports_progress(99));
    assert!(!reports_progress(101));
}

#[test]
fn frame_rejects_degenerate_sizes() {
    assert!(Frame::new(1, 10).is_none());
    assert!(Frame::new(10, 1).is_none());
    assert!(Frame::new(0, 0).is_none());
    assert!(Frame::new(usize::MAX, 2).is_none());
    let f = Frame::new(1200, 800).unwrap();
    assert_eq!(f.width(), 1200);
    assert_eq!(f.height(), 800);
    assert_eq!(f.pixel_count(), 960_000);
}

#[test]
fn scan_order_starts_at_top_row() {
    let f = Frame::new(4, 3).unwrap();
    assert_eq!(f.pixel_at(0), (0, 2));
    assert_eq!(f.pixel_at(3), (3, 2));
    assert_eq!(f.pixel_at(4), (0, 1));
    assert_eq!(f.pixel_at(11), (3, 0));
    assert_eq!(f.index_of(0, 2), 0);
    assert_eq!(f.index_of(3, 0), 11);
    assert_eq!(f.index_of(1, 1), 5);
}

#[test]
fn scan_position_round_trips() {
    let f = Frame::new(7, 5).unwrap();
    for i in 0..35 {
        let (c, r) = f.pixel_at(i);
        assert_eq!(f.index_of(c, r), i);
    }
}
