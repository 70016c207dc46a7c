use terra::budget::{reprojection_batch_bytes, MemoryBudget};
use terra::progress::ProgressCounter;

#[test]
fn reservations_add_up_and_release() {
    let mut budget = MemoryBudget::new();
    assert_eq!(budget.reserved, 0);
    assert!(budget.reserve(1000));
    assert!(budget.reserve(24));
    assert_eq!(budget.reserved, 1024);
    budget.release(1000);
    assert_eq!(budget.reserved, 24);
    budget.release(24);
    assert_eq!(budget.reserved, 0);
}

#[test]
fn overflowing_reservation_is_refused_unchanged() {
    let mut budget = MemoryBudget::new();
    assert!(budget.reserve(u64::MAX - 1));
    assert!(!budget.reserve(2));
    assert_eq!(budget.reserved, u64::MAX - 1);
}

#[test]
fn batch_bytes_follow_the_resolution() {
    // Each of the 16 sectors in a batch holds a coordinate pair and one
    // 16-bit sample per pixel.
    assert_eq!(reprojection_batch_bytes(65), 65 * 65 * 18 * 16);
    assert_eq!(reprojection_batch_bytes(2049), 2049 * 2049 * 18 * 16);
}

#[test]
fn progress_counts_one_unit_at_a_time() {
    let mut progress = ProgressCounter::new(3, 10);
    progress.record_one();
    progress.record_one();
    assert_eq!(progress.completed, 5);
    assert_eq!(progress.total, 10);
}
