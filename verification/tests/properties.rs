use onion::replay::Replayable;
use onion::transitions::{WrappingAdd, WrappingMul};

#[test]
fn test_commit_transparent() {
    let mut r = Replayable::new(WrappingMul, 1, 1);
    r.advance(2);
    r.advance(2);
    r.advance(2);
    assert_eq!(8, *r.current());
    r.commit(3);
    assert_eq!(8, *r.current());
}

#[test]
fn test_commit_idempotent() {
    let mut r = Replayable::new(WrappingAdd, 0, 0);
    r.advance(1);
    r.advance(2);
    r.advance(3);
    r.commit(2);
    assert_eq!(6, *r.current());
    r.commit(2);
    assert_eq!(6, *r.current());
    r.update_input(2, |_i: i8| 5);
    assert_eq!(9, *r.current());
}

#[test]
fn test_commit_makes_ticks_immutable() {
    let mut r = Replayable::new(WrappingAdd, 0, 0);
    r.advance(1);
    r.advance(2);
    r.advance(3);
    assert_eq!(6, *r.current());
    r.commit(2);
    r.update_input(1, |_i: i8| 100);
    assert_eq!(6, *r.current());
}

#[test]
fn test_force_forward_jump() {
    let mut r = Replayable::new(WrappingAdd, 0, 0);
    r.advance(1);
    r.advance(1);
    assert_eq!(2, *r.current());
    r.force(100, 7, 42);
    assert_eq!(42, *r.current());
    r.advance(1);
    assert_eq!(43, *r.current());
    r.update_input(99, |_i: i8| 100);
    assert_eq!(43, *r.current());
}

#[test]
fn test_force_stale_ignored() {
    let mut r = Replayable::new(WrappingAdd, 0, 0);
    r.advance(1);
    r.advance(2);
    r.advance(3);
    r.commit(2);
    r.force(1, 9, 9);
    assert_eq!(6, *r.current());
}

#[test]
fn test_force_at_oldest_retained_tick() {
    let mut r = Replayable::new(WrappingAdd, 0, 0);
    r.advance(1);
    r.advance(2);
    r.advance(3);
    assert_eq!(6, *r.current());
    r.force(0, 5, 7);
    assert_eq!(18, *r.current());
}

#[test]
fn test_force_at_frontier_tick() {
    let mut r = Replayable::new(WrappingAdd, 0, 0);
    r.advance(1);
    r.advance(2);
    r.advance(3);
    r.force(4, 1, 50);
    assert_eq!(50, *r.current());
    r.update_input(3, |_i: i8| 100);
    assert_eq!(50, *r.current());
}

#[test]
fn test_fast_forward_repeats_last_input() {
    let mut r = Replayable::new(WrappingAdd, 0, 0);
    r.advance(5);
    assert_eq!(5, *r.current());
    r.fast_forward(5);
    assert_eq!(20, *r.current());
    r.fast_forward(3);
    assert_eq!(20, *r.current());
}

#[test]
fn test_commit_can_empty_the_window() {
    let mut r = Replayable::new(WrappingAdd, 0, 0);
    r.commit(1);
    assert_eq!(0, *r.current());
    r.fast_forward(10);
    assert_eq!(0, *r.current());
    r.advance(3);
    assert_eq!(3, *r.current());
}

#[test]
fn test_stale_update_after_commit() {
    let mut r = Replayable::new(WrappingAdd, 0, 0);
    r.commit(10);
    assert_eq!(0, *r.current());
    r.update_input(5, |_i: i8| 9);
    assert_eq!(0, *r.current());
}

#[test]
fn test_force_to_extreme_tick() {
    let mut r = Replayable::new(WrappingAdd, 0, 0);
    r.force(u64::MAX, 1, 5);
    assert_eq!(5, *r.current());
    r.update_input(u64::MAX - 1, |_i: i8| 9);
    assert_eq!(5, *r.current());
}

#[test]
fn test_wrapping_step() {
    let mut r = Replayable::new(WrappingAdd, 100, 100);
    assert_eq!(-56, *r.current());
}

#[test]
fn test_lazy_and_eager_reads_agree() {
    let mut lazy = Replayable::new(WrappingMul, 1, 2);
    let mut eager = Replayable::new(WrappingMul, 1, 2);
    for i in 3i64..6i64 {
        lazy.advance(i);
        eager.advance(i);
        eager.current();
    }
    assert_eq!(*lazy.current(), *eager.current());
    assert_eq!(120, *lazy.current());
}
