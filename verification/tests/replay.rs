use onion::replay::Replayable;
use onion::transitions::{WrappingAdd, WrappingMul};

#[test]
fn test_simple_current() {
    let mut r = Replayable::new(WrappingAdd, 0, 0);
    assert_eq!(0, *r.current());
}

#[test]
fn test_add_one() {
    let mut r = Replayable::new(WrappingAdd, 0, 0);
    r.advance(1);
    assert_eq!(1, *r.current());
}

#[test]
fn test_prehistory() {
    let mut r = Replayable::new(WrappingAdd, 0, 0);
    r.force(10, 0, 0);
    r.update_input(9, |_i: i8| 10);
    assert_eq!(0, *r.current());
}

#[test]
fn test_update_history() {
    let mut r = Replayable::new(WrappingMul, 1, 1);
    r.advance(2);
    r.advance(2);
    r.advance(2);
    assert_eq!(8, *r.current());

    r.update_input(2, |_i: i64| 0);
    assert_eq!(0, *r.current());

    r.update_input(2, |_i: i64| 3);
    assert_eq!(12, *r.current());

    r.update_input(8, |_i: i64| 2);
    assert_eq!(384, *r.current());
}
