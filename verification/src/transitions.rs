//! Ready-made transitions over small integer domains, useful as building
//! blocks and for exercising the buffer.

use crate::replay::Transition;
use vstd::prelude::*;

verus! {

/// Addition of an `i8` input onto an `i8` state, wrapping on overflow.
pub struct WrappingAdd;

impl Transition for WrappingAdd {
    type Input = i8;

    type State = i8;

    open spec fn spec_step(i: i8, s: i8) -> i8 {
        vstd::wrapping::i8_specs::wrapping_add(i, s)
    }

    fn step(&self, i: &i8, s: &i8) -> (r: i8) {
        i.wrapping_add(*s)
    }

    fn clone_input(&self, i: &i8) -> (r: i8) {
        *i
    }

    fn clone_state(&self, s: &i8) -> (r: i8) {
        *s
    }
}

/// Multiplication of an `i64` state by an `i64` input, wrapping on overflow.
pub struct WrappingMul;

impl Transition for WrappingMul {
    type Input = i64;

    type State = i64;

    open spec fn spec_step(i: i64, s: i64) -> i64 {
        vstd::wrapping::i64_specs::wrapping_mul(i, s)
    }

    fn step(&self, i: &i64, s: &i64) -> (r: i64) {
        i.wrapping_mul(*s)
    }

    fn clone_input(&self, i: &i64) -> (r: i64) {
        *i
    }

    fn clone_state(&self, s: &i64) -> (r: i64) {
        *s
    }
}

} // verus!
