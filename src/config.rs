//! Tunable constants of the step.

use vstd::prelude::*;
use crate::fixed::{MAX_ACCEL, UNIT};

verus! {

/// Largest number of sub-steps per tick.
pub const MAX_SUB_STEPS: u64 = 65536;

/// Largest time scale (elapsed units per second).
pub const MAX_TIME_SCALE: u64 = 4294967296;

/// Largest minimum separation, in position units (16 cells).
pub const MAX_MIN_DIST: i64 = 1048576;

/// Largest denominator of the response coefficient.
pub const MAX_RESPONSE_DEN: i64 = 65536;

/// Parameters of one tick. The per-sub-step time is
/// `max(elapsed, 1) / time_scale / sub_steps` seconds; contacts closer than
/// `min_dist` are pushed apart with coefficient `response_num / response_den`.
#[derive(Clone, Copy, Debug, PartialEq, Eq, Structural)]
pub struct StepConfig {
    pub sub_steps: u64,
    pub time_scale: u64,
    pub gravity_x: i64,
    pub gravity_y: i64,
    pub response_num: i64,
    pub response_den: i64,
    pub min_dist: i64,
}

impl StepConfig {
    /// Ranges under which every step computation fits its integer types, and the
    /// response coefficient is at most 2 so that a contact never overshoots.
    pub open spec fn wf(&self) -> bool {
        &&& 1 <= self.sub_steps <= MAX_SUB_STEPS
        &&& 1 <= self.time_scale <= MAX_TIME_SCALE
        &&& -MAX_ACCEL <= self.gravity_x <= MAX_ACCEL
        &&& -MAX_ACCEL <= self.gravity_y <= MAX_ACCEL
        &&& 1 <= self.response_den <= MAX_RESPONSE_DEN
        &&& 0 <= self.response_num <= 2 * self.response_den
        &&& 1 <= self.min_dist <= MAX_MIN_DIST
    }

    /// Sub-steps times time scale: the per-sub-step time is `max(elapsed, 1) / step_divisor()`.
    pub open spec fn step_divisor(&self) -> int {
        self.sub_steps * self.time_scale
    }

    /// Whether the parameters are within the ranges of `wf`.
    pub fn is_valid(&self) -> (r: bool)
        ensures
            r == self.wf(),
    {
        1 <= self.sub_steps && self.sub_steps <= MAX_SUB_STEPS && 1 <= self.time_scale
            && self.time_scale <= MAX_TIME_SCALE && -MAX_ACCEL <= self.gravity_x
            && self.gravity_x <= MAX_ACCEL && -MAX_ACCEL <= self.gravity_y
            && self.gravity_y <= MAX_ACCEL && 1 <= self.response_den
            && self.response_den <= MAX_RESPONSE_DEN && 0 <= self.response_num
            && self.response_num <= 2 * self.response_den && 1 <= self.min_dist
            && self.min_dist <= MAX_MIN_DIST
    }

    /// Ten sub-steps, elapsed time in units of 10 microseconds, downward gravity
    /// of 29.43 cells per second squared, response 3/4 and a separation of one cell.
    pub fn standard() -> (r: StepConfig)
        ensures
            r.wf(),
            r == (StepConfig {
                sub_steps: 10,
                time_scale: 100000,
                gravity_x: 0,
                gravity_y: 1928724,
                response_num: 3,
                response_den: 4,
                min_dist: UNIT,
            }),
    {
        StepConfig {
            sub_steps: 10,
            time_scale: 100000,
            gravity_x: 0,
            gravity_y: 1928724,
            response_num: 3,
            response_den: 4,
            min_dist: UNIT,
        }
    }
}

} // verus!
