//! Stepwise arithmetic for resizing the preview pane.
use vstd::prelude::*;

verus! {

/// Width of one resize step.
pub const MAGNITUDE: u16 = 5;

/// A resize request: grow or shrink by a number of steps.
#[derive(Debug, Clone, Copy)]
pub enum Op {
    Add(u16),
    Sub(u16),
}

/// The value snapped to whole steps and moved by the request, saturating
/// at the ends of the `u16` range.
pub open spec fn op_result(op: Op, num: u16) -> int {
    match op {
        Op::Add(n) => {
            if num / (MAGNITUDE as u16) + n > u16::MAX {
                u16::MAX * (MAGNITUDE as int)
            } else {
                (num / (MAGNITUDE as u16) + n) * (MAGNITUDE as int)
            }
        },
        Op::Sub(n) => {
            if num / (MAGNITUDE as u16) >= n {
                (num / (MAGNITUDE as u16) - n) * (MAGNITUDE as int)
            } else {
                0
            }
        },
    }
}

impl Op {
    /// Applies the resize request to a whole-step value.
    pub fn exec_on(self, num: u16) -> (r: u16)
        requires
            op_result(self, num) <= u16::MAX,
        ensures
            r == op_result(self, num),
    {
        let q = num / MAGNITUDE;
        let q2: u16 = match self {
            Op::Add(n) => {
                if q > u16::MAX - n {
                    u16::MAX
                } else {
                    q + n
                }
            },
            Op::Sub(n) => {
                if q >= n {
                    q - n
                } else {
                    0
                }
            },
        };
        q2 * MAGNITUDE
    }
}

} // verus!
