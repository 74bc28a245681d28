//! Junction manoeuvres of the traffic model: which way a car faces after a turn and
//! which lane it comes out in.

use vstd::prelude::*;

use crate::roads::{spec_other, Axis};

verus! {

/// A junction manoeuvre.
#[derive(Clone, Copy, Debug, PartialEq, Eq, Structural)]
pub enum Turn {
    /// Keep straight on.
    Straight,
    /// Turn to the driver's right.
    Right,
    /// Turn across oncoming traffic to the driver's left.
    Left,
}

/// Direction of travel after turning off a street running along `axis` (right-hand
/// traffic, a driver's right being the perpendicular of the heading): from `+X` a right
/// turn heads `+Z`, from `+Z` it heads `-X`, and so on.
pub open spec fn spec_turned_forward(axis: Axis, forward: bool, right: bool) -> bool {
    (axis == Axis::X) == (forward == right)
}

/// Heading after turning at a junction (right-hand traffic).
pub fn turned_forward(axis: Axis, forward: bool, right: bool) -> (r: bool)
    ensures
        r == spec_turned_forward(axis, forward, right),
{
    let on_x = match axis {
        Axis::X => true,
        Axis::Z => false,
    };
    on_x == (forward == right)
}

/// Lane a car comes out in after a turn: right turns hug the kerb, left turns come out
/// in the inner lane.
pub fn turn_lane(right: bool, lanes_per_dir: usize) -> (r: usize)
    requires
        lanes_per_dir >= 1,
    ensures
        r == (if right {
            0
        } else {
            lanes_per_dir - 1
        }),
        r < lanes_per_dir,
{
    if right {
        0
    } else {
        lanes_per_dir - 1
    }
}

/// Two right turns reverse the direction of travel on the original axis; a right turn
/// followed by a left one restores it.
pub proof fn lemma_turns_compose(axis: Axis, forward: bool)
    ensures
        spec_turned_forward(spec_other(axis), spec_turned_forward(axis, forward, true), true)
            == !forward,
        spec_turned_forward(spec_other(axis), spec_turned_forward(axis, forward, true), false)
            == forward,
        spec_turned_forward(spec_other(axis), spec_turned_forward(axis, forward, false), false)
            == !forward,
{
}

} // verus!
