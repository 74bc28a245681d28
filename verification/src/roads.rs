//! Streets and lanes: the lattice of axis-aligned corridors and how roads, lanes and
//! junctions are numbered.

use vstd::prelude::*;

verus! {

/// Which way a street runs.
#[derive(Clone, Copy, Debug, PartialEq, Eq, Structural)]
pub enum Axis {
    /// Runs east–west; centre line at constant `z`.
    X,
    /// Runs north–south; centre line at constant `x`.
    Z,
}

/// The perpendicular axis.
pub open spec fn spec_other(a: Axis) -> Axis {
    match a {
        Axis::X => Axis::Z,
        Axis::Z => Axis::X,
    }
}

impl Axis {
    pub fn other(self) -> (r: Axis)
        ensures
            r == spec_other(self),
    {
        match self {
            Axis::X => Axis::Z,
            Axis::Z => Axis::X,
        }
    }
}

/// Turning to the perpendicular twice leads back to the same axis, and never to itself
/// in one turn.
pub proof fn lemma_other_involution(a: Axis)
    ensures
        spec_other(spec_other(a)) == a,
        spec_other(a) != a,
{
}

/// Id of the road on lattice line `line` running along `axis`: the X-running road of a
/// line is even, the Z-running one odd.
pub open spec fn spec_road_id(axis: Axis, line: usize) -> int {
    line * 2 + if axis == Axis::X {
        0int
    } else {
        1int
    }
}

/// Road id for a given axis and lattice line.
pub fn road_id(axis: Axis, line: usize) -> (r: u32)
    requires
        line * 2 + 1 <= u32::MAX,
    ensures
        r == spec_road_id(axis, line),
        r / 2 == line,
        r % 2 == (if axis == Axis::X {
            0int
        } else {
            1int
        }),
{
    (line * 2 + if axis == Axis::X {
        0
    } else {
        1
    }) as u32
}

/// Distinct (axis, line) pairs have distinct road ids.
pub proof fn lemma_road_id_injective(a1: Axis, l1: usize, a2: Axis, l2: usize)
    requires
        spec_road_id(a1, l1) == spec_road_id(a2, l2),
    ensures
        a1 == a2,
        l1 == l2,
{
}

/// Position of junction `(ix, iz)` in the junction list of an `n`-line lattice (row by
/// row along `z`), or `None` off the lattice.
pub fn junction_slot(n: usize, ix: usize, iz: usize) -> (r: Option<usize>)
    requires
        n * n <= usize::MAX,
    ensures
        (ix < n && iz < n) ==> r == Some((ix + iz * n) as usize),
        !(ix < n && iz < n) ==> r.is_none(),
        r matches Some(k) ==> k < n * n,
{
    if ix >= n || iz >= n {
        return None;
    }
    proof {
        assert(iz * n <= (n - 1) * n) by (nonlinear_arith)
            requires
                iz < n,
        ;
        assert((n - 1) * n + n == n * n) by (nonlinear_arith);
    }
    Some(ix + iz * n)
}

/// Lanes a street carries in each direction: two on avenues, one otherwise.
pub fn lanes_for(avenue: bool) -> (r: usize)
    ensures
        r == (if avenue {
            2usize
        } else {
            1usize
        }),
{
    if avenue {
        2
    } else {
        1
    }
}

/// The lane actually used for a requested lane index on a street with `lanes_per_dir`
/// lanes (at least one lane is always assumed): the requested lane, or the innermost
/// lane when it is too high.
pub fn lane_slot(lanes_per_dir: usize, lane: usize) -> (r: usize)
    ensures
        lanes_per_dir >= 1 ==> r == (if lane < lanes_per_dir {
            lane
        } else {
            (lanes_per_dir - 1) as usize
        }),
        lanes_per_dir == 0 ==> r == 0,
{
    let lanes = if lanes_per_dir > 1 {
        lanes_per_dir
    } else {
        1
    };
    if lane < lanes - 1 {
        lane
    } else {
        lanes - 1
    }
}

} // verus!
