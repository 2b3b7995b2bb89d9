//! The distance calculators: how each of them walks the coordinates of a
//! pair of vectors.
//!
//! A calculator takes the coordinates in runs of 16, then of 8, then of 4,
//! and the rest one by one. This module decides the runs; the arithmetic on
//! the coordinates is done by the caller, run by run.

use vstd::prelude::*;

verus! {

/// The ways in which the Euclidean distance can be computed.
#[derive(Debug, PartialEq, Eq, Clone, Copy)]
pub enum L2DistanceCalculatorImpl {
    Scalar,
    SIMD,
    StreamingWithSIMD,
    StreamingWithSIMDOptimized,
}

impl L2DistanceCalculatorImpl {
    /// All the ways, in the order of their declaration.
    pub fn all() -> (ways: Vec<Self>)
        ensures
            ways@ == seq![
                L2DistanceCalculatorImpl::Scalar,
                L2DistanceCalculatorImpl::SIMD,
                L2DistanceCalculatorImpl::StreamingWithSIMD,
                L2DistanceCalculatorImpl::StreamingWithSIMDOptimized,
            ],
    {
        let mut ways: Vec<Self> = Vec::new();
        ways.push(L2DistanceCalculatorImpl::Scalar);
        ways.push(L2DistanceCalculatorImpl::SIMD);
        ways.push(L2DistanceCalculatorImpl::StreamingWithSIMD);
        ways.push(L2DistanceCalculatorImpl::StreamingWithSIMDOptimized);
        proof {
            assert(ways@ =~= seq![
                L2DistanceCalculatorImpl::Scalar,
                L2DistanceCalculatorImpl::SIMD,
                L2DistanceCalculatorImpl::StreamingWithSIMD,
                L2DistanceCalculatorImpl::StreamingWithSIMDOptimized,
            ]);
        }
        ways
    }

    /// The way in which the distance of two vectors of `len` coordinates is
    /// computed: one by one below 32 coordinates, in lanes from 32 on.
    pub fn for_len(len: usize) -> (way: Self)
        ensures
            way == (if len < 32 {
                L2DistanceCalculatorImpl::Scalar
            } else {
                L2DistanceCalculatorImpl::SIMD
            }),
    {
        if len < 32 {
            L2DistanceCalculatorImpl::Scalar
        } else {
            L2DistanceCalculatorImpl::SIMD
        }
    }
}

/// How the coordinates of a vector are split into runs: first the runs of
/// 16, then those of 8, then those of 4, then single coordinates.
#[derive(Debug, PartialEq, Eq, Clone, Copy)]
pub struct LaneSplit {
    /// The number of runs of 16 coordinates.
    pub runs_of_16: usize,
    /// The number of runs of 8 coordinates.
    pub runs_of_8: usize,
    /// The number of runs of 4 coordinates.
    pub runs_of_4: usize,
    /// The number of coordinates taken one by one.
    pub singles: usize,
}

impl LaneSplit {
    /// The number of coordinates that the runs cover.
    pub open spec fn covered(&self) -> int {
        16 * self.runs_of_16 + 8 * self.runs_of_8 + 4 * self.runs_of_4 + self.singles
    }

    /// Where the runs of 8 start.
    pub fn start_of_8(&self) -> (at: usize)
        requires
            self.covered() <= usize::MAX,
        ensures
            at == 16 * self.runs_of_16,
    {
        16 * self.runs_of_16
    }

    /// Where the runs of 4 start.
    pub fn start_of_4(&self) -> (at: usize)
        requires
            self.covered() <= usize::MAX,
        ensures
            at == 16 * self.runs_of_16 + 8 * self.runs_of_8,
    {
        16 * self.runs_of_16 + 8 * self.runs_of_8
    }

    /// Where the single coordinates start.
    pub fn start_of_singles(&self) -> (at: usize)
        requires
            self.covered() <= usize::MAX,
        ensures
            at == 16 * self.runs_of_16 + 8 * self.runs_of_8 + 4 * self.runs_of_4,
    {
        16 * self.runs_of_16 + 8 * self.runs_of_8 + 4 * self.runs_of_4
    }
}

/// The split of the Euclidean calculators: as many runs of 16 as fit, then a
/// run of 8 and a run of 4 where they fit into what is left, and fewer than
/// 4 single coordinates.
pub open spec fn l2_split(len: nat) -> LaneSplit {
    LaneSplit {
        runs_of_16: (len / 16) as usize,
        runs_of_8: (len % 16 / 8) as usize,
        runs_of_4: (len % 8 / 4) as usize,
        singles: (len % 4) as usize,
    }
}

/// The split of the dot-product calculator. It takes a run width only where
/// more coordinates are left than the width: so exactly 16 coordinates go
/// in two runs of 8, exactly 8 in two runs of 4, and exactly 4 one by one.
pub open spec fn dot_product_split(len: nat) -> LaneSplit {
    let runs_of_16 = if len > 16 {
        len / 16
    } else {
        0
    };
    let after_16 = len - 16 * runs_of_16;
    let runs_of_8 = if after_16 > 8 {
        after_16 / 8
    } else {
        0
    };
    let after_8 = after_16 - 8 * runs_of_8;
    let runs_of_4 = if after_8 > 4 {
        after_8 / 4
    } else {
        0
    };
    LaneSplit {
        runs_of_16: runs_of_16 as usize,
        runs_of_8: runs_of_8 as usize,
        runs_of_4: runs_of_4 as usize,
        singles: (after_8 - 4 * runs_of_4) as usize,
    }
}

/// The calculator of the negated dot product.
pub struct DotProductDistanceCalculator {}

impl DotProductDistanceCalculator {
    /// The runs in which the calculator takes `len` coordinates. They cover
    /// each coordinate once.
    pub fn lane_split(len: usize) -> (split: LaneSplit)
        ensures
            split == dot_product_split(len as nat),
            split.covered() == len,
            split.runs_of_8 <= 2,
            split.runs_of_4 <= 2,
            split.singles <= 4,
    {
        let mut rest = len;
        let mut split = LaneSplit { runs_of_16: 0, runs_of_8: 0, runs_of_4: 0, singles: 0 };
        if rest > 16 {
            split.runs_of_16 = rest / 16;
            rest = rest % 16;
        }
        if rest > 8 {
            split.runs_of_8 = rest / 8;
            rest = rest % 8;
        }
        if rest > 4 {
            split.runs_of_4 = rest / 4;
            rest = rest % 4;
        }
        split.singles = rest;
        split
    }
}

/// The calculator of the squared Euclidean distance that takes both vectors
/// whole.
pub struct NonStreamingL2DistanceCalculator {}

impl NonStreamingL2DistanceCalculator {
    /// The runs in which the calculator takes `len` coordinates. They cover
    /// each coordinate once.
    pub fn lane_split(len: usize) -> (split: LaneSplit)
        ensures
            split == l2_split(len as nat),
            split.covered() == len,
            split.runs_of_8 <= 1,
            split.runs_of_4 <= 1,
            split.singles < 4,
    {
        let mut a_len = len;
        let mut split = LaneSplit { runs_of_16: 0, runs_of_8: 0, runs_of_4: 0, singles: 0 };
        if a_len / 16 > 0 {
            split.runs_of_16 = a_len / 16;
            a_len = a_len % 16;
        }
        if a_len / 8 > 0 {
            split.runs_of_8 = a_len / 8;
            a_len = a_len % 8;
        }
        if a_len / 4 > 0 {
            split.runs_of_4 = a_len / 4;
            a_len = a_len % 4;
        }
        split.singles = a_len;
        split
    }
}

/// The calculator of the squared Euclidean distance that takes the
/// coordinates in runs of `LANES` only, and leaves out what does not fill a
/// run.
pub struct LaneConformingL2DistanceCalculator<const LANES: usize> {}

impl<const LANES: usize> LaneConformingL2DistanceCalculator<LANES> {
    /// The calculator.
    pub fn new() -> (calculator: Self) {
        Self {  }
    }

    /// The number of runs in which the calculator takes `len` coordinates,
    /// and the number of coordinates at the end that it leaves out.
    pub fn runs(&self, len: usize) -> (r: (usize, usize))
        requires
            LANES > 0,
        ensures
            r.0 == len / LANES,
            r.1 == len % LANES,
            r.0 * LANES + r.1 == len,
    {
        proof {
            vstd::arithmetic::div_mod::lemma_fundamental_div_mod(len as int, LANES as int);
            assert((len as int / LANES as int) * LANES == LANES * (len as int / LANES as int))
                by (nonlinear_arith);
        }
        (len / LANES, len % LANES)
    }
}

} // verus!
