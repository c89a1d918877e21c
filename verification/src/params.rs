//! A validated, immutable description of the Poseidon permutation.
//!
//! A parameter set fixes the field modulus, the split of the state into rate
//! and capacity cells, the S-box exponent, the round counts, and the two
//! tables the rounds consume: per-round additive constants and the linear
//! layer matrix. Construction validates every dimension; afterwards the set
//! is shared read-only by any number of sponges.

use vstd::prelude::*;

verus! {

/// Why a parameter set was rejected at construction.
#[derive(Clone, Copy, Debug, PartialEq, Eq, Structural)]
pub enum ParameterError {
    /// `rate` or `capacity` is zero.
    InvalidWidth,
    /// The round-constant table or the linear-layer matrix has a dimension
    /// that does not match the round count or the state width.
    DimensionMismatch,
    /// `full_rounds` is odd, so the full rounds cannot be split evenly
    /// before and after the partial block.
    OddFullRounds,
}

/// The tables have the right shape: one row of constants per round, each row
/// as wide as the state, and a square linear-layer matrix of the same width.
pub open spec fn dims_ok(width: int, total_rounds: int, rcs: Seq<Seq<u64>>, mds: Seq<Seq<u64>>) -> bool {
    &&& rcs.len() == total_rounds
    &&& (forall|i: int| 0 <= i < rcs.len() ==> (#[trigger] rcs[i]).len() == width)
    &&& mds.len() == width
    &&& (forall|i: int| 0 <= i < mds.len() ==> (#[trigger] mds[i]).len() == width)
}

/// Immutable description of the permutation. All field elements are reduced
/// residues modulo `modulus`.
#[derive(Clone)]
pub struct PoseidonParameters {
    /// The prime modulus of the field.
    pub modulus: u64,
    /// Number of state cells exposed to input and output each block.
    pub rate: usize,
    /// Number of state cells never directly touched by input or output.
    pub capacity: usize,
    /// The S-box exponent.
    pub alpha: u64,
    /// Number of rounds applying the S-box to every cell; always even.
    pub full_rounds: usize,
    /// Number of rounds applying the S-box to cell 0 only.
    pub partial_rounds: usize,
    /// One row of additive constants per round, each of state width.
    pub round_constants: Vec<Vec<u64>>,
    /// The square linear-layer matrix, applied as a matrix-vector product.
    pub mds: Vec<Vec<u64>>,
}

impl PoseidonParameters {
    /// The state width: rate plus capacity.
    pub open spec fn width(self) -> int {
        self.rate + self.capacity
    }

    /// The total number of rounds.
    pub open spec fn total_rounds(self) -> int {
        self.full_rounds + self.partial_rounds
    }

    /// The round-constant table as a sequence of rows.
    pub open spec fn rc_mat(self) -> Seq<Seq<u64>> {
        self.round_constants.deep_view()
    }

    /// The linear-layer matrix as a sequence of rows.
    pub open spec fn mds_mat(self) -> Seq<Seq<u64>> {
        self.mds.deep_view()
    }

    /// Whether `rate` or `capacity` is zero.
    pub open spec fn invalid_width(self) -> bool {
        self.rate == 0 || self.capacity == 0
    }

    /// Whether some table dimension disagrees with the round count or width.
    pub open spec fn dimension_mismatch(self) -> bool {
        !dims_ok(self.width(), self.total_rounds(), self.rc_mat(), self.mds_mat())
    }

    /// Whether the full rounds cannot be split evenly.
    pub open spec fn odd_full_rounds(self) -> bool {
        self.full_rounds % 2 != 0
    }

    /// A well-formed parameter set: a usable field modulus, a positive rate
    /// and capacity, an even number of full rounds, and tables whose
    /// dimensions match the round count and the state width.
    pub open spec fn wf(self) -> bool {
        &&& self.modulus >= 2
        &&& !self.invalid_width()
        &&& !self.dimension_mismatch()
        &&& !self.odd_full_rounds()
    }

    /// The error reported for an ill-formed set: an invalid width is
    /// reported first, then a dimension mismatch, then odd full rounds.
    pub open spec fn first_error(self) -> ParameterError {
        if self.invalid_width() {
            ParameterError::InvalidWidth
        } else if self.dimension_mismatch() {
            ParameterError::DimensionMismatch
        } else {
            ParameterError::OddFullRounds
        }
    }

    /// Validates and assembles a parameter set. Succeeds exactly on
    /// well-formed inputs and reports the first failed check otherwise.
    #[verifier::loop_isolation(false)]
    pub fn new(
        modulus: u64,
        rate: usize,
        capacity: usize,
        alpha: u64,
        full_rounds: usize,
        partial_rounds: usize,
        round_constants: Vec<Vec<u64>>,
        mds: Vec<Vec<u64>>,
    ) -> (r: Result<PoseidonParameters, ParameterError>)
        requires
            modulus >= 2,
        ensures
            ({
                let c = (PoseidonParameters {
                    modulus,
                    rate,
                    capacity,
                    alpha,
                    full_rounds,
                    partial_rounds,
                    round_constants,
                    mds,
                });
                match r {
                    Ok(ps) => ps == c && c.wf(),
                    Err(e) => !c.wf() && e == c.first_error(),
                }
            }),
    {
        let ghost c = (PoseidonParameters {
            modulus,
            rate,
            capacity,
            alpha,
            full_rounds,
            partial_rounds,
            round_constants: round_constants,
            mds: mds,
        });
        if rate == 0 || capacity == 0 {
            return Err(ParameterError::InvalidWidth);
        }
        if rate > usize::MAX - capacity {
            // The state width would not be a representable length, so no
            // matrix row count can match it.
            let n = mds.len();
            assert(c.mds_mat().len() == n <= usize::MAX < c.width());
            return Err(ParameterError::DimensionMismatch);
        }
        let width = rate + capacity;
        if full_rounds > usize::MAX - partial_rounds {
            let n = round_constants.len();
            assert(c.rc_mat().len() == n <= usize::MAX < c.total_rounds());
            return Err(ParameterError::DimensionMismatch);
        }
        let total_rounds = full_rounds + partial_rounds;
        if round_constants.len() != total_rounds {
            return Err(ParameterError::DimensionMismatch);
        }
        let mut i: usize = 0;
        while i < round_constants.len()
            invariant
                c.round_constants == round_constants,
                i <= round_constants@.len(),
                forall|j: int| 0 <= j < i ==> (#[trigger] c.rc_mat()[j]).len() == width,
                width == c.width(),
            decreases round_constants@.len() - i,
        {
            if round_constants[i].len() != width {
                assert(c.rc_mat()[i as int].len() != c.width());
                return Err(ParameterError::DimensionMismatch);
            }
            i = i + 1;
        }
        if mds.len() != width {
            return Err(ParameterError::DimensionMismatch);
        }
        let mut i: usize = 0;
        while i < mds.len()
            invariant
                c.mds == mds,
                i <= mds@.len(),
                forall|j: int| 0 <= j < i ==> (#[trigger] c.mds_mat()[j]).len() == width,
                width == c.width(),
            decreases mds@.len() - i,
        {
            if mds[i].len() != width {
                assert(c.mds_mat()[i as int].len() != c.width());
                return Err(ParameterError::DimensionMismatch);
            }
            i = i + 1;
        }
        if full_rounds % 2 != 0 {
            return Err(ParameterError::OddFullRounds);
        }
        Ok(PoseidonParameters {
            modulus,
            rate,
            capacity,
            alpha,
            full_rounds,
            partial_rounds,
            round_constants,
            mds,
        })
    }
}

} // verus!
