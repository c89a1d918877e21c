//! The fixed-round Poseidon permutation of a width-sized state vector.
//!
//! Each round adds the round's constants to the state, applies the S-box
//! (to every cell in the first and last `full_rounds / 2` rounds, to cell 0
//! only in the middle `partial_rounds` rounds), and multiplies the state by
//! the linear-layer matrix.

use vstd::assert_seqs_equal;
use vstd::prelude::*;

use crate::field::{add_mod, add_mod_spec, mul_mod, mul_mod_spec, pow_mod, pow_mod_spec};
use crate::params::PoseidonParameters;

verus! {

/// The state after adding one row of round constants element-wise.
pub open spec fn add_rc_spec(p: u64, st: Seq<u64>, rc: Seq<u64>) -> Seq<u64> {
    Seq::new(st.len(), |i: int| add_mod_spec(p, st[i], rc[i]))
}

/// The state after raising every cell to the `alpha`-th power.
pub open spec fn sbox_full_spec(p: u64, alpha: u64, st: Seq<u64>) -> Seq<u64> {
    Seq::new(st.len(), |i: int| pow_mod_spec(p, st[i], alpha as nat))
}

/// The state after raising cell 0 alone to the `alpha`-th power.
pub open spec fn sbox_partial_spec(p: u64, alpha: u64, st: Seq<u64>) -> Seq<u64> {
    st.update(0, pow_mod_spec(p, st[0], alpha as nat))
}

/// The first `n` terms of the dot product of `row` and `v`, reduced after
/// every step.
pub open spec fn dot_mod_spec(p: u64, row: Seq<u64>, v: Seq<u64>, n: int) -> u64
    decreases n,
{
    if n <= 0 {
        0
    } else {
        add_mod_spec(p, dot_mod_spec(p, row, v, n - 1), mul_mod_spec(p, row[n - 1], v[n - 1]))
    }
}

/// The matrix-vector product of `m` and `v` over the field.
pub open spec fn mat_vec_spec(p: u64, m: Seq<Seq<u64>>, v: Seq<u64>) -> Seq<u64> {
    Seq::new(m.len(), |i: int| dot_mod_spec(p, m[i], v, v.len() as int))
}

/// Whether round `r` applies the S-box to every cell: the first and last
/// `full_rounds / 2` rounds do, the middle `partial_rounds` rounds do not.
pub open spec fn is_full_round(params: PoseidonParameters, r: int) -> bool {
    r < params.full_rounds / 2 || r >= params.full_rounds / 2 + params.partial_rounds
}

/// One round of the permutation: constants, S-box, linear layer.
pub open spec fn round_spec(params: PoseidonParameters, st: Seq<u64>, r: int) -> Seq<u64> {
    let a = add_rc_spec(params.modulus, st, params.rc_mat()[r]);
    let b = if is_full_round(params, r) {
        sbox_full_spec(params.modulus, params.alpha, a)
    } else {
        sbox_partial_spec(params.modulus, params.alpha, a)
    };
    mat_vec_spec(params.modulus, params.mds_mat(), b)
}

/// The state after the first `n` rounds.
pub open spec fn permute_upto_spec(params: PoseidonParameters, st: Seq<u64>, n: int) -> Seq<u64>
    decreases n,
{
    if n <= 0 {
        st
    } else {
        round_spec(params, permute_upto_spec(params, st, n - 1), n - 1)
    }
}

/// The state after the whole permutation.
pub open spec fn permute_spec(params: PoseidonParameters, st: Seq<u64>) -> Seq<u64> {
    permute_upto_spec(params, st, params.total_rounds())
}

/// All cells of `st` are reduced residues modulo `p`.
pub open spec fn cells_reduced(p: u64, st: Seq<u64>) -> bool {
    forall|i: int| 0 <= i < st.len() ==> #[trigger] st[i] < p
}

/// Adds one row of round constants to the state in place.
#[verifier::loop_isolation(false)]
fn apply_round_constants(params: &PoseidonParameters, state: &mut Vec<u64>, r: usize)
    requires
        params.wf(),
        old(state)@.len() == params.width(),
        0 <= r < params.total_rounds(),
    ensures
        final(state)@ == add_rc_spec(params.modulus, old(state)@, params.rc_mat()[r as int]),
{
    let width = rate_plus_capacity(params);
    let rc = &params.round_constants[r];
    let mut i: usize = 0;
    while i < width
        invariant
            i <= width,
            state@.len() == width,
            rc@ == params.rc_mat()[r as int],
            forall|j: int| 0 <= j < i ==> state@[j] == add_mod_spec(params.modulus, old(state)@[j], rc@[j]),
            forall|j: int| i <= j < width ==> state@[j] == old(state)@[j],
        decreases width - i,
    {
        let v = add_mod(params.modulus, state[i], rc[i]);
        state.set(i, v);
        i = i + 1;
    }
    proof {
        assert_seqs_equal!(state@ == add_rc_spec(params.modulus, old(state)@, params.rc_mat()[r as int]));
    }
}

/// Applies the S-box for round `r`: every cell in a full round, cell 0 alone
/// in a partial round.
#[verifier::loop_isolation(false)]
fn apply_sbox(params: &PoseidonParameters, state: &mut Vec<u64>, r: usize)
    requires
        params.wf(),
        old(state)@.len() == params.width(),
        0 <= r < params.total_rounds(),
    ensures
        final(state)@ == (if is_full_round(*params, r as int) {
            sbox_full_spec(params.modulus, params.alpha, old(state)@)
        } else {
            sbox_partial_spec(params.modulus, params.alpha, old(state)@)
        }),
{
    let half_full = params.full_rounds / 2;
    let width = rate_plus_capacity(params);
    let total = params.round_constants.len();
    proof {
        assert(total == params.total_rounds());
        assert(half_full + params.partial_rounds <= total);
    }
    if r < half_full || r >= half_full + params.partial_rounds {
        let mut i: usize = 0;
        while i < width
            invariant
                i <= width,
                state@.len() == width,
                forall|j: int| 0 <= j < i ==> state@[j] == pow_mod_spec(
                    params.modulus,
                    old(state)@[j],
                    params.alpha as nat,
                ),
                forall|j: int| i <= j < width ==> state@[j] == old(state)@[j],
            decreases width - i,
        {
            let v = pow_mod(params.modulus, state[i], params.alpha);
            state.set(i, v);
            i = i + 1;
        }
        proof {
            assert_seqs_equal!(state@ == sbox_full_spec(params.modulus, params.alpha, old(state)@));
        }
    } else {
        let v = pow_mod(params.modulus, state[0], params.alpha);
        state.set(0, v);
        proof {
            assert_seqs_equal!(state@ == sbox_partial_spec(params.modulus, params.alpha, old(state)@));
        }
    }
}

/// Replaces the state with the product of the linear-layer matrix and the
/// state.
#[verifier::loop_isolation(false)]
fn apply_linear_layer(params: &PoseidonParameters, state: &mut Vec<u64>)
    requires
        params.wf(),
        old(state)@.len() == params.width(),
    ensures
        final(state)@ == mat_vec_spec(params.modulus, params.mds_mat(), old(state)@),
        final(state)@.len() == params.width(),
{
    let width = rate_plus_capacity(params);
    let mut out: Vec<u64> = Vec::new();
    let mut i: usize = 0;
    while i < width
        invariant
            i <= width,
            state@ == old(state)@,
            out@.len() == i,
            forall|k: int| 0 <= k < i ==> out@[k] == dot_mod_spec(
                params.modulus,
                params.mds_mat()[k],
                old(state)@,
                params.width(),
            ),
        decreases width - i,
    {
        let row = &params.mds[i];
        let mut acc: u64 = 0;
        let mut j: usize = 0;
        while j < width
            invariant
                j <= width,
                state@ == old(state)@,
                row@ == params.mds_mat()[i as int],
                acc == dot_mod_spec(params.modulus, row@, old(state)@, j as int),
            decreases width - j,
        {
            let t = mul_mod(params.modulus, row[j], state[j]);
            acc = add_mod(params.modulus, acc, t);
            j = j + 1;
        }
        out.push(acc);
        i = i + 1;
    }
    *state = out;
    proof {
        assert_seqs_equal!(state@ == mat_vec_spec(params.modulus, params.mds_mat(), old(state)@));
    }
}

/// The state width as an executable value. The linear-layer matrix has one
/// row per state cell, which shows the width to be a representable length.
pub fn rate_plus_capacity(params: &PoseidonParameters) -> (w: usize)
    requires
        params.wf(),
    ensures
        w == params.width(),
{
    let rows = params.mds.len();
    proof {
        assert(params.mds_mat().len() == rows);
    }
    params.rate + params.capacity
}

/// Applies the whole permutation to the state in place.
#[verifier::loop_isolation(false)]
pub fn permute(params: &PoseidonParameters, state: &mut Vec<u64>)
    requires
        params.wf(),
        old(state)@.len() == params.width(),
    ensures
        final(state)@ == permute_spec(*params, old(state)@),
        final(state)@.len() == params.width(),
{
    let total = params.round_constants.len();
    proof {
        assert(total == params.total_rounds());
    }
    let mut r: usize = 0;
    while r < total
        invariant
            r <= total,
            state@ == permute_upto_spec(*params, old(state)@, r as int),
            state@.len() == params.width(),
        decreases total - r,
    {
        apply_round_constants(params, state, r);
        apply_sbox(params, state, r);
        apply_linear_layer(params, state);
        r = r + 1;
        proof {
            assert(state@ == round_spec(*params, permute_upto_spec(*params, old(state)@, r - 1), r - 1));
            assert(state@ == permute_upto_spec(*params, old(state)@, r as int));
        }
    }
}

/// Every cell of a permuted state is a reduced residue, provided the input
/// cells are: each round ends in the linear layer, whose cells are reduced
/// by construction, and with no rounds the state is unchanged.
pub proof fn lemma_permute_upto_reduced(params: PoseidonParameters, st: Seq<u64>, n: int)
    requires
        params.wf(),
        cells_reduced(params.modulus, st),
    ensures
        cells_reduced(params.modulus, permute_upto_spec(params, st, n)),
    decreases n,
{
    if n <= 0 {
    } else {
        lemma_permute_upto_reduced(params, st, n - 1);
        let prev = permute_upto_spec(params, st, n - 1);
        let next = round_spec(params, prev, n - 1);
        assert forall|i: int| 0 <= i < next.len() implies #[trigger] next[i] < params.modulus by {
            assert(next[i] == dot_mod_spec(
                params.modulus,
                params.mds_mat()[i],
                (if is_full_round(params, n - 1) {
                    sbox_full_spec(params.modulus, params.alpha, add_rc_spec(params.modulus, prev, params.rc_mat()[n - 1]))
                } else {
                    sbox_partial_spec(params.modulus, params.alpha, add_rc_spec(params.modulus, prev, params.rc_mat()[n - 1]))
                }),
                (if is_full_round(params, n - 1) {
                    sbox_full_spec(params.modulus, params.alpha, add_rc_spec(params.modulus, prev, params.rc_mat()[n - 1]))
                } else {
                    sbox_partial_spec(params.modulus, params.alpha, add_rc_spec(params.modulus, prev, params.rc_mat()[n - 1]))
                }).len() as int,
            ));
            lemma_dot_mod_reduced(
                params.modulus,
                params.mds_mat()[i],
                (if is_full_round(params, n - 1) {
                    sbox_full_spec(params.modulus, params.alpha, add_rc_spec(params.modulus, prev, params.rc_mat()[n - 1]))
                } else {
                    sbox_partial_spec(params.modulus, params.alpha, add_rc_spec(params.modulus, prev, params.rc_mat()[n - 1]))
                }),
            );
        }
    }
}

/// The permutation preserves the state width.
pub proof fn lemma_permute_upto_len(params: PoseidonParameters, st: Seq<u64>, n: int)
    requires
        params.wf(),
        st.len() == params.width(),
    ensures
        permute_upto_spec(params, st, n).len() == params.width(),
    decreases n,
{
    if n <= 0 {
    } else {
        lemma_permute_upto_len(params, st, n - 1);
    }
}

/// A reduced-at-every-step dot product is a reduced residue.
pub proof fn lemma_dot_mod_reduced(p: u64, row: Seq<u64>, v: Seq<u64>)
    requires
        p >= 2,
    ensures
        forall|n: int| dot_mod_spec(p, row, v, n) < p,
{
    assert forall|n: int| dot_mod_spec(p, row, v, n) < p by {
        lemma_dot_mod_reduced_at(p, row, v, n);
    }
}

proof fn lemma_dot_mod_reduced_at(p: u64, row: Seq<u64>, v: Seq<u64>, n: int)
    requires
        p >= 2,
    ensures
        dot_mod_spec(p, row, v, n) < p,
    decreases n,
{
    if n <= 0 {
    } else {
        lemma_dot_mod_reduced_at(p, row, v, n - 1);
    }
}

} // verus!
