//! The duplex sponge state machine.
//!
//! A sponge owns a width-sized state vector and a mode: absorbing or
//! squeezing, each with a position inside the current rate block. Absorbed
//! elements are added into successive rate cells; squeezed elements are read
//! from successive rate cells. A block boundary is crossed lazily: the
//! permutation runs just before the first write or read that would overflow
//! the current block, and exactly once on the transition from absorbing to
//! squeezing, even when nothing was absorbed since the last permutation.
//!
//! The central contract is call-splitting invariance: how a sequence of
//! absorbed elements, or a total number of squeezed outputs, is split across
//! calls cannot be observed. The lemmas at the end of this module state and
//! prove both invariances.

use vstd::assert_seqs_equal;
use vstd::prelude::*;

use crate::encoding::{
    elems_needed, elems_to_bits, elems_to_bytes, le_bits_of, le_bytes_of, usable_bits_of,
    usable_bytes_of,
};
use crate::field::{add_mod, add_mod_spec};
use crate::params::PoseidonParameters;
use crate::permutation::{cells_reduced, lemma_permute_upto_reduced, permute, permute_spec};

verus! {

/// What the sponge is doing, with the position inside the current block.
///
/// In `Absorbing`, `pos` counts the rate cells written since the last
/// permutation; in `Squeezing`, the rate cells read since the last
/// permutation. `pos == rate` means the block is exhausted and a permutation
/// is pending.
#[derive(Clone, Copy)]
pub enum DuplexMode {
    Absorbing { pos: usize },
    Squeezing { pos: usize },
}

/// The mathematical mode: a tag plus a position.
pub enum ModeModel {
    Absorbing { pos: nat },
    Squeezing { pos: nat },
}

/// The mathematical sponge: its cells and its mode.
pub struct SpongeModel {
    pub cells: Seq<u64>,
    pub mode: ModeModel,
}

impl SpongeModel {
    /// Structural validity: a width-sized state of reduced residues and a
    /// position that never passes the end of the block.
    pub open spec fn wf(self, params: PoseidonParameters) -> bool {
        &&& self.cells.len() == params.width()
        &&& cells_reduced(params.modulus, self.cells)
        &&& match self.mode {
            ModeModel::Absorbing { pos } => pos <= params.rate,
            ModeModel::Squeezing { pos } => pos <= params.rate,
        }
    }
}

/// A Poseidon sponge: a parameter set, a state vector, and a mode. A sponge
/// may be cloned cheaply to fork an independent continuation.
#[derive(Clone)]
pub struct PoseidonSponge {
    pub params: PoseidonParameters,
    pub state: Vec<u64>,
    pub mode: DuplexMode,
}

impl View for PoseidonSponge {
    type V = SpongeModel;

    open spec fn view(&self) -> SpongeModel {
        SpongeModel {
            cells: self.state@,
            mode: match self.mode {
                DuplexMode::Absorbing { pos } => ModeModel::Absorbing { pos: pos as nat },
                DuplexMode::Squeezing { pos } => ModeModel::Squeezing { pos: pos as nat },
            },
        }
    }
}

/// Runs the pending permutation if the current block is exhausted.
pub open spec fn spec_catch_up(params: PoseidonParameters, cells: Seq<u64>, pos: nat) -> (Seq<u64>, nat) {
    if pos == params.rate {
        (permute_spec(params, cells), 0 as nat)
    } else {
        (cells, pos)
    }
}

/// Absorbs elements one by one starting at write position `pos`: each is
/// added into the next rate cell, permuting first whenever the block is full.
pub open spec fn spec_absorb_elems(
    params: PoseidonParameters,
    cells: Seq<u64>,
    pos: nat,
    es: Seq<u64>,
) -> (Seq<u64>, nat)
    decreases es.len(),
{
    if es.len() == 0 {
        (cells, pos)
    } else {
        let r = spec_catch_up(params, cells, pos);
        let idx = params.capacity + r.1;
        let written = r.0.update(idx as int, add_mod_spec(params.modulus, r.0[idx as int], es[0]));
        spec_absorb_elems(params, written, (r.1 + 1) as nat, es.drop_first())
    }
}

/// One `absorb` call: an empty input changes nothing at all; otherwise a
/// squeezing sponge restarts absorption at position 0, and the elements are
/// absorbed in order.
pub open spec fn spec_absorb(params: PoseidonParameters, m: SpongeModel, es: Seq<u64>) -> SpongeModel {
    if es.len() == 0 {
        m
    } else {
        let pos0: nat = match m.mode {
            ModeModel::Absorbing { pos } => pos,
            ModeModel::Squeezing { .. } => 0,
        };
        let r = spec_absorb_elems(params, m.cells, pos0, es);
        SpongeModel { cells: r.0, mode: ModeModel::Absorbing { pos: r.1 } }
    }
}

/// The transition a `squeeze` call makes before producing output: from
/// absorbing, exactly one permutation finalizes the pending block (even at
/// position 0); from squeezing, only an exhausted block is permuted.
pub open spec fn spec_enter_squeeze(params: PoseidonParameters, m: SpongeModel) -> SpongeModel {
    match m.mode {
        ModeModel::Absorbing { .. } => SpongeModel {
            cells: permute_spec(params, m.cells),
            mode: ModeModel::Squeezing { pos: 0 },
        },
        ModeModel::Squeezing { pos } => {
            let r = spec_catch_up(params, m.cells, pos);
            SpongeModel { cells: r.0, mode: ModeModel::Squeezing { pos: r.1 } }
        },
    }
}

/// Reads `n` outputs from successive rate cells, permuting first whenever
/// the block is exhausted. Returns the final cells, the final position, and
/// the outputs in order.
pub open spec fn spec_emit(params: PoseidonParameters, cells: Seq<u64>, pos: nat, n: nat) -> (
    Seq<u64>,
    nat,
    Seq<u64>,
)
    decreases n,
{
    if n == 0 {
        (cells, pos, Seq::<u64>::empty())
    } else {
        let r = spec_catch_up(params, cells, pos);
        let out0 = r.0[(params.capacity + r.1) as int];
        let rest = spec_emit(params, r.0, (r.1 + 1) as nat, (n - 1) as nat);
        (rest.0, rest.1, seq![out0] + rest.2)
    }
}

/// The position stored in a squeezing mode (0 for an absorbing one).
pub open spec fn squeeze_pos(m: SpongeModel) -> nat {
    match m.mode {
        ModeModel::Squeezing { pos } => pos,
        ModeModel::Absorbing { .. } => 0,
    }
}

/// One `squeeze` call: the entry transition, then `n` outputs.
pub open spec fn spec_squeeze(params: PoseidonParameters, m: SpongeModel, n: nat) -> (SpongeModel, Seq<u64>) {
    let m1 = spec_enter_squeeze(params, m);
    let r = spec_emit(params, m1.cells, squeeze_pos(m1), n);
    (SpongeModel { cells: r.0, mode: ModeModel::Squeezing { pos: r.1 } }, r.2)
}

/// Field elements cast into the field with the given modulus by reduction.
pub open spec fn cast_elems(target_modulus: u64, es: Seq<u64>) -> Seq<u64> {
    Seq::new(es.len(), |i: int| ((es[i] as int) % (target_modulus as int)) as u64)
}

impl PoseidonSponge {
    /// The sponge invariant: valid parameters and a valid model.
    pub open spec fn wf(self) -> bool {
        &&& self.params.wf()
        &&& self@.wf(self.params)
    }

    /// A fresh sponge: zeroed state, absorbing at position 0.
    pub fn new(params: PoseidonParameters) -> (s: Self)
        requires
            params.wf(),
        ensures
            s.wf(),
            s.params == params,
            s@ == (SpongeModel {
                cells: Seq::new(params.width() as nat, |i: int| 0u64),
                mode: ModeModel::Absorbing { pos: 0 },
            }),
    {
        let width = crate::permutation::rate_plus_capacity(&params);
        let mut state: Vec<u64> = Vec::new();
        let mut i: usize = 0;
        while i < width
            invariant
                i <= width,
                state@.len() == i,
                forall|j: int| 0 <= j < i ==> state@[j] == 0u64,
            decreases width - i,
        {
            state.push(0);
            i = i + 1;
        }
        let s = PoseidonSponge { params, state, mode: DuplexMode::Absorbing { pos: 0 } };
        proof {
            assert_seqs_equal!(s.state@ == Seq::new(s.params.width() as nat, |j: int| 0u64));
        }
        s
    }

    /// Absorbs field elements. An empty input is a no-op in any mode; a
    /// squeezing sponge discards its squeeze progress and restarts
    /// absorption; each element is added into the next rate cell, with the
    /// permutation run lazily at every block boundary.
    #[verifier::loop_isolation(false)]
    pub fn absorb(&mut self, input: &[u64])
        requires
            old(self).wf(),
            forall|i: int| 0 <= i < input@.len() ==> input@[i] < old(self).params.modulus,
        ensures
            final(self).wf(),
            final(self).params == old(self).params,
            final(self)@ == spec_absorb(old(self).params, old(self)@, input@),
    {
        if input.len() == 0 {
            return ;
        }
        let mut pos: usize = match self.mode {
            DuplexMode::Absorbing { pos } => pos,
            DuplexMode::Squeezing { .. } => 0,
        };
        let ghost pos0 = pos as nat;
        let ghost cells0 = self.state@;
        let rate = self.params.rate;
        proof {
            assert(input@.skip(0) =~= input@);
        }
        let mut k: usize = 0;
        while k < input.len()
            invariant
                k <= input@.len(),
                pos <= rate,
                self.params == old(self).params,
                self.mode == old(self).mode,
                self.state@.len() == self.params.width(),
                cells_reduced(self.params.modulus, self.state@),
                spec_absorb_elems(self.params, cells0, pos0, input@) == spec_absorb_elems(
                    self.params,
                    self.state@,
                    pos as nat,
                    input@.skip(k as int),
                ),
            decreases input@.len() - k,
        {
            let ghost pre_cells = self.state@;
            let ghost pre_pos = pos as nat;
            if pos == rate {
                proof {
                    lemma_permute_upto_reduced(self.params, self.state@, self.params.total_rounds());
                }
                permute(&self.params, &mut self.state);
                pos = 0;
            }
            let ghost mid_cells = self.state@;
            let ghost mid_pos = pos as nat;
            let sl = self.state.len();
            assert(self.params.capacity + pos < sl);
            let idx = self.params.capacity + pos;
            let v = add_mod(self.params.modulus, self.state[idx], input[k]);
            self.state.set(idx, v);
            proof {
                assert(spec_catch_up(self.params, pre_cells, pre_pos) == (mid_cells, mid_pos));
                assert(input@.skip(k as int)[0] == input@[k as int]);
                assert(input@.skip(k as int).drop_first() =~= input@.skip(k as int + 1));
            }
            pos = pos + 1;
            k = k + 1;
        }
        self.mode = DuplexMode::Absorbing { pos };
        proof {
            assert(input@.skip(input@.len() as int) =~= Seq::<u64>::empty());
            assert(spec_absorb_elems(self.params, cells0, pos0, input@) == (self.state@, pos as nat));
        }
    }

    /// Squeezes `n` field elements. A sponge still absorbing is finalized by
    /// exactly one permutation, even at position 0; afterwards outputs are
    /// read from successive rate cells, with the permutation run lazily at
    /// every block boundary. A request for 0 elements still performs the
    /// entry transition.
    #[verifier::loop_isolation(false)]
    pub fn squeeze_field_elements(&mut self, n: usize) -> (out: Vec<u64>)
        requires
            old(self).wf(),
        ensures
            final(self).wf(),
            final(self).params == old(self).params,
            final(self)@ == spec_squeeze(old(self).params, old(self)@, n as nat).0,
            out@ == spec_squeeze(old(self).params, old(self)@, n as nat).1,
            out@.len() == n,
    {
        let rate = self.params.rate;
        let mut pos: usize;
        match self.mode {
            DuplexMode::Absorbing { .. } => {
                proof {
                    lemma_permute_upto_reduced(self.params, self.state@, self.params.total_rounds());
                }
                permute(&self.params, &mut self.state);
                pos = 0;
            },
            DuplexMode::Squeezing { pos: p } => {
                if p == rate {
                    proof {
                        lemma_permute_upto_reduced(self.params, self.state@, self.params.total_rounds());
                    }
                    permute(&self.params, &mut self.state);
                    pos = 0;
                } else {
                    pos = p;
                }
            },
        }
        let ghost m1 = spec_enter_squeeze(old(self).params, old(self)@);
        proof {
            assert(m1.cells == self.state@);
            assert(squeeze_pos(m1) == pos as nat);
        }
        let ghost cells1 = self.state@;
        let ghost pos1 = pos as nat;
        let mut out: Vec<u64> = Vec::new();
        let mut k: usize = 0;
        while k < n
            invariant
                k <= n,
                pos <= rate,
                out@.len() == k,
                self.params == old(self).params,
                self.state@.len() == self.params.width(),
                cells_reduced(self.params.modulus, self.state@),
                spec_emit(self.params, cells1, pos1, n as nat) == {
                    let r = spec_emit(self.params, self.state@, pos as nat, (n - k) as nat);
                    (r.0, r.1, out@ + r.2)
                },
            decreases n - k,
        {
            let ghost pre_cells = self.state@;
            let ghost pre_pos = pos as nat;
            if pos == rate {
                proof {
                    lemma_permute_upto_reduced(self.params, self.state@, self.params.total_rounds());
                }
                permute(&self.params, &mut self.state);
                pos = 0;
            }
            let sl = self.state.len();
            assert(self.params.capacity + pos < sl);
            let idx = self.params.capacity + pos;
            let e = self.state[idx];
            let ghost pre_out = out@;
            out.push(e);
            proof {
                assert(spec_catch_up(self.params, pre_cells, pre_pos) == (self.state@, pos as nat));
                let rest = spec_emit(self.params, self.state@, (pos + 1) as nat, (n - k - 1) as nat);
                assert(spec_emit(self.params, pre_cells, pre_pos, (n - k) as nat) == (
                    rest.0,
                    rest.1,
                    seq![e] + rest.2,
                ));
                assert(out@ =~= pre_out + seq![e]);
                assert((pre_out + seq![e]) + rest.2 =~= pre_out + (seq![e] + rest.2));
            }
            pos = pos + 1;
            k = k + 1;
        }
        self.mode = DuplexMode::Squeezing { pos };
        proof {
            assert(spec_emit(self.params, self.state@, pos as nat, 0) == (
                self.state@,
                pos as nat,
                Seq::<u64>::empty(),
            ));
            assert(out@ + Seq::<u64>::empty() =~= out@);
        }
        out
    }
}

/// One `squeeze_bytes` call: the minimal number of field elements is
/// squeezed, each is serialized to its usable bytes, and the serialization
/// is truncated to exactly `n` bytes.
pub open spec fn spec_squeeze_bytes(params: PoseidonParameters, m: SpongeModel, n: nat) -> (
    SpongeModel,
    Seq<u8>,
) {
    let ub = usable_bytes_of(params.modulus);
    let r = spec_squeeze(params, m, elems_needed(n, ub));
    (r.0, elems_to_bytes(r.1, ub).take(n as int))
}

/// One `squeeze_bits` call: the minimal number of field elements is
/// squeezed, each is serialized to its usable bits, and the serialization is
/// truncated to exactly `n` bits.
pub open spec fn spec_squeeze_bits(params: PoseidonParameters, m: SpongeModel, n: nat) -> (
    SpongeModel,
    Seq<bool>,
) {
    let ub = usable_bits_of(params.modulus);
    let r = spec_squeeze(params, m, elems_needed(n, ub));
    (r.0, elems_to_bits(r.1, ub).take(n as int))
}

impl PoseidonSponge {
    /// The exact number of elements covering `n` units of `w` per element.
    #[verifier::loop_isolation(false)]
    fn elems_needed_exec(n: usize, w: usize) -> (k: usize)
        requires
            w >= 1,
        ensures
            k == elems_needed(n as nat, w as nat),
            k * w >= n,
    {
        let k: usize;
        if n % w == 0 {
            k = n / w;
        } else {
            proof {
                if w >= 2 && n >= 1 {
                    vstd::arithmetic::div_mod::lemma_div_decreases(n as int, w as int);
                }
            }
            k = n / w + 1;
        }
        proof {
            vstd::arithmetic::div_mod::lemma_fundamental_div_mod(n as int, w as int);
            let q = (n as int) / (w as int);
            let r = (n as int) % (w as int);
            assert(k * w >= n) by (nonlinear_arith)
                requires
                    w >= 1,
                    n == q * (w as int) + r,
                    0 <= r,
                    r < (w as int),
                    (r == 0 ==> k == q) && (r != 0 ==> k == q + 1),
            ;
        }
        k
    }

    /// Squeezes `n` bytes: the minimal number of field elements is squeezed
    /// in one call, each is serialized to the field's usable byte count, and
    /// the final element's serialization is truncated to the remaining
    /// count.
    #[verifier::loop_isolation(false)]
    pub fn squeeze_bytes(&mut self, n: usize) -> (out: Vec<u8>)
        requires
            old(self).wf(),
            old(self).params.modulus >= 256,
        ensures
            final(self).wf(),
            final(self).params == old(self).params,
            final(self)@ == spec_squeeze_bytes(old(self).params, old(self)@, n as nat).0,
            out@ == spec_squeeze_bytes(old(self).params, old(self)@, n as nat).1,
            out@.len() == n,
    {
        let p = self.params.modulus;
        let ub = crate::encoding::usable_bytes(p);
        let k = Self::elems_needed_exec(n, ub);
        let elems = self.squeeze_field_elements(k);
        let mut all: Vec<u8> = Vec::new();
        proof {
            assert(elems@.skip(0) =~= elems@);
        }
        let mut i: usize = 0;
        while i < elems.len()
            invariant
                i <= elems@.len(),
                elems_to_bytes(elems@, ub as nat) == all@ + elems_to_bytes(elems@.skip(i as int), ub as nat),
            decreases elems@.len() - i,
        {
            let ghost pre = all@;
            crate::encoding::append_le_bytes(elems[i], ub, &mut all);
            proof {
                assert(elems@.skip(i as int)[0] == elems@[i as int]);
                assert(elems@.skip(i as int).drop_first() =~= elems@.skip(i as int + 1));
                assert((pre + le_bytes_of(elems@[i as int] as nat, ub as nat)) + elems_to_bytes(
                    elems@.skip(i as int + 1),
                    ub as nat,
                ) =~= pre + (le_bytes_of(elems@[i as int] as nat, ub as nat) + elems_to_bytes(
                    elems@.skip(i as int + 1),
                    ub as nat,
                )));
            }
            i = i + 1;
        }
        proof {
            assert(elems_to_bytes(elems@.skip(elems@.len() as int), ub as nat) =~= Seq::<u8>::empty());
            assert(all@ + Seq::<u8>::empty() =~= all@);
            crate::encoding::lemma_elems_to_bytes_len(elems@, ub as nat);
        }
        let mut out: Vec<u8> = Vec::new();
        let mut idx: usize = 0;
        while idx < n
            invariant
                idx <= n,
                out@ == all@.take(idx as int),
            decreases n - idx,
        {
            let ghost pre = out@;
            out.push(all[idx]);
            proof {
                assert(pre + seq![all@[idx as int]] =~= all@.take(idx as int + 1));
            }
            idx = idx + 1;
        }
        out
    }

    /// Squeezes `n` bits: the minimal number of field elements is squeezed
    /// in one call, each is serialized to the field's usable bit count, and
    /// the final element's serialization is truncated to the remaining
    /// count.
    #[verifier::loop_isolation(false)]
    pub fn squeeze_bits(&mut self, n: usize) -> (out: Vec<bool>)
        requires
            old(self).wf(),
        ensures
            final(self).wf(),
            final(self).params == old(self).params,
            final(self)@ == spec_squeeze_bits(old(self).params, old(self)@, n as nat).0,
            out@ == spec_squeeze_bits(old(self).params, old(self)@, n as nat).1,
            out@.len() == n,
    {
        let p = self.params.modulus;
        let ub = crate::encoding::usable_bits(p);
        let k = Self::elems_needed_exec(n, ub);
        let elems = self.squeeze_field_elements(k);
        let mut all: Vec<bool> = Vec::new();
        proof {
            assert(elems@.skip(0) =~= elems@);
        }
        let mut i: usize = 0;
        while i < elems.len()
            invariant
                i <= elems@.len(),
                elems_to_bits(elems@, ub as nat) == all@ + elems_to_bits(elems@.skip(i as int), ub as nat),
            decreases elems@.len() - i,
        {
            let ghost pre = all@;
            crate::encoding::append_le_bits(elems[i], ub, &mut all);
            proof {
                assert(elems@.skip(i as int)[0] == elems@[i as int]);
                assert(elems@.skip(i as int).drop_first() =~= elems@.skip(i as int + 1));
                assert((pre + le_bits_of(elems@[i as int] as nat, ub as nat)) + elems_to_bits(
                    elems@.skip(i as int + 1),
                    ub as nat,
                ) =~= pre + (le_bits_of(elems@[i as int] as nat, ub as nat) + elems_to_bits(
                    elems@.skip(i as int + 1),
                    ub as nat,
                )));
            }
            i = i + 1;
        }
        proof {
            assert(elems_to_bits(elems@.skip(elems@.len() as int), ub as nat) =~= Seq::<bool>::empty());
            assert(all@ + Seq::<bool>::empty() =~= all@);
            crate::encoding::lemma_elems_to_bits_len(elems@, ub as nat);
        }
        let mut out: Vec<bool> = Vec::new();
        let mut idx: usize = 0;
        while idx < n
            invariant
                idx <= n,
                out@ == all@.take(idx as int),
            decreases n - idx,
        {
            let ghost pre = out@;
            out.push(all[idx]);
            proof {
                assert(pre + seq![all@[idx as int]] =~= all@.take(idx as int + 1));
            }
            idx = idx + 1;
        }
        out
    }

    /// Squeezes `n` native field elements and casts each into the field with
    /// the given modulus, by reduction. With the native modulus as target
    /// this returns exactly the native output.
    #[verifier::loop_isolation(false)]
    pub fn squeeze_field_elements_as(&mut self, n: usize, target_modulus: u64) -> (out: Vec<u64>)
        requires
            old(self).wf(),
            target_modulus >= 2,
        ensures
            final(self).wf(),
            final(self).params == old(self).params,
            final(self)@ == spec_squeeze(old(self).params, old(self)@, n as nat).0,
            out@ == cast_elems(target_modulus, spec_squeeze(old(self).params, old(self)@, n as nat).1),
    {
        let native = self.squeeze_field_elements(n);
        let mut out: Vec<u64> = Vec::new();
        let mut i: usize = 0;
        while i < native.len()
            invariant
                i <= native@.len(),
                out@.len() == i,
                forall|j: int|
                    0 <= j < i ==> out@[j] == ((native@[j] as int) % (target_modulus as int)) as u64,
            decreases native@.len() - i,
        {
            out.push(native[i] % target_modulus);
            i = i + 1;
        }
        proof {
            assert_seqs_equal!(out@ == cast_elems(target_modulus, native@));
        }
        out
    }
}

/// Absorbing `a + b` in one pass reaches the same cells and position as
/// absorbing `a` and then continuing with `b`.
proof fn lemma_absorb_elems_concat(
    params: PoseidonParameters,
    cells: Seq<u64>,
    pos: nat,
    a: Seq<u64>,
    b: Seq<u64>,
)
    ensures
        spec_absorb_elems(params, cells, pos, a + b) == {
            let r = spec_absorb_elems(params, cells, pos, a);
            spec_absorb_elems(params, r.0, r.1, b)
        },
    decreases a.len(),
{
    if a.len() == 0 {
        assert(a + b =~= b);
    } else {
        let r = spec_catch_up(params, cells, pos);
        let idx = params.capacity + r.1;
        let written = r.0.update(idx as int, add_mod_spec(params.modulus, r.0[idx as int], a[0]));
        assert((a + b)[0] == a[0]);
        assert((a + b).drop_first() =~= a.drop_first() + b);
        lemma_absorb_elems_concat(params, written, (r.1 + 1) as nat, a.drop_first(), b);
    }
}

/// Absorb call-splitting invariance: absorbing `a` and then `b`, in two
/// calls, leaves the sponge exactly as absorbing `a + b` in one call.
pub proof fn lemma_absorb_call_splitting(
    params: PoseidonParameters,
    m: SpongeModel,
    a: Seq<u64>,
    b: Seq<u64>,
)
    ensures
        spec_absorb(params, spec_absorb(params, m, a), b) == spec_absorb(params, m, a + b),
{
    if a.len() == 0 {
        assert(a + b =~= b);
    } else if b.len() == 0 {
        assert(a + b =~= a);
    } else {
        let pos0: nat = match m.mode {
            ModeModel::Absorbing { pos } => pos,
            ModeModel::Squeezing { .. } => 0,
        };
        lemma_absorb_elems_concat(params, m.cells, pos0, a, b);
    }
}

/// The sponge after a sequence of `absorb` calls.
pub open spec fn spec_absorb_calls(
    params: PoseidonParameters,
    m: SpongeModel,
    calls: Seq<Seq<u64>>,
) -> SpongeModel
    decreases calls.len(),
{
    if calls.len() == 0 {
        m
    } else {
        spec_absorb_calls(params, spec_absorb(params, m, calls[0]), calls.drop_first())
    }
}

/// Absorb call-splitting invariance, for any partition: feeding any sequence
/// of chunks via separate `absorb` calls leaves the sponge exactly as
/// absorbing their concatenation in one call.
pub proof fn lemma_absorb_partition_invariance(
    params: PoseidonParameters,
    m: SpongeModel,
    calls: Seq<Seq<u64>>,
)
    ensures
        spec_absorb_calls(params, m, calls) == spec_absorb(params, m, calls.flatten()),
    decreases calls.len(),
{
    if calls.len() == 0 {
        assert(calls.flatten() =~= Seq::<u64>::empty());
    } else {
        lemma_absorb_partition_invariance(params, spec_absorb(params, m, calls[0]), calls.drop_first());
        lemma_absorb_call_splitting(params, m, calls[0], calls.drop_first().flatten());
        assert(calls.flatten() == calls[0] + calls.drop_first().flatten());
    }
}

/// Emitting `n1 + n2` outputs in one pass produces the outputs of emitting
/// `n1`, catching up at the block boundary, and emitting `n2` more.
proof fn lemma_emit_split(params: PoseidonParameters, cells: Seq<u64>, pos: nat, n1: nat, n2: nat)
    requires
        params.rate >= 1,
        pos <= params.rate,
    ensures
        ({
            let r1 = spec_emit(params, cells, pos, n1);
            let cu = spec_catch_up(params, r1.0, r1.1);
            let r2 = spec_emit(params, cu.0, cu.1, n2);
            spec_emit(params, cells, pos, (n1 + n2) as nat).2 == r1.2 + r2.2
        }),
    decreases n1,
{
    let r1 = spec_emit(params, cells, pos, n1);
    let cu = spec_catch_up(params, r1.0, r1.1);
    let r2 = spec_emit(params, cu.0, cu.1, n2);
    if n1 == 0 {
        // r1 leaves the state untouched; the first step of a non-empty
        // emission performs exactly the catch-up.
        if n2 == 0 {
            assert(r1.2 + r2.2 =~= Seq::<u64>::empty());
        } else {
            assert(spec_catch_up(params, cu.0, cu.1) == cu);
            assert(spec_emit(params, cells, pos, n2).2 == r2.2);
            assert(Seq::<u64>::empty() + r2.2 =~= r2.2);
        }
    } else {
        let c1 = spec_catch_up(params, cells, pos);
        let out0 = c1.0[(params.capacity + c1.1) as int];
        let rest1 = spec_emit(params, c1.0, (c1.1 + 1) as nat, (n1 - 1) as nat);
        lemma_emit_split(params, c1.0, (c1.1 + 1) as nat, (n1 - 1) as nat, n2);
        assert(r1 == (rest1.0, rest1.1, seq![out0] + rest1.2));
        let rest_total = spec_emit(params, c1.0, (c1.1 + 1) as nat, (n1 - 1 + n2) as nat);
        assert(spec_emit(params, cells, pos, (n1 + n2) as nat) == (
            rest_total.0,
            rest_total.1,
            seq![out0] + rest_total.2,
        ));
        assert(rest_total.2 == rest1.2 + r2.2);
        assert(seq![out0] + (rest1.2 + r2.2) =~= (seq![out0] + rest1.2) + r2.2);
    }
}

/// Squeeze call-splitting invariance: squeezing `n1` elements and then `n2`
/// elements yields, concatenated, exactly the output of squeezing `n1 + n2`
/// elements in one call.
pub proof fn lemma_squeeze_call_splitting(params: PoseidonParameters, m: SpongeModel, n1: nat, n2: nat)
    requires
        params.wf(),
        m.wf(params),
    ensures
        ({
            let first = spec_squeeze(params, m, n1);
            let second = spec_squeeze(params, first.0, n2);
            first.1 + second.1 == spec_squeeze(params, m, (n1 + n2) as nat).1
        }),
{
    let m1 = spec_enter_squeeze(params, m);
    let p1 = squeeze_pos(m1);
    assert(p1 <= params.rate);
    lemma_emit_split(params, m1.cells, p1, n1, n2);
    let r1 = spec_emit(params, m1.cells, p1, n1);
    let first = spec_squeeze(params, m, n1);
    assert(first.0.cells == r1.0 && squeeze_pos(first.0) == r1.1);
    assert(spec_enter_squeeze(params, first.0) == {
        let cu = spec_catch_up(params, r1.0, r1.1);
        SpongeModel { cells: cu.0, mode: ModeModel::Squeezing { pos: cu.1 } }
    });
}

/// The sum of a sequence of request sizes.
pub open spec fn sum_of(reqs: Seq<nat>) -> nat
    decreases reqs.len(),
{
    if reqs.len() == 0 {
        0
    } else {
        reqs[0] + sum_of(reqs.drop_first())
    }
}

/// The concatenated outputs of a sequence of `squeeze` calls.
pub open spec fn spec_squeeze_calls(
    params: PoseidonParameters,
    m: SpongeModel,
    reqs: Seq<nat>,
) -> (SpongeModel, Seq<u64>)
    decreases reqs.len(),
{
    if reqs.len() == 0 {
        (m, Seq::<u64>::empty())
    } else {
        let first = spec_squeeze(params, m, reqs[0]);
        let rest = spec_squeeze_calls(params, first.0, reqs.drop_first());
        (rest.0, first.1 + rest.1)
    }
}

/// Squeeze call-splitting invariance, for any partition: the concatenated
/// outputs of any sequence of requests equal the output of one request for
/// their total.
pub proof fn lemma_squeeze_partition_invariance(
    params: PoseidonParameters,
    m: SpongeModel,
    reqs: Seq<nat>,
)
    requires
        params.wf(),
        m.wf(params),
    ensures
        spec_squeeze_calls(params, m, reqs).1 == spec_squeeze(params, m, sum_of(reqs)).1,
    decreases reqs.len(),
{
    if reqs.len() == 0 {
        lemma_spec_squeeze_wf(params, m, 0);
        assert(spec_squeeze(params, m, 0).1 =~= Seq::<u64>::empty());
    } else {
        let first = spec_squeeze(params, m, reqs[0]);
        lemma_spec_squeeze_wf(params, m, reqs[0]);
        lemma_squeeze_partition_invariance(params, first.0, reqs.drop_first());
        lemma_squeeze_call_splitting(params, m, reqs[0], sum_of(reqs.drop_first()));
    }
}

/// One call against a sponge: an absorption or a squeeze request.
pub enum SpongeCall {
    Absorb { elems: Seq<u64> },
    Squeeze { count: nat },
}

/// The sponge after a sequence of calls, with every squeezed element in
/// order.
pub open spec fn spec_run_calls(
    params: PoseidonParameters,
    m: SpongeModel,
    calls: Seq<SpongeCall>,
) -> (SpongeModel, Seq<u64>)
    decreases calls.len(),
{
    if calls.len() == 0 {
        (m, Seq::<u64>::empty())
    } else {
        let (m1, out1): (SpongeModel, Seq<u64>) = match calls[0] {
            SpongeCall::Absorb { elems } => (spec_absorb(params, m, elems), Seq::<u64>::empty()),
            SpongeCall::Squeeze { count } => spec_squeeze(params, m, count),
        };
        let rest = spec_run_calls(params, m1, calls.drop_first());
        (rest.0, out1 + rest.1)
    }
}

/// Determinism: a parameter set and a call sequence determine the final
/// state and the whole output sequence completely. Each operation's own
/// contract pins its result to a function of the prior state and the input,
/// and this law states the consequence for whole runs: two sponges in equal
/// states fed equal calls can never diverge.
pub proof fn lemma_run_deterministic(
    params: PoseidonParameters,
    m1: SpongeModel,
    m2: SpongeModel,
    calls: Seq<SpongeCall>,
)
    requires
        m1 == m2,
    ensures
        spec_run_calls(params, m1, calls) == spec_run_calls(params, m2, calls),
{
}

/// Squeezing preserves the sponge invariant, returns exactly `n` outputs,
/// and every output is a reduced residue.
pub proof fn lemma_spec_squeeze_wf(params: PoseidonParameters, m: SpongeModel, n: nat)
    requires
        params.wf(),
        m.wf(params),
    ensures
        spec_squeeze(params, m, n).0.wf(params),
        spec_squeeze(params, m, n).1.len() == n,
        forall|i: int| 0 <= i < n ==> #[trigger] spec_squeeze(params, m, n).1[i] < params.modulus,
{
    let m1 = spec_enter_squeeze(params, m);
    match m.mode {
        ModeModel::Absorbing { .. } => {
            lemma_permute_upto_reduced(params, m.cells, params.total_rounds());
            crate::permutation::lemma_permute_upto_len(params, m.cells, params.total_rounds());
        },
        ModeModel::Squeezing { pos } => {
            if pos == params.rate {
                lemma_permute_upto_reduced(params, m.cells, params.total_rounds());
                crate::permutation::lemma_permute_upto_len(params, m.cells, params.total_rounds());
            }
        },
    }
    lemma_emit_wf(params, m1.cells, squeeze_pos(m1), n);
}

/// Emitting preserves the width, the reduced residues and the position
/// bound, returns exactly `n` outputs, and every output is a reduced
/// residue.
proof fn lemma_emit_wf(params: PoseidonParameters, cells: Seq<u64>, pos: nat, n: nat)
    requires
        params.wf(),
        cells.len() == params.width(),
        cells_reduced(params.modulus, cells),
        pos <= params.rate,
    ensures
        ({
            let r = spec_emit(params, cells, pos, n);
            &&& r.0.len() == params.width()
            &&& cells_reduced(params.modulus, r.0)
            &&& r.1 <= params.rate
            &&& r.2.len() == n
            &&& forall|i: int| 0 <= i < r.2.len() ==> #[trigger] r.2[i] < params.modulus
        }),
    decreases n,
{
    if n == 0 {
    } else {
        let cu = spec_catch_up(params, cells, pos);
        if pos == params.rate {
            lemma_permute_upto_reduced(params, cells, params.total_rounds());
            crate::permutation::lemma_permute_upto_len(params, cells, params.total_rounds());
        }
        let out0 = cu.0[(params.capacity + cu.1) as int];
        let rest = spec_emit(params, cu.0, (cu.1 + 1) as nat, (n - 1) as nat);
        lemma_emit_wf(params, cu.0, (cu.1 + 1) as nat, (n - 1) as nat);
        let r = spec_emit(params, cells, pos, n);
        assert(out0 < params.modulus);
        assert forall|i: int| 0 <= i < r.2.len() implies #[trigger] r.2[i] < params.modulus by {
            if i == 0 {
                assert(r.2[0] == out0);
            } else {
                assert(r.2[i] == rest.2[i - 1]);
            }
        }
    }
}

/// Native agreement: casting squeezed elements into the sponge's own field
/// returns them unchanged, so squeezing into the native field equals native
/// squeezing.
pub proof fn lemma_squeeze_cast_native(params: PoseidonParameters, m: SpongeModel, n: nat)
    requires
        params.wf(),
        m.wf(params),
    ensures
        cast_elems(params.modulus, spec_squeeze(params, m, n).1) == spec_squeeze(params, m, n).1,
{
    lemma_spec_squeeze_wf(params, m, n);
    let outs = spec_squeeze(params, m, n).1;
    assert_seqs_equal!(cast_elems(params.modulus, outs) == outs, i => {
        assert(spec_squeeze(params, m, n).1[i] < params.modulus);
        vstd::arithmetic::div_mod::lemma_small_mod(outs[i] as nat, params.modulus as nat);
    });
}

} // verus!
