//! Length-aware encoding of structured values into bytes or field elements.
//!
//! A fixed-size value (a field element, or a fixed-length tuple of them) is
//! encoded by emitting its constituents directly, with no length prefix: both
//! sides of any comparison know its size statically. A variable-size value is
//! encoded as one length unit followed by its payload; omitting the prefix
//! would let two different partitionings of the same flat data serialize
//! identically. Bytes are packed into field elements using the largest byte
//! count that always stays below the modulus, which keeps the packing
//! injective.

use vstd::arithmetic::power2::{
    lemma2_to64, lemma2_to64_rest, lemma_pow2_adds, lemma_pow2_pos, lemma_pow2_strictly_increases,
    pow2,
};
use vstd::assert_seqs_equal;
use vstd::prelude::*;

verus! {

/// The number of bits needed to write `x`: 0 for 0, one more than for `x/2`
/// otherwise.
pub open spec fn bit_length(x: nat) -> nat
    decreases x,
{
    if x == 0 {
        0
    } else {
        1 + bit_length(x / 2)
    }
}

/// How many whole bytes always fit below the modulus `p`: every value of
/// that many bytes is a reduced residue.
pub open spec fn usable_bytes_of(p: u64) -> nat {
    ((bit_length(p as nat) - 1) / 8) as nat
}

/// How many whole bits always fit below the modulus `p`.
pub open spec fn usable_bits_of(p: u64) -> nat {
    (bit_length(p as nat) - 1) as nat
}

/// The `k` low-order bytes of `x`, least significant first.
pub open spec fn le_bytes_of(x: nat, k: nat) -> Seq<u8>
    decreases k,
{
    if k == 0 {
        Seq::<u8>::empty()
    } else {
        seq![(x % 256) as u8] + le_bytes_of(x / 256, (k - 1) as nat)
    }
}

/// The `k` low-order bits of `x`, least significant first.
pub open spec fn le_bits_of(x: nat, k: nat) -> Seq<bool>
    decreases k,
{
    if k == 0 {
        Seq::<bool>::empty()
    } else {
        seq![x % 2 == 1] + le_bits_of(x / 2, (k - 1) as nat)
    }
}

/// The value of a little-endian byte string.
pub open spec fn le_val(bs: Seq<u8>) -> nat
    decreases bs.len(),
{
    if bs.len() == 0 {
        0
    } else {
        (bs[0] + 256 * le_val(bs.drop_first())) as nat
    }
}

/// `le_bytes_of` always yields exactly `k` bytes.
pub proof fn lemma_le_bytes_len(x: nat, k: nat)
    ensures
        le_bytes_of(x, k).len() == k,
    decreases k,
{
    if k == 0 {
    } else {
        lemma_le_bytes_len(x / 256, (k - 1) as nat);
    }
}

/// `le_bits_of` always yields exactly `k` bits.
pub proof fn lemma_le_bits_len(x: nat, k: nat)
    ensures
        le_bits_of(x, k).len() == k,
    decreases k,
{
    if k == 0 {
    } else {
        lemma_le_bits_len(x / 2, (k - 1) as nat);
    }
}

/// A value below `pow2(k)` has at most `k` bits.
pub proof fn lemma_bit_length_le(x: nat, k: nat)
    requires
        x < pow2(k),
    ensures
        bit_length(x) <= k,
    decreases k,
{
    if x == 0 {
    } else if k == 0 {
        assert(pow2(0) == 1) by {
            lemma2_to64();
        }
    } else {
        assert(pow2(k) == 2 * pow2((k - 1) as nat)) by {
            lemma_pow2_adds((k - 1) as nat, 1);
            lemma2_to64();
        }
        lemma_bit_length_le(x / 2, (k - 1) as nat);
    }
}

/// A value of at least `pow2(k)` has more than `k` bits.
pub proof fn lemma_bit_length_ge(x: nat, k: nat)
    requires
        x >= pow2(k),
    ensures
        bit_length(x) >= k + 1,
    decreases k,
{
    lemma_pow2_pos(k);
    if k == 0 {
    } else {
        assert(pow2(k) == 2 * pow2((k - 1) as nat)) by {
            lemma_pow2_adds((k - 1) as nat, 1);
            lemma2_to64();
        }
        lemma_bit_length_ge(x / 2, (k - 1) as nat);
    }
}

/// A positive value reaches its top bit: `x >= pow2(bit_length(x) - 1)`.
pub proof fn lemma_bit_length_lower(x: nat)
    requires
        x >= 1,
    ensures
        bit_length(x) >= 1,
        x >= pow2((bit_length(x) - 1) as nat),
    decreases x,
{
    if x == 1 {
        lemma2_to64();
        assert(bit_length(0) == 0);
        assert(bit_length(1) == 1);
    } else {
        lemma_bit_length_lower(x / 2);
        assert(pow2(bit_length(x / 2)) == 2 * pow2((bit_length(x / 2) - 1) as nat)) by {
            lemma_pow2_adds((bit_length(x / 2) - 1) as nat, 1);
            lemma2_to64();
        }
        assert((bit_length(x) - 1) as nat == bit_length(x / 2));
        assert(2 * pow2((bit_length(x / 2) - 1) as nat) <= 2 * (x / 2));
        assert(2 * (x / 2) <= x);
    }
}

/// Every `u64` has at most 64 bits.
pub proof fn lemma_bit_length_u64(x: u64)
    ensures
        bit_length(x as nat) <= 64,
{
    assert(pow2(64) == 0x10000000000000000) by {
        lemma2_to64_rest();
    }
    lemma_bit_length_le(x as nat, 64);
}

/// The number of bits needed to write `x`.
pub fn bit_length_exec(x: u64) -> (r: usize)
    ensures
        r == bit_length(x as nat),
        r <= 64,
{
    proof {
        lemma_bit_length_u64(x);
    }
    let mut y: u64 = x;
    let mut n: usize = 0;
    while y > 0
        invariant
            n + bit_length(y as nat) == bit_length(x as nat),
            bit_length(x as nat) <= 64,
            n <= 64,
        decreases y,
    {
        y = y / 2;
        n = n + 1;
    }
    n
}

/// The byte capacity of one field element of the field with modulus `p`.
pub fn usable_bytes(p: u64) -> (r: usize)
    requires
        p >= 2,
    ensures
        r == usable_bytes_of(p),
        r <= 7,
        p >= 256 ==> r >= 1,
{
    let bl = bit_length_exec(p);
    proof {
        if p >= 256 {
            assert(pow2(8) == 256) by {
                lemma2_to64();
            }
            lemma_bit_length_ge(p as nat, 8);
        }
    }
    (bl - 1) / 8
}

/// The bit capacity of one field element of the field with modulus `p`.
pub fn usable_bits(p: u64) -> (r: usize)
    requires
        p >= 2,
    ensures
        r == usable_bits_of(p),
        1 <= r <= 63,
{
    proof {
        assert(pow2(1) == 2) by {
            lemma2_to64();
        }
        lemma_bit_length_ge(p as nat, 1);
    }
    let bl = bit_length_exec(p);
    bl - 1
}

/// A field element serialized as its 8 little-endian bytes: the fixed-size
/// byte encoding.
pub open spec fn fe_to_bytes_spec(x: u64) -> Seq<u8> {
    le_bytes_of(x as nat, 8)
}

/// A sequence of field elements serialized element by element.
pub open spec fn fe_seq_to_bytes_spec(es: Seq<u64>) -> Seq<u8>
    decreases es.len(),
{
    if es.len() == 0 {
        Seq::<u8>::empty()
    } else {
        fe_to_bytes_spec(es[0]) + fe_seq_to_bytes_spec(es.drop_first())
    }
}

/// The size of the next chunk when packing `len` remaining bytes with a
/// capacity of `ub` bytes per element.
pub open spec fn chunk_size(len: nat, ub: nat) -> nat {
    if len < ub {
        len
    } else {
        ub
    }
}

/// Bytes packed into field elements: each chunk of at most `usable_bytes_of(p)`
/// bytes becomes one element, read little-endian, so every element stays
/// below the modulus.
pub open spec fn pack_bytes_spec(p: u64, bytes: Seq<u8>) -> Seq<u64>
    decreases bytes.len(),
{
    let ub = usable_bytes_of(p);
    if bytes.len() == 0 || ub == 0 {
        Seq::<u64>::empty()
    } else {
        let m = chunk_size(bytes.len(), ub);
        seq![le_val(bytes.take(m as int)) as u64] + pack_bytes_spec(p, bytes.skip(m as int))
    }
}

/// The length-prefixed byte encoding of a variable-size byte string: its
/// length as 8 little-endian bytes, then the payload.
pub open spec fn bytes_with_length_spec(bs: Seq<u8>) -> Seq<u8> {
    le_bytes_of(bs.len(), 8) + bs
}

/// The length-prefixed field-element encoding of a variable-size byte
/// string: its length as one element, then the packed payload.
pub open spec fn bytes_to_fes_with_length_spec(p: u64, bs: Seq<u8>) -> Seq<u64> {
    seq![bs.len() as u64] + pack_bytes_spec(p, bs)
}

/// The length-prefixed field-element encoding of a variable-size list of
/// field elements: its length as one element, then the elements.
pub open spec fn fes_with_length_spec(es: Seq<u64>) -> Seq<u64> {
    seq![es.len() as u64] + es
}

/// The length-prefixed byte encoding of a variable-size list of field
/// elements: its length as 8 little-endian bytes, then the elements'
/// fixed-size encodings.
pub open spec fn fes_to_bytes_with_length_spec(es: Seq<u64>) -> Seq<u8> {
    le_bytes_of(es.len(), 8) + fe_seq_to_bytes_spec(es)
}

/// How many field elements cover `n` units at `w` units per element: the
/// exact ceiling, never more.
pub open spec fn elems_needed(n: nat, w: nat) -> nat {
    if w == 0 {
        0
    } else if n % w == 0 {
        n / w
    } else {
        n / w + 1
    }
}

/// Field elements serialized as `w` little-endian bytes each.
pub open spec fn elems_to_bytes(es: Seq<u64>, w: nat) -> Seq<u8>
    decreases es.len(),
{
    if es.len() == 0 {
        Seq::<u8>::empty()
    } else {
        le_bytes_of(es[0] as nat, w) + elems_to_bytes(es.drop_first(), w)
    }
}

/// Field elements serialized as `w` little-endian bits each.
pub open spec fn elems_to_bits(es: Seq<u64>, w: nat) -> Seq<bool>
    decreases es.len(),
{
    if es.len() == 0 {
        Seq::<bool>::empty()
    } else {
        le_bits_of(es[0] as nat, w) + elems_to_bits(es.drop_first(), w)
    }
}

/// Serializing yields exactly `w` bytes per element.
pub proof fn lemma_elems_to_bytes_len(es: Seq<u64>, w: nat)
    ensures
        elems_to_bytes(es, w).len() == es.len() * w,
    decreases es.len(),
{
    if es.len() == 0 {
    } else {
        lemma_le_bytes_len(es[0] as nat, w);
        lemma_elems_to_bytes_len(es.drop_first(), w);
        assert(es.len() * w == w + (es.len() - 1) * w) by (nonlinear_arith)
            requires
                es.len() >= 1,
        ;
    }
}

/// Serializing yields exactly `w` bits per element.
pub proof fn lemma_elems_to_bits_len(es: Seq<u64>, w: nat)
    ensures
        elems_to_bits(es, w).len() == es.len() * w,
    decreases es.len(),
{
    if es.len() == 0 {
    } else {
        lemma_le_bits_len(es[0] as nat, w);
        lemma_elems_to_bits_len(es.drop_first(), w);
        assert(es.len() * w == w + (es.len() - 1) * w) by (nonlinear_arith)
            requires
                es.len() >= 1,
        ;
    }
}

/// A little-endian byte string is bounded by `pow2` of its bit width.
pub proof fn lemma_le_val_bound(bs: Seq<u8>)
    ensures
        le_val(bs) < pow2((8 * bs.len()) as nat),
    decreases bs.len(),
{
    if bs.len() == 0 {
        lemma2_to64();
    } else {
        lemma_le_val_bound(bs.drop_first());
        assert(pow2((8 * bs.len()) as nat) == 256 * pow2((8 * (bs.len() - 1)) as nat)) by {
            lemma_pow2_adds((8 * (bs.len() - 1)) as nat, 8);
            lemma2_to64();
        }
    }
}

/// `pow2` is monotone.
proof fn lemma_pow2_le(a: nat, b: nat)
    requires
        a <= b,
    ensures
        pow2(a) <= pow2(b),
{
    if a < b {
        lemma_pow2_strictly_increases(a, b);
    }
}

/// A chunk of at most `usable_bytes_of(p)` bytes is a reduced residue.
pub proof fn lemma_le_val_below_modulus(p: u64, bs: Seq<u8>)
    requires
        p >= 2,
        bs.len() <= usable_bytes_of(p),
    ensures
        le_val(bs) < p,
{
    lemma_le_val_bound(bs);
    let bl = bit_length(p as nat);
    lemma_bit_length_lower(p as nat);
    lemma_pow2_le((8 * bs.len()) as nat, (8 * usable_bytes_of(p)) as nat);
    lemma_pow2_le((8 * usable_bytes_of(p)) as nat, (bl - 1) as nat);
}

/// With a modulus of at least one byte, at least one byte fits per element.
pub proof fn lemma_usable_bytes_pos(p: u64)
    requires
        p >= 256,
    ensures
        usable_bytes_of(p) >= 1,
{
    assert(pow2(8) == 256) by {
        lemma2_to64();
    }
    lemma_bit_length_ge(p as nat, 8);
}

/// Appends the `w` low-order bytes of `x`, least significant first.
#[verifier::loop_isolation(false)]
pub fn append_le_bytes(x: u64, w: usize, dest: &mut Vec<u8>)
    ensures
        final(dest)@ == old(dest)@ + le_bytes_of(x as nat, w as nat),
{
    let mut y: u64 = x;
    let mut k: usize = 0;
    while k < w
        invariant
            k <= w,
            old(dest)@ + le_bytes_of(x as nat, w as nat) == dest@ + le_bytes_of(y as nat, (w - k) as nat),
        decreases w - k,
    {
        let ghost pre = dest@;
        let b: u8 = (y % 256) as u8;
        dest.push(b);
        proof {
            assert(le_bytes_of(y as nat, (w - k) as nat) == seq![b] + le_bytes_of(
                (y / 256) as nat,
                (w - k - 1) as nat,
            ));
            assert(pre + (seq![b] + le_bytes_of((y / 256) as nat, (w - k - 1) as nat)) =~= (pre
                + seq![b]) + le_bytes_of((y / 256) as nat, (w - k - 1) as nat));
            assert(dest@ =~= pre + seq![b]);
        }
        y = y / 256;
        k = k + 1;
    }
    proof {
        assert(le_bytes_of(y as nat, 0) =~= Seq::<u8>::empty());
        assert(dest@ + Seq::<u8>::empty() =~= dest@);
    }
}

/// Appends the `w` low-order bits of `x`, least significant first.
#[verifier::loop_isolation(false)]
pub fn append_le_bits(x: u64, w: usize, dest: &mut Vec<bool>)
    ensures
        final(dest)@ == old(dest)@ + le_bits_of(x as nat, w as nat),
{
    let mut y: u64 = x;
    let mut k: usize = 0;
    while k < w
        invariant
            k <= w,
            old(dest)@ + le_bits_of(x as nat, w as nat) == dest@ + le_bits_of(y as nat, (w - k) as nat),
        decreases w - k,
    {
        let ghost pre = dest@;
        let b: bool = y % 2 == 1;
        dest.push(b);
        proof {
            assert(le_bits_of(y as nat, (w - k) as nat) == seq![b] + le_bits_of(
                (y / 2) as nat,
                (w - k - 1) as nat,
            ));
            assert(pre + (seq![b] + le_bits_of((y / 2) as nat, (w - k - 1) as nat)) =~= (pre + seq![b])
                + le_bits_of((y / 2) as nat, (w - k - 1) as nat));
            assert(dest@ =~= pre + seq![b]);
        }
        y = y / 2;
        k = k + 1;
    }
    proof {
        assert(le_bits_of(y as nat, 0) =~= Seq::<bool>::empty());
        assert(dest@ + Seq::<bool>::empty() =~= dest@);
    }
}

/// Appends the fixed-size byte encoding of one field element.
pub fn field_element_to_sponge_bytes(x: u64, dest: &mut Vec<u8>)
    ensures
        final(dest)@ == old(dest)@ + fe_to_bytes_spec(x),
{
    append_le_bytes(x, 8, dest);
}

/// Appends the fixed-size field-element encoding of one field element: the
/// element itself.
pub fn field_element_to_sponge_field_elements(x: u64, dest: &mut Vec<u64>)
    ensures
        final(dest)@ == old(dest)@ + seq![x],
{
    dest.push(x);
    proof {
        assert(final(dest)@ =~= old(dest)@ + seq![x]);
    }
}

/// Appends the fixed-size byte encoding of a list of field elements: each
/// element's 8 little-endian bytes, in order, with no length prefix.
#[verifier::loop_isolation(false)]
pub fn field_elements_to_sponge_bytes(es: &[u64], dest: &mut Vec<u8>)
    ensures
        final(dest)@ == old(dest)@ + fe_seq_to_bytes_spec(es@),
{
    let mut i: usize = 0;
    proof {
        assert(es@.skip(0) =~= es@);
    }
    while i < es.len()
        invariant
            i <= es@.len(),
            old(dest)@ + fe_seq_to_bytes_spec(es@) == dest@ + fe_seq_to_bytes_spec(es@.skip(i as int)),
        decreases es@.len() - i,
    {
        let ghost pre = dest@;
        field_element_to_sponge_bytes(es[i], dest);
        proof {
            assert(es@.skip(i as int)[0] == es@[i as int]);
            assert(es@.skip(i as int).drop_first() =~= es@.skip(i as int + 1));
            assert(pre + (fe_to_bytes_spec(es@[i as int]) + fe_seq_to_bytes_spec(es@.skip(i as int + 1)))
                =~= (pre + fe_to_bytes_spec(es@[i as int])) + fe_seq_to_bytes_spec(
                es@.skip(i as int + 1),
            ));
        }
        i = i + 1;
    }
    proof {
        assert(fe_seq_to_bytes_spec(es@.skip(es@.len() as int)) =~= Seq::<u8>::empty());
        assert(dest@ + Seq::<u8>::empty() =~= dest@);
    }
}

/// Appends the fixed-size field-element encoding of a list of field
/// elements: the elements themselves, with no length prefix.
#[verifier::loop_isolation(false)]
pub fn field_elements_to_sponge_field_elements(es: &[u64], dest: &mut Vec<u64>)
    ensures
        final(dest)@ == old(dest)@ + es@,
{
    let mut i: usize = 0;
    while i < es.len()
        invariant
            i <= es@.len(),
            dest@ == old(dest)@ + es@.take(i as int),
        decreases es@.len() - i,
    {
        let ghost pre = dest@;
        dest.push(es[i]);
        proof {
            assert(dest@ =~= pre + seq![es@[i as int]]);
            assert((old(dest)@ + es@.take(i as int)) + seq![es@[i as int]] =~= old(dest)@ + es@.take(
                i as int + 1,
            ));
        }
        i = i + 1;
    }
    proof {
        assert(es@.take(es@.len() as int) =~= es@);
    }
}

/// Appends a byte string verbatim: the fixed-size byte encoding of bytes
/// whose count both sides know statically.
#[verifier::loop_isolation(false)]
pub fn bytes_to_sponge_bytes(bytes: &[u8], dest: &mut Vec<u8>)
    ensures
        final(dest)@ == old(dest)@ + bytes@,
{
    let mut i: usize = 0;
    while i < bytes.len()
        invariant
            i <= bytes@.len(),
            dest@ == old(dest)@ + bytes@.take(i as int),
        decreases bytes@.len() - i,
    {
        let ghost pre = dest@;
        dest.push(bytes[i]);
        proof {
            assert(dest@ =~= pre + seq![bytes@[i as int]]);
            assert((old(dest)@ + bytes@.take(i as int)) + seq![bytes@[i as int]] =~= old(dest)@
                + bytes@.take(i as int + 1));
        }
        i = i + 1;
    }
    proof {
        assert(bytes@.take(bytes@.len() as int) =~= bytes@);
    }
}

/// Appends the length-prefixed byte encoding of a variable-size byte string.
pub fn bytes_to_sponge_bytes_with_length(bytes: &[u8], dest: &mut Vec<u8>)
    ensures
        final(dest)@ == old(dest)@ + bytes_with_length_spec(bytes@),
{
    let n = bytes.len();
    field_element_to_sponge_bytes(n as u64, dest);
    let ghost mid = dest@;
    bytes_to_sponge_bytes(bytes, dest);
    proof {
        assert((old(dest)@ + le_bytes_of(bytes@.len(), 8)) + bytes@ =~= old(dest)@ + (le_bytes_of(
            bytes@.len(),
            8,
        ) + bytes@));
    }
}

/// Appends the packed field-element encoding of a byte string: chunks of
/// `usable_bytes_of(p)` bytes, each read little-endian into one element.
/// Every appended element is a reduced residue.
#[verifier::loop_isolation(false)]
pub fn bytes_to_sponge_field_elements(p: u64, bytes: &[u8], dest: &mut Vec<u64>)
    requires
        p >= 256,
    ensures
        final(dest)@ == old(dest)@ + pack_bytes_spec(p, bytes@),
        forall|i: int|
            old(dest)@.len() <= i < final(dest)@.len() ==> #[trigger] final(dest)@[i] < p,
{
    let ub = usable_bytes(p);
    let mut idx: usize = 0;
    proof {
        assert(bytes@.skip(0) =~= bytes@);
    }
    while idx < bytes.len()
        invariant
            idx <= bytes@.len(),
            old(dest)@ + pack_bytes_spec(p, bytes@) == dest@ + pack_bytes_spec(p, bytes@.skip(idx as int)),
            forall|i: int| old(dest)@.len() <= i < dest@.len() ==> #[trigger] dest@[i] < p,
        decreases bytes@.len() - idx,
    {
        let m = if bytes.len() - idx < ub {
            bytes.len() - idx
        } else {
            ub
        };
        let mut val: u64 = 0;
        let mut j: usize = m;
        proof {
            assert(bytes@.subrange(idx + m, idx + m) =~= Seq::<u8>::empty());
            assert(pow2(0) == 1) by {
                lemma2_to64();
            }
        }
        while j > 0
            invariant
                j <= m,
                val == le_val(bytes@.subrange(idx + j, idx + m)),
                val < pow2((8 * (m - j)) as nat),
            decreases j,
        {
            proof {
                assert(pow2((8 * (m - j) + 8) as nat) == 256 * pow2((8 * (m - j)) as nat)) by {
                    lemma_pow2_adds((8 * (m - j)) as nat, 8);
                    lemma2_to64();
                }
                assert(pow2((8 * (m - j) + 8) as nat) <= pow2(56)) by {
                    lemma_pow2_le((8 * (m - j) + 8) as nat, 56);
                }
                assert(pow2(56) == 0x100000000000000) by {
                    lemma2_to64_rest();
                }
            }
            j = j - 1;
            let b = bytes[idx + j];
            val = b as u64 + 256 * val;
            proof {
                assert(bytes@.subrange(idx + j, idx + m)[0] == bytes@[idx + j]);
                assert(bytes@.subrange(idx + j, idx + m).drop_first() =~= bytes@.subrange(
                    idx + j + 1,
                    idx + m,
                ));
            }
        }
        proof {
            assert(bytes@.subrange(idx as int, idx + m) =~= bytes@.skip(idx as int).take(m as int));
            lemma_le_val_below_modulus(p, bytes@.skip(idx as int).take(m as int));
            assert(chunk_size(bytes@.skip(idx as int).len(), usable_bytes_of(p)) == m);
        }
        let ghost pre = dest@;
        dest.push(val);
        proof {
            assert(dest@ =~= pre + seq![val]);
            assert(bytes@.skip(idx as int).skip(m as int) =~= bytes@.skip(idx + m));
            assert(pack_bytes_spec(p, bytes@.skip(idx as int)) == seq![val] + pack_bytes_spec(
                p,
                bytes@.skip(idx + m),
            ));
            assert((pre + seq![val]) + pack_bytes_spec(p, bytes@.skip(idx + m)) =~= pre + (seq![val]
                + pack_bytes_spec(p, bytes@.skip(idx + m))));
        }
        idx = idx + m;
    }
    proof {
        assert(pack_bytes_spec(p, bytes@.skip(bytes@.len() as int)) =~= Seq::<u64>::empty());
        assert(dest@ + Seq::<u64>::empty() =~= dest@);
    }
}

/// Appends the length-prefixed field-element encoding of a variable-size
/// byte string: the length as one element, then the packed payload. Every
/// appended element is a reduced residue.
pub fn bytes_to_sponge_field_elements_with_length(p: u64, bytes: &[u8], dest: &mut Vec<u64>)
    requires
        p >= 256,
        bytes@.len() < p,
    ensures
        final(dest)@ == old(dest)@ + bytes_to_fes_with_length_spec(p, bytes@),
        forall|i: int|
            old(dest)@.len() <= i < final(dest)@.len() ==> #[trigger] final(dest)@[i] < p,
{
    let n = bytes.len();
    let ghost pre = dest@;
    dest.push(n as u64);
    proof {
        assert(dest@ =~= pre + seq![bytes@.len() as u64]);
    }
    bytes_to_sponge_field_elements(p, bytes, dest);
    proof {
        assert((pre + seq![bytes@.len() as u64]) + pack_bytes_spec(p, bytes@) =~= pre + (seq![
            bytes@.len() as u64,
        ] + pack_bytes_spec(p, bytes@)));
    }
}

/// Appends the length-prefixed field-element encoding of a variable-size
/// list of field elements: the length as one element, then the elements.
pub fn field_elements_to_sponge_field_elements_with_length(p: u64, es: &[u64], dest: &mut Vec<u64>)
    requires
        es@.len() < p,
    ensures
        final(dest)@ == old(dest)@ + fes_with_length_spec(es@),
{
    let n = es.len();
    let ghost pre = dest@;
    dest.push(n as u64);
    proof {
        assert(dest@ =~= pre + seq![es@.len() as u64]);
    }
    field_elements_to_sponge_field_elements(es, dest);
    proof {
        assert((pre + seq![es@.len() as u64]) + es@ =~= pre + (seq![es@.len() as u64] + es@));
    }
}

/// Appends the length-prefixed byte encoding of a variable-size list of
/// field elements: the length as 8 little-endian bytes, then the elements'
/// fixed-size encodings.
pub fn field_elements_to_sponge_bytes_with_length(es: &[u64], dest: &mut Vec<u8>)
    ensures
        final(dest)@ == old(dest)@ + fes_to_bytes_with_length_spec(es@),
{
    let n = es.len();
    field_element_to_sponge_bytes(n as u64, dest);
    let ghost mid = dest@;
    field_elements_to_sponge_bytes(es, dest);
    proof {
        assert((old(dest)@ + le_bytes_of(es@.len(), 8)) + fe_seq_to_bytes_spec(es@) =~= old(dest)@ + (
        le_bytes_of(es@.len(), 8) + fe_seq_to_bytes_spec(es@)));
    }
}

/// A fixed-width little-endian serialization is injective on values that
/// fit the width.
pub proof fn lemma_le_bytes_injective(x: nat, y: nat, k: nat)
    requires
        x < pow2((8 * k) as nat),
        y < pow2((8 * k) as nat),
        le_bytes_of(x, k) == le_bytes_of(y, k),
    ensures
        x == y,
    decreases k,
{
    if k == 0 {
        assert(pow2(0) == 1) by {
            lemma2_to64();
        }
    } else {
        assert(le_bytes_of(x, k)[0] == (x % 256) as u8);
        assert(le_bytes_of(y, k)[0] == (y % 256) as u8);
        assert(x % 256 == y % 256);
        assert(le_bytes_of(x, k).drop_first() =~= le_bytes_of(x / 256, (k - 1) as nat));
        assert(le_bytes_of(y, k).drop_first() =~= le_bytes_of(y / 256, (k - 1) as nat));
        assert(pow2((8 * k) as nat) == 256 * pow2((8 * (k - 1)) as nat)) by {
            lemma_pow2_adds((8 * (k - 1)) as nat, 8);
            lemma2_to64();
        }
        assert(x / 256 < pow2((8 * (k - 1)) as nat));
        assert(y / 256 < pow2((8 * (k - 1)) as nat));
        lemma_le_bytes_injective(x / 256, y / 256, (k - 1) as nat);
    }
}

/// Little-endian byte strings of equal length with equal values are equal.
pub proof fn lemma_le_val_injective(u: Seq<u8>, v: Seq<u8>)
    requires
        u.len() == v.len(),
        le_val(u) == le_val(v),
    ensures
        u == v,
    decreases u.len(),
{
    if u.len() == 0 {
        assert(u =~= v);
    } else {
        let ru = le_val(u.drop_first());
        let rv = le_val(v.drop_first());
        vstd::arithmetic::div_mod::lemma_fundamental_div_mod_converse(
            le_val(u) as int,
            256,
            ru as int,
            u[0] as int,
        );
        vstd::arithmetic::div_mod::lemma_fundamental_div_mod_converse(
            le_val(v) as int,
            256,
            rv as int,
            v[0] as int,
        );
        assert(u[0] == v[0]);
        assert(ru == rv);
        lemma_le_val_injective(u.drop_first(), v.drop_first());
        assert_seqs_equal!(u == v, i => {
            if i > 0 {
                assert(u[i] == u.drop_first()[i - 1]);
                assert(v[i] == v.drop_first()[i - 1]);
            }
        });
    }
}

/// Encoding injectivity, byte target, one variable-size value: two byte
/// strings with equal length-prefixed encodings are equal — differing
/// values, in content or in length, never share an encoding.
pub proof fn lemma_bytes_with_length_injective(a: Seq<u8>, b: Seq<u8>)
    requires
        a.len() < pow2(64),
        b.len() < pow2(64),
        bytes_with_length_spec(a) == bytes_with_length_spec(b),
    ensures
        a == b,
{
    lemma_le_bytes_len(a.len(), 8);
    lemma_le_bytes_len(b.len(), 8);
    assert_seqs_equal!(le_bytes_of(a.len(), 8) == le_bytes_of(b.len(), 8), i => {
        assert(bytes_with_length_spec(a)[i] == le_bytes_of(a.len(), 8)[i]);
        assert(bytes_with_length_spec(b)[i] == le_bytes_of(b.len(), 8)[i]);
    });
    lemma_le_bytes_injective(a.len(), b.len(), 8);
    assert_seqs_equal!(a == b, i => {
        assert(bytes_with_length_spec(a)[8 + i] == a[i]);
        assert(bytes_with_length_spec(b)[8 + i] == b[i]);
    });
}

/// Packing is injective on byte strings of equal length.
pub proof fn lemma_pack_bytes_injective(p: u64, a: Seq<u8>, b: Seq<u8>)
    requires
        p >= 256,
        a.len() == b.len(),
        pack_bytes_spec(p, a) == pack_bytes_spec(p, b),
    ensures
        a == b,
    decreases a.len(),
{
    lemma_usable_bytes_pos(p);
    let ub = usable_bytes_of(p);
    if a.len() == 0 {
        assert(a =~= b);
    } else {
        let m = chunk_size(a.len(), ub);
        assert(pack_bytes_spec(p, a)[0] == le_val(a.take(m as int)) as u64);
        assert(pack_bytes_spec(p, b)[0] == le_val(b.take(m as int)) as u64);
        lemma_le_val_below_modulus(p, a.take(m as int));
        lemma_le_val_below_modulus(p, b.take(m as int));
        assert(le_val(a.take(m as int)) == le_val(b.take(m as int)));
        lemma_le_val_injective(a.take(m as int), b.take(m as int));
        assert(pack_bytes_spec(p, a).drop_first() =~= pack_bytes_spec(p, a.skip(m as int)));
        assert(pack_bytes_spec(p, b).drop_first() =~= pack_bytes_spec(p, b.skip(m as int)));
        lemma_pack_bytes_injective(p, a.skip(m as int), b.skip(m as int));
        assert_seqs_equal!(a == b, i => {
            if i < m {
                assert(a[i] == a.take(m as int)[i]);
                assert(b[i] == b.take(m as int)[i]);
            } else {
                assert(a[i] == a.skip(m as int)[i - m]);
                assert(b[i] == b.skip(m as int)[i - m]);
            }
        });
    }
}

/// Encoding injectivity, field-element target, one variable-size value: two
/// byte strings with equal length-prefixed packed encodings are equal.
pub proof fn lemma_bytes_to_fes_with_length_injective(p: u64, a: Seq<u8>, b: Seq<u8>)
    requires
        p >= 256,
        a.len() < p,
        b.len() < p,
        bytes_to_fes_with_length_spec(p, a) == bytes_to_fes_with_length_spec(p, b),
    ensures
        a == b,
{
    assert(bytes_to_fes_with_length_spec(p, a)[0] == a.len() as u64);
    assert(bytes_to_fes_with_length_spec(p, b)[0] == b.len() as u64);
    assert(a.len() == b.len());
    assert(bytes_to_fes_with_length_spec(p, a).drop_first() =~= pack_bytes_spec(p, a));
    assert(bytes_to_fes_with_length_spec(p, b).drop_first() =~= pack_bytes_spec(p, b));
    lemma_pack_bytes_injective(p, a, b);
}

/// Packing yields exactly one element per chunk: the ceiling of the byte
/// count over the per-element capacity.
pub proof fn lemma_pack_bytes_len(p: u64, bs: Seq<u8>)
    requires
        p >= 256,
    ensures
        pack_bytes_spec(p, bs).len() == elems_needed(bs.len(), usable_bytes_of(p)),
    decreases bs.len(),
{
    lemma_usable_bytes_pos(p);
    let ub = usable_bytes_of(p);
    if bs.len() == 0 {
    } else {
        let m = chunk_size(bs.len(), ub);
        lemma_pack_bytes_len(p, bs.skip(m as int));
        if bs.len() <= ub {
            vstd::arithmetic::div_mod::lemma_basic_div_specific_divisor(ub as int);
            if bs.len() < ub {
                vstd::arithmetic::div_mod::lemma_small_mod(bs.len(), ub);
            }
            if bs.len() == ub {
                vstd::arithmetic::div_mod::lemma_div_by_self(ub as int);
                vstd::arithmetic::div_mod::lemma_mod_self_0(ub as int);
            }
        } else {
            // one full chunk leaves bs.len() - ub bytes, one quotient lower
            // with the same remainder
            vstd::arithmetic::div_mod::lemma_div_plus_one((bs.len() - ub) as int, ub as int);
            vstd::arithmetic::div_mod::lemma_mod_sub_multiples_vanish(bs.len() as int, ub as int);
        }
    }
}

/// The field-element encoding of a list of variable-size values: the
/// concatenation of the items' length-prefixed packed encodings.
pub open spec fn fe_list_encoding_spec(p: u64, items: Seq<Seq<u8>>) -> Seq<u64>
    decreases items.len(),
{
    if items.len() == 0 {
        Seq::<u64>::empty()
    } else {
        bytes_to_fes_with_length_spec(p, items[0]) + fe_list_encoding_spec(p, items.drop_first())
    }
}

/// Encoding injectivity, field-element target, lists of variable-size
/// values: two lists with equal encodings are equal item by item — in
/// particular, two partitionings of the same flat data into different chunks
/// never share an encoding.
pub proof fn lemma_fe_list_encoding_injective(p: u64, xs: Seq<Seq<u8>>, ys: Seq<Seq<u8>>)
    requires
        p >= 256,
        forall|i: int| 0 <= i < xs.len() ==> (#[trigger] xs[i]).len() < p,
        forall|i: int| 0 <= i < ys.len() ==> (#[trigger] ys[i]).len() < p,
        fe_list_encoding_spec(p, xs) == fe_list_encoding_spec(p, ys),
    ensures
        xs == ys,
    decreases xs.len(),
{
    if xs.len() == 0 && ys.len() == 0 {
        assert(xs =~= ys);
    } else if xs.len() == 0 {
        assert(fe_list_encoding_spec(p, ys).len() >= bytes_to_fes_with_length_spec(p, ys[0]).len());
        assert(bytes_to_fes_with_length_spec(p, ys[0]).len() >= 1);
    } else if ys.len() == 0 {
        assert(fe_list_encoding_spec(p, xs).len() >= bytes_to_fes_with_length_spec(p, xs[0]).len());
        assert(bytes_to_fes_with_length_spec(p, xs[0]).len() >= 1);
    } else {
        let x0 = xs[0];
        let y0 = ys[0];
        assert(fe_list_encoding_spec(p, xs)[0] == x0.len() as u64);
        assert(fe_list_encoding_spec(p, ys)[0] == y0.len() as u64);
        assert(x0.len() == y0.len());
        let l = x0.len() as int;
        lemma_pack_bytes_len(p, x0);
        lemma_pack_bytes_len(p, y0);
        let seg = 1 + pack_bytes_spec(p, x0).len() as int;
        assert(bytes_to_fes_with_length_spec(p, x0).len() == seg);
        assert(bytes_to_fes_with_length_spec(p, y0).len() == seg);
        assert_seqs_equal!(pack_bytes_spec(p, x0) == pack_bytes_spec(p, y0), i => {
            assert(fe_list_encoding_spec(p, xs)[1 + i] == bytes_to_fes_with_length_spec(p, x0)[1 + i]);
            assert(fe_list_encoding_spec(p, ys)[1 + i] == bytes_to_fes_with_length_spec(p, y0)[1 + i]);
            assert(bytes_to_fes_with_length_spec(p, x0)[1 + i] == pack_bytes_spec(p, x0)[i]);
            assert(bytes_to_fes_with_length_spec(p, y0)[1 + i] == pack_bytes_spec(p, y0)[i]);
        });
        lemma_pack_bytes_injective(p, x0, y0);
        assert(fe_list_encoding_spec(p, xs) == bytes_to_fes_with_length_spec(p, x0)
            + fe_list_encoding_spec(p, xs.drop_first()));
        assert(fe_list_encoding_spec(p, ys) == bytes_to_fes_with_length_spec(p, y0)
            + fe_list_encoding_spec(p, ys.drop_first()));
        assert_seqs_equal!(fe_list_encoding_spec(p, xs.drop_first()) == fe_list_encoding_spec(p, ys.drop_first()), i => {
            assert(fe_list_encoding_spec(p, xs)[seg + i] == fe_list_encoding_spec(p, xs.drop_first())[i]);
            assert(fe_list_encoding_spec(p, ys)[seg + i] == fe_list_encoding_spec(p, ys.drop_first())[i]);
        });
        lemma_fe_list_encoding_injective(p, xs.drop_first(), ys.drop_first());
        assert_seqs_equal!(xs == ys, i => {
            if i > 0 {
                assert(xs[i] == xs.drop_first()[i - 1]);
                assert(ys[i] == ys.drop_first()[i - 1]);
            }
        });
    }
}

/// The byte encoding of a list of variable-size values: the concatenation of
/// the items' length-prefixed encodings.
pub open spec fn byte_list_encoding_spec(items: Seq<Seq<u8>>) -> Seq<u8>
    decreases items.len(),
{
    if items.len() == 0 {
        Seq::<u8>::empty()
    } else {
        bytes_with_length_spec(items[0]) + byte_list_encoding_spec(items.drop_first())
    }
}

/// Encoding injectivity, byte target, lists of variable-size values: two
/// lists with equal encodings are equal item by item — in particular, two
/// partitionings of the same flat data into different chunks never share an
/// encoding.
pub proof fn lemma_byte_list_encoding_injective(xs: Seq<Seq<u8>>, ys: Seq<Seq<u8>>)
    requires
        forall|i: int| 0 <= i < xs.len() ==> (#[trigger] xs[i]).len() < pow2(64),
        forall|i: int| 0 <= i < ys.len() ==> (#[trigger] ys[i]).len() < pow2(64),
        byte_list_encoding_spec(xs) == byte_list_encoding_spec(ys),
    ensures
        xs == ys,
    decreases xs.len(),
{
    if xs.len() == 0 && ys.len() == 0 {
        assert(xs =~= ys);
    } else if xs.len() == 0 {
        lemma_le_bytes_len(ys[0].len(), 8);
        assert(byte_list_encoding_spec(ys).len() >= 8);
    } else if ys.len() == 0 {
        lemma_le_bytes_len(xs[0].len(), 8);
        assert(byte_list_encoding_spec(xs).len() >= 8);
    } else {
        let x0 = xs[0];
        let y0 = ys[0];
        lemma_le_bytes_len(x0.len(), 8);
        lemma_le_bytes_len(y0.len(), 8);
        assert_seqs_equal!(le_bytes_of(x0.len(), 8) == le_bytes_of(y0.len(), 8), i => {
            assert(byte_list_encoding_spec(xs)[i] == bytes_with_length_spec(x0)[i]);
            assert(byte_list_encoding_spec(ys)[i] == bytes_with_length_spec(y0)[i]);
            assert(bytes_with_length_spec(x0)[i] == le_bytes_of(x0.len(), 8)[i]);
            assert(bytes_with_length_spec(y0)[i] == le_bytes_of(y0.len(), 8)[i]);
        });
        lemma_le_bytes_injective(x0.len(), y0.len(), 8);
        let l = x0.len() as int;
        assert_seqs_equal!(x0 == y0, i => {
            assert(byte_list_encoding_spec(xs)[8 + i] == bytes_with_length_spec(x0)[8 + i]);
            assert(byte_list_encoding_spec(ys)[8 + i] == bytes_with_length_spec(y0)[8 + i]);
            assert(bytes_with_length_spec(x0)[8 + i] == x0[i]);
            assert(bytes_with_length_spec(y0)[8 + i] == y0[i]);
        });
        assert(byte_list_encoding_spec(xs) == bytes_with_length_spec(x0) + byte_list_encoding_spec(
            xs.drop_first(),
        ));
        assert(byte_list_encoding_spec(ys) == bytes_with_length_spec(y0) + byte_list_encoding_spec(
            ys.drop_first(),
        ));
        assert(bytes_with_length_spec(x0).len() == 8 + l);
        assert(bytes_with_length_spec(y0).len() == 8 + l);
        assert_seqs_equal!(byte_list_encoding_spec(xs.drop_first()) == byte_list_encoding_spec(ys.drop_first()), i => {
            assert(byte_list_encoding_spec(xs)[8 + l + i] == byte_list_encoding_spec(xs.drop_first())[i]);
            assert(byte_list_encoding_spec(ys)[8 + l + i] == byte_list_encoding_spec(ys.drop_first())[i]);
        });
        lemma_byte_list_encoding_injective(xs.drop_first(), ys.drop_first());
        assert_seqs_equal!(xs == ys, i => {
            if i > 0 {
                assert(xs[i] == xs.drop_first()[i - 1]);
                assert(ys[i] == ys.drop_first()[i - 1]);
            }
        });
    }
}

} // verus!
