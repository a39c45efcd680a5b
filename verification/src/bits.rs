//! Bit vectors of any width, kept as big integers.
//!
//! A big integer is read here as the set of the positions of its one
//! bits, the lowest bit at position 0. What `num-bigint` and the standard
//! library compute is stated over that set and is taken on trust; the
//! rest of this file is proved from those statements.

use num_bigint::BigUint;
use vstd::arithmetic::power2::{lemma2_to64, lemma_pow2_unfold, pow2};
use vstd::prelude::*;

verus! {

/// `num_bigint::BigUint`: an unsigned integer of any size.
#[verifier::external_type_specification]
#[verifier::external_body]
pub struct ExBigUint(BigUint);

/// The positions of the one bits of a big integer.
pub uninterp spec fn one_bits(b: BigUint) -> Set<nat>;

/// Whether bit `j` of `d` is one.
pub open spec fn has_bit(d: nat, j: nat) -> bool
    decreases j,
{
    if j == 0 {
        d % 2 == 1
    } else {
        has_bit(d / 2, (j - 1) as nat)
    }
}

/// The number of ones in the binary representation of `d`.
pub open spec fn ones(d: nat) -> nat
    decreases d,
{
    if d == 0 {
        0
    } else {
        d % 2 + ones(d / 2)
    }
}

/// The positions below `limit` of a set of positions.
pub open spec fn below(bits: Set<nat>, limit: nat) -> Set<nat> {
    Set::new(|p: nat| bits.contains(p) && p < limit)
}

/// The positions where exactly one of two bit vectors has a one.
pub open spec fn differing(a: Set<nat>, b: Set<nat>) -> Set<nat> {
    Set::new(|p: nat| a.contains(p) != b.contains(p))
}

/// `BigUint::from` on a `u8` that is 0 or 1: the integer 0 has no one
/// bit, the integer 1 has its one bit at position 0.
#[verifier::external_body]
pub(crate) fn big_from_bit(b: u8) -> (r: BigUint)
    requires
        b <= 1,
    ensures
        one_bits(r) == if b == 1 {
            set![0nat]
        } else {
            Set::<nat>::empty()
        },
{
    BigUint::from(b)
}

/// `<<` of `BigUint` by a `usize`: every one bit moves up by `shift`
/// positions and the positions below `shift` are zero.
#[verifier::external_body]
pub(crate) fn big_shl(b: BigUint, shift: usize) -> (r: BigUint)
    ensures
        one_bits(r) == Set::new(|p: nat| p >= shift && one_bits(b).contains((p - shift) as nat)),
{
    b << shift
}

/// `|` of two `BigUint`: a bit is one where it is one in either operand.
#[verifier::external_body]
pub(crate) fn big_or(a: BigUint, b: BigUint) -> (r: BigUint)
    ensures
        one_bits(r) == one_bits(a).union(one_bits(b)),
{
    a | b
}

/// `^` of two `&BigUint`: a bit is one where it is one in exactly one
/// operand.
#[verifier::external_body]
pub(crate) fn big_xor(a: &BigUint, b: &BigUint) -> (r: BigUint)
    ensures
        one_bits(r) == differing(one_bits(*a), one_bits(*b)),
{
    a ^ b
}

/// `BigUint::to_u32_digits`: the base 2^32 digits, least significant
/// first. Bit `p` of the integer is bit `p % 32` of digit `p / 32`, and
/// no one bit lies beyond the last digit.
#[verifier::external_body]
pub(crate) fn big_u32_digits(b: &BigUint) -> (digits: Vec<u32>)
    ensures
        forall|p: nat|
            one_bits(*b).contains(p) <==> p / 32 < digits@.len() && has_bit(
                digits@[(p / 32) as int] as nat,
                p % 32,
            ),
{
    b.to_u32_digits()
}

/// `u32::count_ones` of the standard library: the number of ones in the
/// binary representation.
#[verifier::external_body]
pub(crate) fn digit_ones(d: u32) -> (r: u32)
    ensures
        r == ones(d as nat),
{
    d.count_ones()
}

/// The positions below `width` at which `d` has a one bit.
pub open spec fn digit_bits(d: nat, width: nat) -> Set<nat> {
    Set::new(|j: nat| j < width && has_bit(d, j))
}

/// A number below `2^width` has as many one bits below `width` as its
/// binary representation has ones.
pub proof fn lemma_digit_bits_len(d: nat, width: nat)
    requires
        d < pow2(width),
    ensures
        digit_bits(d, width).finite(),
        digit_bits(d, width).len() == ones(d),
    decreases width,
{
    if width == 0 {
        lemma2_to64();
        assert(digit_bits(d, width) =~= Set::<nat>::empty());
    } else {
        let half = (d / 2) as nat;
        let lower = (width - 1) as nat;
        lemma_pow2_unfold(width);
        lemma_digit_bits_len(half, lower);
        let up = |j: nat| (j + 1) as nat;
        let raised = digit_bits(half, lower).map(up);
        vstd::set_lib::lemma_map_size(digit_bits(half, lower), raised, up);
        assert forall|j: nat| raised.contains(j) <==> 1 <= j < width && has_bit(d, j) by {
            if 1 <= j < width && has_bit(d, j) {
                assert(digit_bits(half, lower).contains((j - 1) as nat));
            }
        }
        if d % 2 == 1 {
            assert(digit_bits(d, width) =~= raised.insert(0));
        } else {
            assert(digit_bits(d, width) =~= raised);
            if d == 0 {
                lemma_ones_of_zero_digits(lower);
            }
        }
    }
}

/// Zero has no one bit.
proof fn lemma_ones_of_zero_digits(width: nat)
    ensures
        digit_bits(0, width) =~= Set::<nat>::empty(),
{
    assert forall|j: nat| !has_bit(0, j) by {
        lemma_zero_has_no_bit(j);
    }
}

proof fn lemma_zero_has_no_bit(j: nat)
    ensures
        !has_bit(0, j),
    decreases j,
{
    if j > 0 {
        lemma_zero_has_no_bit((j - 1) as nat);
    }
}

/// The positions `p` of a bit vector with `32 * k <= p < 32 * (k + 1)`
/// are those of the one bits of its digit `k`.
proof fn lemma_digit_slice(bits: Set<nat>, digits: Seq<u32>, k: nat)
    requires
        bits.finite(),
        k < digits.len(),
        forall|p: nat|
            bits.contains(p) <==> p / 32 < digits.len() && has_bit(
                digits[(p / 32) as int] as nat,
                p % 32,
            ),
    ensures
        below(bits, 32 * (k + 1)).len() == below(bits, 32 * k).len() + ones(digits[k as int] as nat),
{
    let d = digits[k as int] as nat;
    let lo = below(bits, 32 * k);
    let hi = below(bits, 32 * (k + 1));
    let place = |j: nat| (32 * k + j) as nat;
    let local = digit_bits(d, 32);
    let slice = local.map(place);
    lemma2_to64();
    lemma_digit_bits_len(d, 32);
    vstd::set_lib::lemma_map_size(local, slice, place);
    vstd::set_lib::lemma_len_subset(lo, bits);
    assert(hi =~= lo.union(slice)) by {
        assert forall|p: nat| hi.contains(p) <==> lo.contains(p) || slice.contains(p) by {
            if hi.contains(p) && !lo.contains(p) {
                assert(local.contains(p % 32));
            }
        }
    }
    vstd::set_lib::lemma_set_disjoint_lens(lo, slice);
}

/// Return the number of one bits ("popcount") in a big integer.
pub(crate) fn count_ones(b: BigUint) -> (n: u64)
    requires
        one_bits(b).finite(),
        one_bits(b).len() <= u64::MAX,
    ensures
        n == one_bits(b).len(),
{
    let digits = big_u32_digits(&b);
    let ghost bits = one_bits(b);
    let mut total: u64 = 0;
    let mut k: usize = 0;
    proof {
        assert(below(bits, 0) =~= Set::<nat>::empty());
    }
    while k < digits.len()
        invariant
            k <= digits@.len(),
            bits == one_bits(b),
            bits.finite(),
            bits.len() <= u64::MAX,
            total == below(bits, (32 * k) as nat).len(),
            forall|p: nat|
                bits.contains(p) <==> p / 32 < digits@.len() && has_bit(
                    digits@[(p / 32) as int] as nat,
                    p % 32,
                ),
        decreases digits@.len() - k,
    {
        proof {
            lemma_digit_slice(bits, digits@, k as nat);
            vstd::set_lib::lemma_len_subset(below(bits, (32 * (k + 1)) as nat), bits);
        }
        total += digit_ones(digits[k]) as u64;
        k += 1;
    }
    proof {
        assert(below(bits, (32 * k) as nat) =~= bits);
    }
    total
}

} // verus!
