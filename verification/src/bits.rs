//! Bit-level vocabulary for 64-square bitboards: what it means for a square
//! to be in a set, and the facts about `|`, `&`, `!`, `^`, shifts and
//! trailing zeros that the board code relies on.

use vstd::prelude::*;
use vstd::std_specs::bits::{u64_trailing_zeros, axiom_u64_trailing_zeros};

verus! {

/// Square `i` belongs to the bitboard `x`.
pub open spec fn bit(x: u64, i: int) -> bool {
    (x >> (i as u64)) & 1u64 == 1u64
}

/// The blocker predicate of an occupancy bitboard.
pub open spec fn occ_blocked(occ: u64) -> spec_fn(int) -> bool {
    |u: int| bit(occ, u)
}

pub proof fn lemma_bit_single(s: u64, i: u64)
    requires
        s < 64,
        i < 64,
    ensures
        bit(1u64 << s, i as int) <==> i == s,
{
    assert(((1u64 << s) >> i) & 1u64 == 1u64 <==> i == s) by (bit_vector)
        requires
            s < 64,
            i < 64,
    ;
}

pub proof fn lemma_bit_or(x: u64, y: u64, i: u64)
    requires
        i < 64,
    ensures
        bit(x | y, i as int) <==> bit(x, i as int) || bit(y, i as int),
{
    assert(((x | y) >> i) & 1u64 == 1u64 <==> (x >> i) & 1u64 == 1u64 || (y >> i) & 1u64
        == 1u64) by (bit_vector)
        requires
            i < 64,
    ;
}

pub proof fn lemma_bit_and(x: u64, y: u64, i: u64)
    requires
        i < 64,
    ensures
        bit(x & y, i as int) <==> bit(x, i as int) && bit(y, i as int),
{
    assert(((x & y) >> i) & 1u64 == 1u64 <==> (x >> i) & 1u64 == 1u64 && (y >> i) & 1u64
        == 1u64) by (bit_vector)
        requires
            i < 64,
    ;
}

pub proof fn lemma_bit_not(x: u64, i: u64)
    requires
        i < 64,
    ensures
        bit(!x, i as int) <==> !bit(x, i as int),
{
    assert(((!x) >> i) & 1u64 == 1u64 <==> !((x >> i) & 1u64 == 1u64)) by (bit_vector)
        requires
            i < 64,
    ;
}

pub proof fn lemma_bit_xor(x: u64, y: u64, i: u64)
    requires
        i < 64,
    ensures
        bit(x ^ y, i as int) <==> bit(x, i as int) != bit(y, i as int),
{
    assert(((x ^ y) >> i) & 1u64 == 1u64 <==> ((x >> i) & 1u64 == 1u64) != ((y >> i) & 1u64
        == 1u64)) by (bit_vector)
        requires
            i < 64,
    ;
}

pub proof fn lemma_bit_zero(i: u64)
    requires
        i < 64,
    ensures
        !bit(0u64, i as int),
{
    assert(!((0u64 >> i) & 1u64 == 1u64)) by (bit_vector);
}

/// The set operations of bitboards, for every square at once.
pub proof fn lemma_bits_ops(x: u64, y: u64)
    ensures
        forall|i: int| 0 <= i < 64 ==> (#[trigger] bit(x | y, i) <==> bit(x, i) || bit(y, i)),
        forall|i: int| 0 <= i < 64 ==> (#[trigger] bit(x & y, i) <==> bit(x, i) && bit(y, i)),
        forall|i: int| 0 <= i < 64 ==> (#[trigger] bit(x ^ y, i) <==> bit(x, i) != bit(y, i)),
        forall|i: int| 0 <= i < 64 ==> (#[trigger] bit(!x, i) <==> !bit(x, i)),
        forall|i: int| 0 <= i < 64 ==> !#[trigger] bit(0u64, i),
{
    assert forall|i: int| 0 <= i < 64 implies (#[trigger] bit(x | y, i) <==> bit(x, i) || bit(y, i)) by {
        lemma_bit_or(x, y, i as u64);
    }
    assert forall|i: int| 0 <= i < 64 implies (#[trigger] bit(x & y, i) <==> bit(x, i) && bit(y, i)) by {
        lemma_bit_and(x, y, i as u64);
    }
    assert forall|i: int| 0 <= i < 64 implies (#[trigger] bit(x ^ y, i) <==> bit(x, i) != bit(y, i)) by {
        lemma_bit_xor(x, y, i as u64);
    }
    assert forall|i: int| 0 <= i < 64 implies (#[trigger] bit(!x, i) <==> !bit(x, i)) by {
        lemma_bit_not(x, i as u64);
    }
    assert forall|i: int| 0 <= i < 64 implies !#[trigger] bit(0u64, i) by {
        lemma_bit_zero(i as u64);
    }
}

/// The single-square bitboard, for every square at once.
pub proof fn lemma_bits_single(s: u64)
    requires
        s < 64,
    ensures
        forall|i: int| 0 <= i < 64 ==> (#[trigger] bit(1u64 << s, i) <==> i == s),
{
    assert forall|i: int| 0 <= i < 64 implies (#[trigger] bit(1u64 << s, i) <==> i == s) by {
        lemma_bit_single(s, i as u64);
    }
}

/// Adding square `s` to a set.
pub proof fn lemma_bits_insert(x: u64, s: u64)
    requires
        s < 64,
    ensures
        forall|i: int| 0 <= i < 64 ==> (#[trigger] bit(x | (1u64 << s), i) <==> bit(x, i) || i == s),
{
    lemma_bits_ops(x, 1u64 << s);
    lemma_bits_single(s);
}

/// Removing square `s` from a set.
pub proof fn lemma_bits_remove(x: u64, s: u64)
    requires
        s < 64,
    ensures
        forall|i: int| 0 <= i < 64 ==> (#[trigger] bit(x & !(1u64 << s), i) <==> bit(x, i) && i != s),
{
    lemma_bits_ops(x, !(1u64 << s));
    lemma_bits_ops(1u64 << s, 0u64);
    lemma_bits_single(s);
}

/// A set that misses square `s` tests empty against its single-square set,
/// and one that holds it does not.
pub proof fn lemma_bit_test(x: u64, s: u64)
    requires
        s < 64,
    ensures
        (x & (1u64 << s) != 0u64) <==> bit(x, s as int),
{
    assert((x & (1u64 << s) != 0u64) <==> (x >> s) & 1u64 == 1u64) by (bit_vector)
        requires
            s < 64,
    ;
}

proof fn lemma_clear_lowest_bv(x: u64, k: u64, i: u64)
    by (bit_vector)
    requires
        k < 64,
        i < 64,
        (x >> k) & 1u64 == 1u64,
            (0u64 < k ==> (x >> 0u64) & 1u64 == 0u64),
            (1u64 < k ==> (x >> 1u64) & 1u64 == 0u64),
            (2u64 < k ==> (x >> 2u64) & 1u64 == 0u64),
            (3u64 < k ==> (x >> 3u64) & 1u64 == 0u64),
            (4u64 < k ==> (x >> 4u64) & 1u64 == 0u64),
            (5u64 < k ==> (x >> 5u64) & 1u64 == 0u64),
            (6u64 < k ==> (x >> 6u64) & 1u64 == 0u64),
            (7u64 < k ==> (x >> 7u64) & 1u64 == 0u64),
            (8u64 < k ==> (x >> 8u64) & 1u64 == 0u64),
            (9u64 < k ==> (x >> 9u64) & 1u64 == 0u64),
            (10u64 < k ==> (x >> 10u64) & 1u64 == 0u64),
            (11u64 < k ==> (x >> 11u64) & 1u64 == 0u64),
            (12u64 < k ==> (x >> 12u64) & 1u64 == 0u64),
            (13u64 < k ==> (x >> 13u64) & 1u64 == 0u64),
            (14u64 < k ==> (x >> 14u64) & 1u64 == 0u64),
            (15u64 < k ==> (x >> 15u64) & 1u64 == 0u64),
            (16u64 < k ==> (x >> 16u64) & 1u64 == 0u64),
            (17u64 < k ==> (x >> 17u64) & 1u64 == 0u64),
            (18u64 < k ==> (x >> 18u64) & 1u64 == 0u64),
            (19u64 < k ==> (x >> 19u64) & 1u64 == 0u64),
            (20u64 < k ==> (x >> 20u64) & 1u64 == 0u64),
            (21u64 < k ==> (x >> 21u64) & 1u64 == 0u64),
            (22u64 < k ==> (x >> 22u64) & 1u64 == 0u64),
            (23u64 < k ==> (x >> 23u64) & 1u64 == 0u64),
            (24u64 < k ==> (x >> 24u64) & 1u64 == 0u64),
            (25u64 < k ==> (x >> 25u64) & 1u64 == 0u64),
            (26u64 < k ==> (x >> 26u64) & 1u64 == 0u64),
            (27u64 < k ==> (x >> 27u64) & 1u64 == 0u64),
            (28u64 < k ==> (x >> 28u64) & 1u64 == 0u64),
            (29u64 < k ==> (x >> 29u64) & 1u64 == 0u64),
            (30u64 < k ==> (x >> 30u64) & 1u64 == 0u64),
            (31u64 < k ==> (x >> 31u64) & 1u64 == 0u64),
            (32u64 < k ==> (x >> 32u64) & 1u64 == 0u64),
            (33u64 < k ==> (x >> 33u64) & 1u64 == 0u64),
            (34u64 < k ==> (x >> 34u64) & 1u64 == 0u64),
            (35u64 < k ==> (x >> 35u64) & 1u64 == 0u64),
            (36u64 < k ==> (x >> 36u64) & 1u64 == 0u64),
            (37u64 < k ==> (x >> 37u64) & 1u64 == 0u64),
            (38u64 < k ==> (x >> 38u64) & 1u64 == 0u64),
            (39u64 < k ==> (x >> 39u64) & 1u64 == 0u64),
            (40u64 < k ==> (x >> 40u64) & 1u64 == 0u64),
            (41u64 < k ==> (x >> 41u64) & 1u64 == 0u64),
            (42u64 < k ==> (x >> 42u64) & 1u64 == 0u64),
            (43u64 < k ==> (x >> 43u64) & 1u64 == 0u64),
            (44u64 < k ==> (x >> 44u64) & 1u64 == 0u64),
            (45u64 < k ==> (x >> 45u64) & 1u64 == 0u64),
            (46u64 < k ==> (x >> 46u64) & 1u64 == 0u64),
            (47u64 < k ==> (x >> 47u64) & 1u64 == 0u64),
            (48u64 < k ==> (x >> 48u64) & 1u64 == 0u64),
            (49u64 < k ==> (x >> 49u64) & 1u64 == 0u64),
            (50u64 < k ==> (x >> 50u64) & 1u64 == 0u64),
            (51u64 < k ==> (x >> 51u64) & 1u64 == 0u64),
            (52u64 < k ==> (x >> 52u64) & 1u64 == 0u64),
            (53u64 < k ==> (x >> 53u64) & 1u64 == 0u64),
            (54u64 < k ==> (x >> 54u64) & 1u64 == 0u64),
            (55u64 < k ==> (x >> 55u64) & 1u64 == 0u64),
            (56u64 < k ==> (x >> 56u64) & 1u64 == 0u64),
            (57u64 < k ==> (x >> 57u64) & 1u64 == 0u64),
            (58u64 < k ==> (x >> 58u64) & 1u64 == 0u64),
            (59u64 < k ==> (x >> 59u64) & 1u64 == 0u64),
            (60u64 < k ==> (x >> 60u64) & 1u64 == 0u64),
            (61u64 < k ==> (x >> 61u64) & 1u64 == 0u64),
            (62u64 < k ==> (x >> 62u64) & 1u64 == 0u64),
            (63u64 < k ==> (x >> 63u64) & 1u64 == 0u64),
    ensures
        ((x & sub_one(x)) >> i) & 1u64 == 1u64 <==> ((x >> i) & 1u64 == 1u64 && i != k),
        sub_one(x) < x,
{
}

/// `x - 1` for a nonzero `x`.
pub open spec fn sub_one(x: u64) -> u64 {
    (x - 1) as u64
}

/// The lowest square of a nonempty set, and the set without it.
pub proof fn lemma_lowest_bit(x: u64)
    requires
        x != 0,
    ensures
        u64_trailing_zeros(x) < 64,
        bit(x, u64_trailing_zeros(x) as int),
        forall|j: int| 0 <= j < u64_trailing_zeros(x) ==> !#[trigger] bit(x, j),
        forall|i: int|
            0 <= i < 64 ==> (#[trigger] bit(x & sub_one(x), i) <==> bit(x, i) && i
                != u64_trailing_zeros(x)),
        x & sub_one(x) < x,
{
    axiom_u64_trailing_zeros(x);
    let k = u64_trailing_zeros(x) as u64;
    assert forall|j: int| 0 <= j < u64_trailing_zeros(x) implies !#[trigger] bit(x, j) by {
        assert((x >> (j as u64)) & 1u64 == 0u64);
    }
    assert forall|i: int| 0 <= i < 64 implies (#[trigger] bit(x & sub_one(x), i) <==> bit(x, i)
        && i != u64_trailing_zeros(x)) by {
        lemma_clear_lowest_bv(x, k, i as u64);
    }
    lemma_clear_lowest_bv(x, k, 0);
    assert((x & sub_one(x)) <= sub_one(x)) by (bit_vector);
}

/// Two bitboards that hold the same squares are equal.
pub proof fn lemma_bits_ext(x: u64, y: u64)
    requires
        forall|i: int| 0 <= i < 64 ==> #[trigger] bit(x, i) == bit(y, i),
    ensures
        x == y,
{
    lemma_bits_ext_bv(x, y);
}

proof fn lemma_bits_ext_bv(x: u64, y: u64)
    requires
        forall|i: int| 0 <= i < 64 ==> #[trigger] bit(x, i) == bit(y, i),
    ensures
        x == y,
{
    assert forall|i: u64| i < 64 implies (x >> i) & 1u64 == (y >> i) & 1u64 by {
        assert(bit(x, i as int) == bit(y, i as int));
        assert(((x >> i) & 1u64 == 1u64 || (x >> i) & 1u64 == 0u64)) by (bit_vector);
        assert(((y >> i) & 1u64 == 1u64 || (y >> i) & 1u64 == 0u64)) by (bit_vector);
    }
    lemma_bits_ext_final(x, y);
}

proof fn lemma_bits_ext_final(x: u64, y: u64)
    requires
        forall|i: u64| i < 64 ==> #[trigger] ((x >> i) & 1u64) == (y >> i) & 1u64,
    ensures
        x == y,
{
    assert(((x >> 0u64) & 1u64) == (y >> 0u64) & 1u64);
    assert(((x >> 1u64) & 1u64) == (y >> 1u64) & 1u64);
    assert(((x >> 2u64) & 1u64) == (y >> 2u64) & 1u64);
    assert(((x >> 3u64) & 1u64) == (y >> 3u64) & 1u64);
    assert(((x >> 4u64) & 1u64) == (y >> 4u64) & 1u64);
    assert(((x >> 5u64) & 1u64) == (y >> 5u64) & 1u64);
    assert(((x >> 6u64) & 1u64) == (y >> 6u64) & 1u64);
    assert(((x >> 7u64) & 1u64) == (y >> 7u64) & 1u64);
    assert(((x >> 8u64) & 1u64) == (y >> 8u64) & 1u64);
    assert(((x >> 9u64) & 1u64) == (y >> 9u64) & 1u64);
    assert(((x >> 10u64) & 1u64) == (y >> 10u64) & 1u64);
    assert(((x >> 11u64) & 1u64) == (y >> 11u64) & 1u64);
    assert(((x >> 12u64) & 1u64) == (y >> 12u64) & 1u64);
    assert(((x >> 13u64) & 1u64) == (y >> 13u64) & 1u64);
    assert(((x >> 14u64) & 1u64) == (y >> 14u64) & 1u64);
    assert(((x >> 15u64) & 1u64) == (y >> 15u64) & 1u64);
    assert(((x >> 16u64) & 1u64) == (y >> 16u64) & 1u64);
    assert(((x >> 17u64) & 1u64) == (y >> 17u64) & 1u64);
    assert(((x >> 18u64) & 1u64) == (y >> 18u64) & 1u64);
    assert(((x >> 19u64) & 1u64) == (y >> 19u64) & 1u64);
    assert(((x >> 20u64) & 1u64) == (y >> 20u64) & 1u64);
    assert(((x >> 21u64) & 1u64) == (y >> 21u64) & 1u64);
    assert(((x >> 22u64) & 1u64) == (y >> 22u64) & 1u64);
    assert(((x >> 23u64) & 1u64) == (y >> 23u64) & 1u64);
    assert(((x >> 24u64) & 1u64) == (y >> 24u64) & 1u64);
    assert(((x >> 25u64) & 1u64) == (y >> 25u64) & 1u64);
    assert(((x >> 26u64) & 1u64) == (y >> 26u64) & 1u64);
    assert(((x >> 27u64) & 1u64) == (y >> 27u64) & 1u64);
    assert(((x >> 28u64) & 1u64) == (y >> 28u64) & 1u64);
    assert(((x >> 29u64) & 1u64) == (y >> 29u64) & 1u64);
    assert(((x >> 30u64) & 1u64) == (y >> 30u64) & 1u64);
    assert(((x >> 31u64) & 1u64) == (y >> 31u64) & 1u64);
    assert(((x >> 32u64) & 1u64) == (y >> 32u64) & 1u64);
    assert(((x >> 33u64) & 1u64) == (y >> 33u64) & 1u64);
    assert(((x >> 34u64) & 1u64) == (y >> 34u64) & 1u64);
    assert(((x >> 35u64) & 1u64) == (y >> 35u64) & 1u64);
    assert(((x >> 36u64) & 1u64) == (y >> 36u64) & 1u64);
    assert(((x >> 37u64) & 1u64) == (y >> 37u64) & 1u64);
    assert(((x >> 38u64) & 1u64) == (y >> 38u64) & 1u64);
    assert(((x >> 39u64) & 1u64) == (y >> 39u64) & 1u64);
    assert(((x >> 40u64) & 1u64) == (y >> 40u64) & 1u64);
    assert(((x >> 41u64) & 1u64) == (y >> 41u64) & 1u64);
    assert(((x >> 42u64) & 1u64) == (y >> 42u64) & 1u64);
    assert(((x >> 43u64) & 1u64) == (y >> 43u64) & 1u64);
    assert(((x >> 44u64) & 1u64) == (y >> 44u64) & 1u64);
    assert(((x >> 45u64) & 1u64) == (y >> 45u64) & 1u64);
    assert(((x >> 46u64) & 1u64) == (y >> 46u64) & 1u64);
    assert(((x >> 47u64) & 1u64) == (y >> 47u64) & 1u64);
    assert(((x >> 48u64) & 1u64) == (y >> 48u64) & 1u64);
    assert(((x >> 49u64) & 1u64) == (y >> 49u64) & 1u64);
    assert(((x >> 50u64) & 1u64) == (y >> 50u64) & 1u64);
    assert(((x >> 51u64) & 1u64) == (y >> 51u64) & 1u64);
    assert(((x >> 52u64) & 1u64) == (y >> 52u64) & 1u64);
    assert(((x >> 53u64) & 1u64) == (y >> 53u64) & 1u64);
    assert(((x >> 54u64) & 1u64) == (y >> 54u64) & 1u64);
    assert(((x >> 55u64) & 1u64) == (y >> 55u64) & 1u64);
    assert(((x >> 56u64) & 1u64) == (y >> 56u64) & 1u64);
    assert(((x >> 57u64) & 1u64) == (y >> 57u64) & 1u64);
    assert(((x >> 58u64) & 1u64) == (y >> 58u64) & 1u64);
    assert(((x >> 59u64) & 1u64) == (y >> 59u64) & 1u64);
    assert(((x >> 60u64) & 1u64) == (y >> 60u64) & 1u64);
    assert(((x >> 61u64) & 1u64) == (y >> 61u64) & 1u64);
    assert(((x >> 62u64) & 1u64) == (y >> 62u64) & 1u64);
    assert(((x >> 63u64) & 1u64) == (y >> 63u64) & 1u64);
    lemma_bits_ext_bv64(x, y);
}

proof fn lemma_bits_ext_bv64(x: u64, y: u64)
    by (bit_vector)
    requires
            (x >> 0u64) & 1u64 == (y >> 0u64) & 1u64,
            (x >> 1u64) & 1u64 == (y >> 1u64) & 1u64,
            (x >> 2u64) & 1u64 == (y >> 2u64) & 1u64,
            (x >> 3u64) & 1u64 == (y >> 3u64) & 1u64,
            (x >> 4u64) & 1u64 == (y >> 4u64) & 1u64,
            (x >> 5u64) & 1u64 == (y >> 5u64) & 1u64,
            (x >> 6u64) & 1u64 == (y >> 6u64) & 1u64,
            (x >> 7u64) & 1u64 == (y >> 7u64) & 1u64,
            (x >> 8u64) & 1u64 == (y >> 8u64) & 1u64,
            (x >> 9u64) & 1u64 == (y >> 9u64) & 1u64,
            (x >> 10u64) & 1u64 == (y >> 10u64) & 1u64,
            (x >> 11u64) & 1u64 == (y >> 11u64) & 1u64,
            (x >> 12u64) & 1u64 == (y >> 12u64) & 1u64,
            (x >> 13u64) & 1u64 == (y >> 13u64) & 1u64,
            (x >> 14u64) & 1u64 == (y >> 14u64) & 1u64,
            (x >> 15u64) & 1u64 == (y >> 15u64) & 1u64,
            (x >> 16u64) & 1u64 == (y >> 16u64) & 1u64,
            (x >> 17u64) & 1u64 == (y >> 17u64) & 1u64,
            (x >> 18u64) & 1u64 == (y >> 18u64) & 1u64,
            (x >> 19u64) & 1u64 == (y >> 19u64) & 1u64,
            (x >> 20u64) & 1u64 == (y >> 20u64) & 1u64,
            (x >> 21u64) & 1u64 == (y >> 21u64) & 1u64,
            (x >> 22u64) & 1u64 == (y >> 22u64) & 1u64,
            (x >> 23u64) & 1u64 == (y >> 23u64) & 1u64,
            (x >> 24u64) & 1u64 == (y >> 24u64) & 1u64,
            (x >> 25u64) & 1u64 == (y >> 25u64) & 1u64,
            (x >> 26u64) & 1u64 == (y >> 26u64) & 1u64,
            (x >> 27u64) & 1u64 == (y >> 27u64) & 1u64,
            (x >> 28u64) & 1u64 == (y >> 28u64) & 1u64,
            (x >> 29u64) & 1u64 == (y >> 29u64) & 1u64,
            (x >> 30u64) & 1u64 == (y >> 30u64) & 1u64,
            (x >> 31u64) & 1u64 == (y >> 31u64) & 1u64,
            (x >> 32u64) & 1u64 == (y >> 32u64) & 1u64,
            (x >> 33u64) & 1u64 == (y >> 33u64) & 1u64,
            (x >> 34u64) & 1u64 == (y >> 34u64) & 1u64,
            (x >> 35u64) & 1u64 == (y >> 35u64) & 1u64,
            (x >> 36u64) & 1u64 == (y >> 36u64) & 1u64,
            (x >> 37u64) & 1u64 == (y >> 37u64) & 1u64,
            (x >> 38u64) & 1u64 == (y >> 38u64) & 1u64,
            (x >> 39u64) & 1u64 == (y >> 39u64) & 1u64,
            (x >> 40u64) & 1u64 == (y >> 40u64) & 1u64,
            (x >> 41u64) & 1u64 == (y >> 41u64) & 1u64,
            (x >> 42u64) & 1u64 == (y >> 42u64) & 1u64,
            (x >> 43u64) & 1u64 == (y >> 43u64) & 1u64,
            (x >> 44u64) & 1u64 == (y >> 44u64) & 1u64,
            (x >> 45u64) & 1u64 == (y >> 45u64) & 1u64,
            (x >> 46u64) & 1u64 == (y >> 46u64) & 1u64,
            (x >> 47u64) & 1u64 == (y >> 47u64) & 1u64,
            (x >> 48u64) & 1u64 == (y >> 48u64) & 1u64,
            (x >> 49u64) & 1u64 == (y >> 49u64) & 1u64,
            (x >> 50u64) & 1u64 == (y >> 50u64) & 1u64,
            (x >> 51u64) & 1u64 == (y >> 51u64) & 1u64,
            (x >> 52u64) & 1u64 == (y >> 52u64) & 1u64,
            (x >> 53u64) & 1u64 == (y >> 53u64) & 1u64,
            (x >> 54u64) & 1u64 == (y >> 54u64) & 1u64,
            (x >> 55u64) & 1u64 == (y >> 55u64) & 1u64,
            (x >> 56u64) & 1u64 == (y >> 56u64) & 1u64,
            (x >> 57u64) & 1u64 == (y >> 57u64) & 1u64,
            (x >> 58u64) & 1u64 == (y >> 58u64) & 1u64,
            (x >> 59u64) & 1u64 == (y >> 59u64) & 1u64,
            (x >> 60u64) & 1u64 == (y >> 60u64) & 1u64,
            (x >> 61u64) & 1u64 == (y >> 61u64) & 1u64,
            (x >> 62u64) & 1u64 == (y >> 62u64) & 1u64,
            (x >> 63u64) & 1u64 == (y >> 63u64) & 1u64,
    ensures
        x == y,
{
}

/// Facts of `^` used when keys are updated piece by piece.
pub proof fn lemma_xor(a: u64, b: u64, c: u64)
    ensures
        a ^ b == b ^ a,
        (a ^ b) ^ c == a ^ (b ^ c),
        a ^ a == 0u64,
        a ^ 0u64 == a,
        0u64 ^ a == a,
{
    assert(a ^ b == b ^ a && (a ^ b) ^ c == a ^ (b ^ c) && a ^ a == 0u64 && a ^ 0u64 == a && 0u64 ^ a == a) by (bit_vector);
}

/// Number of squares among the first `n` squares of `x`.
pub open spec fn popcount_upto(x: u64, n: int) -> nat
    decreases n,
{
    if n <= 0 {
        0
    } else {
        popcount_upto(x, n - 1) + if bit(x, n - 1) { 1nat } else { 0nat }
    }
}

/// Number of squares of `x`.
pub open spec fn popcount(x: u64) -> nat {
    popcount_upto(x, 64)
}

pub proof fn lemma_popcount_bound(x: u64, n: int)
    requires
        0 <= n,
    ensures
        popcount_upto(x, n) <= n,
    decreases n,
{
    if n > 0 {
        lemma_popcount_bound(x, n - 1);
    }
}

/// `u64::count_ones`: the number of squares of `x`.
pub fn count_ones(x: u64) -> (r: u32)
    ensures
        r == popcount(x),
{
    let mut c: u32 = 0;
    let mut i: u64 = 0;
    while i < 64
        invariant
            i <= 64,
            c == popcount_upto(x, i as int),
            c <= i,
        decreases 64 - i,
    {
        if (x >> i) & 1 == 1 {
            c = c + 1;
        }
        i = i + 1;
    }
    c
}

/// Number of squares below `n` that satisfy `p`.
pub open spec fn count_where(p: spec_fn(int) -> bool, n: int) -> nat
    decreases n,
{
    if n <= 0 {
        0
    } else {
        count_where(p, n - 1) + if p(n - 1) { 1nat } else { 0nat }
    }
}

/// The population count of a set is the number of squares of any
/// predicate that holds exactly on its squares.
pub proof fn lemma_popcount_where(x: u64, p: spec_fn(int) -> bool, n: int)
    requires
        n <= 64,
        forall|i: int| 0 <= i < 64 ==> #[trigger] bit(x, i) == p(i),
    ensures
        popcount_upto(x, n) == count_where(p, n),
    decreases n,
{
    if n > 0 {
        lemma_popcount_where(x, p, n - 1);
        assert(bit(x, n - 1) == p(n - 1));
    }
}

pub proof fn lemma_count_bound(p: spec_fn(int) -> bool, n: int)
    requires
        0 <= n,
    ensures
        count_where(p, n) <= n,
    decreases n,
{
    if n > 0 {
        lemma_count_bound(p, n - 1);
    }
}

/// Two sets are disjoint exactly when their intersection is empty.
pub proof fn lemma_and_zero(x: u64, y: u64)
    ensures
        (x & y == 0u64) <==> !(exists|i: int| 0 <= i < 64 && #[trigger] bit(x, i) && bit(y, i)),
{
    lemma_bits_ops(x, y);
    lemma_bits_ops(0, 0);
    if x & y == 0u64 {
        assert forall|i: int| 0 <= i < 64 implies !(#[trigger] bit(x, i) && bit(y, i)) by {
            assert(bit(x & y, i) == (bit(x, i) && bit(y, i)));
        }
    } else {
        if !(exists|i: int| 0 <= i < 64 && #[trigger] bit(x, i) && bit(y, i)) {
            assert forall|i: int| 0 <= i < 64 implies #[trigger] bit(x & y, i) == bit(0u64, i) by {
                assert(bit(x & y, i) == (bit(x, i) && bit(y, i)));
            }
            lemma_bits_ext(x & y, 0u64);
        }
    }
}

proof fn lemma_popcount_has(x: u64, n: int, i: int)
    requires
        0 <= i < n,
        bit(x, i),
    ensures
        popcount_upto(x, n) >= 1,
    decreases n,
{
    if n - 1 > i {
        lemma_popcount_has(x, n - 1, i);
    }
}

proof fn lemma_popcount_none(x: u64, n: int)
    requires
        n <= 64,
        forall|i: int| 0 <= i < 64 ==> !#[trigger] bit(x, i),
    ensures
        popcount_upto(x, n) == 0,
    decreases n,
{
    if n > 0 {
        lemma_popcount_none(x, n - 1);
    }
}

/// A set is nonempty exactly when it has a positive population count.
pub proof fn lemma_popcount_nonzero(x: u64)
    ensures
        x != 0 <==> popcount(x) > 0,
{
    lemma_bits_ops(0, 0);
    if x != 0 {
        lemma_lowest_bit(x);
        lemma_popcount_has(x, 64, u64_trailing_zeros(x) as int);
    } else {
        lemma_popcount_none(x, 64);
    }
}

/// File and rank of a square by mask and shift, and the vertical mirror.
pub proof fn lemma_u8_coords(x: u8)
    ensures
        x & 7 == x % 8,
        x >> 3 == x / 8,
        x < 64 ==> (x ^ 56u8) < 64,
{
    assert(x & 7 == x % 8 && x >> 3 == x / 8 && (x < 64 ==> (x ^ 56u8) < 64)) by (bit_vector);
}

/// `|` with nothing, and of two castling-right sets.
pub proof fn lemma_u8_or(x: u8, y: u8)
    ensures
        x | 0u8 == x,
        0u8 | x == x,
        x <= 15 && y <= 15 ==> (x | y) <= 15,
{
    assert(x | 0u8 == x && 0u8 | x == x && (x <= 15 && y <= 15 ==> (x | y) <= 15)) by (bit_vector);
}

/// Flipping a side with `^ 1`.
pub proof fn lemma_u8_flip(x: u8)
    requires
        x <= 1,
    ensures
        x ^ 1u8 == 1 - x,
{
    assert(x <= 1 ==> x ^ 1u8 == 1 - x) by (bit_vector);
}

} // verus!
