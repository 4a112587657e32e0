//! Candidate sets of sudoku digits, represented as bitmasks.
//!
//! A set of digits drawn from `1..=9` is stored in a `u16`: bit `d - 1` is
//! set exactly when digit `d` is a member. The constant [`DIGITSET`] is the
//! full universe `{1, .., 9}`.

use vstd::prelude::*;

verus! {

/// The full digit universe `{1, .., 9}` as a bitmask.
pub const DIGITSET: u16 = 0x1ff;

/// Digit `d` is a member of the mask `m`.
pub open spec fn mask_has(m: u16, d: u8) -> bool {
    1 <= d <= 9 && (m >> ((d - 1) as u16)) & 1 == 1
}

/// A well-formed mask sets only the nine digit bits.
pub open spec fn mask_wf(m: u16) -> bool {
    m <= DIGITSET
}

/// Number of digits of `1..=9` below `d` that are members of `m`.
pub open spec fn mask_card_upto(m: u16, d: int) -> nat
    decreases d,
{
    if d <= 1 {
        0
    } else {
        mask_card_upto(m, d - 1) + if mask_has(m, (d - 1) as u8) {
            1nat
        } else {
            0nat
        }
    }
}

/// Number of digits that are members of `m`.
pub open spec fn mask_card(m: u16) -> nat {
    mask_card_upto(m, 10)
}

/// Inserting a digit into a mask; digits outside `1..=9` leave it unchanged.
pub open spec fn mask_insert_spec(m: u16, d: u8) -> u16 {
    if 1 <= d <= 9 {
        m | (1u16 << ((d - 1) as u16))
    } else {
        m
    }
}

/// The least digit of `d..=9` that is a member of `m`, or `9` if none is.
pub open spec fn mask_first_from(m: u16, d: int) -> u8
    decreases 10 - d,
{
    if d < 1 || d >= 9 {
        9
    } else if mask_has(m, d as u8) {
        d as u8
    } else {
        mask_first_from(m, d + 1)
    }
}

/// The least digit that is a member of `m`, or `9` if `m` is empty.
pub open spec fn mask_first_spec(m: u16) -> u8 {
    mask_first_from(m, 1)
}

proof fn lemma_bit_test(m: u16, s: u16)
    requires
        s < 16,
    ensures
        (m & (1u16 << s) != 0) == ((m >> s) & 1 == 1),
{
    assert(s < 16 ==> ((m & (1u16 << s) != 0) == ((m >> s) & 1 == 1))) by (bit_vector);
}

/// Membership in a mask after inserting a digit.
pub proof fn lemma_insert_has(m: u16, d: u8, e: u8)
    requires
        1 <= d <= 9,
    ensures
        mask_has(mask_insert_spec(m, d), e) == (mask_has(m, e) || e == d),
{
    if 1 <= e <= 9 {
        let t = (d - 1) as u16;
        let s = (e - 1) as u16;
        assert(t < 9 && s < 9 ==> ((((m | (1u16 << t)) >> s) & 1 == 1) == ((m >> s) & 1 == 1 || s
            == t))) by (bit_vector);
    }
}

/// Membership in the difference `m & !f`.
pub proof fn lemma_diff_has(m: u16, f: u16, e: u8)
    ensures
        mask_has(m & !f, e) == (mask_has(m, e) && !mask_has(f, e)),
{
    if 1 <= e <= 9 {
        let s = (e - 1) as u16;
        assert(s < 9 ==> ((((m & !f) >> s) & 1 == 1) == ((m >> s) & 1 == 1 && !((f >> s) & 1
            == 1)))) by (bit_vector);
    }
}

/// The empty mask holds no digit.
pub proof fn lemma_empty_has(e: u8)
    ensures
        !mask_has(0u16, e),
{
    if 1 <= e <= 9 {
        let s = (e - 1) as u16;
        assert((0u16 >> s) & 1 == 0) by (bit_vector);
    }
}

/// Intersection never raises a mask above its first operand.
pub proof fn lemma_and_le(m: u16, x: u16)
    ensures
        (m & x) <= m,
{
    assert((m & x) <= m) by (bit_vector);
}

proof fn lemma_card_upto_mono(m: u16, k1: int, k2: int)
    requires
        k1 <= k2,
    ensures
        mask_card_upto(m, k1) <= mask_card_upto(m, k2),
    decreases k2 - k1,
{
    if k1 < k2 {
        lemma_card_upto_mono(m, k1, k2 - 1);
    }
}

proof fn lemma_card_upto_bound(m: u16, k: int)
    ensures
        mask_card_upto(m, k) <= if k <= 1 {
            0int
        } else {
            k - 1
        },
    decreases k,
{
    if k > 1 {
        lemma_card_upto_bound(m, k - 1);
    }
}

/// A mask holds at most nine digits.
pub proof fn lemma_card_bound(m: u16)
    ensures
        mask_card(m) <= 9,
{
    lemma_card_upto_bound(m, 10);
}

proof fn lemma_card_upto_le(m1: u16, m2: u16, k: int)
    requires
        forall|d: u8| mask_has(m1, d) ==> mask_has(m2, d),
    ensures
        mask_card_upto(m1, k) <= mask_card_upto(m2, k),
    decreases k,
{
    if k > 1 {
        lemma_card_upto_le(m1, m2, k - 1);
    }
}

/// A mask included in another has no greater cardinality.
pub proof fn lemma_card_le(m1: u16, m2: u16)
    requires
        forall|d: u8| mask_has(m1, d) ==> mask_has(m2, d),
    ensures
        mask_card(m1) <= mask_card(m2),
{
    lemma_card_upto_le(m1, m2, 10);
}

proof fn lemma_card_upto_lt(m1: u16, m2: u16, k: int, d0: u8)
    requires
        forall|d: u8| mask_has(m1, d) ==> mask_has(m2, d),
        mask_has(m2, d0),
        !mask_has(m1, d0),
        d0 < k,
    ensures
        mask_card_upto(m1, k) < mask_card_upto(m2, k),
    decreases k,
{
    if k - 1 == d0 {
        lemma_card_upto_le(m1, m2, k - 1);
    } else {
        lemma_card_upto_lt(m1, m2, k - 1, d0);
    }
}

/// A strict inclusion of masks strictly lowers the cardinality.
pub proof fn lemma_card_lt(m1: u16, m2: u16, d0: u8)
    requires
        forall|d: u8| mask_has(m1, d) ==> mask_has(m2, d),
        mask_has(m2, d0),
        !mask_has(m1, d0),
    ensures
        mask_card(m1) < mask_card(m2),
{
    lemma_card_upto_lt(m1, m2, 10, d0);
}

/// A nonempty well-formed mask has a member.
pub proof fn lemma_nonzero_has(m: u16)
    requires
        mask_wf(m),
        m != 0,
    ensures
        exists|d: u8| mask_has(m, d),
{
    assert(m <= 0x1ffu16 && m != 0 ==> ((m >> 0u16) & 1 == 1 || (m >> 1u16) & 1 == 1 || (m
        >> 2u16) & 1 == 1 || (m >> 3u16) & 1 == 1 || (m >> 4u16) & 1 == 1 || (m >> 5u16) & 1 == 1
        || (m >> 6u16) & 1 == 1 || (m >> 7u16) & 1 == 1 || (m >> 8u16) & 1 == 1)) by (bit_vector);
    if (m >> 0u16) & 1 == 1 {
        assert(mask_has(m, 1));
    } else if (m >> 1u16) & 1 == 1 {
        assert(mask_has(m, 2));
    } else if (m >> 2u16) & 1 == 1 {
        assert(mask_has(m, 3));
    } else if (m >> 3u16) & 1 == 1 {
        assert(mask_has(m, 4));
    } else if (m >> 4u16) & 1 == 1 {
        assert(mask_has(m, 5));
    } else if (m >> 5u16) & 1 == 1 {
        assert(mask_has(m, 6));
    } else if (m >> 6u16) & 1 == 1 {
        assert(mask_has(m, 7));
    } else if (m >> 7u16) & 1 == 1 {
        assert(mask_has(m, 8));
    } else {
        assert(mask_has(m, 9));
    }
}

/// Two masks with the same members over a well-formed domain are equal.
pub proof fn lemma_mask_ext(m1: u16, m2: u16)
    requires
        mask_wf(m1),
        mask_wf(m2),
        forall|d: u8| mask_has(m1, d) == mask_has(m2, d),
    ensures
        m1 == m2,
{
    if m1 != m2 {
        let x = m1 ^ m2;
        assert(m1 <= 0x1ffu16 && m2 <= 0x1ffu16 && m1 != m2 ==> (m1 ^ m2) != 0 && (m1 ^ m2)
            <= 0x1ffu16) by (bit_vector);
        lemma_nonzero_has(x);
        let d = choose|d: u8| mask_has(x, d);
        assert(mask_has(x, d));
        let s = (d - 1) as u16;
        assert(s < 9 && ((m1 ^ m2) >> s) & 1 == 1 ==> ((m1 >> s) & 1 == 1) != ((m2 >> s) & 1
            == 1)) by (bit_vector);
        assert(mask_has(m1, d) != mask_has(m2, d));
    }
}

proof fn lemma_first_from_range(m: u16, d: int)
    ensures
        1 <= mask_first_from(m, d) <= 9,
    decreases 10 - d,
{
    if !(d < 1 || d >= 9) && !mask_has(m, d as u8) {
        lemma_first_from_range(m, d + 1);
    }
}

/// The least member reported for a mask is always a digit.
pub proof fn lemma_first_range(m: u16)
    ensures
        1 <= mask_first_spec(m) <= 9,
{
    lemma_first_from_range(m, 1);
}

/// Digit membership test on a candidate mask.
pub fn mask_contains(m: u16, d: u8) -> (b: bool)
    ensures
        b == mask_has(m, d),
{
    if d < 1 || d > 9 {
        false
    } else {
        let s: u16 = (d - 1) as u16;
        proof {
            lemma_bit_test(m, s);
        }
        m & (1u16 << s) != 0
    }
}

/// Inserts a digit into a candidate mask; other digits ignored.
pub fn mask_insert(m: u16, d: u8) -> (r: u16)
    ensures
        r == mask_insert_spec(m, d),
{
    if d < 1 || d > 9 {
        m
    } else {
        m | (1u16 << ((d - 1) as u16))
    }
}

/// Counts the digits held by a candidate mask.
pub fn mask_count(m: u16) -> (n: usize)
    ensures
        n == mask_card(m),
{
    let mut n: usize = 0;
    for d in 1..10u8
        invariant
            n == mask_card_upto(m, d as int),
            n <= 9,
    {
        proof {
            lemma_card_upto_bound(m, d as int);
        }
        if mask_contains(m, d) {
            n += 1;
        }
    }
    n
}

/// The least digit held by a candidate mask, or `9` if it is empty.
pub fn mask_first(m: u16) -> (r: u8)
    ensures
        r == mask_first_spec(m),
        1 <= r <= 9,
{
    let mut d: u8 = 1;
    while d < 9
        invariant
            1 <= d <= 9,
            mask_first_spec(m) == mask_first_from(m, d as int),
        decreases 9 - d,
    {
        if mask_contains(m, d) {
            return d;
        }
        d += 1;
    }
    9
}

} // verus!
