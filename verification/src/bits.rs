use vstd::prelude::*;

verus! {

/// The mask that holds square `i` alone.
pub open spec fn bit(i: int) -> u64
    recommends
        0 <= i < 64,
{
    1u64 << (i as u64)
}

/// Whether square `i` is set in `mask`.
pub open spec fn is_set(mask: u64, i: int) -> bool {
    0 <= i < 64 && mask & bit(i) != 0
}

/// Whether `mask` holds exactly one square.
pub open spec fn is_square(mask: u64) -> bool {
    exists|i: int| 0 <= i < 64 && mask == #[trigger] bit(i)
}

/// How many of the squares below `n` are set in `mask`.
pub open spec fn count_below(mask: u64, n: int) -> int
    decreases n,
{
    if n <= 0 {
        0
    } else {
        count_below(mask, n - 1) + if is_set(mask, n - 1) {
            1int
        } else {
            0int
        }
    }
}

/// How many squares are set in `mask`.
pub open spec fn popcount(mask: u64) -> int {
    count_below(mask, 64)
}

proof fn lemma_bit_or(a: u64, b: u64, j: u64)
    requires
        j < 64,
    ensures
        ((a | b) & (1u64 << j) != 0) <==> (a & (1u64 << j) != 0 || b & (1u64 << j) != 0),
{
    assert(((a | b) & (1u64 << j) != 0) <==> (a & (1u64 << j) != 0 || b & (1u64 << j) != 0))
        by (bit_vector);
}

proof fn lemma_bit_and_not(a: u64, b: u64, j: u64)
    requires
        j < 64,
    ensures
        ((a & !b) & (1u64 << j) != 0) <==> (a & (1u64 << j) != 0 && b & (1u64 << j) == 0),
{
    assert(((a & !b) & (1u64 << j) != 0) <==> (a & (1u64 << j) != 0 && b & (1u64 << j) == 0))
        by (bit_vector);
}

pub proof fn lemma_bit_single(i: u64, j: u64)
    requires
        i < 64,
        j < 64,
    ensures
        ((1u64 << i) & (1u64 << j) != 0) <==> i == j,
        (1u64 << i) != 0,
        (1u64 << i) == (1u64 << j) ==> i == j,
{
    assert(i < 64 && j < 64 ==> (((1u64 << i) & (1u64 << j) != 0) <==> i == j)) by (bit_vector);
    assert(i < 64 ==> (1u64 << i) != 0) by (bit_vector);
    assert(i < 64 && j < 64 && (1u64 << i) == (1u64 << j) ==> i == j) by (bit_vector);
}

proof fn lemma_bit_disjoint(a: u64, b: u64, j: u64)
    requires
        j < 64,
        a & b == 0,
    ensures
        !(a & (1u64 << j) != 0 && b & (1u64 << j) != 0),
{
    assert(a & b == 0 ==> !(a & (1u64 << j) != 0 && b & (1u64 << j) != 0)) by (bit_vector);
}

/// Setting, over all squares: what `is_set` says of a union, a difference,
/// a single square and the empty mask.
pub proof fn lemma_is_set(a: u64, b: u64, i: int, j: int)
    ensures
        is_set(a | b, j) <==> is_set(a, j) || is_set(b, j),
        is_set(a & !b, j) <==> is_set(a, j) && !is_set(b, j),
        is_set(a & b, j) <==> is_set(a, j) && is_set(b, j),
        0 <= i < 64 ==> (is_set(bit(i), j) <==> i == j),
        !is_set(0, j),
        a & b == 0 ==> !(is_set(a, j) && is_set(b, j)),
{
    if 0 <= j < 64 {
        let ju = j as u64;
        lemma_bit_or(a, b, ju);
        lemma_bit_and_not(a, b, ju);
        if a & b == 0 {
            lemma_bit_disjoint(a, b, ju);
        }
        assert(((a & b) & (1u64 << ju) != 0) <==> (a & (1u64 << ju) != 0 && b & (1u64 << ju)
            != 0)) by (bit_vector);
        assert(0u64 & (1u64 << ju) == 0) by (bit_vector);
        if 0 <= i < 64 {
            lemma_bit_single(i as u64, ju);
        }
    }
}

/// The count never exceeds the number of squares counted.
pub proof fn lemma_count_bounds(mask: u64, n: int)
    requires
        0 <= n,
    ensures
        0 <= count_below(mask, n) <= n,
    decreases n,
{
    if n > 0 {
        lemma_count_bounds(mask, n - 1);
    }
}

/// Masks that agree on every square but `i`, which `b` has and `a` lacks,
/// differ by one in their counts past `i`.
pub proof fn lemma_count_add_square(a: u64, b: u64, i: int, n: int)
    requires
        0 <= i < 64,
        0 <= n <= 64,
        !is_set(a, i),
        is_set(b, i),
        forall|j: int| 0 <= j < 64 && j != i ==> is_set(a, j) == is_set(b, j),
    ensures
        count_below(b, n) == count_below(a, n) + if i < n {
            1int
        } else {
            0int
        },
    decreases n,
{
    if n > 0 {
        lemma_count_add_square(a, b, i, n - 1);
    }
}

/// A mask with nothing set counts zero, and one that counts zero has nothing set.
pub proof fn lemma_count_zero(mask: u64, n: int)
    requires
        0 <= n <= 64,
    ensures
        count_below(mask, n) == 0 <==> (forall|j: int| 0 <= j < n ==> !is_set(mask, j)),
    decreases n,
{
    if n > 0 {
        lemma_count_zero(mask, n - 1);
        lemma_count_bounds(mask, n - 1);
    }
}

/// The mask of square `i`.
pub fn square_bit(i: u64) -> (r: u64)
    requires
        i < 64,
    ensures
        r == bit(i as int),
        r != 0,
        is_square(r),
{
    proof {
        lemma_bit_single(i, i);
    }
    1u64 << i
}

/// Whether square `i` is set in `mask`.
pub fn test_bit(mask: u64, i: u64) -> (r: bool)
    requires
        i < 64,
    ensures
        r == is_set(mask, i as int),
{
    mask & (1u64 << i) != 0
}

/// The number of squares set in `mask`.
pub fn count_bits(mask: u64) -> (count: i32)
    ensures
        count == popcount(mask),
        0 <= count <= 64,
{
    let mut count: i32 = 0;
    let mut i: u64 = 0;
    while i < 64
        invariant
            0 <= i <= 64,
            count == count_below(mask, i as int),
            0 <= count <= i,
        decreases 64 - i,
    {
        if test_bit(mask, i) {
            count += 1;
        }
        i += 1;
    }
    count
}

/// The index of the one square that `mask` holds, if it holds exactly one.
pub fn square_index(mask: u64) -> (r: Option<u64>)
    ensures
        r.is_some() == is_square(mask),
        r matches Some(i) ==> i < 64 && mask == bit(i as int),
{
    let mut i: u64 = 0;
    while i < 64
        invariant
            0 <= i <= 64,
            forall|j: int| 0 <= j < i ==> mask != #[trigger] bit(j),
        decreases 64 - i,
    {
        if mask == square_bit(i) {
            return Some(i);
        }
        i += 1;
    }
    None
}


proof fn lemma_agree_shifted(a: u64, b: u64, k: u64)
    requires
        k <= 63,
        forall|i: int| 0 <= i < 64 ==> is_set(a, i) == is_set(b, i),
    ensures
        a << k == b << k,
    decreases 63 - k,
{
    let m: u64 = (63 - k) as u64;
    assert(is_set(a, m as int) == is_set(b, m as int));
    if k == 63 {
        assert(((a & (1u64 << 0u64) != 0) == (b & (1u64 << 0u64) != 0)) ==> a << 63u64 == b
            << 63u64) by (bit_vector);
    } else {
        let k1: u64 = (k + 1) as u64;
        lemma_agree_shifted(a, b, k1);
        assert(k < 63 && k1 == k + 1 && m == 63 - k && a << k1 == b << k1 && ((a & (1u64 << m)
            != 0) == (b & (1u64 << m) != 0)) ==> a << k == b << k) by (bit_vector);
    }
}

/// Masks that agree on every square are equal.
pub proof fn lemma_mask_ext(a: u64, b: u64)
    requires
        forall|i: int| 0 <= i < 64 ==> is_set(a, i) == is_set(b, i),
    ensures
        a == b,
{
    lemma_agree_shifted(a, b, 0);
    assert(a << 0u64 == b << 0u64 ==> a == b) by (bit_vector);
}

/// The mask of the squares below `n` that `f` holds of.
pub open spec fn mask_below(f: spec_fn(int) -> bool, n: int) -> u64
    decreases n,
{
    if n <= 0 {
        0
    } else if f(n - 1) {
        mask_below(f, n - 1) | bit(n - 1)
    } else {
        mask_below(f, n - 1)
    }
}

/// The mask of the squares that `f` holds of.
pub open spec fn mask_of(f: spec_fn(int) -> bool) -> u64 {
    mask_below(f, 64)
}

/// `mask_below(f, n)` holds square `i` exactly where `i` is below `n`
/// and `f` holds of it.
pub proof fn lemma_mask_below(f: spec_fn(int) -> bool, n: int, i: int)
    requires
        0 <= n <= 64,
    ensures
        is_set(mask_below(f, n), i) <==> (0 <= i < n && f(i)),
    decreases n,
{
    if n > 0 {
        lemma_mask_below(f, n - 1, i);
        lemma_is_set(mask_below(f, n - 1), bit(n - 1), n - 1, i);
    } else {
        lemma_is_set(0, 0, 0, i);
    }
}

/// A mask that holds exactly the squares that `f` holds of is `mask_of(f)`.
pub proof fn lemma_mask_of(m: u64, f: spec_fn(int) -> bool)
    requires
        forall|i: int| 0 <= i < 64 ==> (is_set(m, i) <==> f(i)),
    ensures
        m == mask_of(f),
{
    assert forall|i: int| 0 <= i < 64 implies is_set(m, i) == is_set(mask_of(f), i) by {
        lemma_mask_below(f, 64, i);
    }
    lemma_mask_ext(m, mask_of(f));
}

} // verus!
