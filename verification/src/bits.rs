//! Bit-level vocabulary shared by the table builder and the board: a word is
//! read as the set of positions at which it holds a one.

use vstd::prelude::*;
use vstd::std_specs::bits::{
    axiom_u32_trailing_zeros,
    axiom_u64_trailing_zeros,
    u32_trailing_zeros,
    u64_trailing_zeros,
};

verus! {

/// Whether bit `i` of the 32-bit word `x` is set. No position outside
/// `0..32` is ever set.
pub open spec fn bit32(x: u32, i: int) -> bool {
    0 <= i < 32 && (x >> (i as u32)) & 1 == 1
}

/// Whether bit `i` of the 64-bit word `x` is set.
pub open spec fn bit64(x: u64, i: int) -> bool {
    0 <= i < 64 && (x >> (i as u64)) & 1 == 1
}

/// Number of set bits of `x` at positions below `n`.
pub open spec fn count32(x: u32, n: int) -> nat
    decreases n,
{
    if n <= 0 {
        0
    } else {
        count32(x, n - 1) + if bit32(x, n - 1) { 1nat } else { 0nat }
    }
}

/// Number of set bits of `x`.
pub open spec fn popcount32(x: u32) -> nat {
    count32(x, 32)
}

/// The bits of the connectives, of the empty word and of a one-bit word,
/// as the machine has them.
proof fn bv32_connectives(a: u32, b: u32, k: u32)
    by (bit_vector)
    requires
        k < 32,
    ensures
        ((a | b) >> k) & 1 == 1 <==> ((a >> k) & 1 == 1 || (b >> k) & 1 == 1),
        ((a & b) >> k) & 1 == 1 <==> ((a >> k) & 1 == 1 && (b >> k) & 1 == 1),
        ((a ^ b) >> k) & 1 == 1 <==> ((a >> k) & 1 == 1) != ((b >> k) & 1 == 1),
        ((!a) >> k) & 1 == 1 <==> !((a >> k) & 1 == 1),
        (0u32 >> k) & 1 == 0,
        ((1u32 << b) >> k) & 1 == 1 <==> b == k,
{
}

/// Bits of a disjunction, conjunction, difference and complement.
pub proof fn lemma_bit32_ops(a: u32, b: u32)
    ensures
        forall|i: int| #[trigger] bit32(a | b, i) == (bit32(a, i) || bit32(b, i)),
        forall|i: int| #[trigger] bit32(a & b, i) == (bit32(a, i) && bit32(b, i)),
        forall|i: int| #[trigger] bit32(a ^ b, i) == (bit32(a, i) != bit32(b, i)),
        forall|i: int| #[trigger] bit32(!a, i) == (0 <= i < 32 && !bit32(a, i)),
{
    assert forall|i: int| #[trigger] bit32(a | b, i) == (bit32(a, i) || bit32(b, i)) by {
        if 0 <= i < 32 {
            bv32_connectives(a, b, i as u32);
        }
    }
    assert forall|i: int| #[trigger] bit32(a & b, i) == (bit32(a, i) && bit32(b, i)) by {
        if 0 <= i < 32 {
            bv32_connectives(a, b, i as u32);
        }
    }
    assert forall|i: int| #[trigger] bit32(a ^ b, i) == (bit32(a, i) != bit32(b, i)) by {
        if 0 <= i < 32 {
            bv32_connectives(a, b, i as u32);
        }
    }
    assert forall|i: int| #[trigger] bit32(!a, i) == (0 <= i < 32 && !bit32(a, i)) by {
        if 0 <= i < 32 {
            bv32_connectives(a, b, i as u32);
        }
    }
}

/// The empty word has no bit, and `1 << s` has bit `s` alone.
pub proof fn lemma_bit32_single(s: u32)
    requires
        s < 32,
    ensures
        forall|i: int| !#[trigger] bit32(0, i),
        forall|i: int| #[trigger] bit32(1u32 << s, i) == (i == s),
{
    assert forall|i: int| !#[trigger] bit32(0, i) by {
        if 0 <= i < 32 {
            bv32_connectives(0, s, i as u32);
        }
    }
    assert forall|i: int| #[trigger] bit32(1u32 << s, i) == (i == s) by {
        if 0 <= i < 32 {
            bv32_connectives(0, s, i as u32);
        }
    }
}

/// Taking the lowest set bit `t` out of `x`.
proof fn bv32_lowest(x: u32, t: u32)
    by (bit_vector)
    requires
        t < 32,
        (x >> t) & 1 == 1,
        x << ((32 - t) as u32) == 0,
    ensures
        x & !((x - 1) as u32) == 1u32 << t,
        x ^ (1u32 << t) == x & ((x - 1) as u32),
        x ^ (1u32 << t) < x,
{
}

/// Two words differ exactly where their difference has a bit.
proof fn bv32_xor_zero(a: u32, b: u32, t: u32)
    by (bit_vector)
    ensures
        a ^ b == 0 <==> a == b,
        ((a ^ b) >> t) & 1 == 1 ==> ((a >> t) & 1 == 1) != ((b >> t) & 1 == 1),
{
}

/// Position of the lowest set bit of `x`; 32 for the empty word.
pub open spec fn lowest32(x: u32) -> int {
    u32_trailing_zeros(x) as int
}

/// What the lowest set bit of a non-empty word is, and how the word is
/// written with it taken out.
pub proof fn lemma_lowest32(x: u32)
    requires
        x != 0,
    ensures
        0 <= lowest32(x) < 32,
        bit32(x, lowest32(x)),
        forall|j: int| 0 <= j < lowest32(x) ==> !#[trigger] bit32(x, j),
        x & !((x - 1) as u32) == 1u32 << (lowest32(x) as u32),
        x ^ (1u32 << (lowest32(x) as u32)) == x & ((x - 1) as u32),
        x ^ (1u32 << (lowest32(x) as u32)) < x,
{
    axiom_u32_trailing_zeros(x);
    let t = u32_trailing_zeros(x);
    assert forall|j: int| 0 <= j < t implies !#[trigger] bit32(x, j) by {
        let k = j as u32;
        assert((x >> k) & 1u32 == 0u32);
    }
    bv32_lowest(x, t);
}

/// Two words with the same bits are the same word.
pub proof fn lemma_bit32_ext(a: u32, b: u32)
    requires
        forall|i: int| 0 <= i < 32 ==> bit32(a, i) == bit32(b, i),
    ensures
        a == b,
{
    if a != b {
        let x = a ^ b;
        bv32_xor_zero(a, b, 0);
        lemma_lowest32(x);
        let t = u32_trailing_zeros(x);
        bv32_xor_zero(a, b, t);
        assert(bit32(a, t as int) != bit32(b, t as int));
    }
}

/// The word whose bits below `n` are those positions at which `f` holds.
pub open spec fn word_upto(f: spec_fn(int) -> bool, n: int) -> u32
    decreases n,
{
    if n <= 0 {
        0
    } else if f(n - 1) {
        word_upto(f, n - 1) | (1u32 << ((n - 1) as u32))
    } else {
        word_upto(f, n - 1)
    }
}

/// The word whose set bits are the positions in `0..32` at which `f` holds.
pub open spec fn word_of(f: spec_fn(int) -> bool) -> u32 {
    word_upto(f, 32)
}

/// `word_upto(f, n)` has exactly the bits below `n` that `f` names.
pub proof fn lemma_word_upto(f: spec_fn(int) -> bool, n: int)
    requires
        0 <= n <= 32,
    ensures
        forall|i: int| #[trigger] bit32(word_upto(f, n), i) == (0 <= i < n && f(i)),
    decreases n,
{
    if n <= 0 {
        lemma_bit32_single(0);
    } else {
        lemma_word_upto(f, n - 1);
        lemma_bit32_single((n - 1) as u32);
        lemma_bit32_ops(word_upto(f, n - 1), 1u32 << ((n - 1) as u32));
    }
}

/// `word_of(f)` has exactly the bits that `f` names.
pub proof fn lemma_word_of(f: spec_fn(int) -> bool)
    ensures
        forall|i: int| #[trigger] bit32(word_of(f), i) == (0 <= i < 32 && f(i)),
{
    lemma_word_upto(f, 32);
}

/// Counting is monotone in the bound and never exceeds it.
pub proof fn lemma_count32_bounds(x: u32, m: int, n: int)
    requires
        0 <= m <= n,
    ensures
        count32(x, m) <= count32(x, n),
        count32(x, n) - count32(x, m) <= n - m,
        count32(x, n) <= n,
    decreases n,
{
    if m < n {
        lemma_count32_bounds(x, m, n - 1);
    }
    if 0 < n {
        lemma_count32_bounds(x, 0, n - 1);
    }
}

/// Two words that agree below `n` have the same count below `n`.
pub proof fn lemma_count32_agree(x: u32, y: u32, n: int)
    requires
        forall|i: int| 0 <= i < n ==> bit32(x, i) == bit32(y, i),
    ensures
        count32(x, n) == count32(y, n),
    decreases n,
{
    if n > 0 {
        lemma_count32_agree(x, y, n - 1);
    }
}

/// Taking one set bit out of a word lowers its count by one.
pub proof fn lemma_count32_remove(x: u32, y: u32, k: int, n: int)
    requires
        0 <= k < n <= 32,
        bit32(x, k),
        forall|i: int| 0 <= i < n ==> bit32(y, i) == (bit32(x, i) && i != k),
    ensures
        count32(y, n) + 1 == count32(x, n),
    decreases n,
{
    if k == n - 1 {
        lemma_count32_agree(x, y, n - 1);
    } else {
        lemma_count32_remove(x, y, k, n - 1);
    }
}

/// A stretch without set bits adds nothing to the count.
pub proof fn lemma_count32_gap(x: u32, m: int, n: int)
    requires
        0 <= m <= n,
        forall|i: int| m <= i < n ==> !bit32(x, i),
    ensures
        count32(x, n) == count32(x, m),
    decreases n,
{
    if m < n {
        lemma_count32_gap(x, m, n - 1);
    }
}

/// Reading a bit with a one-bit word, and shifting a one-bit word.
proof fn bv32_probe(x: u32, k: u32)
    by (bit_vector)
    requires
        k < 32,
    ensures
        (x & (1u32 << k) != 0) <==> (x >> k) & 1 == 1,
        (x & (1u32 << k) == 0) <==> (x >> k) & 1 == 0,
        k < 31 ==> (1u32 << k) << 1 == 1u32 << ((k + 1) as u32),
        k == 31 ==> (1u32 << k) << 1 == 0,
        1u32 << k != 0,
        1u32 << 0 == 1,
{
}

/// Testing a word against `1 << k` reads its bit `k`; shifting `1 << k`
/// once more moves to bit `k + 1`, or out of the word.
pub proof fn lemma_bit32_probe(x: u32, k: int)
    requires
        0 <= k < 32,
    ensures
        (x & (1u32 << (k as u32)) != 0) == bit32(x, k),
        k < 31 ==> (1u32 << (k as u32)) << 1 == 1u32 << ((k + 1) as u32),
        k == 31 ==> (1u32 << (k as u32)) << 1 == 0,
        1u32 << (k as u32) != 0,
        1u32 << 0 == 1,
{
    bv32_probe(x, k as u32);
}

/// Laws of disjunction and conjunction.
proof fn bv32_or_laws(a: u32, b: u32, c: u32)
    by (bit_vector)
    ensures
        (a | b) | c == a | (b | c),
        a | b == b | a,
        a | 0 == a,
        0 | a == a,
        a | a == a,
        a & 0 == 0,
        0 & a == 0,
{
}

/// Disjunction is associative and commutative, with the empty word as unit.
pub proof fn lemma_or32_laws(a: u32, b: u32, c: u32)
    ensures
        (a | b) | c == a | (b | c),
        a | b == b | a,
        a | 0 == a,
        0 | a == a,
        a | a == a,
        a & 0 == 0,
        0 & a == 0,
{
    bv32_or_laws(a, b, c);
}

/// `u32::count_ones` of the standard library returns the number of ones in
/// the binary representation of its argument.
pub assume_specification[ u32::count_ones ](x: u32) -> (r: u32)
    ensures
        r == popcount32(x),
;

/// The size of a word shifted right.
proof fn bv32_shift_bound(x: u32, s: u32)
    by (bit_vector)
    requires
        1 <= s <= 31,
    ensures
        (x >> s) < (1u32 << ((32 - s) as u32)),
        1u32 << ((32 - s) as u32) >= 2,
{
}

/// The size of a word shifted right, with the bound on 64 bits, and the
/// bound on 32 bits as a number on 64.
proof fn bv32_slots(x: u32, s: u32)
    by (bit_vector)
    requires
        s <= 31,
    ensures
        ((x >> s) as u64) < (1u64 << ((32 - s) as u64)),
        s >= 1 ==> (1u32 << ((32 - s) as u32)) as u64 == 1u64 << ((32 - s) as u64),
{
}

/// A word shifted right by `s` is one of `1 << (32 - s)` numbers, which is
/// a number of 32 bits unless `s` is 0.
pub proof fn lemma_slots(x: u32, s: int)
    requires
        0 <= s <= 31,
    ensures
        (x >> (s as u32)) < (1u64 << ((32 - s) as u64)),
        s >= 1 ==> 1u32 << ((32 - s) as u32) == 1u64 << ((32 - s) as u64),
{
    bv32_slots(x, s as u32);
}

/// A word shifted right by `s` is below `1 << (32 - s)`.
pub proof fn lemma_shift32_bound(x: u32, s: int)
    requires
        1 <= s <= 31,
    ensures
        (x >> (s as u32)) < (1u32 << ((32 - s) as u32)),
        1u32 << ((32 - s) as u32) >= 2,
{
    bv32_shift_bound(x, s as u32);
}

/// A disjunction has at most the bits of both words, a one-bit word one bit,
/// and the empty word none.
pub proof fn lemma_count32_or(a: u32, b: u32, k: int, n: int)
    requires
        0 <= n <= 32,
        0 <= k < 32,
    ensures
        count32(a | b, n) <= count32(a, n) + count32(b, n),
        count32(1u32 << (k as u32), n) == (if k < n {
            1nat
        } else {
            0nat
        }),
        count32(0, n) == 0,
    decreases n,
{
    if n > 0 {
        lemma_count32_or(a, b, k, n - 1);
        lemma_bit32_ops(a, b);
        lemma_bit32_single(k as u32);
    }
}

/// Below a set bit the count is smaller than above it.
pub proof fn lemma_count32_rank(x: u32, p: int, q: int)
    requires
        0 <= p < q,
        bit32(x, p),
    ensures
        count32(x, p) < count32(x, q),
{
    lemma_count32_bounds(x, p + 1, q);
}

/// The bits of a word shifted right, and its size if no bit is left.
proof fn bv32_shifted(x: u32, n: u32, i: u32)
    by (bit_vector)
    requires
        n < 32,
        i < 32,
    ensures
        i + n < 32 ==> (((x >> n) >> i) & 1 == 1 <==> (x >> ((i + n) as u32)) & 1 == 1),
        i + n >= 32 ==> ((x >> n) >> i) & 1 == 0,
        x >> n == 0 ==> x < (1u32 << n),
{
}

/// A word without bits from position `n` on is below `1 << n`.
pub proof fn lemma_below_pow2(x: u32, n: int)
    requires
        0 <= n < 32,
        forall|i: int| n <= i < 32 ==> !bit32(x, i),
    ensures
        x < (1u32 << (n as u32)),
{
    let y = x >> (n as u32);
    lemma_bit32_single(0);
    assert forall|i: int| 0 <= i < 32 implies bit32(y, i) == bit32(0, i) by {
        bv32_shifted(x, n as u32, i as u32);
        if i + n < 32 {
            assert(!bit32(x, i + n));
        }
    }
    lemma_bit32_ext(y, 0);
    bv32_shifted(x, n as u32, 0);
}

/// The bits of the connectives, of the empty word and of a one-bit word,
/// on 64 bits.
proof fn bv64_connectives(a: u64, b: u64, k: u64)
    by (bit_vector)
    requires
        k < 64,
    ensures
        ((a | b) >> k) & 1 == 1 <==> ((a >> k) & 1 == 1 || (b >> k) & 1 == 1),
        ((a & b) >> k) & 1 == 1 <==> ((a >> k) & 1 == 1 && (b >> k) & 1 == 1),
        ((a ^ b) >> k) & 1 == 1 <==> ((a >> k) & 1 == 1) != ((b >> k) & 1 == 1),
        ((!a) >> k) & 1 == 1 <==> !((a >> k) & 1 == 1),
        (0u64 >> k) & 1 == 0,
        ((1u64 << b) >> k) & 1 == 1 <==> b == k,
        a ^ b == 0 <==> a == b,
{
}

/// Bits of a disjunction, conjunction, difference and complement.
pub proof fn lemma_bit64_ops(a: u64, b: u64)
    ensures
        forall|i: int| #[trigger] bit64(a | b, i) == (bit64(a, i) || bit64(b, i)),
        forall|i: int| #[trigger] bit64(a & b, i) == (bit64(a, i) && bit64(b, i)),
        forall|i: int| #[trigger] bit64(a ^ b, i) == (bit64(a, i) != bit64(b, i)),
        forall|i: int| #[trigger] bit64(!a, i) == (0 <= i < 64 && !bit64(a, i)),
{
    assert forall|i: int| #[trigger] bit64(a | b, i) == (bit64(a, i) || bit64(b, i)) by {
        if 0 <= i < 64 {
            bv64_connectives(a, b, i as u64);
        }
    }
    assert forall|i: int| #[trigger] bit64(a & b, i) == (bit64(a, i) && bit64(b, i)) by {
        if 0 <= i < 64 {
            bv64_connectives(a, b, i as u64);
        }
    }
    assert forall|i: int| #[trigger] bit64(a ^ b, i) == (bit64(a, i) != bit64(b, i)) by {
        if 0 <= i < 64 {
            bv64_connectives(a, b, i as u64);
        }
    }
    assert forall|i: int| #[trigger] bit64(!a, i) == (0 <= i < 64 && !bit64(a, i)) by {
        if 0 <= i < 64 {
            bv64_connectives(a, b, i as u64);
        }
    }
}

/// The empty word has no bit, and `1 << s` has bit `s` alone.
pub proof fn lemma_bit64_single(s: u64)
    requires
        s < 64,
    ensures
        forall|i: int| !#[trigger] bit64(0, i),
        forall|i: int| #[trigger] bit64(1u64 << s, i) == (i == s),
{
    assert forall|i: int| !#[trigger] bit64(0, i) by {
        if 0 <= i < 64 {
            bv64_connectives(0, s, i as u64);
        }
    }
    assert forall|i: int| #[trigger] bit64(1u64 << s, i) == (i == s) by {
        if 0 <= i < 64 {
            bv64_connectives(0, s, i as u64);
        }
    }
}

/// Taking a set bit `t` out of `x` makes it smaller.
proof fn bv64_lowest(x: u64, t: u32)
    by (bit_vector)
    requires
        t < 64,
        (x >> t) & 1 == 1,
    ensures
        x ^ (1u64 << t) < x,
{
}

/// Position of the lowest set bit of `x`; 64 for the empty word.
pub open spec fn lowest64(x: u64) -> int {
    u64_trailing_zeros(x) as int
}

/// What the lowest set bit of a non-empty word is.
pub proof fn lemma_lowest64(x: u64)
    requires
        x != 0,
    ensures
        0 <= lowest64(x) < 64,
        bit64(x, lowest64(x)),
        forall|j: int| 0 <= j < lowest64(x) ==> !#[trigger] bit64(x, j),
        x ^ (1u64 << (lowest64(x) as u64)) < x,
{
    axiom_u64_trailing_zeros(x);
    let t = u64_trailing_zeros(x);
    assert forall|j: int| 0 <= j < t implies !#[trigger] bit64(x, j) by {
        let k = j as u64;
        assert((x >> k) & 1u64 == 0u64);
    }
    assert((x >> (t as u64)) & 1 == 1);
    bv64_lowest(x, t);
}

/// Two words with the same bits are the same word.
pub proof fn lemma_bit64_ext(a: u64, b: u64)
    requires
        forall|i: int| 0 <= i < 64 ==> bit64(a, i) == bit64(b, i),
    ensures
        a == b,
{
    if a != b {
        let x = a ^ b;
        bv64_connectives(a, b, 0);
        lemma_lowest64(x);
        lemma_bit64_ops(a, b);
        assert(bit64(a, lowest64(x)) != bit64(b, lowest64(x)));
    }
}

/// The 64-bit word whose bits below `n` are those positions at which `f`
/// holds.
pub open spec fn word64_upto(f: spec_fn(int) -> bool, n: int) -> u64
    decreases n,
{
    if n <= 0 {
        0
    } else if f(n - 1) {
        word64_upto(f, n - 1) | (1u64 << ((n - 1) as u64))
    } else {
        word64_upto(f, n - 1)
    }
}

/// The 64-bit word whose set bits are the positions in `0..64` at which `f`
/// holds.
pub open spec fn word64_of(f: spec_fn(int) -> bool) -> u64 {
    word64_upto(f, 64)
}

/// `word64_upto(f, n)` has exactly the bits below `n` that `f` names.
pub proof fn lemma_word64_upto(f: spec_fn(int) -> bool, n: int)
    requires
        0 <= n <= 64,
    ensures
        forall|i: int| #[trigger] bit64(word64_upto(f, n), i) == (0 <= i < n && f(i)),
    decreases n,
{
    if n <= 0 {
        lemma_bit64_single(0);
    } else {
        lemma_word64_upto(f, n - 1);
        lemma_bit64_single((n - 1) as u64);
        lemma_bit64_ops(word64_upto(f, n - 1), 1u64 << ((n - 1) as u64));
    }
}

/// `word64_of(f)` has exactly the bits that `f` names.
pub proof fn lemma_word64_of(f: spec_fn(int) -> bool)
    ensures
        forall|i: int| #[trigger] bit64(word64_of(f), i) == (0 <= i < 64 && f(i)),
{
    lemma_word64_upto(f, 64);
}

/// A word is empty exactly if it has no bit.
pub proof fn lemma_bit32_empty(x: u32)
    ensures
        x == 0 <==> forall|i: int| 0 <= i < 32 ==> !bit32(x, i),
{
    lemma_bit32_single(0);
    if forall|i: int| 0 <= i < 32 ==> !bit32(x, i) {
        lemma_bit32_ext(x, 0);
    }
}

/// A 64-bit word is empty exactly if it has no bit.
pub proof fn lemma_bit64_empty(x: u64)
    ensures
        x == 0 <==> forall|i: int| 0 <= i < 64 ==> !bit64(x, i),
{
    lemma_bit64_single(0);
    if forall|i: int| 0 <= i < 64 ==> !bit64(x, i) {
        lemma_bit64_ext(x, 0);
    }
}

} // verus!
