//! The mathematical model of a packed bit buffer: bits of a byte, bits of a
//! byte sequence, and counting.
use vstd::prelude::*;

verus! {

/// Bit `k` of byte `b`, counted from the least significant bit.
pub open spec fn bit_at(b: u8, k: u8) -> bool {
    (b >> k) & 1u8 == 1u8
}

/// The eight bits of a byte, least significant first.
pub open spec fn byte_bits(b: u8) -> Seq<bool> {
    Seq::new(8, |k: int| bit_at(b, k as u8))
}

/// The first `n` bits of a byte sequence: bit `i` is bit `i % 8` of byte `i / 8`.
pub open spec fn bits_of(bytes: Seq<u8>, n: nat) -> Seq<bool> {
    Seq::new(n, |i: int| bit_at(bytes[i / 8], (i % 8) as u8))
}

/// The number of entries of `s` equal to `v`.
pub open spec fn count_of(s: Seq<bool>, v: bool) -> nat
    decreases s.len(),
{
    if s.len() == 0 {
        0
    } else {
        count_of(s.drop_last(), v) + if s.last() == v {
            1nat
        } else {
            0nat
        }
    }
}

/// Relies on `u8::count_ones`: the number of one bits in the byte.
pub assume_specification[ u8::count_ones ](x: u8) -> (r: u32)
    ensures
        r == count_of(byte_bits(x), true),
;

/// Relies on `u8::count_zeros`: the number of zero bits in the byte.
pub assume_specification[ u8::count_zeros ](x: u8) -> (r: u32)
    ensures
        r == count_of(byte_bits(x), false),
;

pub proof fn lemma_count_push(s: Seq<bool>, x: bool, v: bool)
    ensures
        count_of(s.push(x), v) == count_of(s, v) + if x == v {
            1nat
        } else {
            0nat
        },
{
    assert(s.push(x).drop_last() =~= s);
}

/// Every entry is either true or false.
pub proof fn lemma_count_total(s: Seq<bool>)
    ensures
        count_of(s, true) + count_of(s, false) == s.len(),
    decreases s.len(),
{
    if s.len() > 0 {
        lemma_count_total(s.drop_last());
    }
}

/// `v` fills the whole sequence exactly when it is counted `s.len()` times.
pub proof fn lemma_count_all(s: Seq<bool>, v: bool)
    ensures
        (count_of(s, v) == s.len()) <==> (forall|i: int| 0 <= i < s.len() ==> s[i] == v),
    decreases s.len(),
{
    if s.len() > 0 {
        let t = s.drop_last();
        lemma_count_all(t, v);
        lemma_count_total(t);
        if count_of(s, v) == s.len() {
            assert forall|i: int| 0 <= i < s.len() implies s[i] == v by {
                if i < s.len() - 1 {
                    assert(t[i] == s[i]);
                }
            }
        }
        if forall|i: int| 0 <= i < s.len() ==> s[i] == v {
            assert forall|i: int| 0 <= i < t.len() implies t[i] == v by {
                assert(t[i] == s[i]);
            }
        }
    }
}

/// A sequence of one repeated value counts that value everywhere.
pub proof fn lemma_count_constant(n: nat, v: bool, w: bool)
    ensures
        count_of(Seq::new(n, |_i: int| v), w) == if v == w {
            n
        } else {
            0
        },
    decreases n,
{
    if n > 0 {
        lemma_count_constant((n - 1) as nat, v, w);
        assert(Seq::new(n, |_i: int| v).drop_last() =~= Seq::new((n - 1) as nat, |_i: int| v));
    }
}

pub proof fn lemma_div_mod_8(i: int, k: int)
    requires
        0 <= k < 8,
    ensures
        (8 * i + k) / 8 == i,
        (8 * i + k) % 8 == k,
{
    assert((8 * i + k) / 8 == i && (8 * i + k) % 8 == k) by (nonlinear_arith)
        requires
            0 <= k < 8,
    ;
}

pub proof fn lemma_bits_push(bytes: Seq<u8>, n: nat)
    ensures
        bits_of(bytes, n + 1) =~= bits_of(bytes, n).push(bit_at(bytes[n as int / 8], (n as int % 8) as u8)),
{
}

/// Counting over a whole byte adds the count over that byte's bits.
pub proof fn lemma_count_byte(bytes: Seq<u8>, i: nat, k: nat, v: bool)
    requires
        k <= 8,
    ensures
        count_of(bits_of(bytes, 8 * i + k), v) == count_of(bits_of(bytes, 8 * i), v) + count_of(
            byte_bits(bytes[i as int]).take(k as int),
            v,
        ),
    decreases k,
{
    if k == 0 {
        assert(byte_bits(bytes[i as int]).take(0) =~= Seq::<bool>::empty());
    } else {
        let j = (k - 1) as nat;
        lemma_count_byte(bytes, i, j, v);
        lemma_div_mod_8(i as int, j as int);
        lemma_bits_push(bytes, 8 * i + j);
        let x = bit_at(bytes[i as int], j as u8);
        lemma_count_push(bits_of(bytes, 8 * i + j), x, v);
        let bb = byte_bits(bytes[i as int]);
        assert(bb.take(k as int) =~= bb.take(j as int).push(x));
        lemma_count_push(bb.take(j as int), x, v);
    }
}

/// Bits of the buffer at `length` and beyond are clear.
pub open spec fn padding_clear(bytes: Seq<u8>, length: nat) -> bool {
    forall|i: int|
        length <= i < 8 * bytes.len() ==> !#[trigger] bit_at(bytes[i / 8], (i % 8) as u8)
}

/// Past the logical length, clear padding bits add zeros and no ones.
pub proof fn lemma_count_padding(bytes: Seq<u8>, length: nat, m: nat)
    requires
        padding_clear(bytes, length),
        length <= m <= 8 * bytes.len(),
    ensures
        count_of(bits_of(bytes, m), true) == count_of(bits_of(bytes, length), true),
        count_of(bits_of(bytes, m), false) == count_of(bits_of(bytes, length), false) + (m
            - length),
    decreases m,
{
    if m > length {
        let j = (m - 1) as nat;
        lemma_count_padding(bytes, length, j);
        lemma_bits_push(bytes, j);
        let x = bit_at(bytes[j as int / 8], (j as int % 8) as u8);
        assert(!x);
        lemma_count_push(bits_of(bytes, j), x, true);
        lemma_count_push(bits_of(bytes, j), x, false);
    }
}

/// Facts about single bits of particular bytes.
pub proof fn lemma_bit_constants(k: u8)
    requires
        k < 8,
    ensures
        !bit_at(0u8, k),
        bit_at(0xFFu8, k),
{
    assert(!bit_at(0u8, k) && bit_at(0xFFu8, k)) by (bit_vector)
        requires
            k < 8,
    ;
}

/// Setting or clearing bit `off` changes that bit alone.
pub proof fn lemma_bit_update(b: u8, off: u8, k: u8)
    requires
        off < 8,
        k < 8,
    ensures
        bit_at(b | (1u8 << off), k) == (k == off || bit_at(b, k)),
        bit_at(b & !(1u8 << off), k) == (k != off && bit_at(b, k)),
{
    assert(bit_at(b | (1u8 << off), k) == (k == off || bit_at(b, k))) by (bit_vector)
        requires
            off < 8,
            k < 8,
    ;
    assert(bit_at(b & !(1u8 << off), k) == (k != off && bit_at(b, k))) by (bit_vector)
        requires
            off < 8,
            k < 8,
    ;
}

/// A mask of the low `lb` bits keeps those bits and clears the others.
pub proof fn lemma_low_mask(b: u8, lb: u8, k: u8)
    requires
        0 < lb < 8,
        k < 8,
    ensures
        (1u8 << lb) >= 1,
        bit_at(b & (((1u8 << lb) - 1) as u8), k) == (k < lb && bit_at(b, k)),
{
    assert((1u8 << lb) >= 1) by (bit_vector)
        requires
            0 < lb < 8,
    ;
    assert(bit_at(b & (((1u8 << lb) - 1) as u8), k) == (k < lb && bit_at(b, k))) by (bit_vector)
        requires
            0 < lb < 8,
            k < 8,
    ;
}

/// A longer prefix of the bits counts at least as many of each value.
pub proof fn lemma_count_monotone(bytes: Seq<u8>, m: nat, m2: nat, v: bool)
    requires
        m <= m2,
    ensures
        count_of(bits_of(bytes, m), v) <= count_of(bits_of(bytes, m2), v),
    decreases m2,
{
    if m2 > m {
        let j = (m2 - 1) as nat;
        lemma_count_monotone(bytes, m, j, v);
        lemma_bits_push(bytes, j);
        lemma_count_push(bits_of(bytes, j), bit_at(bytes[j as int / 8], (j as int % 8) as u8), v);
    }
}

/// With clear padding, no prefix of the buffer holds more ones than the logical length.
pub proof fn lemma_ones_bounded(bytes: Seq<u8>, length: nat, m: nat)
    requires
        padding_clear(bytes, length),
        length <= 8 * bytes.len(),
        m <= 8 * bytes.len(),
    ensures
        count_of(bits_of(bytes, m), true) <= length,
{
    if m >= length {
        lemma_count_padding(bytes, length, m);
        lemma_count_total(bits_of(bytes, length));
    } else {
        lemma_count_total(bits_of(bytes, m));
    }
}

/// A byte is determined by its eight bits.
pub proof fn lemma_byte_from_bits(x: u8, y: u8)
    requires
        bit_at(x, 0) == bit_at(y, 0),
        bit_at(x, 1) == bit_at(y, 1),
        bit_at(x, 2) == bit_at(y, 2),
        bit_at(x, 3) == bit_at(y, 3),
        bit_at(x, 4) == bit_at(y, 4),
        bit_at(x, 5) == bit_at(y, 5),
        bit_at(x, 6) == bit_at(y, 6),
        bit_at(x, 7) == bit_at(y, 7),
    ensures
        x == y,
{
    assert(x == y) by (bit_vector)
        requires
            bit_at(x, 0u8) == bit_at(y, 0u8),
            bit_at(x, 1u8) == bit_at(y, 1u8),
            bit_at(x, 2u8) == bit_at(y, 2u8),
            bit_at(x, 3u8) == bit_at(y, 3u8),
            bit_at(x, 4u8) == bit_at(y, 4u8),
            bit_at(x, 5u8) == bit_at(y, 5u8),
            bit_at(x, 6u8) == bit_at(y, 6u8),
            bit_at(x, 7u8) == bit_at(y, 7u8),
    ;
}

} // verus!
