//! A fixed-length array of bits, packed eight to a byte.
//!
//! A [`Binvec`] of length `L` keeps its bits in `ceil(L / 8)` bytes: bit `i`
//! is bit `i % 8` of byte `i / 8`. The bits of the last byte past `L` are
//! always clear, so counts over the raw bytes are counts over the logical bits.
pub mod bits;
pub mod error;
mod iter;

pub use iter::BinvecIter;

use vstd::prelude::*;

use crate::bits::{
    bit_at,
    byte_bits,
    bits_of,
    count_of,
    padding_clear,
    lemma_bit_constants,
    lemma_bit_update,
    lemma_low_mask,
    lemma_count_byte,
    lemma_count_padding,
    lemma_count_monotone,
    lemma_count_total,
    lemma_count_all,
    lemma_ones_bounded,
    lemma_count_constant,
    lemma_byte_from_bits,
};
use vstd::std_specs::cmp::PartialEqSpec;
use crate::error::IndexOutOfBounds;

verus! {

/// The number of bytes that hold `length` bits.
pub open spec fn byte_count(length: int) -> int {
    (length + 7) / 8
}

/// The character that shows one bit.
pub open spec fn digit_char(b: bool) -> char {
    if b {
        '1'
    } else {
        '0'
    }
}

/// The bits shown as digits separated by `", "`.
pub open spec fn digits_text(bits: Seq<bool>) -> Seq<char>
    decreases bits.len(),
{
    if bits.len() == 0 {
        Seq::empty()
    } else if bits.len() == 1 {
        seq![digit_char(bits[0])]
    } else {
        digits_text(bits.drop_last()) + seq![',', ' ', digit_char(bits.last())]
    }
}

/// The text of a container: its digits in index order between brackets,
/// such as `[1, 0, 1]`; `[]` when empty.
pub open spec fn text_of(bits: Seq<bool>) -> Seq<char> {
    seq!['['] + digits_text(bits) + seq![']']
}

/// A fixed-length array of bits, one bit per element.
#[derive(Debug, Clone)]
pub struct Binvec {
    inner: Vec<u8>,
    length: usize,
}

impl View for Binvec {
    type V = Seq<bool>;

    /// The logical bits, in index order.
    closed spec fn view(&self) -> Seq<bool> {
        bits_of(self.inner@, self.length as nat)
    }
}

proof fn lemma_byte_sizes(length: int)
    requires
        0 <= length,
    ensures
        8 * byte_count(length) >= length,
        8 * byte_count(length) < length + 8,
        length > 0 ==> byte_count(length) > 0,
{
    assert(8 * ((length + 7) / 8) >= length && 8 * ((length + 7) / 8) < length + 8)
        by (nonlinear_arith)
        requires
            0 <= length,
    ;
}

proof fn lemma_byte_index(i: int, length: int)
    requires
        0 <= i < length,
    ensures
        i / 8 < byte_count(length),
        8 * byte_count(length) >= length,
        8 * (byte_count(length) - 1) < length,
{
    assert(i / 8 < (length + 7) / 8 && 8 * ((length + 7) / 8) >= length && 8 * ((length + 7)
        / 8 - 1) < length) by (nonlinear_arith)
        requires
            0 <= i < length,
    ;
}

impl Binvec {
    /// The buffer holds exactly the bytes needed, and its padding bits are clear.
    pub closed spec fn wf(&self) -> bool {
        &&& self.inner@.len() == byte_count(self.length as int)
        &&& padding_clear(self.inner@, self.length as nat)
    }

    /// A container of `length` bits, each equal to `initial_value`.
    pub fn new(length: usize, initial_value: bool) -> (r: Self)
        ensures
            r.wf(),
            r@ == Seq::new(length as nat, |_i: int| initial_value),
    {
        let n: usize = length / 8 + if length % 8 == 0 {
            0
        } else {
            1
        };
        assert(n == byte_count(length as int));
        let mut inner: Vec<u8> = Vec::with_capacity(n);
        while inner.len() < n
            invariant
                inner@.len() <= n,
                forall|j: int| 0 <= j < inner@.len() ==> inner@[j] == 0u8,
            decreases n - inner@.len(),
        {
            inner.push(0u8);
        }
        let mut r = Binvec { inner, length };
        assert forall|i: int|
            length <= i < 8 * r.inner@.len() implies !#[trigger] bit_at(
            r.inner@[i / 8],
            (i % 8) as u8,
        ) by {
            lemma_bit_constants((i % 8) as u8);
        }
        r.fill(initial_value);
        r
    }

    /// The number of bits.
    pub fn len(&self) -> (r: usize)
        ensures
            r == self@.len(),
    {
        self.length
    }

    /// The number of bytes behind the bits: the fewest that hold them.
    pub fn byte_len(&self) -> (r: usize)
        requires
            self.wf(),
        ensures
            r == byte_count(self@.len() as int),
    {
        self.inner.len()
    }

    /// The bit at `index`, which the caller guarantees is in range.
    pub fn get_unchecked(&self, index: usize) -> (r: bool)
        requires
            self.wf(),
            index < self@.len(),
        ensures
            r == self@[index as int],
    {
        proof {
            lemma_byte_index(index as int, self.length as int);
        }
        let byte: u8 = self.inner[index / 8];
        let offset: u8 = (index % 8) as u8;
        (byte >> offset) & 1u8 == 1u8
    }

    /// The bit at `index`, or `IndexOutOfBounds` past the end.
    pub fn get(&self, index: usize) -> (r: Result<bool, IndexOutOfBounds>)
        requires
            self.wf(),
        ensures
            index < self@.len() ==> r == Ok::<bool, IndexOutOfBounds>(self@[index as int]),
            index >= self@.len() ==> r == Err::<bool, IndexOutOfBounds>(IndexOutOfBounds),
    {
        if index < self.length {
            Ok(self.get_unchecked(index))
        } else {
            Err(IndexOutOfBounds)
        }
    }

    /// Writes `value` at `index`, which the caller guarantees is in range.
    pub fn set_unchecked(&mut self, index: usize, value: bool)
        requires
            old(self).wf(),
            index < old(self)@.len(),
        ensures
            final(self).wf(),
            final(self)@ == old(self)@.update(index as int, value),
    {
        proof {
            lemma_byte_index(index as int, self.length as int);
        }
        let byte_index: usize = index / 8;
        let offset: u8 = (index % 8) as u8;
        let mask: u8 = 1u8 << offset;
        let byte: u8 = self.inner[byte_index];
        let updated: u8 = if value {
            byte | mask
        } else {
            byte & !mask
        };
        self.inner.set(byte_index, updated);
        proof {
            let old_bytes = old(self).inner@;
            let new_bytes = self.inner@;
            assert forall|i: int| 0 <= i < 8 * new_bytes.len() implies #[trigger] bit_at(
                new_bytes[i / 8],
                (i % 8) as u8,
            ) == if i == index {
                value
            } else {
                bit_at(old_bytes[i / 8], (i % 8) as u8)
            } by {
                if i / 8 == byte_index as int {
                    lemma_bit_update(byte, offset, (i % 8) as u8);
                }
            }
            assert(self@ =~= old(self)@.update(index as int, value));
        }
    }

    /// Writes `value` at `index`, or leaves the bits unchanged and returns
    /// `IndexOutOfBounds` past the end.
    pub fn set(&mut self, index: usize, value: bool) -> (r: Result<(), IndexOutOfBounds>)
        requires
            old(self).wf(),
        ensures
            final(self).wf(),
            index < old(self)@.len() ==> r == Ok::<(), IndexOutOfBounds>(()) && final(self)@
                == old(self)@.update(index as int, value),
            index >= old(self)@.len() ==> r == Err::<(), IndexOutOfBounds>(IndexOutOfBounds)
                && *final(self) == *old(self),
    {
        if index < self.length {
            self.set_unchecked(index, value);
            Ok(())
        } else {
            Err(IndexOutOfBounds)
        }
    }

    /// Sets every bit to `value`; the padding bits stay clear.
    pub fn fill(&mut self, value: bool)
        requires
            old(self).wf(),
        ensures
            final(self).wf(),
            final(self)@ == Seq::new(old(self)@.len(), |_i: int| value),
    {
        let byte: u8 = if value {
            0xFF
        } else {
            0x00
        };
        let n: usize = self.inner.len();
        let mut i: usize = 0;
        while i < n
            invariant
                n == self.inner@.len(),
                self.length == old(self).length,
                n == byte_count(self.length as int),
                i <= n,
                forall|j: int| 0 <= j < i ==> self.inner@[j] == byte,
            decreases n - i,
        {
            self.inner.set(i, byte);
            i += 1;
        }
        let last_bits: usize = self.length % 8;
        if last_bits != 0 {
            proof {
                lemma_low_mask(0u8, last_bits as u8, 0);
            }
            let mask: u8 = (1u8 << (last_bits as u8)) - 1;
            let last: u8 = self.inner[n - 1] & mask;
            self.inner.set(n - 1, last);
        }
        proof {
            let bytes = self.inner@;
            let length = self.length as int;
            assert forall|j: int| 0 <= j < 8 * bytes.len() implies #[trigger] bit_at(
                bytes[j / 8],
                (j % 8) as u8,
            ) == (j < length && value) by {
                let k = (j % 8) as u8;
                lemma_bit_constants(k);
                if last_bits != 0 && j / 8 == n - 1 {
                    lemma_low_mask(byte, last_bits as u8, k);
                    assert(8 * (n - 1) + k == j);
                }
                lemma_byte_index(j, 8 * n);
            }
            assert(self@ =~= Seq::new(old(self)@.len(), |_i: int| value));
        }
    }
    /// The number of one bits.
    pub fn count_ones(&self) -> (r: usize)
        requires
            self.wf(),
        ensures
            r == count_of(self@, true),
    {
        let ghost bytes = self.inner@;
        let ghost length = self.length as nat;
        proof {
            lemma_byte_sizes(length as int);
        }
        let n: usize = self.inner.len();
        let mut count: usize = 0;
        let mut i: usize = 0;
        while i < n
            invariant
                self.wf(),
                bytes == self.inner@,
                length == self.length,
                n == bytes.len(),
                length <= 8 * n,
                i <= n,
                count == count_of(bits_of(bytes, (8 * i) as nat), true),
            decreases n - i,
        {
            let byte: u8 = self.inner[i];
            proof {
                lemma_count_byte(bytes, i as nat, 8, true);
                assert(byte_bits(byte).take(8) =~= byte_bits(byte));
                lemma_ones_bounded(bytes, length, (8 * i + 8) as nat);
            }
            count = count + byte.count_ones() as usize;
            i += 1;
        }
        proof {
            lemma_count_padding(bytes, length, (8 * n) as nat);
        }
        count
    }

    /// The number of zero bits; the padding bits are not counted.
    pub fn count_zeros(&self) -> (r: usize)
        requires
            self.wf(),
        ensures
            r == count_of(self@, false),
    {
        let ghost bytes = self.inner@;
        let ghost length = self.length as nat;
        proof {
            lemma_byte_sizes(length as int);
        }
        let n: usize = self.inner.len();
        if n == 0 {
            assert(self@ =~= Seq::<bool>::empty());
            return 0;
        }
        let mut count: usize = 0;
        let mut i: usize = 0;
        while i < n - 1
            invariant
                self.wf(),
                bytes == self.inner@,
                length == self.length,
                n == bytes.len(),
                8 * (n - 1) < length,
                i <= n - 1,
                count == count_of(bits_of(bytes, (8 * i) as nat), false),
            decreases n - 1 - i,
        {
            let byte: u8 = self.inner[i];
            proof {
                lemma_count_byte(bytes, i as nat, 8, false);
                assert(byte_bits(byte).take(8) =~= byte_bits(byte));
                lemma_count_total(bits_of(bytes, (8 * i + 8) as nat));
            }
            count = count + byte.count_zeros() as usize;
            i += 1;
        }
        let last: u8 = self.inner[n - 1];
        let padding: usize = 8 - (self.length - 8 * (n - 1));
        proof {
            lemma_count_byte(bytes, (n - 1) as nat, 8, false);
            assert(byte_bits(last).take(8) =~= byte_bits(last));
            lemma_count_padding(bytes, length, (8 * n) as nat);
            lemma_count_monotone(bytes, (8 * (n - 1)) as nat, length, false);
            lemma_count_total(bits_of(bytes, length));
        }
        count + (last.count_zeros() as usize - padding)
    }

    /// Whether every bit is one; true of an empty container.
    pub fn is_all_one(&self) -> (r: bool)
        requires
            self.wf(),
        ensures
            r == (count_of(self@, true) == self@.len()),
            r == (forall|i: int| 0 <= i < self@.len() ==> self@[i]),
    {
        proof {
            lemma_count_all(self@, true);
        }
        self.count_ones() == self.length
    }

    /// Whether every bit is zero; true of an empty container.
    pub fn is_all_zero(&self) -> (r: bool)
        requires
            self.wf(),
        ensures
            r == (count_of(self@, false) == self@.len()),
            r == (forall|i: int| 0 <= i < self@.len() ==> !self@[i]),
    {
        proof {
            lemma_count_all(self@, false);
        }
        self.count_zeros() == self.length
    }
    /// A cursor over the bits, from index 0 up.
    pub fn iter(&self) -> (r: BinvecIter<'_>)
        requires
            self.wf(),
        ensures
            r.wf(),
            r.bits() == self@,
            r.position() == 0,
    {
        BinvecIter::new(self)
    }

    /// The bits in index order, as yielded by [`Binvec::iter`].
    pub fn to_vec(&self) -> (r: Vec<bool>)
        requires
            self.wf(),
        ensures
            r@ == self@,
    {
        let mut out: Vec<bool> = Vec::new();
        let mut it = self.iter();
        loop
            invariant
                it.wf(),
                it.bits() == self@,
                it.position() <= self@.len(),
                out@ == self@.take(it.position() as int),
            ensures
                out@ == self@,
            decreases self@.len() - it.position(),
        {
            match it.next() {
                Some(bit) => {
                    out.push(bit);
                    assert(out@ =~= self@.take(it.position() as int));
                },
                None => {
                    assert(out@ =~= self@);
                    break ;
                },
            }
        }
        out
    }

    /// The bits as text: `[1, 0, 1]` for three bits, `[]` when empty.
    pub fn to_string(&self) -> (r: String)
        requires
            self.wf(),
        ensures
            r@ == text_of(self@),
    {
        proof {
            reveal_strlit("[");
            reveal_strlit("]");
        }
        let mut text: String = String::new();
        text.append("[");
        let mut it = self.iter();
        let mut first: bool = true;
        loop
            invariant
                it.wf(),
                it.bits() == self@,
                it.position() <= self@.len(),
                first == (it.position() == 0),
                text@ == seq!['['] + digits_text(self@.take(it.position() as int)),
            ensures
                text@ == seq!['['] + digits_text(self@),
            decreases self@.len() - it.position(),
        {
            let ghost before = self@.take(it.position() as int);
            let ghost shown = text@;
            match it.next() {
                Some(bit) => {
                    if !first {
                        text.append(", ");
                    }
                    let ghost sep = text@;
                    text.append(if bit { "1" } else { "0" });
                    first = false;
                    proof {
                        reveal_strlit(", ");
                        reveal_strlit("0");
                        reveal_strlit("1");
                        assert(", "@ =~= seq![',', ' ']);
                        assert("1"@ =~= seq!['1']);
                        assert("0"@ =~= seq!['0']);
                        assert(text@ =~= sep + seq![digit_char(bit)]);
                        let after = self@.take(it.position() as int);
                        assert(after.drop_last() =~= before);
                        assert(after.last() == bit);
                        if after.len() == 1 {
                            assert(sep == shown);
                            assert(before =~= Seq::<bool>::empty());
                            assert(digits_text(after) == seq![digit_char(bit)]);
                        } else {
                            assert(sep =~= shown + seq![',', ' ']);
                            assert(digits_text(after) == digits_text(before) + seq![
                                ',',
                                ' ',
                                digit_char(bit),
                            ]);
                        }
                        assert(text@ =~= seq!['['] + digits_text(after));
                    }
                },
                None => {
                    assert(before =~= self@);
                    break ;
                },
            }
        }
        text.append("]");
        text
    }
}

/// Two containers are equal when they have the same length and the same
/// bytes; for well-formed containers that is the same bits (see
/// [`law_equality`]).
impl PartialEq for Binvec {
    fn eq(&self, other: &Binvec) -> (r: bool) {
        if self.length != other.length || self.inner.len() != other.inner.len() {
            return false;
        }
        let n: usize = self.inner.len();
        let mut i: usize = 0;
        while i < n
            invariant
                n == self.inner@.len(),
                n == other.inner@.len(),
                i <= n,
                forall|j: int| 0 <= j < i ==> self.inner@[j] == other.inner@[j],
            decreases n - i,
        {
            if self.inner[i] != other.inner[i] {
                return false;
            }
            i += 1;
        }
        assert(self.inner@ =~= other.inner@);
        true
    }
}

impl Eq for Binvec {

}

impl vstd::std_specs::cmp::PartialEqSpecImpl for Binvec {
    open spec fn obeys_eq_spec() -> bool {
        true
    }

    open spec fn eq_spec(&self, other: &Binvec) -> bool {
        self.same_storage(other)
    }
}

impl Binvec {
    /// Same length and same bytes.
    pub closed spec fn same_storage(&self, other: &Binvec) -> bool {
        &&& self.length == other.length
        &&& self.inner@ == other.inner@
    }
}

/// Writing `value` at an in-range `index` and reading it back gives `value`,
/// and every other index keeps its bit.
pub proof fn law_set_then_get(b: &Binvec, index: int, value: bool)
    requires
        b.wf(),
        0 <= index < b@.len(),
    ensures
        b@.update(index, value)[index] == value,
        b@.update(index, value).len() == b@.len(),
        forall|j: int|
            0 <= j < b@.len() && j != index ==> b@.update(index, value)[j] == b@[j],
{
}

/// After filling `length` bits with `value`, all bits are one exactly when
/// `value` is true or there are no bits, and all bits are zero exactly when
/// `value` is false or there are no bits.
pub proof fn law_fill_then_all(length: nat, value: bool)
    ensures
        (count_of(Seq::new(length, |_i: int| value), true) == length) == (value || length == 0),
        (count_of(Seq::new(length, |_i: int| value), false) == length) == (!value || length
            == 0),
{
    lemma_count_constant(length, value, true);
    lemma_count_constant(length, value, false);
}

/// The ones and the zeros of a container add up to its length.
pub proof fn law_ones_plus_zeros(b: &Binvec)
    requires
        b.wf(),
    ensures
        count_of(b@, true) + count_of(b@, false) == b@.len(),
{
    lemma_count_total(b@);
}

/// Well-formed containers compare equal exactly when they hold the same
/// bits; in particular containers of different lengths are never equal.
pub proof fn law_equality(a: &Binvec, b: &Binvec)
    requires
        a.wf(),
        b.wf(),
    ensures
        a.eq_spec(b) <==> a@ == b@,
        a@.len() != b@.len() ==> !a.eq_spec(b),
{
    if a@ == b@ {
        assert(a.length == b.length) by {
            assert(a@.len() == b@.len());
        }
        let n = a.inner@.len();
        assert forall|j: int| 0 <= j < n implies a.inner@[j] == b.inner@[j] by {
            assert forall|k: u8| k < 8 implies #[trigger] bit_at(a.inner@[j], k) == bit_at(
                b.inner@[j],
                k,
            ) by {
                let i = 8 * j + k as int;
                assert(i / 8 == j && i % 8 == k) by (nonlinear_arith)
                    requires
                        i == 8 * j + k as int,
                        0 <= k < 8,
                ;
                if i < a.length {
                    assert(a@[i] == b@[i]);
                } else {
                    assert(!bit_at(a.inner@[i / 8], (i % 8) as u8));
                    assert(!bit_at(b.inner@[i / 8], (i % 8) as u8));
                }
            }
            lemma_byte_from_bits(a.inner@[j], b.inner@[j]);
        }
        assert(a.inner@ =~= b.inner@);
    }
}

} // verus!
