//! Packed bit buffer primitives: single-bit access, forward scans for the
//! next set bit, fixed-width bit ranges and the most-significant-bit index.

use vstd::prelude::*;

use fixedbitset::FixedBitSet;

verus! {

#[verifier::external_type_specification]
#[verifier::external_body]
pub struct ExFixedBitSet(FixedBitSet);

/// The bits held by a `FixedBitSet`, index by index; its length is the
/// set's length.
pub uninterp spec fn bits_of(b: FixedBitSet) -> Seq<bool>;

/// Bit `j` of `s`, reading every index outside the sequence as clear.
pub open spec fn bit_at(s: Seq<bool>, j: int) -> bool {
    0 <= j < s.len() && s[j]
}

/// The first index at or after `from` whose bit is set, or the length of
/// `s` when there is none.
pub open spec fn next_set(s: Seq<bool>, from: int) -> int
    decreases s.len() - from,
{
    if from >= s.len() {
        s.len() as int
    } else if from >= 0 && s[from] {
        from
    } else {
        next_set(s, from + 1)
    }
}

/// The `width` bits of `s` that start at `start`, read most significant
/// first into an integer.
pub open spec fn read_bits(s: Seq<bool>, start: int, width: nat) -> u64
    decreases width,
{
    if width == 0 {
        0
    } else {
        let rest = read_bits(s, start, (width - 1) as nat);
        if bit_at(s, start + width - 1) {
            (rest << 1u64) | 1u64
        } else {
            (rest << 1u64) | 0u64
        }
    }
}

/// Bit `t` (counted from the most significant end) of the low `width` bits
/// of `v`.
pub open spec fn field_bit(v: u64, width: u64, t: int) -> bool {
    (v >> ((width - 1 - t) as u64)) & 1u64 == 1u64
}

/// The index of the highest set bit of `x`; zero for zero and one.
pub open spec fn msb_spec(x: u64) -> nat
    decreases x,
{
    if x <= 1 {
        0
    } else {
        1 + msb_spec(x / 2)
    }
}

/// Relies on `FixedBitSet::with_capacity`: a set of `len` bits, all clear.
#[verifier::external_body]
pub(crate) fn new_buffer(len: usize) -> (r: FixedBitSet)
    ensures
        bits_of(r) == Seq::new(len as nat, |_j: int| false),
{
    FixedBitSet::with_capacity(len)
}

/// Relies on `FixedBitSet::len`: the number of bits the set holds.
#[verifier::external_body]
pub(crate) fn buffer_len(b: &FixedBitSet) -> (r: usize)
    ensures
        r == bits_of(*b).len(),
{
    b.len()
}

/// Number of bits in `b`.
pub fn bit_count(b: &FixedBitSet) -> (r: usize)
    ensures
        r == bits_of(*b).len(),
{
    buffer_len(b)
}

/// Relies on `FixedBitSet::contains`: whether a bit inside the set is set.
#[verifier::external_body]
pub(crate) fn get_bit(b: &FixedBitSet, j: usize) -> (r: bool)
    requires
        j < bits_of(*b).len(),
    ensures
        r == bits_of(*b)[j as int],
{
    b.contains(j)
}

/// Relies on `FixedBitSet::set`: writes one bit, which must lie inside the
/// set (the call panics otherwise).
#[verifier::external_body]
pub(crate) fn put_bit(b: &mut FixedBitSet, j: usize, enabled: bool)
    requires
        j < bits_of(*old(b)).len(),
    ensures
        bits_of(*final(b)) == bits_of(*old(b)).update(j as int, enabled),
{
    b.set(j, enabled)
}

proof fn lemma_shift_step(x: u64, r: u64)
    by (bit_vector)
    requires
        r < 64,
        (x >> r) > 1,
    ensures
        r < 63,
        (x >> r) / 2 == x >> ((r + 1) as u64),
        (x >> r) >> 1u64 == x >> ((r + 1) as u64),
{
}

/// Index of the highest set bit of `x`.
pub fn most_significant_bit(x: u64) -> (r: u64)
    ensures
        r == msb_spec(x),
        r < 64,
        x > 0 ==> (x >> r) == 1,
{
    let mut y: u64 = x;
    let mut r: u64 = 0;
    assert(x >> 0u64 == x) by (bit_vector);
    while y > 1
        invariant
            r < 64,
            y == x >> r,
            x > 0 ==> y > 0,
            msb_spec(x) == r + msb_spec(y),
        decreases y,
    {
        proof {
            lemma_shift_step(x, r);
        }
        y = y >> 1;
        r = r + 1;
    }
    r
}

/// First set bit of `b` at or after `from`, or the length of `b`.
pub fn next_set_bit(b: &FixedBitSet, from: usize) -> (r: usize)
    ensures
        r == next_set(bits_of(*b), from as int),
{
    let len = buffer_len(b);
    if from >= len {
        return len;
    }
    let mut j: usize = from;
    while j < len && !get_bit(b, j)
        invariant
            from <= j <= len,
            len == bits_of(*b).len(),
            next_set(bits_of(*b), from as int) == next_set(bits_of(*b), j as int),
        decreases len - j,
    {
        j = j + 1;
    }
    j
}

proof fn lemma_append_bit(v: u64, s: u64)
    by (bit_vector)
    requires
        s < 63,
    ensures
        ((v >> s) & 1u64 == 1u64) ==> ((v >> ((s + 1) as u64)) << 1u64) | 1u64 == v >> s,
        !((v >> s) & 1u64 == 1u64) ==> ((v >> ((s + 1) as u64)) << 1u64) | 0u64 == v >> s,
{
}

proof fn lemma_read_prefix(s: Seq<bool>, start: int, v: u64, width: u64, t: u64)
    requires
        t <= width < 64,
        v >> width == 0,
        forall|t: int| 0 <= t < width ==> bit_at(s, start + t) == #[trigger] field_bit(v, width, t),
    ensures
        read_bits(s, start, t as nat) == v >> ((width - t) as u64),
    decreases t,
{
    if t > 0 {
        let p = (t - 1) as u64;
        lemma_read_prefix(s, start, v, width, p);
        assert(bit_at(s, start + p) == field_bit(v, width, p as int));
        lemma_append_bit(v, (width - 1 - p) as u64);
    }
}

/// Reading back `width` bits that hold the low bits of `v`, most significant
/// first, gives `v` itself when `v` fits in `width` bits.
pub proof fn lemma_read_field(s: Seq<bool>, start: int, v: u64, width: u64)
    requires
        width < 64,
        v >> width == 0,
        forall|t: int| 0 <= t < width ==> bit_at(s, start + t) == #[trigger] field_bit(v, width, t),
    ensures
        read_bits(s, start, width as nat) == v,
{
    lemma_read_prefix(s, start, v, width, width);
    assert(v >> 0u64 == v) by (bit_vector);
}

/// Writes the low `width` bits of `value` into the bits just after
/// `offset`, most significant first: bit `offset + 1 + t` receives bit
/// `width - 1 - t` of `value`.
pub fn set_range(b: &mut FixedBitSet, offset: usize, value: u64, width: u64)
    requires
        width < 64,
        offset + width < bits_of(*old(b)).len(),
    ensures
        bits_of(*final(b)).len() == bits_of(*old(b)).len(),
        forall|j: int|
            0 <= j < bits_of(*old(b)).len() ==> #[trigger] bits_of(*final(b))[j] == if offset < j
                <= offset + width {
                field_bit(value, width, j - offset - 1)
            } else {
                bits_of(*old(b))[j]
            },
{
    let ghost start = bits_of(*b);
    let _len = buffer_len(b);
    let mut t: u64 = 0;
    while t < width
        invariant
            t <= width < 64,
            offset + width < start.len() <= usize::MAX,
            bits_of(*b).len() == start.len(),
            forall|j: int|
                0 <= j < start.len() ==> #[trigger] bits_of(*b)[j] == if offset < j <= offset + t {
                    field_bit(value, width, j - offset - 1)
                } else {
                    start[j]
                },
        decreases width - t,
    {
        let bit = (value >> (width - 1 - t)) & 1 == 1;
        put_bit(b, offset + 1 + t as usize, bit);
        t = t + 1;
    }
}

/// Reads the `width` bits just after `offset`, most significant first; bits
/// past the end of the buffer read as clear.
pub fn read_range(b: &FixedBitSet, offset: usize, width: u64) -> (r: u64)
    requires
        width < 64,
        offset + width <= usize::MAX,
    ensures
        r == read_bits(bits_of(*b), offset + 1, width as nat),
{
    let len = buffer_len(b);
    let mut acc: u64 = 0;
    let mut t: u64 = 0;
    while t < width
        invariant
            t <= width < 64,
            offset + width <= usize::MAX,
            len == bits_of(*b).len(),
            acc == read_bits(bits_of(*b), offset + 1, t as nat),
        decreases width - t,
    {
        let j = offset + 1 + t as usize;
        let bit = if j < len {
            get_bit(b, j)
        } else {
            false
        };
        if bit {
            acc = (acc << 1) | 1;
        } else {
            acc = (acc << 1) | 0;
        }
        t = t + 1;
    }
    acc
}

} // verus!
