//! The Elias–Fano structure: layout, one-shot compression and the decoding
//! cursor.
//!
//! Element `i` with value `v` sets the bit `(v >> lower_bits) + i + 1` of the
//! upper region and stores `v & mask` in the `lower_bits` bits just after
//! `lower_bits_offset + i * lower_bits`, most significant first. The buffer
//! holds one bit past `bv_len` so that the last slot fits.

use vstd::prelude::*;

use fixedbitset::FixedBitSet;
use vstd::string::StringExecFns;

use crate::text::{decimal, decimal_digits};
use crate::bits::{
    bit_at, bits_of, field_bit, lemma_read_field, most_significant_bit, msb_spec, new_buffer,
    next_set, next_set_bit, put_bit, read_bits, read_range, set_range,
};

verus! {

/// The ways an operation of [`EliasFano`] can fail.
#[derive(Debug, Clone, Copy, PartialEq, Eq, Structural)]
pub enum Error {
    OutOfBounds,
    Unsorted,
    GreaterThanUniverse,
}

impl Error {
    /// A fixed human-readable description of the error.
    pub fn message(&self) -> (r: &'static str)
        ensures
            *self == Error::OutOfBounds ==> r@ == "Index out of range attempted to be accessed"@,
            *self == Error::Unsorted ==> r@ == "The iterator was not sorted"@,
            *self == Error::GreaterThanUniverse ==> r@
                == "A value greater than the universe was found"@,
    {
        match self {
            Error::OutOfBounds => "Index out of range attempted to be accessed",
            Error::Unsorted => "The iterator was not sorted",
            Error::GreaterThanUniverse => "A value greater than the universe was found",
        }
    }
}

/// Width of the low part of each element for a universe and a count.
pub open spec fn lower_bits_for(universe: u64, n: u64) -> u64 {
    if universe > n && n > 0 {
        msb_spec(universe / n) as u64
    } else {
        0
    }
}

/// Length of the upper region for a universe and a count.
pub open spec fn higher_len_for(universe: u64, n: u64) -> int {
    n + (universe >> lower_bits_for(universe, n)) + 2
}

/// Length of the encoding for a universe and a count: the upper region
/// followed by `n` slots of the low-part width.
pub open spec fn buffer_len_for(universe: u64, n: u64) -> int {
    higher_len_for(universe, n) + n * lower_bits_for(universe, n)
}

/// The layout for `universe` and `n` can be addressed: `n` is positive and
/// every bit index the structure computes fits in a `usize`.
pub open spec fn layout_fits(universe: u64, n: u64) -> bool {
    &&& n > 0
    &&& higher_len_for(universe, n) + (n + 1) * lower_bits_for(universe, n) + 2 <= usize::MAX
}

/// What `compress` reports for `e`, looking at the elements from index `i`
/// on: the first element that is below its predecessor gives `Unsorted`,
/// the first above the universe gives `GreaterThanUniverse`.
pub open spec fn compress_outcome(e: Seq<u64>, universe: u64, i: int) -> Result<(), Error>
    decreases e.len() - i,
{
    if i >= e.len() || i < 0 {
        Ok(())
    } else if i > 0 && e[i] < e[i - 1] {
        Err(Error::Unsorted)
    } else if e[i] > universe {
        Err(Error::GreaterThanUniverse)
    } else {
        compress_outcome(e, universe, i + 1)
    }
}

/// Index of the `i`-th set bit met by the cursor's scan: the first set bit,
/// then each time the first set bit after the previous one.
pub open spec fn select_bit(s: Seq<bool>, i: int) -> int
    decreases i,
{
    if i <= 0 {
        next_set(s, 0)
    } else {
        next_set(s, select_bit(s, i - 1) + 1)
    }
}

/// Upper-region bit of element `k` of `e`.
pub open spec fn marker(e: Seq<u64>, lower_bits: u64, k: int) -> int {
    (e[k] >> lower_bits) + k + 1
}

/// The mask of the low `lower_bits` bits of a value.
pub open spec fn low_mask(lower_bits: u64) -> u64 {
    ((1u64 << lower_bits) - 1) as u64
}

/// The first `higher_len` bits of `s` hold the upper region for `e`: the
/// marker of each element is set, the markers strictly increase, and no
/// other bit of the region is set.
#[verifier::opaque]
pub open spec fn upper_region_encodes(
    s: Seq<bool>,
    e: Seq<u64>,
    lower_bits: u64,
    higher_len: int,
) -> bool {
    &&& forall|i: int|
        0 <= i < e.len() ==> #[trigger] marker(e, lower_bits, i) < higher_len && s[marker(
            e,
            lower_bits,
            i,
        )]
    &&& forall|i: int| 0 < i < e.len() ==> marker(e, lower_bits, i - 1) < #[trigger] marker(e, lower_bits, i)
    &&& forall|j: int|
        0 <= j < higher_len && #[trigger] s[j] ==> exists|i: int|
            0 <= i < e.len() && #[trigger] marker(e, lower_bits, i) == j
}

/// The slot of element `i` of `e`, the `lower_bits` bits just after
/// `offset + i * lower_bits`, holds the element's low bits, most
/// significant first.
#[verifier::opaque]
pub open spec fn lower_region_encodes(s: Seq<bool>, e: Seq<u64>, lower_bits: u64, offset: int) -> bool {
    forall|i: int, t: int|
        0 <= i < e.len() && 0 <= t < lower_bits ==> bit_at(s, offset + i * lower_bits + 1 + t)
            == #[trigger] field_bit(e[i] & low_mask(lower_bits), lower_bits, t)
}

/// The diagnostic text of the layout for `universe` and `n`: each field on
/// its own indented line, in decimal, the mask after a literal `0b`.
pub open spec fn layout_text(universe: u64, n: u64) -> Seq<char> {
    let lb = lower_bits_for(universe, n);
    let hbl = higher_len_for(universe, n) as u64;
    "\n    Universe: "@ + decimal_digits(universe) + "\n    Elements: "@ + decimal_digits(n)
        + "\n    Lower_bits: "@ + decimal_digits(lb) + "\n    Higher_bits_length: "@
        + decimal_digits(hbl) + "\n    Mask: 0b"@ + decimal_digits(low_mask(lb))
        + "\n    Lower_bits_offset: "@ + decimal_digits(hbl) + "\n    Bitvector length: "@
        + decimal_digits(buffer_len_for(universe, n) as u64) + "\n"@
}

/// Marker of the element before `k`, or -1 before the first one.
spec fn prev_marker(e: Seq<u64>, lower_bits: u64, k: int) -> int {
    if k == 0 {
        -1
    } else {
        marker(e, lower_bits, k - 1)
    }
}

/// A non-decreasing sequence of `n` values, each at most `universe`, packed
/// into an upper region of unary-coded high parts and a lower region of
/// fixed-width low parts, with a cursor that decodes one element at a time.
pub struct EliasFano {
    /// The maximum value of the sequence
    universe: u64,
    /// The number of elements in the sequence
    n: u64,
    lower_bits: u64,
    higher_bits_length: u64,
    mask: u64,
    lower_bits_offset: u64,
    bv_len: u64,
    b: FixedBitSet,
    cur_value: u64,
    position: u64,
    high_bits_pos: u64,
    elems: Ghost<Seq<u64>>,
}

impl View for EliasFano {
    type V = Seq<u64>;

    /// The compressed elements, in order.
    closed spec fn view(&self) -> Seq<u64> {
        self.elems@
    }
}

proof fn lemma_low_fits(v: u64, lb: u64)
    by (bit_vector)
    requires
        lb < 64,
    ensures
        (v & (((1u64 << lb) - 1) as u64)) >> lb == 0,
        ((v >> lb) << lb) | (v & (((1u64 << lb) - 1) as u64)) == v,
{
}

proof fn lemma_shift_monotone(a: u64, b: u64, lb: u64)
    by (bit_vector)
    requires
        a <= b,
    ensures
        a >> lb <= b >> lb,
{
}

proof fn lemma_next_set_bounds(s: Seq<bool>, from: int)
    requires
        0 <= from,
    ensures
        from <= s.len() ==> from <= next_set(s, from) <= s.len(),
        from > s.len() ==> next_set(s, from) == s.len(),
        next_set(s, from) < s.len() ==> s[next_set(s, from)],
    decreases s.len() - from,
{
    if from < s.len() && !s[from] {
        lemma_next_set_bounds(s, from + 1);
    }
}

proof fn lemma_next_set_at(s: Seq<bool>, from: int, m: int)
    requires
        0 <= from <= m < s.len(),
        s[m],
        forall|j: int| from <= j < m ==> !#[trigger] s[j],
    ensures
        next_set(s, from) == m,
    decreases m - from,
{
    if from < m {
        lemma_next_set_at(s, from + 1, m);
    }
}

/// No bit of `s` strictly between `lo` and `hi` is set.
#[verifier::opaque]
spec fn clear_between(s: Seq<bool>, lo: int, hi: int) -> bool {
    forall|j: int| lo < j < hi && 0 <= j ==> !#[trigger] s[j]
}

proof fn lemma_select_markers(s: Seq<bool>, e: Seq<u64>, lb: u64, k: int)
    requires
        0 <= k < e.len(),
        forall|q: int| 0 <= q < e.len() ==> marker(e, lb, q) < s.len(),
        forall|q: int| 0 <= q < e.len() ==> s[#[trigger] marker(e, lb, q)],
        forall|q: int|
            0 <= q < e.len() ==> clear_between(s, prev_marker(e, lb, q), #[trigger] marker(e, lb, q)),
        forall|q: int| 0 < q < e.len() ==> marker(e, lb, q - 1) < #[trigger] marker(e, lb, q),
    ensures
        select_bit(s, k as int) == marker(e, lb, k),
    decreases k,
{
    let m = marker(e, lb, k);
    assert(clear_between(s, prev_marker(e, lb, k), m));
    reveal(clear_between);
    if k == 0 {
        lemma_next_set_at(s, 0, m);
    } else {
        lemma_select_markers(s, e, lb, k - 1);
        lemma_next_set_at(s, marker(e, lb, k - 1) + 1, m);
    }
}

proof fn lemma_only_markers(s: Seq<bool>, e: Seq<u64>, lb: u64, hbl: int, j: int, k: int)
    requires
        0 <= k <= e.len(),
        0 <= j < hbl,
        prev_marker(e, lb, k) < j,
        s[j],
        forall|q: int|
            0 <= q < e.len() ==> clear_between(s, prev_marker(e, lb, q), #[trigger] marker(e, lb, q)),
        forall|j2: int| prev_marker(e, lb, e.len() as int) < j2 < hbl && 0 <= j2 ==> !#[trigger] s[j2],
    ensures
        exists|i: int| 0 <= i < e.len() && #[trigger] marker(e, lb, i) == j,
    decreases e.len() - k,
{
    if k < e.len() {
        let m = marker(e, lb, k);
        if j < m {
            assert(clear_between(s, prev_marker(e, lb, k), m));
            reveal(clear_between);
            assert(!s[j]);
        } else if j == m {
        } else {
            lemma_only_markers(s, e, lb, hbl, j, k + 1);
        }
    }
}

/// Where the parts of the encoding sit in the buffer.
struct Layout {
    n: u64,
    lower_bits: u64,
    higher_len: u64,
    mask: u64,
    bv_len: u64,
}

/// Base offset of the low-region slot of element `i`; its bits follow it.
spec fn slot_of(l: Layout, i: int) -> int {
    l.higher_len + i * l.lower_bits
}

/// The layout's fields are consistent with one another.
spec fn layout_ok(l: Layout) -> bool {
    &&& l.lower_bits < 64
    &&& l.mask == ((1u64 << l.lower_bits) - 1) as u64
    &&& l.bv_len == l.higher_len + l.n * l.lower_bits
}

/// The low part of element `k` of `e` sits in its slot of `s`.
spec fn low_stored(l: Layout, s: Seq<bool>, e: Seq<u64>, k: int) -> bool {
    forall|t: int|
        0 <= t < l.lower_bits ==> bit_at(s, slot_of(l, k) + 1 + t) == #[trigger] field_bit(
            e[k] & l.mask,
            l.lower_bits,
            t,
        )
}

/// The upper-region bits of the first `i` elements of `e` are set in `s`,
/// and no other bit of the upper region is.
#[verifier::opaque]
spec fn high_encoded(l: Layout, s: Seq<bool>, e: Seq<u64>, i: int) -> bool {
    let lb = l.lower_bits;
    &&& forall|k: int| 0 <= k < i ==> #[trigger] marker(e, lb, k) < l.higher_len
    &&& forall|k: int| 0 <= k < i ==> s[#[trigger] marker(e, lb, k)]
    &&& forall|k: int|
        0 <= k < i ==> clear_between(s, prev_marker(e, lb, k), #[trigger] marker(e, lb, k))
    &&& forall|k: int| 0 < k < i ==> marker(e, lb, k - 1) < #[trigger] marker(e, lb, k)
    &&& forall|j: int| prev_marker(e, lb, i) < j < l.higher_len && 0 <= j ==> !#[trigger] s[j]
}

/// The low parts of the first `i` elements of `e` sit in their slots of
/// `s`, and every bit after those slots is clear.
#[verifier::opaque]
spec fn low_encoded(l: Layout, s: Seq<bool>, e: Seq<u64>, i: int) -> bool {
    &&& forall|k: int| 0 <= k < i ==> #[trigger] low_stored(l, s, e, k)
    &&& forall|j: int| slot_of(l, i) < j < s.len() ==> !#[trigger] s[j]
}

/// The first `i` elements of `e` are encoded in `s` and the rest of the
/// buffer past them is clear.
spec fn encoded_prefix(l: Layout, s: Seq<bool>, e: Seq<u64>, i: int) -> bool {
    &&& s.len() == l.bv_len + 1
    &&& high_encoded(l, s, e, i)
    &&& low_encoded(l, s, e, i)
}

/// Relation between the buffer before and after element `i` is written.
spec fn written(l: Layout, s0: Seq<bool>, s2: Seq<bool>, i: int, high: int, low: u64) -> bool {
    &&& s2.len() == s0.len()
    &&& forall|j: int|
        0 <= j < s0.len() ==> #[trigger] s2[j] == if slot_of(l, i) < j <= slot_of(l, i)
            + l.lower_bits {
            field_bit(low, l.lower_bits, j - slot_of(l, i) - 1)
        } else {
            s0.update(high, true)[j]
        }
}

proof fn lemma_written_high(l: Layout, s0: Seq<bool>, s2: Seq<bool>, i: int, high: int, low: u64)
    requires
        0 <= i,
        0 <= high < l.higher_len,
        l.lower_bits < 64,
        written(l, s0, s2, i, high, low),
        l.higher_len < s0.len(),
    ensures
        forall|j: int| 0 <= j < l.higher_len ==> #[trigger] s2[j] == (j == high || s0[j]),
{
    assert(0 <= i * l.lower_bits) by (nonlinear_arith)
        requires
            0 <= i,
    ;
    assert forall|j: int| 0 <= j < l.higher_len implies #[trigger] s2[j] == (j == high || s0[j]) by {
        assert(s2[j] == s0.update(high, true)[j]);
    }
}

proof fn lemma_clear_kept(s0: Seq<bool>, s2: Seq<bool>, lo: int, hi: int, high: int, hbl: int)
    requires
        clear_between(s0, lo, hi),
        hi <= high,
        hi <= hbl,
        forall|j: int| 0 <= j < hbl ==> #[trigger] s2[j] == (j == high || s0[j]),
    ensures
        clear_between(s2, lo, hi),
{
    reveal(clear_between);
    assert forall|j: int| lo < j < hi && 0 <= j implies !#[trigger] s2[j] by {
        assert(!s0[j]);
    }
}

proof fn lemma_clear_new(s0: Seq<bool>, s2: Seq<bool>, lo: int, high: int, hbl: int)
    requires
        high <= hbl,
        forall|j: int| lo < j < hbl && 0 <= j ==> !#[trigger] s0[j],
        forall|j: int| 0 <= j < hbl ==> #[trigger] s2[j] == (j == high || s0[j]),
    ensures
        clear_between(s2, lo, high),
{
    reveal(clear_between);
    assert forall|j: int| lo < j < high && 0 <= j implies !#[trigger] s2[j] by {
        assert(!s0[j]);
    }
}

proof fn lemma_step_high(l: Layout, s0: Seq<bool>, s2: Seq<bool>, e: Seq<u64>, i: int, high: int, low: u64)
    requires
        layout_ok(l),
        0 <= i < e.len() == l.n,
        s0.len() == l.bv_len + 1,
        high_encoded(l, s0, e, i),
        high == marker(e, l.lower_bits, i),
        prev_marker(e, l.lower_bits, i) < high < l.higher_len,
        forall|j: int| 0 <= j < l.higher_len ==> #[trigger] s2[j] == (j == high || s0[j]),
    ensures
        high_encoded(l, s2, e, i + 1),
{
    reveal(high_encoded);
    let lb = l.lower_bits;
    let hbl = l.higher_len as int;
    assert forall|k: int| 0 <= k < i implies marker(e, lb, k) < high by {
        assert(s0[marker(e, lb, k)]);
    }
    assert forall|k: int|
        0 <= k <= i implies clear_between(s2, prev_marker(e, lb, k), #[trigger] marker(e, lb, k)) by {
        if k < i {
            assert(clear_between(s0, prev_marker(e, lb, k), marker(e, lb, k)));
            lemma_clear_kept(s0, s2, prev_marker(e, lb, k), marker(e, lb, k), high, hbl);
        } else {
            lemma_clear_new(s0, s2, prev_marker(e, lb, i), high, hbl);
        }
    }
    assert forall|k: int| 0 <= k <= i implies s2[#[trigger] marker(e, lb, k)] by {
        if k < i {
            assert(s0[marker(e, lb, k)]);
        }
    }
    assert forall|j: int| prev_marker(e, lb, i + 1) < j < hbl && 0 <= j implies !#[trigger] s2[j] by {
        assert(!s0[j]);
    }
}

#[verifier::rlimit(100)]
proof fn lemma_step_low(l: Layout, s0: Seq<bool>, s2: Seq<bool>, e: Seq<u64>, i: int, high: int, low: u64)
    requires
        layout_ok(l),
        0 <= i < e.len() == l.n,
        s0.len() == l.bv_len + 1,
        low_encoded(l, s0, e, i),
        0 <= high < l.higher_len,
        low == e[i] & l.mask,
        written(l, s0, s2, i, high, low),
    ensures
        low_encoded(l, s2, e, i + 1),
{
    reveal(low_encoded);
    let lb = l.lower_bits;
    assert(0 <= i * lb) by (nonlinear_arith)
        requires
            0 <= i,
    ;
    assert(i * lb + lb <= l.n * lb) by (nonlinear_arith)
        requires
            i < l.n,
    ;
    assert forall|k: int| 0 <= k < i implies #[trigger] slot_of(l, k) + lb <= slot_of(l, i) by {
        assert(k * lb + lb <= i * lb) by (nonlinear_arith)
            requires
                k < i,
        ;
    }
    assert forall|k: int| 0 <= k <= i implies #[trigger] low_stored(l, s2, e, k) by {
        assert forall|t: int| 0 <= t < lb implies bit_at(s2, slot_of(l, k) + 1 + t)
            == #[trigger] field_bit(e[k] & l.mask, lb, t) by {
            if k < i {
                assert(low_stored(l, s0, e, k));
                assert(bit_at(s0, slot_of(l, k) + 1 + t) == field_bit(e[k] & l.mask, lb, t));
            }
        }
    }
    assert((i + 1) * lb == i * lb + lb) by (nonlinear_arith);
    assert forall|j: int| slot_of(l, i + 1) < j < s2.len() implies !#[trigger] s2[j] by {
        assert(!s0[j]);
    }
}

impl EliasFano {
    /// Upper bound of the values.
    pub closed spec fn universe_spec(&self) -> u64 {
        self.universe
    }

    /// Declared element count.
    pub closed spec fn size_spec(&self) -> u64 {
        self.n
    }

    /// Width of the low part of each element.
    pub closed spec fn lower_bits_spec(&self) -> u64 {
        self.lower_bits
    }

    /// Index of the element under the cursor.
    pub closed spec fn position_spec(&self) -> u64 {
        self.position
    }

    /// Value under the cursor.
    pub closed spec fn value_spec(&self) -> u64 {
        self.cur_value
    }

    /// The bit buffer's contents.
    pub closed spec fn bits_spec(&self) -> Seq<bool> {
        bits_of(self.b)
    }

    /// Positions of the encoding's parts.
    spec fn layout(&self) -> Layout {
        Layout {
            n: self.n,
            lower_bits: self.lower_bits,
            higher_len: self.higher_bits_length,
            mask: self.mask,
            bv_len: self.bv_len,
        }
    }

    /// Value decoded from upper-region bit `h` and the slot of element `i`.
    spec fn decode(&self, h: int, i: int) -> u64 {
        (((h - i - 1) as u64) << self.lower_bits) | read_bits(
            bits_of(self.b),
            slot_of(self.layout(), i) + 1,
            self.lower_bits as nat,
        )
    }

    /// The value the cursor decodes at position `i` from the buffer alone.
    pub closed spec fn decoded_at(&self, i: int) -> u64 {
        self.decode(select_bit(bits_of(self.b), i), i)
    }

    /// The layout fields agree with `universe` and `n`, and the buffer has
    /// the layout's length.
    pub closed spec fn layout_wf(&self) -> bool {
        &&& layout_fits(self.universe, self.n)
        &&& self.lower_bits == lower_bits_for(self.universe, self.n)
        &&& self.lower_bits < 64
        &&& self.mask == ((1u64 << self.lower_bits) - 1) as u64
        &&& self.higher_bits_length == higher_len_for(self.universe, self.n)
        &&& self.lower_bits_offset == self.higher_bits_length
        &&& self.bv_len == self.lower_bits_offset + self.n * self.lower_bits
        &&& bits_of(self.b).len() == self.bv_len + 1
    }

    /// Freshly built: the layout is in place, every bit is clear and nothing
    /// has been compressed.
    pub closed spec fn is_fresh(&self) -> bool {
        &&& self.layout_wf()
        &&& forall|j: int| 0 <= j < bits_of(self.b).len() ==> !#[trigger] bits_of(self.b)[j]
        &&& self.elems@.len() == 0
        &&& self.position == 0
        &&& self.cur_value == 0
        &&& self.high_bits_pos == 0
    }

    /// Holds a compressed sequence of `n` elements, which the buffer encodes,
    /// with the cursor on a position in `[0, n]`.
    #[verifier::opaque]
    pub closed spec fn is_loaded(&self) -> bool {
        let e = self.elems@;
        let s = bits_of(self.b);
        &&& self.layout_wf()
        &&& e.len() == self.n
        &&& forall|k: int| 0 < k < e.len() ==> e[k - 1] <= #[trigger] e[k]
        &&& forall|k: int| 0 <= k < e.len() ==> #[trigger] e[k] <= self.universe
        &&& forall|k: int|
            0 <= k < e.len() ==> #[trigger] select_bit(s, k as int) == marker(
                e,
                self.lower_bits,
                k,
            ) && marker(e, self.lower_bits, k) < self.higher_bits_length
        &&& forall|k: int| 0 <= k < e.len() ==> #[trigger] self.decoded_at(k as int) == e[k]
        &&& self.position <= self.n
        &&& self.high_bits_pos == select_bit(s, self.position as int)
        &&& self.cur_value == self.decoded_at(self.position as int)
    }

    /// The compressed data of `self` and `other` are the same; only their
    /// cursors may differ.
    pub closed spec fn same_data(&self, other: &EliasFano) -> bool {
        &&& self.universe == other.universe
        &&& self.n == other.n
        &&& self.lower_bits == other.lower_bits
        &&& self.higher_bits_length == other.higher_bits_length
        &&& self.mask == other.mask
        &&& self.lower_bits_offset == other.lower_bits_offset
        &&& self.bv_len == other.bv_len
        &&& self.b == other.b
        &&& self.elems == other.elems
    }

    /// Builds an empty structure for `n` values no greater than `universe`,
    /// with a zero-filled buffer.
    pub fn new(universe: u64, n: u64) -> (r: EliasFano)
        requires
            layout_fits(universe, n),
        ensures
            r.is_fresh(),
            r.universe_spec() == universe,
            r.size_spec() == n,
            r.lower_bits_spec() == lower_bits_for(universe, n),
            r.layout_wf(),
            r.bits_spec().len() == buffer_len_for(universe, n) + 1,
            forall|j: int| 0 <= j < r.bits_spec().len() ==> !#[trigger] r.bits_spec()[j],
            r.position_spec() == 0,
            r.value_spec() == 0,
    {
        let lower_bits = if universe > n {
            most_significant_bit(universe / n)
        } else {
            0
        };
        proof {
            assert((n + 1) * lower_bits == n * lower_bits + lower_bits) by (nonlinear_arith);
            assert(1u64 << lower_bits >= 1) by (bit_vector)
                requires
                    lower_bits < 64,
            ;
        }
        let higher_bits_length = n + (universe >> lower_bits) + 2;
        let mask = (1u64 << lower_bits) - 1;
        let lower_bits_offset = higher_bits_length;
        let bv_len = lower_bits_offset + n * lower_bits;
        let b = new_buffer((bv_len + 1) as usize);
        EliasFano {
            universe,
            n,
            lower_bits,
            higher_bits_length,
            mask,
            lower_bits_offset,
            bv_len,
            b,
            cur_value: 0,
            position: 0,
            high_bits_pos: 0,
            elems: Ghost(Seq::empty()),
        }
    }

    proof fn lemma_encoded_loaded(&self, e: Seq<u64>)
        requires
            self.layout_wf(),
            e.len() == self.n,
            encoded_prefix(self.layout(), bits_of(self.b), e, e.len() as int),
        ensures
            forall|k: int|
                0 <= k < e.len() ==> #[trigger] select_bit(bits_of(self.b), k as int) == marker(
                    e,
                    self.lower_bits,
                    k,
                ) && marker(e, self.lower_bits, k) < self.higher_bits_length,
            forall|k: int| 0 <= k < e.len() ==> #[trigger] self.decoded_at(k as int) == e[k],
    {
        reveal(high_encoded);
        reveal(low_encoded);
        let s = bits_of(self.b);
        let lb = self.lower_bits;
        assert(0 <= self.n * lb) by (nonlinear_arith);
        let l = self.layout();
        assert(l.lower_bits == lb && l.higher_len == self.higher_bits_length);
        assert(encoded_prefix(l, s, e, e.len() as int));
        assert forall|q: int| 0 <= q < e.len() implies marker(e, lb, q) < s.len() by {
            assert(marker(e, lb, q) < self.higher_bits_length);
        }
        assert forall|k: int| 0 <= k < e.len() implies #[trigger] select_bit(s, k as int) == marker(
            e,
            lb,
            k,
        ) by {
            lemma_select_markers(s, e, lb, k);
        }
        assert forall|k: int| 0 <= k < e.len() implies #[trigger] self.decoded_at(k as int) == e[k] by {
            lemma_select_markers(s, e, lb, k);
            assert(low_stored(self.layout(), s, e, k));
            assert forall|t: int| 0 <= t < lb implies bit_at(s, slot_of(self.layout(), k) + 1 + t)
                == #[trigger] field_bit(e[k] & self.mask, lb, t) by {
                assert(field_bit(e[k] & self.layout().mask, lb, t) == field_bit(e[k] & self.mask, lb, t));
            }
            lemma_low_fits(e[k], lb);
            lemma_read_field(s, slot_of(self.layout(), k) + 1, e[k] & self.mask, lb);
        }
    }

    proof fn lemma_encoding_public(&self, e: Seq<u64>)
        requires
            self.layout_wf(),
            e.len() == self.n,
            encoded_prefix(self.layout(), bits_of(self.b), e, e.len() as int),
        ensures
            upper_region_encodes(bits_of(self.b), e, self.lower_bits, self.higher_bits_length as int),
            lower_region_encodes(bits_of(self.b), e, self.lower_bits, self.higher_bits_length as int),
    {
        reveal(high_encoded);
        reveal(low_encoded);
        reveal(upper_region_encodes);
        reveal(lower_region_encodes);
        let s = bits_of(self.b);
        let lb = self.lower_bits;
        let hbl = self.higher_bits_length as int;
        let l = self.layout();
        assert(l.lower_bits == lb && l.higher_len == hbl && l.mask == low_mask(lb));
        assert forall|j: int| 0 <= j < hbl && #[trigger] s[j] implies exists|i: int|
            0 <= i < e.len() && #[trigger] marker(e, lb, i) == j by {
            lemma_only_markers(s, e, lb, hbl, j, 0);
        }
        assert forall|i: int, t: int| 0 <= i < e.len() && 0 <= t < lb implies bit_at(
            s,
            hbl + i * lb + 1 + t,
        ) == #[trigger] field_bit(e[i] & low_mask(lb), lb, t) by {
            assert(low_stored(l, s, e, i));
            assert(bit_at(s, slot_of(l, i) + 1 + t) == field_bit(e[i] & l.mask, lb, t));
        }
    }

    /// Encodes `elems` into the buffer and places the cursor on the first
    /// element. Fails with `Unsorted` at the first element below its
    /// predecessor and with `GreaterThanUniverse` at the first one above the
    /// universe, whichever comes first; the structure is then unusable.
    #[verifier::rlimit(100)]
    pub fn compress(&mut self, elems: &[u64]) -> (r: Result<(), Error>)
        requires
            old(self).is_fresh(),
            elems@.len() == old(self).size_spec(),
        ensures
            final(self).universe_spec() == old(self).universe_spec(),
            final(self).size_spec() == old(self).size_spec(),
            final(self).lower_bits_spec() == old(self).lower_bits_spec(),
            final(self).bits_spec().len() == old(self).bits_spec().len(),
            final(self).layout_wf(),
            r == compress_outcome(elems@, old(self).universe_spec(), 0),
            r is Ok ==> {
                &&& final(self).is_loaded()
                &&& upper_region_encodes(
                    final(self).bits_spec(),
                    elems@,
                    final(self).lower_bits_spec(),
                    higher_len_for(final(self).universe_spec(), final(self).size_spec()),
                )
                &&& lower_region_encodes(
                    final(self).bits_spec(),
                    elems@,
                    final(self).lower_bits_spec(),
                    higher_len_for(final(self).universe_spec(), final(self).size_spec()),
                )
                &&& !final(self).bits_spec()[higher_len_for(
                    final(self).universe_spec(),
                    final(self).size_spec(),
                )]
                &&& final(self)@ == elems@
                &&& final(self).position_spec() == 0
                &&& final(self).value_spec() == elems@[0]
            },
    {
        let ghost e = elems@;
        let ghost lb = self.lower_bits;
        let len = elems.len();
        let mut last: u64 = 0;
        let mut i: usize = 0;
        assert(self.elems@ =~= e.subrange(0, 0));
        proof {
            reveal(high_encoded);
            reveal(low_encoded);
            assert(0 <= self.n * lb) by (nonlinear_arith);
        }
        while i < len
            invariant
                self.layout_wf(),
                self.universe == old(self).universe,
                self.n == old(self).n,
                self.lower_bits == old(self).lower_bits,
                bits_of(self.b).len() == bits_of(old(self).b).len(),
                !bits_of(self.b)[self.higher_bits_length as int],
                lb == self.lower_bits,
                e == elems@,
                len == e.len() == self.n,
                i <= len,
                self.elems@ == e.subrange(0, i as int),
                self.position == 0,
                i > 0 ==> self.cur_value == e[0] && self.high_bits_pos == marker(e, lb, 0),
                i > 0 ==> last == e[i - 1],
                forall|k: int| 0 < k < i ==> e[k - 1] <= #[trigger] e[k],
                forall|k: int| 0 <= k < i ==> #[trigger] e[k] <= self.universe,
                compress_outcome(e, self.universe, 0) == compress_outcome(
                    e,
                    self.universe,
                    i as int,
                ),
                encoded_prefix(self.layout(), bits_of(self.b), e, i as int),
            decreases len - i,
        {
            let elem = elems[i];
            if i > 0 && elem < last {
                return Err(Error::Unsorted);
            }
            if elem > self.universe {
                return Err(Error::GreaterThanUniverse);
            }
            proof {
                lemma_shift_monotone(elem, self.universe, lb);
                if i > 0 {
                    lemma_shift_monotone(last, elem, lb);
                }
                assert(i * lb + lb <= self.n * lb) by (nonlinear_arith)
                    requires
                        i < self.n,
                ;
                assert(0 <= i * lb) by (nonlinear_arith);
                assert((self.n + 1) * lb == self.n * lb + lb) by (nonlinear_arith);
            }
            let ghost s0 = bits_of(self.b);
            let high = (elem >> self.lower_bits) + i as u64 + 1;
            let low = elem & self.mask;
            put_bit(&mut self.b, high as usize, true);
            let offset = self.lower_bits_offset + (i as u64 * self.lower_bits);
            assert(offset + lb < bits_of(self.b).len() <= usize::MAX);
            set_range(&mut self.b, offset as usize, low, self.lower_bits);
            proof {
                let s2 = bits_of(self.b);
                lemma_written_high(self.layout(), s0, s2, i as int, high as int, low);
                lemma_step_high(self.layout(), s0, s2, e, i as int, high as int, low);
                lemma_step_low(self.layout(), s0, s2, e, i as int, high as int, low);
            }
            last = elem;
            if i == 0 {
                self.cur_value = elem;
                self.high_bits_pos = high;
            }
            self.elems = Ghost(self.elems@.push(elem));
            assert(self.elems@ =~= e.subrange(0, i + 1));
            i = i + 1;
        }
        proof {
            self.lemma_encoded_loaded(e);
            self.lemma_encoding_public(e);
            assert(self.elems@ =~= e);
            let z: int = 0;
            assert(self.decoded_at(z as int) == e[z]);
            assert(select_bit(bits_of(self.b), z as int) == marker(e, lb, z));
            reveal(EliasFano::is_loaded);
            assert(self.is_loaded());
        }
        Ok(())
    }

    /// The value the scan decodes at position `n`, one past the last
    /// element.
    pub closed spec fn past_end_value(&self) -> u64 {
        self.decoded_at(self.n as int)
    }

    /// What the cursor yields at position `p`: element `p` for `p < n`, and
    /// at `p == n` the value the scan decodes past the last element.
    pub open spec fn element_at(&self, p: int) -> u64 {
        if p < self.size_spec() {
            self@[p]
        } else {
            self.past_end_value()
        }
    }

    /// What `visit(p)` returns: `OutOfBounds` past `n`, else the element at
    /// `p`.
    pub open spec fn visit_result(&self, p: int) -> Result<u64, Error> {
        if p > self.size_spec() {
            Err(Error::OutOfBounds)
        } else {
            Ok(self.element_at(p))
        }
    }

    /// What `next()` returns from position `pos`: the following element, or
    /// `OutOfBounds` once it would reach `n`.
    pub open spec fn next_result(&self, pos: int) -> Result<u64, Error> {
        if pos + 1 < self.size_spec() {
            Ok(self.element_at(pos + 1))
        } else {
            Err(Error::OutOfBounds)
        }
    }

    proof fn lemma_select_bounds(&self, p: int)
        requires
            self.is_loaded(),
            0 <= p <= self.n,
        ensures
            p + 1 <= select_bit(bits_of(self.b), p as int) <= bits_of(self.b).len(),
            p < self.n ==> select_bit(bits_of(self.b), p as int) < self.higher_bits_length,
    {
        reveal(EliasFano::is_loaded);
        let s = bits_of(self.b);
        assert(0 <= self.n * self.lower_bits) by (nonlinear_arith);
        if p < self.n {
            assert(select_bit(s, p as int) == marker(self.elems@, self.lower_bits, p));
        } else {
            let q: int = p - 1;
            assert(select_bit(s, q as int) == marker(self.elems@, self.lower_bits, q));
            lemma_next_set_bounds(s, select_bit(s, q as int) + 1);
        }
    }

    /// What a loaded structure guarantees of its cursor and layout.
    proof fn lemma_loaded(&self)
        requires
            self.is_loaded(),
        ensures
            self.layout_wf(),
            self.elems@.len() == self.n > 0,
            self.position <= self.n,
            self.high_bits_pos == select_bit(bits_of(self.b), self.position as int),
            self.cur_value == self.element_at(self.position as int),
            self.cur_value == self.decoded_at(self.position as int),
            forall|k: int| 0 <= k < self.n ==> #[trigger] self.decoded_at(k) == self.elems@[k],
    {
        reveal(EliasFano::is_loaded);
    }

    /// A structure with the same data as a loaded one, whose cursor sits on a
    /// position in `[0, n]` as the scan would leave it, is loaded.
    proof fn lemma_cursor_moved(&self, other: &EliasFano)
        requires
            other.is_loaded(),
            self.same_data(other),
            self.position <= self.n,
            self.high_bits_pos == select_bit(bits_of(self.b), self.position as int),
            self.cur_value == self.decoded_at(self.position as int),
        ensures
            self.is_loaded(),
            self@ == other@,
            self.cur_value == self.element_at(self.position as int),
    {
        reveal(EliasFano::is_loaded);
        self.lemma_same_elements(other);
    }

    /// Two structures with the same data yield the same elements.
    proof fn lemma_same_elements(&self, other: &EliasFano)
        requires
            self.same_data(other),
        ensures
            self@ == other@,
            forall|k: int| #[trigger] self.decoded_at(k) == other.decoded_at(k),
            forall|p: int| #[trigger] self.element_at(p) == other.element_at(p),
    {
        assert(self.layout() == other.layout());
        assert forall|k: int| #[trigger] self.decoded_at(k) == other.decoded_at(k) by {
            assert(self.layout() == other.layout());
        }
    }

    /// Value decoded from upper-region bit `h` and the slot of element `pos`.
    fn decode_at(&self, h: u64, pos: u64) -> (r: u64)
        requires
            self.layout_wf(),
            pos <= self.n,
            h >= pos + 1,
        ensures
            r == self.decode(h as int, pos as int),
    {
        let lb = self.lower_bits;
        proof {
            assert(pos * lb + lb <= (self.n + 1) * lb) by (nonlinear_arith)
                requires
                    pos <= self.n,
            ;
            assert(0 <= pos * lb) by (nonlinear_arith);
        }
        let offset = self.lower_bits_offset + pos * lb;
        let low = read_range(&self.b, offset as usize, lb);
        ((h - pos - 1) << lb) | low
    }

    /// Moves the cursor back to the first element.
    pub fn reset(&mut self)
        requires
            old(self).is_loaded(),
        ensures
            final(self).is_loaded(),
            final(self).same_data(old(self)),
            final(self)@ == old(self)@,
            final(self).size_spec() == old(self).size_spec(),
            final(self).universe_spec() == old(self).universe_spec(),
            final(self).lower_bits_spec() == old(self).lower_bits_spec(),
            final(self).bits_spec() == old(self).bits_spec(),
            final(self).layout_wf(),
            forall|p: int| #[trigger] final(self).element_at(p) == old(self).element_at(p),
            final(self).position_spec() == 0,
            final(self).value_spec() == old(self)@[0],
    {
        let ghost pre = *self;
        proof {
            self.lemma_loaded();
            self.lemma_select_bounds(0);
        }
        let h = next_set_bit(&self.b, 0) as u64;
        self.high_bits_pos = h;
        self.position = 0;
        self.cur_value = self.decode_at(h, 0);
        proof {
            self.lemma_same_elements(&pre);
            self.lemma_cursor_moved(&pre);
        }
    }

    /// Moves the cursor to `position` and returns the value there. Fails
    /// with `OutOfBounds`, leaving the cursor where it was, when `position`
    /// is past `n`; `position == n` is accepted.
    pub fn visit(&mut self, position: u64) -> (r: Result<u64, Error>)
        requires
            old(self).is_loaded(),
        ensures
            final(self).is_loaded(),
            final(self).same_data(old(self)),
            final(self)@ == old(self)@,
            final(self).size_spec() == old(self).size_spec(),
            final(self).universe_spec() == old(self).universe_spec(),
            final(self).lower_bits_spec() == old(self).lower_bits_spec(),
            final(self).bits_spec() == old(self).bits_spec(),
            final(self).layout_wf(),
            forall|p: int| #[trigger] final(self).element_at(p) == old(self).element_at(p),
            r == old(self).visit_result(position as int),
            position < old(self).size_spec() ==> r == Ok::<u64, Error>(old(self)@[position as int]),
            r is Ok ==> final(self).position_spec() == position && r == Ok::<u64, Error>(
                final(self).value_spec(),
            ),
            r is Err ==> *final(self) == *old(self),
            position == old(self).position_spec() ==> *final(self) == *old(self),
    {
        proof {
            self.lemma_loaded();
        }
        if position > self.n {
            return Err(Error::OutOfBounds);
        }
        if position == self.position {
            return Ok(self.cur_value);
        }
        let ghost pre = *self;
        if position < self.position {
            self.reset();
        }
        proof {
            self.lemma_loaded();
        }
        let mut h: u64 = self.high_bits_pos;
        let mut p: u64 = self.position;
        while p < position
            invariant
                self.is_loaded(),
                self.same_data(&pre),
                pre.is_loaded(),
                p <= position <= self.n,
                h == select_bit(bits_of(self.b), p as int),
            decreases position - p,
        {
            proof {
                self.lemma_loaded();
                self.lemma_select_bounds(p as int);
                self.lemma_select_bounds(p + 1);
                assert(select_bit(bits_of(self.b), p + 1) == next_set(bits_of(self.b), h + 1));
            }
            h = next_set_bit(&self.b, (h + 1) as usize) as u64;
            p = p + 1;
        }
        proof {
            self.lemma_select_bounds(position as int);
        }
        let ghost mid = *self;
        self.high_bits_pos = h;
        self.position = position;
        self.cur_value = self.decode_at(h, position);
        proof {
            assert(self.decoded_at(position as int) == self.cur_value);
            self.lemma_same_elements(&mid);
            self.lemma_cursor_moved(&mid);
            self.lemma_same_elements(&pre);
        }
        Ok(self.cur_value)
    }

    /// Advances the cursor by one element and returns its value. Fails with
    /// `OutOfBounds`, leaving the cursor where it was, once the next
    /// position would reach `n`.
    pub fn next(&mut self) -> (r: Result<u64, Error>)
        requires
            old(self).is_loaded(),
        ensures
            final(self).is_loaded(),
            final(self).same_data(old(self)),
            final(self)@ == old(self)@,
            final(self).size_spec() == old(self).size_spec(),
            final(self).universe_spec() == old(self).universe_spec(),
            final(self).lower_bits_spec() == old(self).lower_bits_spec(),
            final(self).bits_spec() == old(self).bits_spec(),
            final(self).layout_wf(),
            forall|p: int| #[trigger] final(self).element_at(p) == old(self).element_at(p),
            r == old(self).next_result(old(self).position_spec() as int),
            old(self).position_spec() + 1 < old(self).size_spec() ==> r == Ok::<u64, Error>(
                old(self)@[old(self).position_spec() + 1],
            ),
            r is Ok ==> final(self).position_spec() == old(self).position_spec() + 1 && r == Ok::<u64, Error>(
                final(self).value_spec(),
            ),
            r is Err ==> *final(self) == *old(self),
    {
        proof {
            self.lemma_loaded();
        }
        if self.position + 1 >= self.n {
            return Err(Error::OutOfBounds);
        }
        let ghost pre = *self;
        let p = self.position + 1;
        proof {
            self.lemma_select_bounds(self.position as int);
            self.lemma_select_bounds(p as int);
        }
        let h = next_set_bit(&self.b, (self.high_bits_pos + 1) as usize) as u64;
        self.high_bits_pos = h;
        self.position = p;
        self.cur_value = self.decode_at(h, p);
        proof {
            self.lemma_same_elements(&pre);
            self.lemma_cursor_moved(&pre);
        }
        Ok(self.cur_value)
    }

    /// Moves the cursor `k` elements forward; the same as visiting the
    /// current position plus `k`.
    pub fn skip(&mut self, k: u64) -> (r: Result<u64, Error>)
        requires
            old(self).is_loaded(),
        ensures
            final(self).is_loaded(),
            final(self).same_data(old(self)),
            final(self)@ == old(self)@,
            final(self).size_spec() == old(self).size_spec(),
            final(self).universe_spec() == old(self).universe_spec(),
            final(self).lower_bits_spec() == old(self).lower_bits_spec(),
            final(self).bits_spec() == old(self).bits_spec(),
            final(self).layout_wf(),
            forall|p: int| #[trigger] final(self).element_at(p) == old(self).element_at(p),
            r == old(self).visit_result(old(self).position_spec() + k),
            r is Ok ==> final(self).position_spec() == old(self).position_spec() + k && r == Ok::<u64, Error>(
                final(self).value_spec(),
            ),
            r is Err ==> *final(self) == *old(self),
            k == 0 ==> *final(self) == *old(self),
    {
        proof {
            self.lemma_loaded();
        }
        if k == 0 {
            return Ok(self.cur_value);
        }
        if k > self.n - self.position {
            return Err(Error::OutOfBounds);
        }
        let new_pos = self.position + k;
        self.visit(new_pos)
    }

    /// Index of the element under the cursor.
    pub fn position(&self) -> (r: u64)
        ensures
            r == self.position_spec(),
    {
        self.position
    }

    /// Value under the cursor.
    pub fn value(&self) -> (r: u64)
        ensures
            r == self.value_spec(),
    {
        self.cur_value
    }

    /// Length of the encoding in bits. The buffer holds one spare bit past
    /// it, so that the last low slot, which starts just after its base
    /// offset, fits.
    pub fn bit_size(&self) -> (r: usize)
        requires
            self.layout_wf(),
        ensures
            r == self.bits_spec().len() - 1,
            r == buffer_len_for(self.universe_spec(), self.size_spec()),
    {
        proof {
            assert(self.n * self.lower_bits <= (self.n + 1) * self.lower_bits) by (nonlinear_arith);
        }
        self.bv_len as usize
    }

    /// Declared element count.
    pub fn size(&self) -> (r: u64)
        ensures
            r == self.size_spec(),
    {
        self.n
    }

    /// Decodes the whole sequence, in order, walking the cursor from the
    /// first element with `next`.
    pub fn into_vec(self) -> (r: Vec<u64>)
        requires
            self.is_loaded(),
        ensures
            r@ == self@,
    {
        let mut ef = self;
        ef.reset();
        proof {
            ef.lemma_loaded();
        }
        let mut vals: Vec<u64> = Vec::with_capacity(ef.n as usize);
        vals.push(ef.cur_value);
        while ef.position + 1 < ef.n
            invariant
                ef.is_loaded(),
                ef@ == self@,
                ef.n == self@.len(),
                ef.position < ef.n,
                vals@ == self@.subrange(0, ef.position + 1),
            decreases ef.n - ef.position,
        {
            let r = ef.next();
            if let Ok(v) = r {
                vals.push(v);
            }
            assert(vals@ =~= self@.subrange(0, ef.position + 1));
        }
        assert(vals@ =~= self@);
        vals
    }

    /// Renders the layout fields for debugging, one per line.
    pub fn describe(&self) -> (r: String)
        requires
            self.layout_wf(),
        ensures
            r@ == layout_text(self.universe_spec(), self.size_spec()),
    {
        let mut t = String::from_str("\n    Universe: ");
        t.append(decimal(self.universe).as_str());
        t.append("\n    Elements: ");
        t.append(decimal(self.n).as_str());
        t.append("\n    Lower_bits: ");
        t.append(decimal(self.lower_bits).as_str());
        t.append("\n    Higher_bits_length: ");
        t.append(decimal(self.higher_bits_length).as_str());
        t.append("\n    Mask: 0b");
        t.append(decimal(self.mask).as_str());
        t.append("\n    Lower_bits_offset: ");
        t.append(decimal(self.lower_bits_offset).as_str());
        t.append("\n    Bitvector length: ");
        t.append(decimal(self.bv_len).as_str());
        t.append("\n");
        t
    }
}

proof fn lemma_outcome_skips_prefix(e: Seq<u64>, universe: u64, i: int)
    requires
        0 <= i <= e.len(),
        forall|k: int| 0 < k < i ==> e[k - 1] <= #[trigger] e[k],
        forall|k: int| 0 <= k < i ==> #[trigger] e[k] <= universe,
    ensures
        compress_outcome(e, universe, 0) == compress_outcome(e, universe, i),
    decreases i,
{
    if i > 0 {
        lemma_outcome_skips_prefix(e, universe, i - 1);
    }
}

/// Compression accepts every non-decreasing sequence whose values are all
/// within the universe.
pub proof fn lemma_sorted_bounded_accepted(e: Seq<u64>, universe: u64)
    requires
        forall|k: int| 0 < k < e.len() ==> e[k - 1] <= #[trigger] e[k],
        forall|k: int| 0 <= k < e.len() ==> #[trigger] e[k] <= universe,
    ensures
        compress_outcome(e, universe, 0) == Ok::<(), Error>(()),
{
    lemma_outcome_skips_prefix(e, universe, e.len() as int);
}

/// An element below its predecessor makes compression fail with `Unsorted`
/// when every element before it is in order and within the universe.
pub proof fn lemma_descent_rejected(e: Seq<u64>, universe: u64, i: int)
    requires
        0 < i < e.len(),
        e[i] < e[i - 1],
        forall|k: int| 0 < k < i ==> e[k - 1] <= #[trigger] e[k],
        forall|k: int| 0 <= k < i ==> #[trigger] e[k] <= universe,
    ensures
        compress_outcome(e, universe, 0) == Err::<(), Error>(Error::Unsorted),
{
    lemma_outcome_skips_prefix(e, universe, i);
}

/// An element above the universe makes compression fail with
/// `GreaterThanUniverse` when it and every element before it are in order
/// and every element before it is within the universe.
pub proof fn lemma_out_of_universe_rejected(e: Seq<u64>, universe: u64, i: int)
    requires
        0 <= i < e.len(),
        e[i] > universe,
        forall|k: int| 0 < k <= i ==> e[k - 1] <= #[trigger] e[k],
        forall|k: int| 0 <= k < i ==> #[trigger] e[k] <= universe,
    ensures
        compress_outcome(e, universe, 0) == Err::<(), Error>(Error::GreaterThanUniverse),
{
    lemma_outcome_skips_prefix(e, universe, i);
}

/// A loaded structure's buffer decodes, position by position, to the
/// sequence it was compressed from.
pub proof fn lemma_round_trip(ef: &EliasFano)
    requires
        ef.is_loaded(),
    ensures
        ef@.len() == ef.size_spec(),
        forall|k: int| 0 <= k < ef.size_spec() ==> #[trigger] ef.decoded_at(k) == ef@[k],
{
    ef.lemma_loaded();
}

/// The value the cursor holds after `reset` and then `k` calls of `next`,
/// as the contracts of those two give it.
pub open spec fn walk_value(ef: &EliasFano, k: int) -> u64
    decreases k,
{
    if k <= 0 {
        ef@[0]
    } else {
        match ef.next_result(k - 1) {
            Ok(v) => v,
            Err(_) => walk_value(ef, k - 1),
        }
    }
}

/// Visiting a position below `n` yields what `reset` followed by that many
/// calls of `next` yields.
pub proof fn lemma_visit_matches_walk(ef: &EliasFano, p: int)
    requires
        ef.is_loaded(),
        0 <= p < ef.size_spec(),
    ensures
        ef.visit_result(p) == Ok::<u64, Error>(walk_value(ef, p)),
{
    ef.lemma_loaded();
}

/// In a loaded structure the value under the cursor is the element at its
/// position, and the view holds `n` elements.
pub proof fn lemma_cursor_value(ef: &EliasFano)
    requires
        ef.is_loaded(),
    ensures
        ef.layout_wf(),
        ef.size_spec() > 0,
        ef@.len() == ef.size_spec(),
        ef.position_spec() <= ef.size_spec(),
        ef.value_spec() == ef.element_at(ef.position_spec() as int),
{
    ef.lemma_loaded();
}

/// Having the same data is symmetric.
pub proof fn lemma_same_data_symmetric(a: &EliasFano, b: &EliasFano)
    requires
        a.same_data(b),
    ensures
        b.same_data(a),
{
}

/// Having the same data is transitive.
pub proof fn lemma_same_data_transitive(a: &EliasFano, b: &EliasFano, c: &EliasFano)
    requires
        a.same_data(b),
        b.same_data(c),
    ensures
        a.same_data(c),
{
}

/// Two loaded structures with the same data and their cursors at the same
/// position are equal: the rest of the cursor follows from the position.
pub proof fn lemma_same_position_same_state(a: &EliasFano, b: &EliasFano)
    requires
        a.is_loaded(),
        b.is_loaded(),
        a.same_data(b),
        a.position_spec() == b.position_spec(),
    ensures
        *a == *b,
{
    reveal(EliasFano::is_loaded);
    a.lemma_same_elements(b);
}

} // verus!
