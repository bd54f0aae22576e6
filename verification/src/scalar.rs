//! Single-precision numbers as the library sees them: 32 bits that can be
//! compared but not calculated with.
//!
//! Angles, distances and magnitudes reach the library as IEEE 754 `binary32`
//! bit patterns. The library orders them and hands them on. It never adds
//! or multiplies them.

use vstd::prelude::*;
use vstd::seq_lib::group_to_multiset_ensures;

verus! {

/// The bit that holds the sign of a `binary32` number.
pub const SIGN_BIT: u32 = 0x8000_0000;

/// The bits of positive infinity; a larger magnitude is not a number.
pub const INFINITY_BITS: u32 = 0x7f80_0000;

/// An IEEE 754 `binary32` number, held as its bit pattern.
#[derive(Clone, Copy, Debug)]
pub struct Scalar {
    pub bits: u32,
}

impl Scalar {
    /// The bits without the sign.
    pub open spec fn magnitude(self) -> int {
        if self.bits >= SIGN_BIT {
            self.bits - SIGN_BIT
        } else {
            self.bits as int
        }
    }

    /// The bit pattern encodes no number.
    pub open spec fn is_nan(self) -> bool {
        self.magnitude() > INFINITY_BITS
    }

    /// Where a number stands on the number line: of two numbers the larger
    /// has the larger rank, and the two zeros share rank 0.
    pub open spec fn rank(self) -> int {
        if self.bits >= SIGN_BIT {
            -self.magnitude()
        } else {
            self.magnitude()
        }
    }

    /// `self <= other` as IEEE 754 has it: false when either is not a number.
    pub open spec fn spec_le(self, other: Scalar) -> bool {
        !self.is_nan() && !other.is_nan() && self.rank() <= other.rank()
    }

    /// `self < other` as IEEE 754 has it: false when either is not a number.
    pub open spec fn spec_lt(self, other: Scalar) -> bool {
        !self.is_nan() && !other.is_nan() && self.rank() < other.rank()
    }

    /// A rank for sorting, on which every bit pattern has a place: what is
    /// not a number comes after everything that is.
    pub open spec fn sort_rank(self) -> int {
        if self.is_nan() {
            INFINITY_BITS + 1
        } else {
            self.rank()
        }
    }

    /// The number with the given bit pattern.
    pub fn from_bits(bits: u32) -> (made: Scalar)
        ensures
            made.bits == bits,
    {
        Scalar { bits }
    }

    /// The bit pattern of the number.
    pub fn to_bits(self) -> (bits: u32)
        ensures
            bits == self.bits,
    {
        self.bits
    }

    /// Whether the bit pattern encodes no number.
    pub fn nan(self) -> (answer: bool)
        ensures
            answer == self.is_nan(),
    {
        if self.bits >= SIGN_BIT {
            self.bits - SIGN_BIT > INFINITY_BITS
        } else {
            self.bits > INFINITY_BITS
        }
    }

    /// The rank for sorting as a machine integer.
    pub fn sort_key(self) -> (key: i64)
        ensures
            key == self.sort_rank(),
    {
        if self.nan() {
            INFINITY_BITS as i64 + 1
        } else if self.bits >= SIGN_BIT {
            -((self.bits - SIGN_BIT) as i64)
        } else {
            self.bits as i64
        }
    }

    /// `self <= other`; false when either is not a number.
    pub fn le(self, other: Scalar) -> (answer: bool)
        ensures
            answer == self.spec_le(other),
    {
        !self.nan() && !other.nan() && self.sort_key() <= other.sort_key()
    }

    /// `self < other`; false when either is not a number.
    pub fn lt(self, other: Scalar) -> (answer: bool)
        ensures
            answer == self.spec_lt(other),
    {
        !self.nan() && !other.nan() && self.sort_key() < other.sort_key()
    }
}

/// Among numbers, `<=` is the order of the ranks: it is total, and it holds
/// both ways exactly between equal ranks, such as the two zeros.
pub proof fn lemma_le_is_total(a: Scalar, b: Scalar)
    requires
        !a.is_nan(),
        !b.is_nan(),
    ensures
        a.spec_le(b) || b.spec_le(a),
        a.spec_le(b) && b.spec_le(a) <==> a.rank() == b.rank(),
        a.spec_lt(b) <==> !b.spec_le(a),
{
}

/// `<=` passes along a chain.
pub proof fn lemma_le_is_transitive(a: Scalar, b: Scalar, c: Scalar)
    requires
        a.spec_le(b),
        b.spec_le(c),
    ensures
        a.spec_le(c),
{
}

/// What is not a number is neither below nor above nor equal to anything.
pub proof fn lemma_nan_compares_false(a: Scalar, b: Scalar)
    requires
        a.is_nan() || b.is_nan(),
    ensures
        !a.spec_le(b),
        !b.spec_le(a),
        !a.spec_lt(b),
        !b.spec_lt(a),
{
}

/// `a` comes no later than `b` when numbers are put in order: it has the
/// lower sorting rank, or the same rank and no greater bit pattern.
pub open spec fn in_order(a: Scalar, b: Scalar) -> bool {
    a.sort_rank() < b.sort_rank() || (a.sort_rank() == b.sort_rank() && a.bits <= b.bits)
}

/// `values` ascends.
pub open spec fn is_sorted(values: Seq<Scalar>) -> bool {
    forall|i: int, j: int|
        0 <= i < j < values.len() ==> in_order(#[trigger] values[i], #[trigger] values[j])
}

/// Whether `a` comes no later than `b` when numbers are put in order.
pub fn comes_first(a: Scalar, b: Scalar) -> (answer: bool)
    ensures
        answer == in_order(a, b),
{
    let ka = a.sort_key();
    let kb = b.sort_key();
    ka < kb || (ka == kb && a.bits <= b.bits)
}

proof fn lemma_insert_multiset(s: Seq<Scalar>, at: int, v: Scalar)
    requires
        0 <= at <= s.len(),
    ensures
        s.insert(at, v).to_multiset() == s.to_multiset().insert(v),
{
    broadcast use group_to_multiset_ensures;

    let longer = s.insert(at, v);
    assert(longer.remove(at) =~= s);
    assert(longer[at] == v);
    assert(longer.contains(v));
    assert(longer.to_multiset() =~= s.to_multiset().insert(v));
}

/// Puts numbers in ascending order. What is not a number goes to the end;
/// of the two zeros the positive one goes first.
pub fn sort_scalars(values: &Vec<Scalar>) -> (sorted: Vec<Scalar>)
    ensures
        is_sorted(sorted@),
        sorted@.to_multiset() == values@.to_multiset(),
{
    let mut sorted: Vec<Scalar> = Vec::new();
    let mut i: usize = 0;
    assert(values@.take(0) =~= sorted@);
    while i < values.len()
        invariant
            i <= values.len(),
            is_sorted(sorted@),
            sorted@.to_multiset() == values@.take(i as int).to_multiset(),
        decreases values.len() - i,
    {
        let v = values[i];
        let mut place: usize = sorted.len();
        while place > 0 && !comes_first(sorted[place - 1], v)
            invariant
                place <= sorted.len(),
                is_sorted(sorted@),
                forall|k: int| place <= k < sorted.len() ==> in_order(v, #[trigger] sorted@[k]),
            decreases place,
        {
            place -= 1;
        }
        let ghost before = sorted@;
        sorted.insert(place, v);
        proof {
            broadcast use group_to_multiset_ensures;

            lemma_insert_multiset(before, place as int, v);
            assert(values@.take(i + 1) =~= values@.take(i as int).push(v));
            assert forall|a: int, b: int| 0 <= a < b < sorted@.len() implies in_order(
                #[trigger] sorted@[a],
                #[trigger] sorted@[b],
            ) by {
                if a < place {
                    assert(sorted@[a] == before[a]);
                    if place > 0 {
                        assert(in_order(before[a], before[place - 1]) || a == place - 1);
                    }
                } else if a > place {
                    assert(sorted@[a] == before[a - 1]);
                }
                if b < place {
                    assert(sorted@[b] == before[b]);
                } else if b > place {
                    assert(sorted@[b] == before[b - 1]);
                }
            }
        }
        i += 1;
    }
    assert(values@.take(i as int) =~= values@);
    sorted
}

} // verus!
