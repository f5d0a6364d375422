//! Sets of the digits 1–9, held as nine-bit masks, and cursors that hand their
//! digits out in ascending order.

use vstd::prelude::*;

verus! {

/// The set of all nine digits.
pub open spec fn all_digits() -> Set<int> {
    Set::new(|d: int| 1 <= d <= 9)
}

/// Whether bit `i` of `m` is set.
spec fn bit(m: u16, i: int) -> bool {
    (m >> (i as u16)) & 1 == 1
}

proof fn lemma_full_mask_bits(i: u16)
    by (bit_vector)
    requires
        i < 9,
    ensures
        (0x1FFu16 >> i) & 1 == 1,
{
}

proof fn lemma_and_bits(a: u16, b: u16, i: u16)
    by (bit_vector)
    requires
        i < 16,
    ensures
        ((a & b) >> i) & 1 == 1 <==> ((a >> i) & 1 == 1 && (b >> i) & 1 == 1),
        a <= 0x1FF || b <= 0x1FF ==> (a & b) <= 0x1FF,
{
}

proof fn lemma_set_bit(m: u16, j: u16, i: u16)
    by (bit_vector)
    requires
        j < 9,
        i < 9,
    ensures
        ((m | (1u16 << j)) >> i) & 1 == 1 <==> (i == j || (m >> i) & 1 == 1),
        m <= 0x1FF ==> (m | (1u16 << j)) <= 0x1FF,
{
}

proof fn lemma_clear_bit(m: u16, j: u16, i: u16)
    by (bit_vector)
    requires
        j < 9,
        i < 9,
    ensures
        ((m & !(1u16 << j)) >> i) & 1 == 1 <==> (i != j && (m >> i) & 1 == 1),
        m <= 0x1FF ==> (m & !(1u16 << j)) <= 0x1FF,
{
}

proof fn lemma_clear_lowest_bit(m: u16, t: u16, i: u16)
    by (bit_vector)
    requires
        t < 16,
        i < 16,
        (m >> t) & 1 == 1,
        m << (16 - t) as u16 == 0,
    ensures
        m >= 1,
        ((m & (m - 1) as u16) >> i) & 1 == 1 <==> (i != t && (m >> i) & 1 == 1),
        (m & (m - 1) as u16) <= m,
{
}

proof fn lemma_zero_has_no_bits(i: u16)
    by (bit_vector)
    ensures
        (0u16 >> i) & 1 == 0,
{
}

proof fn lemma_low_bits_zero(m: u16, i: u16)
    by (bit_vector)
    requires
        m <= 0x1FF,
        9 <= i < 16,
    ensures
        (m >> i) & 1 == 0,
{
}

proof fn lemma_no_bits_is_zero(m: u16)
    by (bit_vector)
    requires
        m <= 0x1FF,
        (m >> 0) & 1 == 0,
        (m >> 1) & 1 == 0,
        (m >> 2) & 1 == 0,
        (m >> 3) & 1 == 0,
        (m >> 4) & 1 == 0,
        (m >> 5) & 1 == 0,
        (m >> 6) & 1 == 0,
        (m >> 7) & 1 == 0,
        (m >> 8) & 1 == 0,
    ensures
        m == 0,
{
}

proof fn lemma_equal_bits_equal_masks(a: u16, b: u16)
    by (bit_vector)
    requires
        a <= 0x1FF,
        b <= 0x1FF,
        (a >> 0) & 1 == (b >> 0) & 1,
        (a >> 1) & 1 == (b >> 1) & 1,
        (a >> 2) & 1 == (b >> 2) & 1,
        (a >> 3) & 1 == (b >> 3) & 1,
        (a >> 4) & 1 == (b >> 4) & 1,
        (a >> 5) & 1 == (b >> 5) & 1,
        (a >> 6) & 1 == (b >> 6) & 1,
        (a >> 7) & 1 == (b >> 7) & 1,
        (a >> 8) & 1 == (b >> 8) & 1,
    ensures
        a == b,
{
}

proof fn lemma_bit_is_zero_or_one(m: u16, i: u16)
    by (bit_vector)
    ensures
        (m >> i) & 1 == 0 || (m >> i) & 1 == 1,
{
}

/// A mask within nine bits is fixed by which of the digits 1–9 it holds.
proof fn lemma_mask_determined(a: u16, b: u16)
    requires
        a <= 0x1FF,
        b <= 0x1FF,
        forall|i: int| 0 <= i < 9 ==> (#[trigger] bit(a, i) <==> bit(b, i)),
    ensures
        a == b,
{
    assert forall|i: u16| i < 9 implies (a >> i) & 1 == (b >> i) & 1 by {
        lemma_bit_is_zero_or_one(a, i);
        lemma_bit_is_zero_or_one(b, i);
        assert(bit(a, i as int) <==> bit(b, i as int));
    }
    lemma_equal_bits_equal_masks(a, b);
}

/// A set of digits between 1 and 9: the digits still allowed in some row,
/// column, box or cell.
#[derive(Clone, Copy, Debug)]
pub struct CandidateSet(u16);

impl View for CandidateSet {
    type V = Set<int>;

    /// The digits in the set.
    open spec fn view(&self) -> Set<int> {
        Set::new(|d: int| self.contains(d))
    }
}

impl CandidateSet {
    /// Only the nine digit bits may be set.
    pub closed spec fn wf(self) -> bool {
        self.0 <= 0x1FF
    }

    /// Whether digit `d` is in the set. Only the digits 1–9 ever are.
    pub closed spec fn contains(self, d: int) -> bool {
        1 <= d <= 9 && bit(self.0, d - 1)
    }

    /// Two well-formed sets with the same digits are the same value.
    pub proof fn lemma_extensional(self, other: Self)
        requires
            self.wf(),
            other.wf(),
            self@ == other@,
        ensures
            self == other,
    {
        assert forall|i: int| 0 <= i < 9 implies (#[trigger] bit(self.0, i) <==> bit(other.0, i)) by {
            let d = i + 1;
            assert(self@.contains(d) <==> self.contains(d));
        }
        lemma_mask_determined(self.0, other.0);
    }

    /// The full set: every digit from 1 to 9 is allowed.
    pub fn new() -> (r: Self)
        ensures
            r.wf(),
            r@ == all_digits(),
    {
        let r = CandidateSet(0b1_1111_1111);
        proof {
            assert forall|d: int| 1 <= d <= 9 implies r.contains(d) by {
                lemma_full_mask_bits((d - 1) as u16);
            }
        }
        r
    }

    /// The digits that are in both sets.
    pub fn intersect(self, other: Self) -> (r: Self)
        requires
            self.wf(),
            other.wf(),
        ensures
            r.wf(),
            r@ == self@.intersect(other@),
    {
        let r = CandidateSet(self.0 & other.0);
        proof {
            lemma_and_bits(self.0, other.0, 0);
            assert forall|d: int| r.contains(d) <==> (self.contains(d) && other.contains(d)) by {
                if 1 <= d <= 9 {
                    lemma_and_bits(self.0, other.0, (d - 1) as u16);
                }
            }
        }
        r
    }

    /// Puts `digit` into the set.
    pub fn insert(&mut self, digit: u8)
        requires
            old(self).wf(),
            1 <= digit <= 9,
        ensures
            final(self).wf(),
            final(self)@ == old(self)@.insert(digit as int),
    {
        let ghost before = *self;
        self.0 = self.0 | (1u16 << (digit - 1));
        proof {
            let j = (digit - 1) as u16;
            lemma_set_bit(before.0, j, 0);
            let after = *self;
            assert forall|d: int| after@.contains(d) <==> before@.insert(digit as int).contains(d) by {
                if 1 <= d <= 9 {
                    lemma_set_bit(before.0, j, (d - 1) as u16);
                }
            }
        }
    }

    /// Takes `digit` out of the set.
    pub fn remove(&mut self, digit: u8)
        requires
            old(self).wf(),
            1 <= digit <= 9,
        ensures
            final(self).wf(),
            final(self)@ == old(self)@.remove(digit as int),
    {
        let ghost before = *self;
        self.0 = self.0 & !(1u16 << (digit - 1));
        proof {
            let j = (digit - 1) as u16;
            lemma_clear_bit(before.0, j, 0);
            let after = *self;
            assert forall|d: int| after@.contains(d) <==> before@.remove(digit as int).contains(d) by {
                if 1 <= d <= 9 {
                    lemma_clear_bit(before.0, j, (d - 1) as u16);
                }
            }
        }
    }

    /// A cursor over the digits of the set, smallest first.
    pub fn into_iter(self) -> (it: CandidateSetIterator)
        requires
            self.wf(),
        ensures
            it.wf(),
            !it.is_fixed(),
            it@ == self@,
    {
        let it = CandidateSetIterator(self.0);
        it
    }
}

/// A cursor over the digits of a candidate set that have not been handed out
/// yet. A cursor can also be in the fixed state, which marks a cell whose digit
/// was given and is never iterated.
#[derive(Clone, Copy, Debug)]
pub struct CandidateSetIterator(u16);

impl View for CandidateSetIterator {
    type V = Set<int>;

    /// The digits that the cursor has still to hand out.
    open spec fn view(&self) -> Set<int> {
        Set::new(|d: int| self.contains(d))
    }
}

impl CandidateSetIterator {
    /// Either a cursor over digits, or the fixed marker.
    pub closed spec fn wf(self) -> bool {
        self.0 <= 0x1FF || self.0 == 0xFFFF
    }

    /// Whether the cursor is the fixed marker.
    pub closed spec fn spec_is_fixed(&self) -> bool {
        self.0 == 0xFFFF
    }

    /// Whether digit `d` is still to be handed out.
    pub closed spec fn contains(self, d: int) -> bool {
        1 <= d <= 9 && bit(self.0, d - 1)
    }

    /// A cursor holds no digit exactly when its mask is zero.
    proof fn lemma_zero_iff_empty(self)
        requires
            self.wf(),
        ensures
            self.0 == 0 <==> self@ == Set::<int>::empty(),
    {
        let m = self.0;
        if m == 0 {
            assert forall|d: int| !self.contains(d) by {
                if 1 <= d <= 9 {
                    lemma_zero_has_no_bits((d - 1) as u16);
                }
            }
            assert(self@ =~= Set::<int>::empty());
        } else if m == 0xFFFF {
            assert((0xFFFFu16 >> 0u16) & 1 == 1) by (bit_vector);
            assert(self@.contains(1));
        } else if self@ == Set::<int>::empty() {
            assert forall|i: int| 0 <= i < 9 implies !#[trigger] bit(m, i) by {
                assert(!self@.contains(i + 1));
            }
            lemma_bit_is_zero_or_one(m, 0);
            lemma_bit_is_zero_or_one(m, 1);
            lemma_bit_is_zero_or_one(m, 2);
            lemma_bit_is_zero_or_one(m, 3);
            lemma_bit_is_zero_or_one(m, 4);
            lemma_bit_is_zero_or_one(m, 5);
            lemma_bit_is_zero_or_one(m, 6);
            lemma_bit_is_zero_or_one(m, 7);
            lemma_bit_is_zero_or_one(m, 8);
            assert(!bit(m, 0) && !bit(m, 1) && !bit(m, 2) && !bit(m, 3) && !bit(m, 4)
                && !bit(m, 5) && !bit(m, 6) && !bit(m, 7) && !bit(m, 8));
            lemma_no_bits_is_zero(m);
        }
    }

    /// A cursor with nothing left.
    pub fn empty() -> (r: Self)
        ensures
            r.wf(),
            !r.is_fixed(),
            r@ == Set::<int>::empty(),
    {
        let r = CandidateSetIterator(0);
        proof {
            r.lemma_zero_iff_empty();
        }
        r
    }

    /// The fixed marker.
    pub fn fixed() -> (r: Self)
        ensures
            r.wf(),
            r.is_fixed(),
    {
        CandidateSetIterator(u16::MAX)
    }

    /// Whether this is the fixed marker.
    #[verifier::when_used_as_spec(spec_is_fixed)]
    pub fn is_fixed(&self) -> (r: bool)
        ensures
            r == self.is_fixed(),
    {
        self.0 == u16::MAX
    }

    /// Whether no digit is left. The fixed marker is never empty.
    pub fn is_empty(&self) -> (r: bool)
        requires
            self.wf(),
        ensures
            r == (self@ == Set::<int>::empty()),
            r ==> !self.is_fixed(),
    {
        proof {
            self.lemma_zero_iff_empty();
        }
        self.0 == 0
    }

    /// Hands out the smallest remaining digit and drops it from the cursor, or
    /// returns `None` when nothing is left.
    pub fn next(&mut self) -> (r: Option<u8>)
        requires
            old(self).wf(),
            !old(self).is_fixed(),
        ensures
            final(self).wf(),
            !final(self).is_fixed(),
            match r {
                None => old(self)@ == Set::<int>::empty() && *final(self) == *old(self),
                Some(digit) => {
                    &&& old(self)@.contains(digit as int)
                    &&& forall|d: int| old(self)@.contains(d) ==> digit <= d
                    &&& final(self)@ == old(self)@.remove(digit as int)
                },
            },
    {
        if self.is_empty() {
            None
        } else {
            let ghost before = *self;
            let m = self.0;
            let low = m.trailing_zeros();
            proof {
                self.lemma_zero_iff_empty();
                vstd::std_specs::bits::axiom_u16_trailing_zeros(m);
                if 9 <= low {
                    lemma_low_bits_zero(m, low as u16);
                }
                lemma_clear_lowest_bit(m, low as u16, 0);
            }
            self.0 = m & (m - 1);
            let digit = low as u8 + 1;
            proof {
                let after = *self;
                assert forall|d: int| after@.contains(d) <==> before@.remove(digit as int).contains(d) by {
                    if 1 <= d <= 9 {
                        lemma_clear_lowest_bit(m, low as u16, (d - 1) as u16);
                    }
                }
            }
            Some(digit)
        }
    }
}

} // verus!
