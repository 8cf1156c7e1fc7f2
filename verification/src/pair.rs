use vstd::prelude::*;

verus! {

/// Two values stored in increasing order: `(a, b)` and `(b, a)` give the same pair.
#[derive(PartialEq, Eq, Structural, Clone, Copy, Debug)]
pub struct SortedPair(usize, usize);

/// The smaller and the larger of two indices.
pub open spec fn sorted(a: usize, b: usize) -> (usize, usize) {
    if a <= b { (a, b) } else { (b, a) }
}

/// The integer that a pair of indices is keyed by: the first index in the
/// high 64 bits, the second in the low 64 bits.
pub open spec fn pair_code(p: (usize, usize)) -> u128 {
    (p.0 as int * 0x1_0000_0000_0000_0000 + p.1 as int) as u128
}

impl View for SortedPair {
    type V = (usize, usize);

    closed spec fn view(&self) -> (usize, usize) {
        (self.0, self.1)
    }
}

impl SortedPair {
    /// Builds the pair of `a` and `b`, the smaller one first.
    pub fn new(a: usize, b: usize) -> (res: SortedPair)
        ensures
            res@ == sorted(a, b),
    {
        if a <= b {
            SortedPair(a, b)
        } else {
            SortedPair(b, a)
        }
    }

    /// The smaller element.
    pub fn first(&self) -> (res: usize)
        ensures
            res == self@.0,
    {
        self.0
    }

    /// The larger element.
    pub fn second(&self) -> (res: usize)
        ensures
            res == self@.1,
    {
        self.1
    }

    /// The integer that this pair is keyed by; distinct pairs get distinct codes.
    pub fn code(&self) -> (res: u128)
        ensures
            res == pair_code(self@),
    {
        (self.0 as u128) * 0x1_0000_0000_0000_0000u128 + (self.1 as u128)
    }
}

/// A pair does not depend on the order its elements are given in, and holds
/// both of them, the smaller first.
pub proof fn lemma_sorted_pair_symmetric(a: usize, b: usize)
    ensures
        sorted(a, b) == sorted(b, a),
        sorted(a, b).0 <= sorted(a, b).1,
        (sorted(a, b).0 == a && sorted(a, b).1 == b) || (sorted(a, b).0 == b && sorted(a, b).1 == a),
{
}

/// Distinct pairs have distinct codes.
pub proof fn lemma_pair_code_injective(p: (usize, usize), q: (usize, usize))
    ensures
        pair_code(p) == pair_code(q) <==> p == q,
{
    assert(usize::MAX < 0x1_0000_0000_0000_0000);
}

} // verus!
