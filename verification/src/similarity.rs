//! Cosine similarity of two token sets, kept exact: a similarity is the
//! pair of the overlap and the product of the two set sizes, and every
//! comparison is made on squares, so that no root and no division is taken.

use crate::tokens::TokenSet;
use crate::wide::product_le;
use vstd::prelude::*;

verus! {

/// The number of steps into which the range of a similarity, from 0 to 1, is
/// divided when a similarity is quantized.
pub const SCALE: u32 = 10000;

/// A cosine similarity: `overlap / sqrt(norm)`, or zero where `norm` is zero.
pub struct Cosine {
    /// The number of tokens that the two sets share.
    pub overlap: nat,
    /// The product of the sizes of the two sets.
    pub norm: nat,
}

/// A fraction `num / den`.
pub struct Ratio {
    pub num: nat,
    pub den: nat,
}

impl Ratio {
    /// Whether the fraction lies between 0 and 1.
    pub open spec fn in_unit_range(self) -> bool {
        self.den > 0 && self.num <= self.den
    }

    /// Whether `self` is at most `other`, as fractions.
    pub open spec fn le(self, other: Ratio) -> bool {
        self.num * other.den <= other.num * self.den
    }
}

impl Cosine {
    /// The cosine similarity of the token sets `a` and `b`: the size of
    /// their intersection over the root of the product of their sizes.
    pub open spec fn of(a: Set<Seq<char>>, b: Set<Seq<char>>) -> Cosine {
        Cosine { overlap: a.intersect(b).len(), norm: a.len() * b.len() }
    }

    /// Whether the overlap is no larger than the sizes allow. Then the
    /// similarity is at most 1.
    pub open spec fn bounded(self) -> bool {
        self.overlap * self.overlap <= self.norm
    }

    /// Whether the similarity is exactly 0.
    pub open spec fn is_zero(self) -> bool {
        self.norm == 0 || self.overlap == 0
    }

    /// Whether the similarity is exactly 1.
    pub open spec fn is_one(self) -> bool {
        self.norm > 0 && self.overlap * self.overlap == self.norm
    }

    /// Whether the similarity is strictly greater than `t`. With both sides
    /// squared and cleared of fractions: `overlap² · den² > num² · norm`.
    pub open spec fn exceeds(self, t: Ratio) -> bool {
        self.norm > 0 && (self.overlap * self.overlap) * (t.den * t.den) > (t.num * t.num)
            * self.norm
    }

    /// Whether `q / SCALE` is at most the similarity. With both sides
    /// squared and cleared of fractions: `q² · norm <= SCALE² · overlap²`.
    pub open spec fn reaches(self, q: nat) -> bool {
        (q * q) * self.norm <= (SCALE * SCALE) * (self.overlap * self.overlap)
    }

    /// Whether `q / SCALE` is at most the similarity and the next step is
    /// above it.
    pub open spec fn rounds_down_to(self, q: nat) -> bool {
        self.reaches(q) && !self.reaches(q + 1)
    }

    /// The similarity in steps of `1 / SCALE`, rounded down: the largest
    /// `q` with `q / SCALE` at most the similarity.
    pub open spec fn quantized(self) -> nat {
        if self.norm == 0 {
            0
        } else {
            choose|q: nat| self.rounds_down_to(q)
        }
    }

    /// What reaches a step reaches every lower step.
    pub proof fn lemma_reaches_downward(self, low: nat, high: nat)
        requires
            low <= high,
            self.reaches(high),
        ensures
            self.reaches(low),
    {
        assert((low * low) * self.norm <= (high * high) * self.norm) by (nonlinear_arith)
            requires
                low <= high,
        ;
    }

    /// The quantized similarity is the one step that is reached while the
    /// next is not.
    pub proof fn lemma_quantized_is(self, q: nat)
        requires
            self.norm > 0,
            self.rounds_down_to(q),
        ensures
            self.quantized() == q,
    {
        let found = self.quantized();
        assert(self.rounds_down_to(found));
        if found < q {
            self.lemma_reaches_downward(found + 1, q);
        } else if found > q {
            self.lemma_reaches_downward(q + 1, found);
        }
    }

    /// A similarity of at most 1 never reaches the step after `SCALE`.
    pub proof fn lemma_quantized_bounded(self)
        requires
            self.norm > 0,
            self.bounded(),
        ensures
            !self.reaches(SCALE as nat + 1),
    {
        let s = SCALE as nat;
        let o2 = self.overlap * self.overlap;
        assert(((s + 1) * (s + 1)) * self.norm > (s * s) * o2) by (nonlinear_arith)
            requires
                o2 <= self.norm,
                self.norm > 0,
                s == 10000,
        ;
    }
}

/// Similarity does not depend on the order of the two sets.
pub proof fn lemma_symmetric(a: Set<Seq<char>>, b: Set<Seq<char>>)
    ensures
        Cosine::of(a, b) == Cosine::of(b, a),
{
    assert(a.intersect(b) =~= b.intersect(a));
    assert(a.len() * b.len() == b.len() * a.len()) by (nonlinear_arith);
}

/// A set that is not empty has similarity 1 with itself, which quantizes to
/// the full scale.
pub proof fn lemma_self_similarity(a: Set<Seq<char>>)
    requires
        a.finite(),
        a.len() > 0,
    ensures
        Cosine::of(a, a).is_one(),
        Cosine::of(a, a).quantized() == SCALE,
{
    let c = Cosine::of(a, a);
    assert(a.intersect(a) =~= a);
    assert(c.norm > 0) by (nonlinear_arith)
        requires
            c.norm == a.len() * a.len(),
            a.len() > 0,
    ;
    c.lemma_quantized_bounded();
    c.lemma_quantized_is(SCALE as nat);
}

/// Where one of the two sets is empty the similarity is 0: it quantizes to
/// 0 and exceeds no threshold.
pub proof fn lemma_empty_is_zero(a: Set<Seq<char>>, b: Set<Seq<char>>)
    requires
        a.len() == 0 || b.len() == 0,
    ensures
        Cosine::of(a, b).is_zero(),
        Cosine::of(a, b).quantized() == 0,
        forall|t: Ratio| !(#[trigger] Cosine::of(a, b).exceeds(t)),
{
    assert(a.len() * b.len() == 0) by (nonlinear_arith)
        requires
            a.len() == 0 || b.len() == 0,
    ;
}

/// A similarity of 0 exceeds no threshold, and a similarity that exceeds a
/// threshold is not 0.
pub proof fn lemma_zero_exceeds_nothing(c: Cosine, t: Ratio)
    requires
        c.is_zero(),
    ensures
        !c.exceeds(t),
{
    if c.norm > 0 {
        assert((c.overlap * c.overlap) * (t.den * t.den) == 0) by (nonlinear_arith)
            requires
                c.overlap == 0,
        ;
        assert((t.num * t.num) * c.norm >= 0) by (nonlinear_arith);
    }
}

/// What exceeds a threshold exceeds every lower threshold.
pub proof fn lemma_exceeds_lower(c: Cosine, low: Ratio, high: Ratio)
    requires
        low.den > 0,
        high.den > 0,
        low.le(high),
        c.exceeds(high),
    ensures
        c.exceeds(low),
{
    let o2 = c.overlap * c.overlap;
    let nl2 = low.num * low.num;
    let dl2 = low.den * low.den;
    let nh2 = high.num * high.num;
    let dh2 = high.den * high.den;
    assert(nl2 * dh2 <= nh2 * dl2) by (nonlinear_arith)
        requires
            low.num * high.den <= high.num * low.den,
            nl2 == low.num * low.num,
            dl2 == low.den * low.den,
            nh2 == high.num * high.num,
            dh2 == high.den * high.den,
    ;
    assert(dh2 > 0) by (nonlinear_arith)
        requires
            dh2 == high.den * high.den,
            high.den > 0,
    ;
    assert(dl2 > 0) by (nonlinear_arith)
        requires
            dl2 == low.den * low.den,
            low.den > 0,
    ;
    let n = c.norm;
    assert((o2 * dh2) * dl2 > (nh2 * n) * dl2) by (nonlinear_arith)
        requires
            o2 * dh2 > nh2 * n,
            dl2 > 0,
    ;
    assert((nh2 * dl2) * n >= (nl2 * dh2) * n) by (nonlinear_arith)
        requires
            nl2 * dh2 <= nh2 * dl2,
            n >= 0,
    ;
    assert((o2 * dh2) * dl2 == (o2 * dl2) * dh2) by (nonlinear_arith);
    assert((nh2 * n) * dl2 == (nh2 * dl2) * n) by (nonlinear_arith);
    assert((nl2 * dh2) * n == (nl2 * n) * dh2) by (nonlinear_arith);
    assert(o2 * dl2 > nl2 * c.norm) by (nonlinear_arith)
        requires
            (o2 * dl2) * dh2 > (nl2 * c.norm) * dh2,
            dh2 > 0,
    ;
}

/// The square of `x`.
fn square(x: u64) -> (r: u128)
    ensures
        r == x * x,
{
    assert(x * x <= 0xffff_ffff_ffff_ffff * 0xffff_ffff_ffff_ffff) by (nonlinear_arith)
        requires
            0 <= x <= 0xffff_ffff_ffff_ffff,
    ;
    (x as u128) * (x as u128)
}

/// A similarity cutoff between 0 and 1, as a fraction.
#[derive(Clone, Copy, Debug)]
pub struct Threshold {
    num: u64,
    den: u64,
}

impl View for Threshold {
    type V = Ratio;

    closed spec fn view(&self) -> Ratio {
        Ratio { num: self.num as nat, den: self.den as nat }
    }
}

impl Threshold {
    #[verifier::type_invariant]
    spec fn in_range(&self) -> bool {
        self.den > 0 && self.num <= self.den
    }

    /// The cutoff `num / den`, if that is a fraction between 0 and 1.
    pub fn new(num: u64, den: u64) -> (made: Option<Threshold>)
        ensures
            made is Some <==> den > 0 && num <= den,
            made matches Some(t) ==> t@ == (Ratio { num: num as nat, den: den as nat }),
    {
        if den > 0 && num <= den {
            Some(Threshold { num, den })
        } else {
            None
        }
    }

    /// The cutoff that is used where none is chosen: six tenths.
    pub fn default_cutoff() -> (t: Threshold)
        ensures
            t@ == (Ratio { num: 6, den: 10 }),
    {
        Threshold { num: 6, den: 10 }
    }

    /// The numerator of the cutoff.
    pub fn num(&self) -> (n: u64)
        ensures
            n == self@.num,
    {
        self.num
    }

    /// The denominator of the cutoff.
    pub fn den(&self) -> (d: u64)
        ensures
            d == self@.den,
            d > 0,
    {
        proof {
            use_type_invariant(self);
        }
        self.den
    }
}

/// The cosine similarity of two token sets, as computed.
#[derive(Clone, Copy, Debug)]
pub struct Similarity {
    overlap: usize,
    norm: u128,
}

impl View for Similarity {
    type V = Cosine;

    closed spec fn view(&self) -> Cosine {
        Cosine { overlap: self.overlap as nat, norm: self.norm as nat }
    }
}

impl Similarity {
    #[verifier::type_invariant]
    spec fn bounded(&self) -> bool {
        self.overlap * self.overlap <= self.norm
    }

    /// The similarity of two sets of `len_a` and `len_b` tokens that share
    /// `overlap` of them.
    pub fn from_counts(overlap: usize, len_a: usize, len_b: usize) -> (s: Similarity)
        requires
            overlap <= len_a,
            overlap <= len_b,
        ensures
            s@ == (Cosine { overlap: overlap as nat, norm: (len_a * len_b) as nat }),
    {
        assert(overlap * overlap <= len_a * len_b <= 0xffff_ffff_ffff_ffff
            * 0xffff_ffff_ffff_ffff) by (nonlinear_arith)
            requires
                0 <= overlap <= len_a <= 0xffff_ffff_ffff_ffff,
                overlap <= len_b <= 0xffff_ffff_ffff_ffff,
        ;
        let norm: u128 = (len_a as u128) * (len_b as u128);
        Similarity { overlap, norm }
    }

    /// The similarity of the token sets `a` and `b`.
    pub fn of(a: &TokenSet, b: &TokenSet) -> (s: Similarity)
        ensures
            s@ == Cosine::of(a@, b@),
    {
        let overlap = a.common(b);
        Similarity::from_counts(overlap, a.len(), b.len())
    }

    /// The number of shared tokens.
    pub fn overlap(&self) -> (n: usize)
        ensures
            n == self@.overlap,
    {
        self.overlap
    }

    /// The product of the sizes of the two sets.
    pub fn norm(&self) -> (n: u128)
        ensures
            n == self@.norm,
    {
        self.norm
    }

    /// Whether the similarity is strictly greater than `threshold`.
    pub fn exceeds(&self, threshold: &Threshold) -> (above: bool)
        ensures
            above == self@.exceeds(threshold@),
    {
        proof {
            use_type_invariant(self);
        }
        if self.norm == 0 {
            return false;
        }
        !product_le(
            square(self.overlap as u64),
            square(threshold.den),
            square(threshold.num),
            self.norm,
        )
    }

    /// The similarity in steps of `1 / SCALE`, rounded down.
    pub fn score(&self) -> (q: u32)
        ensures
            q == self@.quantized(),
            q <= SCALE,
    {
        proof {
            use_type_invariant(self);
        }
        if self.norm == 0 {
            return 0;
        }
        let overlap_sq: u128 = square(self.overlap as u64);
        let scale_sq: u128 = square(SCALE as u64);
        let mut low: u32 = 0;
        let mut high: u32 = SCALE + 1;
        proof {
            self@.lemma_quantized_bounded();
            assert(self@.reaches(0)) by (nonlinear_arith)
                requires
                    self@.reaches(0) == ((0nat * 0nat) * self@.norm <= (SCALE * SCALE) * (
                    self@.overlap * self@.overlap)),
            ;
        }
        while high - low > 1
            invariant
                low < high <= SCALE + 1,
                overlap_sq == self@.overlap * self@.overlap,
                scale_sq == SCALE * SCALE,
                self@.norm == self.norm,
                self@.reaches(low as nat),
                !self@.reaches(high as nat),
            decreases high - low,
        {
            let mid: u32 = low + (high - low) / 2;
            if product_le(square(mid as u64), self.norm, scale_sq, overlap_sq) {
                low = mid;
            } else {
                high = mid;
            }
        }
        proof {
            assert(high as nat == low as nat + 1);
            self@.lemma_quantized_is(low as nat);
        }
        low
    }
}

} // verus!
