//! The gap-distribution bag: a shuffle-without-replacement sampler that picks
//! the vertical position of the next obstacle gap.
//!
//! Positions are fixed-point integers (the caller picks the unit, e.g. one
//! thousandth of a world unit). Each draw consumes one magnitude tier from a
//! shuffled bag of eight tokens, steps up or down from the previous value by a
//! distance in that tier's fraction of the total span, and clamps to the
//! allowed range.

use vstd::prelude::*;

verus! {

/// One magnitude tier: how large a step, as a fraction of the allowed span,
/// the next gap position should attempt.
#[derive(Clone, Copy, Debug, PartialEq, Eq, Structural)]
pub enum NextGapKind {
    VerySmall,
    Small,
    Medium,
    Large,
    VeryLarge,
}

impl NextGapKind {
    /// Lower bound of the tier's step fraction, in tenths of the span.
    pub open spec fn frac_lo(self) -> int {
        match self {
            NextGapKind::VerySmall => 1,
            NextGapKind::Small => 2,
            NextGapKind::Medium => 3,
            NextGapKind::Large => 4,
            NextGapKind::VeryLarge => 6,
        }
    }

    /// Upper bound of the tier's step fraction, in tenths of the span.
    pub open spec fn frac_hi(self) -> int {
        match self {
            NextGapKind::VerySmall => 2,
            NextGapKind::Small => 3,
            NextGapKind::Medium => 4,
            NextGapKind::Large => 6,
            NextGapKind::VeryLarge => 10,
        }
    }

    /// The tier's step fraction as a half-open range `[lo, hi)`, both bounds
    /// in tenths of the span.
    pub fn to_range(&self) -> (r: (u32, u32))
        ensures
            r.0 == self.frac_lo(),
            r.1 == self.frac_hi(),
    {
        match self {
            NextGapKind::VerySmall => (1, 2),
            NextGapKind::Small => (2, 3),
            NextGapKind::Medium => (3, 4),
            NextGapKind::Large => (4, 6),
            NextGapKind::VeryLarge => (6, 10),
        }
    }

    /// A tier that would force a hard jump right away.
    pub open spec fn spec_is_extreme(&self) -> bool {
        self is Large || self is VeryLarge
    }

    #[verifier::when_used_as_spec(spec_is_extreme)]
    pub fn is_extreme(&self) -> (r: bool)
        ensures
            r == self.spec_is_extreme(),
    {
        matches!(self, NextGapKind::Large | NextGapKind::VeryLarge)
    }
}

/// The fixed token sequence a fresh bag starts from, before shuffling:
/// one VerySmall, two Small, two Medium, two Large, one VeryLarge.
pub open spec fn fresh_tokens() -> Seq<NextGapKind> {
    seq![
        NextGapKind::VerySmall,
        NextGapKind::Small,
        NextGapKind::Small,
        NextGapKind::Medium,
        NextGapKind::Medium,
        NextGapKind::Large,
        NextGapKind::Large,
        NextGapKind::VeryLarge,
    ]
}

/// Lower edge of the candidate step distance for tier `k` over a span of
/// `hi - lo` units.
pub open spec fn scaled_lo(k: NextGapKind, lo: int, hi: int) -> int {
    k.frac_lo() * (hi - lo) / 10
}

/// Upper edge of the candidate step distance for tier `k` over a span of
/// `hi - lo` units.
pub open spec fn scaled_hi(k: NextGapKind, lo: int, hi: int) -> int {
    k.frac_hi() * (hi - lo) / 10
}

/// Lower edge of the downward candidate window, clamped to the range floor.
pub open spec fn down_min(k: NextGapKind, lo: int, hi: int, prev: int) -> int {
    vstd::math::max(prev - scaled_hi(k, lo, hi), lo)
}

/// Upper edge of the downward candidate window, clamped to the range floor.
pub open spec fn down_max(k: NextGapKind, lo: int, hi: int, prev: int) -> int {
    vstd::math::max(prev - scaled_lo(k, lo, hi), lo)
}

/// Lower edge of the upward candidate window, clamped to the range ceiling.
pub open spec fn up_min(k: NextGapKind, lo: int, hi: int, prev: int) -> int {
    vstd::math::min(prev + scaled_lo(k, lo, hi), hi)
}

/// Upper edge of the upward candidate window, clamped to the range ceiling.
pub open spec fn up_max(k: NextGapKind, lo: int, hi: int, prev: int) -> int {
    vstd::math::min(prev + scaled_hi(k, lo, hi), hi)
}

/// A half-open window is viable when clamping left something to sample from.
pub open spec fn down_viable(k: NextGapKind, lo: int, hi: int, prev: int) -> bool {
    down_min(k, lo, hi, prev) < down_max(k, lo, hi, prev)
}

/// A half-open window is viable when clamping left something to sample from.
pub open spec fn up_viable(k: NextGapKind, lo: int, hi: int, prev: int) -> bool {
    up_min(k, lo, hi, prev) < up_max(k, lo, hi, prev)
}

/// What one draw may return, given the tier `k` consumed, the range
/// `[lo, hi]` and the previous value `prev`: a value from a viable candidate
/// window, or — when both windows collapsed — one of the two collapse points.
pub open spec fn step_ok(k: NextGapKind, lo: int, hi: int, prev: int, v: int) -> bool {
    if up_viable(k, lo, hi, prev) && !down_viable(k, lo, hi, prev) {
        up_min(k, lo, hi, prev) <= v < up_max(k, lo, hi, prev)
    } else if !up_viable(k, lo, hi, prev) && down_viable(k, lo, hi, prev) {
        down_min(k, lo, hi, prev) <= v < down_max(k, lo, hi, prev)
    } else if up_viable(k, lo, hi, prev) && down_viable(k, lo, hi, prev) {
        (up_min(k, lo, hi, prev) <= v < up_max(k, lo, hi, prev)) || (down_min(k, lo, hi, prev)
            <= v < down_max(k, lo, hi, prev))
    } else {
        v == up_min(k, lo, hi, prev) || v == down_min(k, lo, hi, prev)
    }
}

/// An unbounded, restartable source of gap positions. Each draw consumes one
/// tier token from a shuffled eight-token bag; when the bag runs out it is
/// reshuffled, so every tier appears once per cycle of eight draws.
pub struct NextGapBag {
    index: usize,
    range_start: u32,
    range_end: u32,
    previous_value: u32,
    contents: Vec<NextGapKind>,
}

impl NextGapBag {
    /// The tier tokens currently in the bag, in draw order.
    pub closed spec fn tokens(self) -> Seq<NextGapKind> {
        self.contents@
    }

    /// How many tokens of the current cycle have been drawn.
    pub closed spec fn cursor(self) -> int {
        self.index as int
    }

    /// The lowest value the sampler may return.
    pub closed spec fn lo(self) -> int {
        self.range_start as int
    }

    /// The highest value the sampler may return.
    pub closed spec fn hi(self) -> int {
        self.range_end as int
    }

    /// The last value returned (the seed value until the first draw).
    pub closed spec fn previous(self) -> int {
        self.previous_value as int
    }

    pub open spec fn wf(self) -> bool {
        &&& self.tokens().len() == 8
        &&& self.tokens().to_multiset() == fresh_tokens().to_multiset()
        &&& 0 <= self.cursor() <= 8
        &&& self.lo() <= self.previous() <= self.hi()
    }

    /// Build a sampler over `[range_start, range_end]` seeded at
    /// `initial_value`. The bag starts shuffled, and is reshuffled until
    /// neither of the first two tokens is an extreme tier, so the first two
    /// steps after construction ease the player in.
    pub fn new(range_start: u32, range_end: u32, initial_value: u32) -> (bag: Self)
        requires
            range_start <= initial_value <= range_end,
        ensures
            bag.wf(),
            bag.lo() == range_start,
            bag.hi() == range_end,
            bag.previous() == initial_value,
            bag.cursor() == 0,
            !bag.tokens()[0].spec_is_extreme(),
            !bag.tokens()[1].spec_is_extreme(),
    {
        let mut contents = Self::fresh_contents();
        crate::rng::shuffle(&mut contents);

        // Ease them into it: reshuffle while an extreme tier sits in one of
        // the first two slots. A run of bad shuffles is vanishingly unlikely
        // to last, but never relying on luck to terminate, fall back after a
        // fixed number of tries to the unshuffled order, which starts mild.
        let mut tries: usize = 0;
        let mut ok = !(contents[0].is_extreme() || contents[1].is_extreme());
        while !ok && tries < 64
            invariant
                contents@.len() == 8,
                contents@.to_multiset() == fresh_tokens().to_multiset(),
                ok ==> !contents@[0].spec_is_extreme() && !contents@[1].spec_is_extreme(),
                tries <= 64,
            decreases 64 - tries,
        {
            crate::rng::shuffle(&mut contents);
            ok = !(contents[0].is_extreme() || contents[1].is_extreme());
            tries = tries + 1;
        }
        if !ok {
            contents = Self::fresh_contents();
        }

        NextGapBag { index: 0, range_start, range_end, previous_value: initial_value, contents }
    }

    /// Draw the next gap position. The value always lies in `[lo, hi]`; it
    /// is drawn from the candidate window of the tier token consumed at the
    /// cursor, which advances by one, reshuffling the bag first when the
    /// previous cycle of eight draws is spent. A degenerate range pins every
    /// draw to its single point.
    #[verifier::rlimit(50)]
    pub fn next(&mut self) -> (v: u32)
        requires
            old(self).wf(),
        ensures
            final(self).wf(),
            final(self).lo() == old(self).lo(),
            final(self).hi() == old(self).hi(),
            old(self).lo() <= v <= old(self).hi(),
            final(self).previous() == v,
            old(self).cursor() < 8 ==> {
                &&& final(self).tokens() == old(self).tokens()
                &&& final(self).cursor() == old(self).cursor() + 1
                &&& step_ok(
                    old(self).tokens()[old(self).cursor()],
                    old(self).lo(),
                    old(self).hi(),
                    old(self).previous(),
                    v as int,
                )
            },
            old(self).cursor() == 8 ==> {
                &&& final(self).tokens().to_multiset() == old(self).tokens().to_multiset()
                &&& final(self).cursor() == 1
                &&& step_ok(
                    final(self).tokens()[0],
                    old(self).lo(),
                    old(self).hi(),
                    old(self).previous(),
                    v as int,
                )
            },
            old(self).lo() == old(self).hi() ==> v == old(self).lo(),
    {
        if self.index >= self.contents.len() {
            self.index = 0;
            crate::rng::shuffle(&mut self.contents);
        }

        let kind = self.contents[self.index];
        let fr = kind.to_range();

        let lo64 = self.range_start as u64;
        let hi64 = self.range_end as u64;
        let span = hi64 - lo64;
        let prev = self.previous_value as u64;

        proof {
            assert(fr.0 as int * span as int <= 10 * 0xffff_ffffu64 as int) by (nonlinear_arith)
                requires
                    fr.0 <= 10,
                    span <= 0xffff_ffffu64,
            ;
            assert(fr.1 as int * span as int <= 10 * 0xffff_ffffu64 as int) by (nonlinear_arith)
                requires
                    fr.1 <= 10,
                    span <= 0xffff_ffffu64,
            ;
        }
        let s_lo = fr.0 as u64 * span / 10;
        let s_hi = fr.1 as u64 * span / 10;

        let d_min = if prev >= s_hi && prev - s_hi >= lo64 {
            prev - s_hi
        } else {
            lo64
        };
        let d_max = if prev >= s_lo && prev - s_lo >= lo64 {
            prev - s_lo
        } else {
            lo64
        };
        let u_min = if prev + s_lo <= hi64 {
            prev + s_lo
        } else {
            hi64
        };
        let u_max = if prev + s_hi <= hi64 {
            prev + s_hi
        } else {
            hi64
        };

        proof {
            let ki = kind;
            let loi = lo64 as int;
            let hii = hi64 as int;
            let pri = prev as int;
            assert(s_lo as int == scaled_lo(ki, loi, hii));
            assert(s_hi as int == scaled_hi(ki, loi, hii));
            assert(0 <= scaled_lo(ki, loi, hii) <= scaled_hi(ki, loi, hii));
            assert(d_min as int == down_min(ki, loi, hii, pri));
            assert(d_max as int == down_max(ki, loi, hii, pri));
            assert(u_min as int == up_min(ki, loi, hii, pri));
            assert(u_max as int == up_max(ki, loi, hii, pri));
            assert(loi <= d_min as int <= d_max as int <= hii);
            assert(loi <= u_min as int <= u_max as int <= hii);
        }

        let up_ok = u_min < u_max;
        let down_ok = d_min < d_max;

        let v64 = if up_ok && !down_ok {
            crate::rng::pick_in_range(u_min, u_max)
        } else if !up_ok && down_ok {
            crate::rng::pick_in_range(d_min, d_max)
        } else if up_ok && down_ok {
            if crate::rng::coin_flip() {
                crate::rng::pick_in_range(u_min, u_max)
            } else {
                crate::rng::pick_in_range(d_min, d_max)
            }
        } else {
            if crate::rng::coin_flip() {
                u_min
            } else {
                d_min
            }
        };
        proof {
            let ki = kind;
            let loi = lo64 as int;
            let hii = hi64 as int;
            let pri = prev as int;
            assert(lo64 <= v64 <= hi64);
            assert(step_ok(ki, loi, hii, pri, v64 as int));
        }
        let v = v64 as u32;

        self.previous_value = v;
        self.index = self.index + 1;

        v
    }

    /// The tier tokens currently in the bag, in the order they will be drawn.
    pub fn kinds(&self) -> (r: &Vec<NextGapKind>)
        ensures
            r@ == self.tokens(),
    {
        &self.contents
    }

    /// How many tokens of the current cycle have already been drawn.
    pub fn drawn(&self) -> (r: usize)
        ensures
            r as int == self.cursor(),
    {
        self.index
    }

    fn fresh_contents() -> (v: Vec<NextGapKind>)
        ensures
            v@ == fresh_tokens(),
    {
        let mut contents: Vec<NextGapKind> = Vec::new();
        contents.push(NextGapKind::VerySmall);
        contents.push(NextGapKind::Small);
        contents.push(NextGapKind::Small);
        contents.push(NextGapKind::Medium);
        contents.push(NextGapKind::Medium);
        contents.push(NextGapKind::Large);
        contents.push(NextGapKind::Large);
        contents.push(NextGapKind::VeryLarge);
        proof {
            assert(contents@ =~= fresh_tokens());
        }
        contents
    }
}

/// Bag balance: the eight tokens of a well-formed bag always form exactly
/// the multiset {VerySmall x1, Small x2, Medium x2, Large x2, VeryLarge x1}.
/// By `next`'s contract, each of the eight draws of a cycle consumes
/// `tokens()[cursor()]` and leaves `tokens()` unchanged, so the tiers drawn
/// over any full cycle of eight calls form exactly that multiset.
pub proof fn lemma_bag_balance(bag: NextGapBag)
    requires
        bag.wf(),
    ensures
        bag.tokens().len() == 8,
        bag.tokens().to_multiset().count(NextGapKind::VerySmall) == 1,
        bag.tokens().to_multiset().count(NextGapKind::Small) == 2,
        bag.tokens().to_multiset().count(NextGapKind::Medium) == 2,
        bag.tokens().to_multiset().count(NextGapKind::Large) == 2,
        bag.tokens().to_multiset().count(NextGapKind::VeryLarge) == 1,
{
    broadcast use vstd::seq_lib::group_to_multiset_ensures;
    broadcast use vstd::multiset::group_multiset_axioms;

    let s0 = Seq::<NextGapKind>::empty();
    let s8 = s0.push(NextGapKind::VerySmall).push(NextGapKind::Small).push(NextGapKind::Small).push(
        NextGapKind::Medium,
    ).push(NextGapKind::Medium).push(NextGapKind::Large).push(NextGapKind::Large).push(
        NextGapKind::VeryLarge,
    );
    assert(fresh_tokens() =~= s8);
    assert(forall|k: NextGapKind| s0.to_multiset().count(k) == 0) by {
        assert(forall|k: NextGapKind| !s0.contains(k));
    }
    assert(s8.to_multiset().count(NextGapKind::Small) == 2);
    assert(s8.to_multiset().count(NextGapKind::VerySmall) == 1);
    assert(s8.to_multiset().count(NextGapKind::Medium) == 2);
    assert(s8.to_multiset().count(NextGapKind::Large) == 2);
    assert(s8.to_multiset().count(NextGapKind::VeryLarge) == 1);
}

} // verus!
