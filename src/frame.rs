use vstd::prelude::*;
use crate::ease::{ease_value, lemma_ease_bounds, Ease, SCALE};

verus! {

use vstd::arithmetic::div_mod::{lemma_div_is_ordered, lemma_div_multiples_vanish, lemma_div_pos_is_pos};

/// The value a keyframe moves to.
#[derive(Debug, Clone, Copy, PartialEq, Eq, Structural)]
pub enum Movement {
    /// Exactly this value.
    Absolute(i64),
    /// The previous keyframe's resolved value plus this delta.
    RelativeToPrevious(i64),
}

/// A keyframe's target, with the time (in milliseconds) that the move takes
/// from the previous keyframe. A duration of zero is an instantaneous jump.
#[derive(Debug, Clone, Copy, PartialEq, Eq, Structural)]
pub struct MovementType {
    pub movement: Movement,
    pub duration: u64,
}

impl MovementType {
    /// An absolute target reached after `duration` milliseconds.
    pub fn absolute(value: i64, duration: u64) -> (r: MovementType)
        ensures
            r == (MovementType { movement: Movement::Absolute(value), duration }),
    {
        MovementType { movement: Movement::Absolute(value), duration }
    }

    /// A target relative to the previous keyframe, reached after `duration`
    /// milliseconds.
    pub fn relative(delta: i64, duration: u64) -> (r: MovementType)
        ensures
            r == (MovementType { movement: Movement::RelativeToPrevious(delta), duration }),
    {
        MovementType { movement: Movement::RelativeToPrevious(delta), duration }
    }
}

/// `x` limited to the range of `i64`.
pub open spec fn clamp_i64(x: int) -> int {
    if x < i64::MIN {
        i64::MIN as int
    } else if x > i64::MAX {
        i64::MAX as int
    } else {
        x
    }
}

/// The value that `m` stands for once the previous keyframe resolved to `prev`.
/// A relative move saturates at the bounds of `i64`.
pub open spec fn resolve_spec(m: Movement, prev: int) -> int {
    match m {
        Movement::Absolute(v) => v as int,
        Movement::RelativeToPrevious(d) => clamp_i64(prev + d),
    }
}

/// The value between `a` and `b` at the eased ratio `e` (in thousandths),
/// rounded toward `a`.
pub open spec fn lerp(a: int, b: int, e: int) -> int {
    if a <= b {
        a + (b - a) * e / (SCALE as int)
    } else {
        a - (a - b) * e / (SCALE as int)
    }
}

/// An absolute movement resolves to its value whatever came before; a relative
/// one resolves to the previous value plus its delta, wherever that sum is an `i64`.
pub proof fn lemma_resolve_round_trip(v: i64, d: i64, prev: i64)
    ensures
        resolve_spec(Movement::Absolute(v), prev as int) == v,
        i64::MIN <= prev + d <= i64::MAX ==> resolve_spec(Movement::RelativeToPrevious(d), prev as int)
            == prev + d,
{
}

proof fn lemma_scaled_part(x: int, e: int)
    requires
        0 <= x,
        0 <= e <= SCALE,
    ensures
        0 <= x * e / (SCALE as int) <= x,
        e == 0 ==> x * e / (SCALE as int) == 0,
        e == SCALE ==> x * e / (SCALE as int) == x,
{
    assert(0 <= x * e <= SCALE * x) by (nonlinear_arith)
        requires
            0 <= x,
            0 <= e <= SCALE,
    ;
    lemma_div_pos_is_pos(x * e, SCALE as int);
    lemma_div_is_ordered(x * e, SCALE * x, SCALE as int);
    lemma_div_multiples_vanish(x, SCALE as int);
    if e == SCALE {
        assert(x * e == SCALE * x) by (nonlinear_arith)
            requires
                e == SCALE,
        ;
    }
}

/// The interpolated value stays between its ends, and meets them at the
/// ratios zero and one.
pub proof fn lemma_lerp_bounds(a: int, b: int, e: int)
    requires
        0 <= e <= SCALE,
    ensures
        a <= b ==> a <= lerp(a, b, e) <= b,
        b < a ==> b <= lerp(a, b, e) <= a,
        lerp(a, b, 0) == a,
        lerp(a, b, SCALE as int) == b,
{
    if a <= b {
        lemma_scaled_part(b - a, e);
        lemma_scaled_part(b - a, 0);
        lemma_scaled_part(b - a, SCALE as int);
    } else {
        lemma_scaled_part(a - b, e);
        lemma_scaled_part(a - b, 0);
        lemma_scaled_part(a - b, SCALE as int);
    }
}

/// Resolves `m` against the previous keyframe's value `prev`.
pub fn resolve(m: Movement, prev: i64) -> (r: i64)
    ensures
        r == resolve_spec(m, prev as int),
{
    match m {
        Movement::Absolute(v) => v,
        Movement::RelativeToPrevious(d) => {
            let sum: i128 = prev as i128 + d as i128;
            if sum < i64::MIN as i128 {
                i64::MIN
            } else if sum > i64::MAX as i128 {
                i64::MAX
            } else {
                sum as i64
            }
        },
    }
}

/// The value between `a` and `b` at the eased ratio `e`.
pub fn interpolate(a: i64, b: i64, e: u64) -> (r: i64)
    requires
        e <= SCALE,
    ensures
        r == lerp(a as int, b as int, e as int),
{
    proof {
        lemma_lerp_bounds(a as int, b as int, e as int);
        if a <= b {
            lemma_scaled_part(b - a, e as int);
        } else {
            lemma_scaled_part(a - b, e as int);
        }
    }
    if a <= b {
        let diff: u128 = (b as i128 - a as i128) as u128;
        let part: u128 = diff * (e as u128) / (SCALE as u128);
        (a as i128 + part as i128) as i64
    } else {
        let diff: u128 = (a as i128 - b as i128) as u128;
        let part: u128 = diff * (e as u128) / (SCALE as u128);
        (a as i128 - part as i128) as i64
    }
}

/// One keyframe. An eager keyframe progresses with the clock over its
/// duration; a lazy one holds the progress `percent` (in thousandths) that was
/// last pushed into it, whatever the time.
#[derive(Debug, Clone, Copy, PartialEq, Eq, Structural)]
pub struct Frame {
    pub at: MovementType,
    pub ease: Ease,
    pub percent: u64,
    pub is_eager: bool,
}

impl Frame {
    /// The progress ratio of this keyframe `t` milliseconds after it began:
    /// the pushed ratio for a lazy keyframe, the elapsed share of its
    /// duration for an eager one (full once the duration is over).
    pub open spec fn progress_spec(&self, t: int) -> int {
        if !self.is_eager {
            if self.percent <= SCALE {
                self.percent as int
            } else {
                SCALE as int
            }
        } else if t >= self.at.duration {
            SCALE as int
        } else {
            t * SCALE / (self.at.duration as int)
        }
    }

    /// The value of this keyframe `t` milliseconds after it began, moving from
    /// `prev` to the value it resolves to.
    pub open spec fn value_spec(&self, prev: int, t: int) -> int {
        lerp(prev, resolve_spec(self.at.movement, prev), ease_value(self.ease, self.progress_spec(t)))
    }

    /// A keyframe driven by the clock.
    pub fn eager(at: MovementType, ease: Ease) -> (r: Frame)
        ensures
            r == (Frame { at, ease, percent: 0, is_eager: true }),
    {
        Frame { at, ease, percent: 0, is_eager: true }
    }

    /// A keyframe whose progress is pushed from outside, starting at `percent`
    /// (in thousandths; a ratio above one counts as one).
    pub fn lazy(at: MovementType, percent: u64, ease: Ease) -> (r: Frame)
        ensures
            r == (Frame { at, ease, percent, is_eager: false }),
    {
        Frame { at, ease, percent, is_eager: false }
    }

    /// The progress ratio `t` milliseconds after this keyframe began.
    pub fn progress(&self, t: u64) -> (r: u64)
        ensures
            r == self.progress_spec(t as int),
            r <= SCALE,
    {
        if !self.is_eager {
            if self.percent <= SCALE {
                self.percent
            } else {
                SCALE
            }
        } else if t >= self.at.duration {
            SCALE
        } else {
            proof {
                lemma_scaled_part(SCALE as int, 0);
                assert(t * SCALE <= self.at.duration * SCALE) by (nonlinear_arith)
                    requires
                        t < self.at.duration,
                ;
                lemma_div_is_ordered(t * SCALE, self.at.duration * SCALE, self.at.duration as int);
                lemma_div_multiples_vanish(SCALE as int, self.at.duration as int);
                assert(self.at.duration * SCALE == self.at.duration * (SCALE as int));
            }
            ((t as u128) * (SCALE as u128) / (self.at.duration as u128)) as u64
        }
    }

    /// The value `t` milliseconds after this keyframe began, moving from `prev`.
    pub fn value(&self, prev: i64, t: u64) -> (r: i64)
        ensures
            r == self.value_spec(prev as int, t as int),
    {
        let target = resolve(self.at.movement, prev);
        let p = self.progress(t);
        let e = self.ease.evaluate(p);
        interpolate(prev, target, e)
    }
}

} // verus!
