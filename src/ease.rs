use vstd::prelude::*;

verus! {

use vstd::arithmetic::div_mod::{lemma_div_is_ordered, lemma_div_multiples_vanish, lemma_div_pos_is_pos};

/// Denominator of every progress ratio: `SCALE` stands for a ratio of one.
pub const SCALE: u64 = 1000;

/// Modes of the linear curve. All of them are the identity.
#[derive(Debug, Clone, Copy, PartialEq, Eq, Structural)]
pub enum Linear {
    In,
    Out,
    InOut,
}

/// Modes of the cubic curve.
#[derive(Debug, Clone, Copy, PartialEq, Eq, Structural)]
pub enum Cubic {
    In,
    Out,
    InOut,
}

/// An easing curve, chosen per keyframe.
#[derive(Debug, Clone, Copy, PartialEq, Eq, Structural)]
pub enum Ease {
    Linear(Linear),
    Cubic(Cubic),
}

impl From<Linear> for Ease {
    fn from(l: Linear) -> (r: Ease)
        ensures
            r == Ease::Linear(l),
    {
        Ease::Linear(l)
    }
}

impl vstd::std_specs::convert::FromSpecImpl<Linear> for Ease {
    open spec fn obeys_from_spec() -> bool {
        true
    }

    open spec fn from_spec(l: Linear) -> Ease {
        Ease::Linear(l)
    }
}

impl From<Cubic> for Ease {
    fn from(c: Cubic) -> (r: Ease)
        ensures
            r == Ease::Cubic(c),
    {
        Ease::Cubic(c)
    }
}

impl vstd::std_specs::convert::FromSpecImpl<Cubic> for Ease {
    open spec fn obeys_from_spec() -> bool {
        true
    }

    open spec fn from_spec(c: Cubic) -> Ease {
        Ease::Cubic(c)
    }
}

/// `p * p * p / (SCALE * SCALE)`, rounded down.
pub open spec fn cube_scaled(p: int) -> int {
    (p * p * p) / (SCALE * SCALE) as int
}

/// The eased ratio (in thousandths) of the progress ratio `p` (in thousandths).
pub open spec fn ease_value(e: Ease, p: int) -> int {
    match e {
        Ease::Linear(_) => p,
        Ease::Cubic(Cubic::In) => cube_scaled(p),
        Ease::Cubic(Cubic::Out) => SCALE - cube_scaled(SCALE - p),
        Ease::Cubic(Cubic::InOut) => if 2 * p < SCALE {
            4 * cube_scaled(p)
        } else {
            SCALE - 4 * cube_scaled(SCALE - p)
        },
    }
}

proof fn lemma_cube_scaled_bounds(p: int)
    requires
        0 <= p <= SCALE,
    ensures
        0 <= cube_scaled(p) <= p,
        2 * p <= SCALE ==> 4 * cube_scaled(p) <= SCALE / 2,
{
    assert(0 <= p * p * p <= p * (SCALE * SCALE)) by (nonlinear_arith)
        requires
            0 <= p <= SCALE,
    ;
    assert(0 <= p * p * p) by (nonlinear_arith)
        requires
            0 <= p,
    ;
    let d = (SCALE * SCALE) as int;
    lemma_div_pos_is_pos(p * p * p, d);
    lemma_div_is_ordered(p * p * p, d * p, d);
    assert(p * (SCALE * SCALE) == d * p);
    lemma_div_multiples_vanish(p, d);
    if 2 * p <= SCALE {
        assert(8 * (p * p * p) <= SCALE * SCALE * SCALE) by (nonlinear_arith)
            requires
                0 <= p,
                2 * p <= SCALE,
        ;
        assert(4 * cube_scaled(p) <= SCALE / 2) by (nonlinear_arith)
            requires
                8 * (p * p * p) <= SCALE * SCALE * SCALE,
                cube_scaled(p) == (p * p * p) / d,
                d == SCALE * SCALE,
                p >= 0,
        ;
    }
}

/// Every curve stays within `[0, SCALE]` on progress ratios within `[0, SCALE]`.
pub proof fn lemma_ease_bounds(e: Ease, p: int)
    requires
        0 <= p <= SCALE,
    ensures
        0 <= ease_value(e, p) <= SCALE,
{
    lemma_cube_scaled_bounds(p);
    lemma_cube_scaled_bounds(SCALE - p);
}

/// Every easing curve maps a progress of zero to zero and a full progress to
/// a full progress, exactly.
pub proof fn lemma_ease_endpoints(e: Ease)
    ensures
        ease_value(e, 0) == 0,
        ease_value(e, SCALE as int) == SCALE,
{
    assert(cube_scaled(0) == 0);
    assert(cube_scaled(SCALE as int) == SCALE) by (nonlinear_arith);
}

fn cube_scaled_exec(p: u64) -> (r: u64)
    requires
        p <= SCALE,
    ensures
        r == cube_scaled(p as int),
        r <= p,
{
    proof {
        lemma_cube_scaled_bounds(p as int);
        assert(p * p * p <= SCALE * SCALE * SCALE) by (nonlinear_arith)
            requires
                p <= SCALE,
        ;
        assert(p * p <= SCALE * SCALE) by (nonlinear_arith)
            requires
                p <= SCALE,
        ;
    }
    p * p * p / (SCALE * SCALE)
}

impl Ease {
    /// The eased ratio of the progress ratio `progress`, both in thousandths.
    pub fn evaluate(&self, progress: u64) -> (r: u64)
        requires
            progress <= SCALE,
        ensures
            r == ease_value(*self, progress as int),
            r <= SCALE,
    {
        proof {
            lemma_ease_bounds(*self, progress as int);
            lemma_cube_scaled_bounds(progress as int);
            lemma_cube_scaled_bounds(SCALE - progress);
        }
        match self {
            Ease::Linear(_) => progress,
            Ease::Cubic(Cubic::In) => cube_scaled_exec(progress),
            Ease::Cubic(Cubic::Out) => SCALE - cube_scaled_exec(SCALE - progress),
            Ease::Cubic(Cubic::InOut) => {
                if 2 * progress < SCALE {
                    4 * cube_scaled_exec(progress)
                } else {
                    SCALE - 4 * cube_scaled_exec(SCALE - progress)
                }
            },
        }
    }
}

} // verus!
