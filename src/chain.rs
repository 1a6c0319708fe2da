use vstd::prelude::*;
use crate::frame::{resolve, resolve_spec, Frame};
use crate::id::Id;

verus! {

/// What a chain does once its last keyframe is over.
#[derive(Debug, Clone, Copy, PartialEq, Eq, Structural)]
pub enum Repeat {
    /// Stay on the last keyframe's value.
    Never,
    /// Start over, without end.
    Forever,
    /// Run this many passes in all (at least one), then stay on the last value.
    Times(u32),
}

/// Why a chain could not be built.
#[derive(Debug, Clone, Copy, PartialEq, Eq, Structural)]
pub enum ChainError {
    /// A chain needs at least one keyframe.
    Empty,
}

/// The sum of the durations of the first `n` keyframes: the offset at which
/// keyframe `n` begins.
pub open spec fn offset(frames: Seq<Frame>, n: int) -> int
    decreases n,
{
    if n <= 0 {
        0
    } else {
        offset(frames, n - 1) + frames[n - 1].at.duration
    }
}

/// The length of one pass over all keyframes.
pub open spec fn total(frames: Seq<Frame>) -> int {
    offset(frames, frames.len() as int)
}

/// Whether some keyframe is lazy.
pub open spec fn has_lazy(frames: Seq<Frame>) -> bool {
    exists|i: int| 0 <= i < frames.len() && !(#[trigger] frames[i]).is_eager
}

/// The value that the first keyframe establishes.
pub open spec fn start_value(frames: Seq<Frame>) -> int {
    resolve_spec(frames[0].at.movement, 0)
}

/// The value at pass position `p`, from keyframe `i` on, where keyframe `i`
/// begins at `off` and moves from `prev`. The keyframe whose span
/// `[off, off + duration)` holds `p` gives the value; a lazy keyframe, once
/// reached, holds the chain on itself; past the last keyframe the last
/// resolved value stays.
pub open spec fn walk(frames: Seq<Frame>, i: int, prev: int, off: int, p: int) -> int
    decreases frames.len() - i,
{
    if i < 0 || i >= frames.len() {
        prev
    } else {
        let f = frames[i];
        if !f.is_eager || p < off + f.at.duration {
            f.value_spec(prev, p - off)
        } else {
            walk(frames, i + 1, resolve_spec(f.at.movement, prev), off + f.at.duration, p)
        }
    }
}

/// Whether position `p` stands on a lazy keyframe, walking from keyframe `i`
/// which begins at `off`.
pub open spec fn stalled_from(frames: Seq<Frame>, i: int, off: int, p: int) -> bool
    decreases frames.len() - i,
{
    if i < 0 || i >= frames.len() {
        false
    } else if !frames[i].is_eager {
        true
    } else if p < off + frames[i].at.duration {
        false
    } else {
        stalled_from(frames, i + 1, off + frames[i].at.duration, p)
    }
}

/// The value of a chain at pass position `p`. The first keyframe anchors the
/// start value and holds it over its own span.
pub open spec fn value_at(frames: Seq<Frame>, p: int) -> int {
    let f = frames[0];
    if !f.is_eager || p < f.at.duration {
        start_value(frames)
    } else {
        walk(frames, 1, start_value(frames), f.at.duration as int, p)
    }
}

/// Whether pass position `p` stands on a lazy keyframe.
pub open spec fn stalled(frames: Seq<Frame>, p: int) -> bool {
    if !frames[0].is_eager {
        true
    } else if p < frames[0].at.duration {
        false
    } else {
        stalled_from(frames, 1, frames[0].at.duration as int, p)
    }
}

/// The number of passes that `Times(n)` runs.
pub open spec fn passes(n: u32) -> int {
    if n == 0 {
        1
    } else {
        n as int
    }
}

/// Whether the repeat policy is exhausted `e` milliseconds after the start.
/// A chain with a lazy keyframe, or with no duration, makes one pass.
pub open spec fn done(frames: Seq<Frame>, repeat: Repeat, e: int) -> bool {
    let t = total(frames);
    if has_lazy(frames) || t == 0 {
        e >= t
    } else {
        match repeat {
            Repeat::Never => e >= t,
            Repeat::Forever => false,
            Repeat::Times(n) => e / t >= passes(n),
        }
    }
}

/// The position within a pass `e` milliseconds after the start.
pub open spec fn position(frames: Seq<Frame>, repeat: Repeat, e: int) -> int {
    let t = total(frames);
    if has_lazy(frames) || t == 0 {
        e
    } else {
        match repeat {
            Repeat::Never => e,
            Repeat::Forever => e % t,
            Repeat::Times(n) => if e / t >= passes(n) {
                t
            } else {
                e % t
            },
        }
    }
}

/// The value of the chain `e` milliseconds after it started.
pub open spec fn chain_value(frames: Seq<Frame>, repeat: Repeat, e: int) -> int {
    value_at(frames, position(frames, repeat, e))
}

/// Whether the chain still moves with the clock `e` milliseconds after it
/// started: its repeat policy is not exhausted and no lazy keyframe holds it.
pub open spec fn animating(frames: Seq<Frame>, repeat: Repeat, e: int) -> bool {
    !done(frames, repeat, e) && !stalled(frames, position(frames, repeat, e))
}

proof fn lemma_offset_bound(frames: Seq<Frame>, n: int)
    requires
        0 <= n <= frames.len(),
    ensures
        0 <= offset(frames, n) <= n * u64::MAX,
    decreases n,
{
    if n > 0 {
        lemma_offset_bound(frames, n - 1);
    }
}

/// The value that keyframe `i` and those after it resolve to, starting from `prev`.
pub open spec fn resolved_from(frames: Seq<Frame>, i: int, prev: int) -> int
    decreases frames.len() - i,
{
    if i < 0 || i >= frames.len() {
        prev
    } else {
        resolved_from(frames, i + 1, resolve_spec(frames[i].at.movement, prev))
    }
}

/// The value that the last keyframe resolves to.
pub open spec fn final_value(frames: Seq<Frame>) -> int {
    resolved_from(frames, 1, start_value(frames))
}

proof fn lemma_offset_monotone(frames: Seq<Frame>, j: int, k: int)
    requires
        0 <= j <= k <= frames.len(),
    ensures
        offset(frames, j) <= offset(frames, k),
    decreases k - j,
{
    if j < k {
        lemma_offset_monotone(frames, j, k - 1);
    }
}

proof fn lemma_walk_past_end(frames: Seq<Frame>, i: int, prev: int, p: int)
    requires
        0 <= i <= frames.len(),
        !has_lazy(frames),
        p >= total(frames),
    ensures
        walk(frames, i, prev, offset(frames, i), p) == resolved_from(frames, i, prev),
    decreases frames.len() - i,
{
    if i < frames.len() {
        assert(frames[i].is_eager);
        lemma_offset_monotone(frames, i + 1, frames.len() as int);
        lemma_walk_past_end(frames, i + 1, resolve_spec(frames[i].at.movement, prev), p);
    }
}

/// Once a whole pass is over, a chain without lazy keyframes stands on the
/// value its last keyframe resolves to.
pub proof fn lemma_value_after_pass(frames: Seq<Frame>, p: int)
    requires
        frames.len() > 0,
        !has_lazy(frames),
        p >= total(frames),
    ensures
        value_at(frames, p) == final_value(frames),
{
    assert(frames[0].is_eager);
    assert(offset(frames, 1) == frames[0].at.duration) by {
        assert(offset(frames, 0) == 0);
    }
    lemma_offset_monotone(frames, 1, frames.len() as int);
    lemma_walk_past_end(frames, 1, start_value(frames), p);
}

/// A chain that does not repeat ends on its last keyframe's value once a
/// pass is over, stops animating, and keeps that value at every later time.
pub proof fn lemma_never_terminal(frames: Seq<Frame>, e: int)
    requires
        frames.len() > 0,
        !has_lazy(frames),
        e >= total(frames),
    ensures
        done(frames, Repeat::Never, e),
        !animating(frames, Repeat::Never, e),
        chain_value(frames, Repeat::Never, e) == final_value(frames),
{
    lemma_value_after_pass(frames, e);
}

/// A chain repeated `n` times is done exactly from `n` whole passes on (one
/// pass for `n == 0`), and from then on stays on its last keyframe's value.
pub proof fn lemma_times_terminal(frames: Seq<Frame>, n: u32, e: int)
    requires
        frames.len() > 0,
        !has_lazy(frames),
        total(frames) > 0,
        e >= 0,
    ensures
        done(frames, Repeat::Times(n), e) <==> e >= passes(n) * total(frames),
        e >= passes(n) * total(frames) ==> chain_value(frames, Repeat::Times(n), e) == final_value(
            frames,
        ),
        e >= passes(n) * total(frames) ==> !animating(frames, Repeat::Times(n), e),
{
    let t = total(frames);
    let k = passes(n);
    vstd::arithmetic::div_mod::lemma_fundamental_div_mod(e, t);
    vstd::arithmetic::div_mod::lemma_mod_pos_bound(e, t);
    if e >= k * t {
        vstd::arithmetic::div_mod::lemma_div_is_ordered(k * t, e, t);
        vstd::arithmetic::div_mod::lemma_div_multiples_vanish(k, t);
        assert(k * t == t * k) by (nonlinear_arith);
        lemma_value_after_pass(frames, t);
    } else {
        assert(e / t < k) by (nonlinear_arith)
            requires
                e == t * (e / t) + (e % t),
                0 <= e % t < t,
                e < k * t,
                t > 0,
        ;
    }
    if e / t >= k {
        assert(e >= k * t) by (nonlinear_arith)
            requires
                e == t * (e / t) + (e % t),
                0 <= e % t,
                e / t >= k,
                t > 0,
        ;
    }
}

/// A chain that repeats forever has the same value one pass later.
pub proof fn lemma_forever_periodic(frames: Seq<Frame>, e: int)
    requires
        frames.len() > 0,
        !has_lazy(frames),
        total(frames) > 0,
        e >= 0,
    ensures
        chain_value(frames, Repeat::Forever, e + total(frames)) == chain_value(
            frames,
            Repeat::Forever,
            e,
        ),
        animating(frames, Repeat::Forever, e),
{
    vstd::arithmetic::div_mod::lemma_mod_add_multiples_vanish(e, total(frames));
    vstd::arithmetic::div_mod::lemma_mod_pos_bound(e, total(frames));
    let p = e % total(frames);
    lemma_not_stalled(frames, p);
}

proof fn lemma_not_stalled_from(frames: Seq<Frame>, i: int, off: int, p: int)
    requires
        !has_lazy(frames),
    ensures
        !stalled_from(frames, i, off, p),
    decreases frames.len() - i,
{
    if 0 <= i < frames.len() {
        assert(frames[i].is_eager);
        lemma_not_stalled_from(frames, i + 1, off + frames[i].at.duration, p);
    }
}

pub proof fn lemma_not_stalled(frames: Seq<Frame>, p: int)
    requires
        frames.len() > 0,
        !has_lazy(frames),
    ensures
        !stalled(frames, p),
{
    assert(frames[0].is_eager);
    lemma_not_stalled_from(frames, 1, frames[0].at.duration as int, p);
}

proof fn lemma_hold_from(frames: Seq<Frame>, i: int, prev: int, off: int, p1: int, p2: int)
    requires
        stalled_from(frames, i, off, p1),
        p1 <= p2,
    ensures
        stalled_from(frames, i, off, p2),
        walk(frames, i, prev, off, p2) == walk(frames, i, prev, off, p1),
        has_lazy(frames),
    decreases frames.len() - i,
{
    let f = frames[i];
    if !f.is_eager {
        assert(f.progress_spec(p1 - off) == f.progress_spec(p2 - off));
        assert(!frames[i].is_eager);
    } else {
        lemma_hold_from(
            frames,
            i + 1,
            resolve_spec(f.at.movement, prev),
            off + f.at.duration,
            p1,
            p2,
        );
    }
}

/// Once a chain stands on a lazy keyframe, later times change neither its
/// value nor the fact that it stands there: only a pushed progress moves it.
pub proof fn lemma_lazy_hold(frames: Seq<Frame>, repeat: Repeat, e1: int, e2: int)
    requires
        frames.len() > 0,
        e1 <= e2,
        stalled(frames, position(frames, repeat, e1)),
    ensures
        chain_value(frames, repeat, e2) == chain_value(frames, repeat, e1),
        stalled(frames, position(frames, repeat, e2)),
        !animating(frames, repeat, e2),
{
    let f = frames[0];
    let p1 = position(frames, repeat, e1);
    if !f.is_eager {
        assert(!frames[0].is_eager);
    } else {
        lemma_hold_from(frames, 1, start_value(frames), f.at.duration as int, p1, p1);
        lemma_hold_from(frames, 1, start_value(frames), f.at.duration as int, p1, e2);
    }
    assert(has_lazy(frames));
}

/// `frames` with the progress `percent` pushed into every lazy keyframe.
pub open spec fn with_percent(frames: Seq<Frame>, percent: u64) -> Seq<Frame> {
    frames.map_values(
        |f: Frame|
            if f.is_eager {
                f
            } else {
                Frame { percent, ..f }
            },
    )
}

/// The keyframes of one animated dimension, in order. Once inside a chain it
/// holds at least one keyframe.
#[derive(Debug, Clone)]
pub struct Keyframes {
    frames: Vec<Frame>,
}

impl Keyframes {
    pub closed spec fn frames_view(&self) -> Seq<Frame> {
        self.frames@
    }

    /// The keyframes `frames`, in order.
    pub fn new(frames: Vec<Frame>) -> (r: Keyframes)
        ensures
            r.frames_view() == frames@,
    {
        Keyframes { frames }
    }

    /// The number of keyframes.
    pub fn len(&self) -> (r: usize)
        ensures
            r == self.frames_view().len(),
    {
        self.frames.len()
    }

    /// The length of one pass, in milliseconds.
    pub fn total_duration(&self) -> (r: u128)
        ensures
            r == total(self.frames_view()),
    {
        let mut sum: u128 = 0;
        let mut i: usize = 0;
        while i < self.frames.len()
            invariant
                i <= self.frames@.len(),
                sum == offset(self.frames@, i as int),
            decreases self.frames@.len() - i,
        {
            proof {
                lemma_offset_bound(self.frames@, i as int + 1);
                assert((i + 1) * u64::MAX < u128::MAX) by (nonlinear_arith)
                    requires
                        i < usize::MAX,
                ;
            }
            sum = sum + self.frames[i].at.duration as u128;
            i = i + 1;
        }
        sum
    }

    /// Whether some keyframe is lazy.
    pub fn has_lazy_frame(&self) -> (r: bool)
        ensures
            r == has_lazy(self.frames_view()),
    {
        let mut i: usize = 0;
        while i < self.frames.len()
            invariant
                i <= self.frames@.len(),
                forall|j: int| 0 <= j < i ==> (#[trigger] self.frames@[j]).is_eager,
            decreases self.frames@.len() - i,
        {
            if !self.frames[i].is_eager {
                return true;
            }
            i = i + 1;
        }
        false
    }

    /// Pushes the progress `percent` (in thousandths) into every lazy keyframe.
    pub fn set_lazy_percent(&mut self, percent: u64)
        ensures
            final(self).frames_view() == with_percent(old(self).frames_view(), percent),
    {
        let ghost start = self.frames@;
        let mut i: usize = 0;
        while i < self.frames.len()
            invariant
                self.frames@.len() == start.len(),
                i <= start.len(),
                start == old(self).frames_view(),
                forall|j: int|
                    0 <= j < i ==> #[trigger] self.frames@[j] == with_percent(start, percent)[j],
                forall|j: int| i <= j < start.len() ==> #[trigger] self.frames@[j] == start[j],
            decreases start.len() - i,
        {
            let f = self.frames[i];
            if !f.is_eager {
                self.frames[i] = Frame { percent, ..f };
            }
            i = i + 1;
        }
        assert(self.frames@ =~= with_percent(start, percent));
    }

    /// The value at pass position `p` (milliseconds into a pass).
    pub fn value_at_position(&self, p: u128) -> (r: i64)
        requires
            self.frames_view().len() > 0,
        ensures
            r == value_at(self.frames_view(), p as int),
    {
        let f0 = self.frames[0];
        let start = resolve(f0.at.movement, 0);
        if !f0.is_eager || p < f0.at.duration as u128 {
            return start;
        }
        let ghost frames = self.frames@;
        let mut prev: i64 = start;
        let mut off: u128 = f0.at.duration as u128;
        let mut i: usize = 1;
        assert(offset(frames, 1) == f0.at.duration) by {
            assert(offset(frames, 0) == 0);
        }
        while i < self.frames.len()
            invariant
                frames == self.frames@,
                frames.len() > 0,
                1 <= i <= frames.len(),
                off == offset(frames, i as int),
                off <= p,
                walk(frames, 1, start as int, f0.at.duration as int, p as int) == walk(
                    frames,
                    i as int,
                    prev as int,
                    off as int,
                    p as int,
                ),
                value_at(frames, p as int) == walk(frames, 1, start as int, f0.at.duration as int, p as int),
            decreases frames.len() - i,
        {
            let f = self.frames[i];
            proof {
                lemma_offset_bound(frames, i as int + 1);
                assert((i + 1) * u64::MAX < u128::MAX) by (nonlinear_arith)
                    requires
                        i < usize::MAX,
                ;
            }
            if !f.is_eager || p < off + f.at.duration as u128 {
                let t: u64 = if f.is_eager {
                    (p - off) as u64
                } else {
                    0
                };
                return f.value(prev, t);
            }
            prev = resolve(f.at.movement, prev);
            off = off + f.at.duration as u128;
            i = i + 1;
        }
        prev
    }

    /// Whether pass position `p` stands on a lazy keyframe.
    pub fn is_stalled_at(&self, p: u128) -> (r: bool)
        requires
            self.frames_view().len() > 0,
        ensures
            r == stalled(self.frames_view(), p as int),
    {
        let f0 = self.frames[0];
        if !f0.is_eager {
            return true;
        }
        if p < f0.at.duration as u128 {
            return false;
        }
        let ghost frames = self.frames@;
        let mut off: u128 = f0.at.duration as u128;
        let mut i: usize = 1;
        assert(offset(frames, 1) == f0.at.duration) by {
            assert(offset(frames, 0) == 0);
        }
        while i < self.frames.len()
            invariant
                frames == self.frames@,
                frames.len() > 0,
                1 <= i <= frames.len(),
                off == offset(frames, i as int),
                stalled(frames, p as int) == stalled_from(frames, i as int, off as int, p as int),
            decreases frames.len() - i,
        {
            let f = self.frames[i];
            proof {
                lemma_offset_bound(frames, i as int + 1);
                assert((i + 1) * u64::MAX < u128::MAX) by (nonlinear_arith)
                    requires
                        i < usize::MAX,
                ;
            }
            if !f.is_eager {
                return true;
            }
            if p < off + f.at.duration as u128 {
                return false;
            }
            off = off + f.at.duration as u128;
            i = i + 1;
        }
        false
    }

    /// Whether the repeat policy is exhausted `elapsed` milliseconds after the start.
    pub fn is_done(&self, repeat: Repeat, elapsed: u64) -> (r: bool)
        ensures
            r == done(self.frames_view(), repeat, elapsed as int),
    {
        let t = self.total_duration();
        if self.has_lazy_frame() || t == 0 {
            return elapsed as u128 >= t;
        }
        match repeat {
            Repeat::Never => elapsed as u128 >= t,
            Repeat::Forever => false,
            Repeat::Times(n) => {
                let n: u128 = if n == 0 {
                    1
                } else {
                    n as u128
                };
                elapsed as u128 / t >= n
            },
        }
    }

    /// The position within a pass `elapsed` milliseconds after the start.
    pub fn position(&self, repeat: Repeat, elapsed: u64) -> (r: u128)
        ensures
            r == position(self.frames_view(), repeat, elapsed as int),
    {
        let t = self.total_duration();
        if self.has_lazy_frame() || t == 0 {
            return elapsed as u128;
        }
        match repeat {
            Repeat::Never => elapsed as u128,
            Repeat::Forever => elapsed as u128 % t,
            Repeat::Times(n) => {
                let n: u128 = if n == 0 {
                    1
                } else {
                    n as u128
                };
                if elapsed as u128 / t >= n {
                    t
                } else {
                    elapsed as u128 % t
                }
            },
        }
    }

    /// The value `elapsed` milliseconds after the chain started.
    pub fn value(&self, repeat: Repeat, elapsed: u64) -> (r: i64)
        requires
            self.frames_view().len() > 0,
        ensures
            r == chain_value(self.frames_view(), repeat, elapsed as int),
    {
        let p = self.position(repeat, elapsed);
        self.value_at_position(p)
    }

    /// Whether the chain still moves with the clock `elapsed` milliseconds
    /// after it started.
    pub fn is_animating(&self, repeat: Repeat, elapsed: u64) -> (r: bool)
        requires
            self.frames_view().len() > 0,
        ensures
            r == animating(self.frames_view(), repeat, elapsed as int),
    {
        if self.is_done(repeat, elapsed) {
            return false;
        }
        let p = self.position(repeat, elapsed);
        !self.is_stalled_at(p)
    }
}

/// Whether some dimension still moves with the clock `e` milliseconds after
/// the start.
pub open spec fn some_animating(dims: Seq<Seq<Frame>>, repeat: Repeat, e: int) -> bool {
    exists|d: int| 0 <= d < dims.len() && animating(#[trigger] dims[d], repeat, e)
}

/// `dims` with the progress `percent` pushed into every lazy keyframe.
pub open spec fn dims_with_percent(dims: Seq<Seq<Frame>>, percent: u64) -> Seq<Seq<Frame>> {
    dims.map_values(|frames: Seq<Frame>| with_percent(frames, percent))
}

/// An animation for one identity: one sequence of keyframes per animated
/// dimension, all on the same clock and under the same repeat policy. Every
/// dimension holds at least one keyframe.
#[derive(Debug, Clone)]
pub struct Chain {
    id: Id,
    dims: Vec<Keyframes>,
    repeat: Repeat,
}

impl Chain {
    pub closed spec fn id_view(&self) -> crate::id::IdView {
        self.id@
    }

    /// The keyframes of each dimension.
    pub closed spec fn dims_view(&self) -> Seq<Seq<Frame>> {
        Seq::new(self.dims@.len(), |d: int| self.dims@[d].frames_view())
    }

    pub closed spec fn repeat_view(&self) -> Repeat {
        self.repeat
    }

    /// At least one dimension, each with at least one keyframe.
    pub open spec fn wf(&self) -> bool {
        &&& self.dims_view().len() > 0
        &&& forall|d: int|
            0 <= d < self.dims_view().len() ==> (#[trigger] self.dims_view()[d]).len() > 0
    }

    /// A chain for `id` with the one dimension `frames`, refused when
    /// `frames` is empty.
    pub fn new(id: Id, repeat: Repeat, frames: Vec<Frame>) -> (r: Result<Chain, ChainError>)
        ensures
            frames@.len() == 0 <==> r is Err,
            r is Err ==> r == Err::<Chain, ChainError>(ChainError::Empty),
            r matches Ok(c) ==> c.wf() && c.id_view() == id@ && c.dims_view() == seq![frames@]
                && c.repeat_view() == repeat,
    {
        if frames.len() == 0 {
            Err(ChainError::Empty)
        } else {
            let mut dims: Vec<Keyframes> = Vec::new();
            dims.push(Keyframes::new(frames));
            let c = Chain { id, dims, repeat };
            assert(c.dims_view() =~= seq![frames@]);
            Ok(c)
        }
    }

    /// A chain for `id` with one dimension per entry of `dims`, refused when
    /// there is no dimension or a dimension has no keyframe.
    pub fn with_dimensions(id: Id, repeat: Repeat, dims: Vec<Vec<Frame>>) -> (r: Result<
        Chain,
        ChainError,
    >)
        ensures
            (dims@.len() == 0 || exists|d: int| 0 <= d < dims@.len() && (#[trigger] dims@[d])@.len()
                == 0) <==> r is Err,
            r is Err ==> r == Err::<Chain, ChainError>(ChainError::Empty),
            r matches Ok(c) ==> c.wf() && c.id_view() == id@ && c.dims_view() == Seq::new(
                dims@.len(),
                |d: int| dims@[d]@,
            ) && c.repeat_view() == repeat,
    {
        let ghost orig = dims@;
        let ghost n = dims@.len();
        let mut rest = dims;
        let mut out: Vec<Keyframes> = Vec::new();
        let mut any_empty = false;
        while rest.len() > 0
            invariant
                out@.len() + rest@.len() == n,
                n == orig.len(),
                rest@ == orig.subrange(out@.len() as int, n as int),
                forall|d: int| 0 <= d < out@.len() ==> (#[trigger] out@[d]).frames_view() == orig[d]@,
                any_empty == exists|d: int| 0 <= d < out@.len() && (#[trigger] orig[d])@.len() == 0,
            decreases rest@.len(),
        {
            let frames = rest.remove(0);
            assert(frames@ == orig[out@.len() as int]@);
            if frames.len() == 0 {
                any_empty = true;
            }
            out.push(Keyframes::new(frames));
            assert(rest@ =~= orig.subrange(out@.len() as int, n as int));
        }
        if out.len() == 0 || any_empty {
            return Err(ChainError::Empty);
        }
        let c = Chain { id, dims: out, repeat };
        assert(c.dims_view() =~= Seq::new(orig.len(), |d: int| orig[d]@));
        Ok(c)
    }

    /// The identity this chain animates.
    pub fn id(&self) -> (r: &Id)
        ensures
            r@ == self.id_view(),
    {
        &self.id
    }

    /// The repeat policy.
    pub fn repeat(&self) -> (r: Repeat)
        ensures
            r == self.repeat_view(),
    {
        self.repeat
    }

    /// The number of dimensions.
    pub fn dimensions(&self) -> (r: usize)
        ensures
            r == self.dims_view().len(),
    {
        self.dims.len()
    }

    /// The keyframes of dimension `dimension`.
    pub fn keyframes(&self, dimension: usize) -> (r: &Keyframes)
        requires
            dimension < self.dims_view().len(),
        ensures
            r.frames_view() == self.dims_view()[dimension as int],
    {
        &self.dims[dimension]
    }

    /// The value of dimension `dimension` `elapsed` milliseconds after the
    /// chain started; none for a dimension the chain does not have.
    pub fn value(&self, dimension: usize, elapsed: u64) -> (r: Option<i64>)
        requires
            self.wf(),
        ensures
            r == if dimension < self.dims_view().len() {
                Some(chain_value(self.dims_view()[dimension as int], self.repeat_view(), elapsed as int) as i64)
            } else {
                None::<i64>
            },
    {
        if dimension < self.dims.len() {
            assert(self.dims@[dimension as int].frames_view() == self.dims_view()[dimension as int]);
            Some(self.dims[dimension].value(self.repeat, elapsed))
        } else {
            None
        }
    }

    /// Whether some dimension still moves with the clock `elapsed`
    /// milliseconds after the chain started.
    pub fn is_animating(&self, elapsed: u64) -> (r: bool)
        requires
            self.wf(),
        ensures
            r == some_animating(self.dims_view(), self.repeat_view(), elapsed as int),
    {
        let mut d: usize = 0;
        while d < self.dims.len()
            invariant
                self.wf(),
                d <= self.dims_view().len(),
                self.dims_view().len() == self.dims@.len(),
                forall|j: int|
                    0 <= j < d ==> !animating(
                        #[trigger] self.dims_view()[j],
                        self.repeat_view(),
                        elapsed as int,
                    ),
            decreases self.dims@.len() - d,
        {
            assert(self.dims@[d as int].frames_view() == self.dims_view()[d as int]);
            if self.dims[d].is_animating(self.repeat, elapsed) {
                return true;
            }
            d = d + 1;
        }
        false
    }

    /// Pushes the progress `percent` (in thousandths) into every lazy
    /// keyframe of every dimension.
    pub fn set_lazy_percent(&mut self, percent: u64)
        ensures
            final(self).id_view() == old(self).id_view(),
            final(self).repeat_view() == old(self).repeat_view(),
            final(self).dims_view() == dims_with_percent(old(self).dims_view(), percent),
    {
        let ghost start = self.dims_view();
        let mut d: usize = 0;
        while d < self.dims.len()
            invariant
                self.dims@.len() == start.len(),
                d <= start.len(),
                self.id@ == old(self).id_view(),
                self.repeat == old(self).repeat_view(),
                start == old(self).dims_view(),
                forall|j: int|
                    0 <= j < d ==> (#[trigger] self.dims@[j]).frames_view() == with_percent(
                        start[j],
                        percent,
                    ),
                forall|j: int| d <= j < start.len() ==> (#[trigger] self.dims@[j]).frames_view() == start[j],
            decreases start.len() - d,
        {
            let mut k = self.dims.remove(d);
            assert(k.frames_view() == start[d as int]);
            k.set_lazy_percent(percent);
            let ghost before = self.dims@;
            self.dims.insert(d, k);
            proof {
                assert forall|j: int| 0 <= j < start.len() && j != d implies #[trigger] self.dims@[j]
                    == before[if j < d { j } else { j - 1 }] by {}
            }
            d = d + 1;
        }
        assert(self.dims_view() =~= dims_with_percent(start, percent));
    }
}

} // verus!
