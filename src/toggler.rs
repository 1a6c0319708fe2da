use vstd::prelude::*;
use crate::chain::{ChainError, Repeat};
use crate::ease::{Ease, Linear, SCALE};
use crate::frame::{Frame, Movement, MovementType};
use crate::id::{Id, IdView};
use crate::timeline::Timeline;

verus! {

/// One keyframe of a toggle switch: the switch's position (in thousandths,
/// `SCALE` being fully on) reached `duration` milliseconds after the previous
/// keyframe. An eager keyframe moves with the clock; a lazy one follows the
/// progress pushed into the timeline.
#[derive(Debug, Clone, Copy, PartialEq, Eq, Structural)]
#[must_use]
pub struct Toggler {
    pub duration: u64,
    pub ease: Ease,
    pub percent: i64,
    pub is_eager: bool,
}

/// The keyframe that a toggler keyframe stands for.
pub open spec fn frame_of(t: Toggler) -> Frame {
    Frame {
        at: MovementType { movement: Movement::Absolute(t.percent), duration: t.duration },
        ease: t.ease,
        percent: 0,
        is_eager: t.is_eager,
    }
}

impl Toggler {
    /// An eager keyframe, fully on, with a linear curve.
    pub fn new(duration: u64) -> (r: Toggler)
        ensures
            r == (Toggler {
                duration,
                ease: Ease::Linear(Linear::InOut),
                percent: SCALE as i64,
                is_eager: true,
            }),
    {
        Toggler { duration, ease: Ease::Linear(Linear::InOut), percent: SCALE as i64, is_eager: true }
    }

    /// A lazy keyframe, fully on, with a linear curve.
    pub fn lazy(duration: u64) -> (r: Toggler)
        ensures
            r == (Toggler {
                duration,
                ease: Ease::Linear(Linear::InOut),
                percent: SCALE as i64,
                is_eager: false,
            }),
    {
        Toggler {
            duration,
            ease: Ease::Linear(Linear::InOut),
            percent: SCALE as i64,
            is_eager: false,
        }
    }

    /// This keyframe with the position `percent`.
    pub fn percent(self, percent: i64) -> (r: Toggler)
        ensures
            r == (Toggler { percent, ..self }),
    {
        Toggler { percent, ..self }
    }

    /// This keyframe with the curve `ease`.
    pub fn ease(self, ease: Ease) -> (r: Toggler)
        ensures
            r == (Toggler { ease, ..self }),
    {
        Toggler { ease, ..self }
    }

    /// The keyframe this stands for. A lazy one starts with no pushed progress.
    pub fn to_frame(&self) -> (r: Frame)
        ensures
            r == frame_of(*self),
    {
        let at = MovementType::absolute(self.percent, self.duration);
        if self.is_eager {
            Frame::eager(at, self.ease)
        } else {
            Frame::lazy(at, 0, self.ease)
        }
    }

    /// The position to draw the switch of `id` at: the timeline's value when
    /// it has one, else fully on or fully off as `is_toggled` says.
    pub fn current_percent(id: &Id, timeline: &Timeline, is_toggled: bool) -> (r: i64)
        requires
            timeline.wf(),
        ensures
            r == match timeline.value_of(id@, 0) {
                Some(v) => v,
                None => if is_toggled {
                    SCALE as i64
                } else {
                    0
                },
            },
    {
        match timeline.get(id, 0) {
            Some(v) => v,
            None => if is_toggled {
                SCALE as i64
            } else {
                0
            },
        }
    }
}

/// A chain of toggler keyframes under construction.
#[derive(Debug, Clone)]
pub struct Chain {
    id: Id,
    links: Vec<Toggler>,
    repeat: Repeat,
}

impl Chain {
    pub closed spec fn id_view(&self) -> IdView {
        self.id@
    }

    pub closed spec fn links_view(&self) -> Seq<Toggler> {
        self.links@
    }

    pub closed spec fn repeat_view(&self) -> Repeat {
        self.repeat
    }

    /// An empty chain for `id` that does not repeat.
    pub fn new(id: Id) -> (r: Chain)
        ensures
            r.id_view() == id@,
            r.links_view() == Seq::<Toggler>::empty(),
            r.repeat_view() == Repeat::Never,
    {
        Chain { id, links: Vec::new(), repeat: Repeat::Never }
    }

    /// A chain for `id` over `children`, that does not repeat.
    pub fn with_children(id: Id, children: Vec<Toggler>) -> (r: Chain)
        ensures
            r.id_view() == id@,
            r.links_view() == children@,
            r.repeat_view() == Repeat::Never,
    {
        Chain { id, links: children, repeat: Repeat::Never }
    }

    /// This chain with `toggler` appended.
    pub fn link(self, toggler: Toggler) -> (r: Chain)
        ensures
            r.id_view() == self.id_view(),
            r.links_view() == self.links_view().push(toggler),
            r.repeat_view() == self.repeat_view(),
    {
        let mut c = self;
        c.links.push(toggler);
        c
    }

    /// This chain, repeating forever.
    pub fn loop_forever(self) -> (r: Chain)
        ensures
            r.id_view() == self.id_view(),
            r.links_view() == self.links_view(),
            r.repeat_view() == Repeat::Forever,
    {
        Chain { repeat: Repeat::Forever, ..self }
    }

    /// This chain, running once.
    pub fn loop_once(self) -> (r: Chain)
        ensures
            r.id_view() == self.id_view(),
            r.links_view() == self.links_view(),
            r.repeat_view() == Repeat::Never,
    {
        Chain { repeat: Repeat::Never, ..self }
    }

    /// This chain, running `n` passes in all.
    pub fn repeat_times(self, n: u32) -> (r: Chain)
        ensures
            r.id_view() == self.id_view(),
            r.links_view() == self.links_view(),
            r.repeat_view() == Repeat::Times(n),
    {
        Chain { repeat: Repeat::Times(n), ..self }
    }

    /// The timeline chain of these keyframes, refused when there are none.
    pub fn into_timeline_chain(self) -> (r: Result<crate::chain::Chain, ChainError>)
        ensures
            self.links_view().len() == 0 <==> r is Err,
            r is Err ==> r == Err::<crate::chain::Chain, ChainError>(ChainError::Empty),
            r matches Ok(c) ==> c.wf() && c.id_view() == self.id_view() && c.dims_view()
                == seq![self.links_view().map_values(|t: Toggler| frame_of(t))] && c.repeat_view()
                == self.repeat_view(),
    {
        let mut frames: Vec<Frame> = Vec::new();
        let mut i: usize = 0;
        while i < self.links.len()
            invariant
                i <= self.links@.len(),
                frames@ == self.links@.subrange(0, i as int).map_values(|t: Toggler| frame_of(t)),
            decreases self.links@.len() - i,
        {
            frames.push(self.links[i].to_frame());
            i = i + 1;
            assert(frames@ =~= self.links@.subrange(0, i as int).map_values(
                |t: Toggler| frame_of(t),
            ));
        }
        assert(self.links@.subrange(0, i as int) =~= self.links@);
        crate::chain::Chain::new(self.id, self.repeat, frames)
    }
}

impl Id {
    /// An empty toggler chain for this identity.
    pub fn into_chain(self) -> (r: Chain)
        ensures
            r.id_view() == self@,
            r.links_view() == Seq::<Toggler>::empty(),
            r.repeat_view() == Repeat::Never,
    {
        Chain::new(self)
    }

    /// A toggler chain for this identity over `children`.
    pub fn into_chain_with_children(self, children: Vec<Toggler>) -> (r: Chain)
        ensures
            r.id_view() == self@,
            r.links_view() == children@,
            r.repeat_view() == Repeat::Never,
    {
        Chain::with_children(self, children)
    }
}

} // verus!
