use vstd::prelude::*;
use crate::chain::{
    animating, chain_value, dims_with_percent, has_lazy, lemma_lazy_hold, lemma_not_stalled, position,
    some_animating, stalled, total, value_at, Chain, Repeat,
};
use crate::frame::Frame;
use crate::id::{Id, IdView};

verus! {

/// What a timeline knows of one identity: its chain and, once started, the
/// instant (in milliseconds) at which it started.
pub struct Track {
    pub id: IdView,
    pub dims: Seq<Seq<Frame>>,
    pub repeat: Repeat,
    pub start: Option<u64>,
}

/// The track of identity `k`, if any.
pub open spec fn lookup(tracks: Seq<Track>, k: IdView) -> Option<Track> {
    if exists|i: int| 0 <= i < tracks.len() && (#[trigger] tracks[i]).id == k {
        Some(tracks[choose|i: int| 0 <= i < tracks.len() && (#[trigger] tracks[i]).id == k])
    } else {
        None
    }
}

/// No two tracks share an identity.
pub open spec fn distinct_ids(tracks: Seq<Track>) -> bool {
    forall|i: int, j: int|
        0 <= i < tracks.len() && 0 <= j < tracks.len() && i != j ==> #[trigger] tracks[i].id
            != #[trigger] tracks[j].id
}

proof fn lemma_lookup_unique(tracks: Seq<Track>, i: int)
    requires
        distinct_ids(tracks),
        0 <= i < tracks.len(),
    ensures
        lookup(tracks, tracks[i].id) == Some(tracks[i]),
{
    let k = tracks[i].id;
    assert(tracks[i].id == k);
    let j = choose|j: int| 0 <= j < tracks.len() && (#[trigger] tracks[j]).id == k;
    if j != i {
        assert(tracks[j].id != tracks[i].id);
    }
}

proof fn lemma_lookup_update(tracks: Seq<Track>, i: int, t: Track)
    requires
        distinct_ids(tracks),
        0 <= i < tracks.len(),
        t.id == tracks[i].id,
    ensures
        distinct_ids(tracks.update(i, t)),
        forall|k: IdView|
            #[trigger] lookup(tracks.update(i, t), k) == if k == t.id {
                Some(t)
            } else {
                lookup(tracks, k)
            },
{
    let u = tracks.update(i, t);
    assert(distinct_ids(u)) by {
        assert forall|a: int, b: int|
            0 <= a < u.len() && 0 <= b < u.len() && a != b implies #[trigger] u[a].id
            != #[trigger] u[b].id by {
            assert(u[a].id == tracks[a].id);
            assert(u[b].id == tracks[b].id);
        }
    }
    assert forall|k: IdView|
        #[trigger] lookup(u, k) == if k == t.id {
            Some(t)
        } else {
            lookup(tracks, k)
        } by {
        if k == t.id {
            assert(u[i] == t);
            lemma_lookup_unique(u, i);
        } else if exists|j: int| 0 <= j < tracks.len() && (#[trigger] tracks[j]).id == k {
            let j = choose|j: int| 0 <= j < tracks.len() && (#[trigger] tracks[j]).id == k;
            assert(j != i);
            assert(u[j] == tracks[j]);
            lemma_lookup_unique(u, j);
            lemma_lookup_unique(tracks, j);
        } else {
            assert forall|j: int| 0 <= j < u.len() implies (#[trigger] u[j]).id != k by {
                if j != i {
                    assert(u[j] == tracks[j]);
                }
            }
        }
    }
}

proof fn lemma_lookup_push(tracks: Seq<Track>, t: Track)
    requires
        distinct_ids(tracks),
        lookup(tracks, t.id) is None,
    ensures
        distinct_ids(tracks.push(t)),
        forall|k: IdView|
            #[trigger] lookup(tracks.push(t), k) == if k == t.id {
                Some(t)
            } else {
                lookup(tracks, k)
            },
{
    let u = tracks.push(t);
    let n = tracks.len() as int;
    assert forall|j: int| 0 <= j < n implies (#[trigger] tracks[j]).id != t.id by {
        if tracks[j].id == t.id {
            assert(exists|j: int| 0 <= j < tracks.len() && (#[trigger] tracks[j]).id == t.id);
        }
    }
    assert(distinct_ids(u)) by {
        assert forall|a: int, b: int|
            0 <= a < u.len() && 0 <= b < u.len() && a != b implies #[trigger] u[a].id
            != #[trigger] u[b].id by {
            if a < n {
                assert(u[a] == tracks[a]);
            }
            if b < n {
                assert(u[b] == tracks[b]);
            }
        }
    }
    assert forall|k: IdView|
        #[trigger] lookup(u, k) == if k == t.id {
            Some(t)
        } else {
            lookup(tracks, k)
        } by {
        if k == t.id {
            assert(u[n] == t);
            lemma_lookup_unique(u, n);
        } else if exists|j: int| 0 <= j < tracks.len() && (#[trigger] tracks[j]).id == k {
            let j = choose|j: int| 0 <= j < tracks.len() && (#[trigger] tracks[j]).id == k;
            assert(u[j] == tracks[j]);
            lemma_lookup_unique(u, j);
            lemma_lookup_unique(tracks, j);
        } else {
            assert forall|j: int| 0 <= j < u.len() implies (#[trigger] u[j]).id != k by {
                if j < n {
                    assert(u[j] == tracks[j]);
                }
            }
        }
    }
}

/// The value of dimension `d` of track `t` at instant `now`, once started.
pub open spec fn track_value(t: Track, d: int, now: u64) -> Option<i64> {
    match t.start {
        Some(s) => if 0 <= d < t.dims.len() {
            Some(chain_value(t.dims[d], t.repeat, now - s) as i64)
        } else {
            None
        },
        None => None,
    }
}

/// At least one dimension, each with at least one keyframe.
pub open spec fn well_shaped(dims: Seq<Seq<Frame>>) -> bool {
    &&& dims.len() > 0
    &&& forall|d: int| 0 <= d < dims.len() ==> (#[trigger] dims[d]).len() > 0
}

/// Whether track `t` still moves with the clock at instant `now`.
pub open spec fn track_animating(t: Track, now: u64) -> bool {
    match t.start {
        Some(s) => some_animating(t.dims, t.repeat, now - s),
        None => false,
    }
}

/// How often the host should deliver clock instants.
#[derive(Debug, Clone, Copy, PartialEq, Eq, Structural)]
pub enum Polling {
    /// Nothing moves with the clock: no instant is needed.
    Idle,
    /// Something is animating: deliver an instant every frame.
    EveryFrame,
}

struct Entry {
    chain: Chain,
    start: Option<u64>,
}

impl Entry {
    spec fn track(&self) -> Track {
        Track {
            id: self.chain.id_view(),
            dims: self.chain.dims_view(),
            repeat: self.chain.repeat_view(),
            start: self.start,
        }
    }
}

/// The registry of every animated identity: its chain, when it started, and
/// the latest clock instant seen.
pub struct Timeline {
    entries: Vec<Entry>,
    now: u64,
    next_serial: u64,
}

impl Timeline {
    /// The tracks, one per identity.
    pub closed spec fn tracks(&self) -> Seq<Track> {
        Seq::new(self.entries@.len(), |i: int| self.entries@[i].track())
    }

    /// The latest instant seen, in milliseconds.
    pub closed spec fn now_view(&self) -> u64 {
        self.now
    }

    /// The serial number that the next generated identity gets.
    pub closed spec fn next_serial_view(&self) -> u64 {
        self.next_serial
    }

    /// One track per identity, each with at least one keyframe, none started
    /// after the latest instant.
    pub open spec fn wf(&self) -> bool {
        &&& distinct_ids(self.tracks())
        &&& forall|i: int|
            0 <= i < self.tracks().len() ==> well_shaped((#[trigger] self.tracks()[i]).dims)
        &&& forall|i: int|
            0 <= i < self.tracks().len() ==> match (#[trigger] self.tracks()[i]).start {
                Some(s) => s <= self.now_view(),
                None => true,
            }
    }

    /// The track of identity `k`, if any.
    pub open spec fn track(&self, k: IdView) -> Option<Track> {
        lookup(self.tracks(), k)
    }

    /// What `get` returns for dimension `d` of identity `k`.
    pub open spec fn value_of(&self, k: IdView, d: int) -> Option<i64> {
        match self.track(k) {
            Some(t) => track_value(t, d, self.now_view()),
            None => None,
        }
    }

    /// Whether some started track still moves with the clock.
    pub open spec fn any_animating(&self) -> bool {
        exists|i: int|
            0 <= i < self.tracks().len() && track_animating(
                #[trigger] self.tracks()[i],
                self.now_view(),
            )
    }

    /// An empty timeline at instant zero.
    pub fn new() -> (r: Timeline)
        ensures
            r.wf(),
            r.tracks().len() == 0,
            r.now_view() == 0,
            r.next_serial_view() == 0,
            forall|k: IdView| r.track(k) is None,
    {
        let r = Timeline { entries: Vec::new(), now: 0, next_serial: 0 };
        assert(r.tracks().len() == 0);
        r
    }

    /// The index of the entry of `id`, if any.
    fn find(&self, id: &Id) -> (r: Option<usize>)
        requires
            self.wf(),
        ensures
            r matches Some(i) ==> i < self.tracks().len() && self.tracks()[i as int].id == id@
                && self.track(id@) == Some(self.tracks()[i as int]),
            r is None ==> self.track(id@) is None,
    {
        let mut i: usize = 0;
        while i < self.entries.len()
            invariant
                self.wf(),
                i <= self.entries@.len(),
                self.tracks().len() == self.entries@.len(),
                forall|j: int| 0 <= j < i ==> (#[trigger] self.tracks()[j]).id != id@,
            decreases self.entries@.len() - i,
        {
            if self.entries[i].chain.id().same(id) {
                proof {
                    assert(self.tracks()[i as int] == self.entries@[i as int].track());
                    lemma_lookup_unique(self.tracks(), i as int);
                }
                return Some(i);
            }
            assert(self.tracks()[i as int] == self.entries@[i as int].track());
            i = i + 1;
        }
        None
    }

    /// The latest instant seen.
    pub fn instant(&self) -> (r: u64)
        ensures
            r == self.now_view(),
    {
        self.now
    }

    /// Moves the clock to `instant`. An instant earlier than the latest one
    /// seen is ignored, and the same instant twice changes nothing.
    pub fn now(&mut self, instant: u64)
        requires
            old(self).wf(),
        ensures
            final(self).wf(),
            final(self).now_view() == if instant > old(self).now_view() {
                instant
            } else {
                old(self).now_view()
            },
            final(self).tracks() == old(self).tracks(),
            final(self).next_serial_view() == old(self).next_serial_view(),
    {
        if instant > self.now {
            self.now = instant;
        }
        assert(self.tracks() =~= old(self).tracks());
    }

    /// Installs `chain` for its identity, replacing any chain there with all
    /// its progress. The new chain is not started.
    pub fn set_chain(&mut self, chain: Chain)
        requires
            old(self).wf(),
            chain.wf(),
        ensures
            final(self).wf(),
            final(self).now_view() == old(self).now_view(),
            final(self).next_serial_view() == old(self).next_serial_view(),
            forall|k: IdView|
                #[trigger] final(self).track(k) == if k == chain.id_view() {
                    Some(
                        Track {
                            id: chain.id_view(),
                            dims: chain.dims_view(),
                            repeat: chain.repeat_view(),
                            start: None,
                        },
                    )
                } else {
                    old(self).track(k)
                },
    {
        let ghost t = Track {
            id: chain.id_view(),
            dims: chain.dims_view(),
            repeat: chain.repeat_view(),
            start: None,
        };
        let found = self.find(chain.id());
        let entry = Entry { chain, start: None };
        assert(entry.track() == t);
        match found {
            Some(i) => {
                self.entries[i] = entry;
                proof {
                    assert(self.tracks() =~= old(self).tracks().update(i as int, t));
                    lemma_lookup_update(old(self).tracks(), i as int, t);
                }
            },
            None => {
                self.entries.push(entry);
                proof {
                    assert(self.tracks() =~= old(self).tracks().push(t));
                    lemma_lookup_push(old(self).tracks(), t);
                }
            },
        }
    }

    /// Starts the chain of `id` at the latest instant seen. Returns whether
    /// `id` has a chain; without one nothing changes.
    pub fn start(&mut self, id: &Id) -> (r: bool)
        requires
            old(self).wf(),
        ensures
            final(self).wf(),
            r == old(self).track(id@) is Some,
            final(self).now_view() == old(self).now_view(),
            final(self).next_serial_view() == old(self).next_serial_view(),
            forall|k: IdView|
                #[trigger] final(self).track(k) == if k == id@ && old(self).track(k) is Some {
                    Some(Track { start: Some(old(self).now_view()), ..old(self).track(k)->Some_0 })
                } else {
                    old(self).track(k)
                },
    {
        match self.find(id) {
            Some(i) => {
                let ghost t = Track { start: Some(self.now), ..self.tracks()[i as int] };
                let entry = self.entries.remove(i);
                let started = Entry { chain: entry.chain, start: Some(self.now) };
                assert(started.track() == t);
                self.entries.insert(i, started);
                proof {
                    assert(self.tracks() =~= old(self).tracks().update(i as int, t));
                    lemma_lookup_update(old(self).tracks(), i as int, t);
                }
                true
            },
            None => false,
        }
    }

    /// Pushes the progress `percent` (in thousandths) into the lazy keyframes
    /// of the chain of `id`. Returns whether `id` has a chain; without one
    /// nothing changes.
    pub fn set_percent(&mut self, id: &Id, percent: u64) -> (r: bool)
        requires
            old(self).wf(),
        ensures
            final(self).wf(),
            r == old(self).track(id@) is Some,
            final(self).now_view() == old(self).now_view(),
            final(self).next_serial_view() == old(self).next_serial_view(),
            forall|k: IdView|
                #[trigger] final(self).track(k) == if k == id@ && old(self).track(k) is Some {
                    Some(
                        Track {
                            dims: dims_with_percent(old(self).track(k)->Some_0.dims, percent),
                            ..old(self).track(k)->Some_0
                        },
                    )
                } else {
                    old(self).track(k)
                },
    {
        match self.find(id) {
            Some(i) => {
                let ghost t = Track {
                    dims: dims_with_percent(self.tracks()[i as int].dims, percent),
                    ..self.tracks()[i as int]
                };
                let mut entry = self.entries.remove(i);
                entry.chain.set_lazy_percent(percent);
                assert(entry.track() == t);
                self.entries.insert(i, entry);
                proof {
                    assert(self.tracks() =~= old(self).tracks().update(i as int, t));
                    lemma_lookup_update(old(self).tracks(), i as int, t);
                }
                true
            },
            None => false,
        }
    }

    /// The current value of dimension `dimension` of `id`: none while `id`
    /// has no chain, its chain has not started, or has no such dimension.
    pub fn get(&self, id: &Id, dimension: usize) -> (r: Option<i64>)
        requires
            self.wf(),
        ensures
            r == self.value_of(id@, dimension as int),
    {
        match self.find(id) {
            Some(i) => {
                let entry = &self.entries[i];
                assert(entry.track() == self.tracks()[i as int]);
                match entry.start {
                    Some(s) => entry.chain.value(dimension, self.now - s),
                    None => None,
                }
            },
            None => None,
        }
    }

    /// Whether the host should keep delivering instants: every frame while
    /// some started chain still moves with the clock, idle otherwise.
    pub fn polling(&self) -> (r: Polling)
        requires
            self.wf(),
        ensures
            r == (if self.any_animating() {
                Polling::EveryFrame
            } else {
                Polling::Idle
            }),
    {
        let mut i: usize = 0;
        while i < self.entries.len()
            invariant
                self.wf(),
                i <= self.entries@.len(),
                self.tracks().len() == self.entries@.len(),
                forall|j: int|
                    0 <= j < i ==> !track_animating(#[trigger] self.tracks()[j], self.now_view()),
            decreases self.entries@.len() - i,
        {
            let entry = &self.entries[i];
            assert(entry.track() == self.tracks()[i as int]);
            if let Some(s) = entry.start {
                if entry.chain.is_animating(self.now - s) {
                    return Polling::EveryFrame;
                }
            }
            i = i + 1;
        }
        Polling::Idle
    }

    /// A fresh identity, different from every identity this timeline generated
    /// before.
    pub fn unique_id(&mut self) -> (r: Id)
        requires
            old(self).wf(),
            old(self).next_serial_view() < u64::MAX,
        ensures
            final(self).wf(),
            r@ == IdView::Unique(old(self).next_serial_view()),
            final(self).next_serial_view() == old(self).next_serial_view() + 1,
            final(self).now_view() == old(self).now_view(),
            final(self).tracks() == old(self).tracks(),
    {
        let r = Id::from_serial(self.next_serial);
        self.next_serial = self.next_serial + 1;
        assert(self.tracks() =~= old(self).tracks());
        r
    }
}

/// A timeline with no chain asks for no instants.
pub proof fn lemma_empty_is_idle(tl: Timeline)
    requires
        tl.tracks().len() == 0,
    ensures
        !tl.any_animating(),
{
}

/// A started chain with a dimension whose keyframes are all eager and take
/// some time asks for an instant every frame at the instant it starts; a
/// chain whose every dimension begins with a lazy keyframe never does.
pub proof fn lemma_started_polling(tl: Timeline, k: IdView, d: int)
    requires
        tl.wf(),
        tl.track(k) matches Some(t) && t.start == Some(tl.now_view()),
    ensures
        ({
            let t = tl.track(k)->Some_0;
            &&& 0 <= d < t.dims.len() && !has_lazy(t.dims[d]) && total(t.dims[d]) > 0
                ==> tl.any_animating()
            &&& (forall|j: int| 0 <= j < t.dims.len() ==> !(#[trigger] t.dims[j])[0].is_eager)
                ==> !track_animating(t, tl.now_view())
        }),
{
    let tracks = tl.tracks();
    let i = choose|i: int| 0 <= i < tracks.len() && (#[trigger] tracks[i]).id == k;
    let t = tracks[i];
    assert(tl.track(k) == Some(t));
    assert(well_shaped(t.dims));
    if 0 <= d < t.dims.len() && !has_lazy(t.dims[d]) && total(t.dims[d]) > 0 {
        let frames = t.dims[d];
        lemma_not_stalled(frames, 0);
        assert(0int % total(frames) == 0) by (nonlinear_arith)
            requires
                total(frames) > 0,
        ;
        assert(0int / total(frames) == 0) by (nonlinear_arith)
            requires
                total(frames) > 0,
        ;
        assert(animating(t.dims[d], t.repeat, 0));
        assert(track_animating(tracks[i], tl.now_view()));
    }
    if forall|j: int| 0 <= j < t.dims.len() ==> !(#[trigger] t.dims[j])[0].is_eager {
        assert forall|j: int| 0 <= j < t.dims.len() implies !animating(
            #[trigger] t.dims[j],
            t.repeat,
            0,
        ) by {
            assert(!t.dims[j][0].is_eager);
        }
    }
}

/// Right after a chain is installed and started, the value of each of its
/// dimensions is the new chain's own value at its start: nothing of an
/// earlier chain remains.
pub proof fn lemma_fresh_start(tl: Timeline, k: IdView, dims: Seq<Seq<Frame>>, repeat: Repeat, d: int)
    requires
        tl.track(k) == Some(Track { id: k, dims, repeat, start: Some(tl.now_view()) }),
        0 <= d < dims.len(),
    ensures
        tl.value_of(k, d) == Some(value_at(dims[d], 0) as i64),
{
    if total(dims[d]) > 0 {
        assert(0int % total(dims[d]) == 0) by (nonlinear_arith)
            requires
                total(dims[d]) > 0,
        ;
        assert(0int / total(dims[d]) == 0) by (nonlinear_arith)
            requires
                total(dims[d]) > 0,
        ;
    }
}

/// Moving the clock forward leaves the value of a dimension that stands on a
/// lazy keyframe as it was: only a pushed progress changes it.
pub proof fn lemma_clock_keeps_lazy(before: Timeline, after: Timeline, k: IdView, d: int)
    requires
        before.wf(),
        after.tracks() == before.tracks(),
        after.now_view() >= before.now_view(),
        before.track(k) matches Some(t) && t.start matches Some(s) && 0 <= d < t.dims.len()
            && stalled(t.dims[d], position(t.dims[d], t.repeat, before.now_view() - s)),
    ensures
        after.value_of(k, d) == before.value_of(k, d),
{
    let tracks = before.tracks();
    let i = choose|i: int| 0 <= i < tracks.len() && (#[trigger] tracks[i]).id == k;
    let t = tracks[i];
    assert(well_shaped(t.dims));
    assert(t.dims[d].len() > 0);
    let s = t.start->Some_0;
    lemma_lazy_hold(t.dims[d], t.repeat, before.now_view() - s, after.now_view() - s);
}

} // verus!
