//! The capture session: which segment receives each captured frame, how
//! rotation replaces the open segment, and how the session stops.
//!
//! The session is the state kept under the lock that guards the active
//! writer. The capture callback calls `push` after a non-blocking attempt at
//! that lock (a failed attempt drops the frame); the rotation schedule calls
//! `rotate` under the blocking acquire. A ghost history records, for every
//! pushed frame, whether it was kept and which segment received it.

use vstd::prelude::*;
use crate::naming::{later, Stamp};

verus! {

#[derive(Clone, Copy, Debug, PartialEq, Eq)]
pub enum SegmentState {
    Open,
    Finalized,
}

/// A segment's lifecycle misuse: appending to, or finalizing, a finalized segment.
#[derive(Clone, Copy, Debug, PartialEq, Eq)]
pub enum SegmentError {
    InvalidState,
}

/// One recording segment: when it started and whether it still accepts samples.
#[derive(Clone, Copy, Debug, PartialEq, Eq)]
pub struct Segment {
    pub start: Stamp,
    pub state: SegmentState,
}

impl Segment {
    /// A newly created segment, open for samples.
    pub fn open(start: Stamp) -> (r: Segment)
        ensures
            r.start == start,
            r.state == SegmentState::Open,
    {
        Segment { start, state: SegmentState::Open }
    }

    /// Whether samples may still be appended.
    pub fn check_append(&self) -> (r: Result<(), SegmentError>)
        ensures
            r is Ok <==> self.state == SegmentState::Open,
            r matches Err(e) ==> e == SegmentError::InvalidState,
    {
        match self.state {
            SegmentState::Open => Ok(()),
            SegmentState::Finalized => Err(SegmentError::InvalidState),
        }
    }

    /// Closes the segment; it accepts no samples afterwards. Fails, changing
    /// nothing, if the segment is already finalized.
    pub fn finalize(&mut self) -> (r: Result<(), SegmentError>)
        ensures
            r is Ok <==> old(self).state == SegmentState::Open,
            r matches Err(e) ==> e == SegmentError::InvalidState,
            final(self).start == old(self).start,
            final(self).state == SegmentState::Finalized,
    {
        match self.state {
            SegmentState::Open => {
                self.state = SegmentState::Finalized;
                Ok(())
            },
            SegmentState::Finalized => Err(SegmentError::InvalidState),
        }
    }
}

#[derive(Clone, Copy, Debug, PartialEq, Eq)]
pub enum Phase {
    Idle,
    Streaming,
    Stopped,
}

/// What became of a pushed frame.
#[derive(Clone, Copy, Debug, PartialEq, Eq)]
pub enum Delivery {
    Appended,
    Dropped,
}

/// What a rotation tick did.
#[derive(Clone, Copy, Debug, PartialEq, Eq)]
pub enum Rotation {
    /// The new segment is active; the previous one, returned finalized, is to be closed.
    Swapped { finished: Segment },
    /// The next segment could not be created; the current one stays active.
    Skipped,
}

#[derive(Clone, Copy, Debug, PartialEq, Eq)]
pub enum SessionError {
    /// The operation does not fit the session's phase.
    InvalidState,
    /// The first segment could not be created.
    SegmentCreate,
}

pub ghost struct SessionView {
    pub phase: Phase,
    pub active: Option<Segment>,
    /// The start of every segment of the session, in creation order.
    pub starts: Seq<Stamp>,
    /// The numbers of the frames each segment received, in arrival order.
    pub frames: Seq<Seq<nat>>,
    /// For each pushed frame, in push order, whether it was kept.
    pub fate: Seq<bool>,
    /// For each segment, how many frames had been pushed when it opened.
    pub opened: Seq<nat>,
}

pub ghost struct History {
    pub starts: Seq<Stamp>,
    pub frames: Seq<Seq<nat>>,
    pub fate: Seq<bool>,
    pub opened: Seq<nat>,
}

pub struct Session {
    phase: Phase,
    active: Option<Segment>,
    history: Ghost<History>,
}

/// The concatenation of `s`, in order.
pub open spec fn flatten(s: Seq<Seq<nat>>) -> Seq<nat>
    decreases s.len(),
{
    if s.len() == 0 {
        Seq::empty()
    } else {
        flatten(s.drop_last()) + s.last()
    }
}

/// The numbers, from `a` on, of the kept frames, in push order.
pub open spec fn kept_since(fate: Seq<bool>, a: nat) -> Seq<nat>
    decreases fate.len(),
{
    if fate.len() == 0 {
        Seq::empty()
    } else {
        kept_since(fate.drop_last(), a) + if fate.last() && fate.len() - 1 >= a {
            seq![(fate.len() - 1) as nat]
        } else {
            Seq::empty()
        }
    }
}

/// The numbers of the kept frames, in push order.
pub open spec fn kept(fate: Seq<bool>) -> Seq<nat>
    decreases fate.len(),
{
    if fate.len() == 0 {
        Seq::empty()
    } else {
        kept(fate.drop_last()) + if fate.last() {
            seq![(fate.len() - 1) as nat]
        } else {
            Seq::empty()
        }
    }
}

impl View for Session {
    type V = SessionView;

    closed spec fn view(&self) -> SessionView {
        SessionView {
            phase: self.phase,
            active: self.active,
            starts: self.history@.starts,
            frames: self.history@.frames,
            fate: self.history@.fate,
            opened: self.history@.opened,
        }
    }
}

impl Session {
    /// The session's invariant: exactly one open segment while streaming,
    /// the newest one; the frames of all segments, in segment order, are the
    /// kept frames in push order; each segment's frames are in push order,
    /// and every frame of a segment was pushed before any frame of a later one.
    pub open spec fn wf(&self) -> bool {
        let v = self@;
        &&& v.starts.len() == v.frames.len()
        &&& v.opened.len() == v.frames.len()
        &&& v.phase is Streaming ==> v.opened.last() <= v.fate.len() && v.frames.last()
            == kept_since(v.fate, v.opened.last())
        &&& v.phase is Idle ==> v.active is None && v.starts.len() == 0
        &&& v.phase is Stopped ==> v.active is None
        &&& v.phase is Streaming ==> v.starts.len() > 0 && v.active == Some(
            Segment { start: v.starts.last(), state: SegmentState::Open },
        )
        &&& flatten(v.frames) == kept(v.fate)
        &&& forall|i: int, j: int|
            0 <= i < v.frames.len() && 0 <= j < v.frames[i].len() ==> #[trigger] v.frames[i][j]
                < v.fate.len()
        &&& forall|i: int, j: int, k: int|
            0 <= i < v.frames.len() && 0 <= j < k < v.frames[i].len() ==> #[trigger] v.frames[i][j]
                < #[trigger] v.frames[i][k]
        &&& forall|i: int, i2: int, j: int, k: int|
            0 <= i < i2 < v.frames.len() && 0 <= j < v.frames[i].len() && 0 <= k
                < v.frames[i2].len() ==> #[trigger] v.frames[i][j] < #[trigger] v.frames[i2][k]
    }

    /// A session that has not started.
    pub fn new() -> (r: Session)
        ensures
            r.wf(),
            r@.phase == Phase::Idle,
            r@.fate.len() == 0,
    {
        Session {
            phase: Phase::Idle,
            active: None,
            history: Ghost(
                History {
                    starts: Seq::empty(),
                    frames: Seq::empty(),
                    fate: Seq::empty(),
                    opened: Seq::empty(),
                },
            ),
        }
    }

    pub fn phase(&self) -> (r: Phase)
        ensures
            r == self@.phase,
    {
        self.phase
    }

    /// The open segment, if any.
    pub fn active(&self) -> (r: Option<Segment>)
        ensures
            r == self@.active,
    {
        self.active
    }

    /// Starts streaming into the first segment, whose creation is reported by
    /// `created`. Fails if the session already started, or if the segment
    /// could not be created (the session then stays idle).
    pub fn start(&mut self, first: Stamp, created: bool) -> (r: Result<(), SessionError>)
        requires
            old(self).wf(),
        ensures
            final(self).wf(),
            !(old(self)@.phase is Idle) ==> r == Err::<(), SessionError>(SessionError::InvalidState)
                && final(self)@ == old(self)@,
            old(self)@.phase is Idle && !created ==> r == Err::<(), SessionError>(
                SessionError::SegmentCreate,
            ) && final(self)@ == old(self)@,
            old(self)@.phase is Idle && created ==> r is Ok && final(self)@ == (SessionView {
                phase: Phase::Streaming,
                active: Some(Segment { start: first, state: SegmentState::Open }),
                starts: seq![first],
                frames: seq![Seq::empty()],
                fate: old(self)@.fate,
                opened: seq![old(self)@.fate.len()],
            }),
    {
        if !matches!(self.phase, Phase::Idle) {
            return Err(SessionError::InvalidState);
        }
        if !created {
            return Err(SessionError::SegmentCreate);
        }
        self.phase = Phase::Streaming;
        self.active = Some(Segment::open(first));
        let ghost fate = self.history@.fate;
        self.history = Ghost(
            History { starts: seq![first], frames: seq![Seq::empty()], fate, opened: seq![fate.len()] },
        );
        proof {
            lemma_kept_since_none(fate, fate.len());
            let fr: Seq<Seq<nat>> = seq![Seq::empty()];
            assert(fr.drop_last() =~= Seq::<Seq<nat>>::empty());
            assert(flatten(fr.drop_last()) =~= Seq::<nat>::empty());
            assert(fr.last() =~= Seq::<nat>::empty());
            assert(flatten(fr) =~= Seq::<nat>::empty());
        }
        Ok(())
    }

    /// Hands a captured frame to the open segment. `acquired` tells whether
    /// the non-blocking attempt at the writer lock succeeded; without it, or
    /// without an open segment, the frame is dropped. A kept frame goes to the
    /// end of the open segment and nowhere else.
    pub fn push(&mut self, acquired: bool) -> (r: Delivery)
        requires
            old(self).wf(),
        ensures
            final(self).wf(),
            r is Appended <==> acquired && old(self)@.phase is Streaming,
            final(self)@.phase == old(self)@.phase,
            final(self)@.active == old(self)@.active,
            final(self)@.starts == old(self)@.starts,
            final(self)@.opened == old(self)@.opened,
            final(self)@.fate == old(self)@.fate.push(r is Appended),
            r is Dropped ==> final(self)@.frames == old(self)@.frames,
            r is Appended ==> final(self)@.frames == old(self)@.frames.update(
                old(self)@.frames.len() - 1,
                old(self)@.frames.last().push(old(self)@.fate.len()),
            ),
    {
        let ghost h = self.history@;
        let ghost n: nat = h.fate.len();
        if acquired && matches!(self.phase, Phase::Streaming) {
            let ghost last = (h.frames.len() - 1) as int;
            let ghost fr = h.frames.update(last, h.frames[last].push(n));
            self.history = Ghost(
                History { starts: h.starts, frames: fr, fate: h.fate.push(true), opened: h.opened },
            );
            proof {
                assert(h.fate.push(true).drop_last() =~= h.fate);
                assert(kept_since(h.fate.push(true), h.opened.last()) =~= kept_since(
                    h.fate,
                    h.opened.last(),
                ).push(n));
                assert(fr.drop_last() =~= h.frames.drop_last());
                assert(h.fate.push(true).drop_last() =~= h.fate);
                assert(flatten(fr) =~= flatten(h.frames).push(n));
                assert(kept(h.fate.push(true)) =~= kept(h.fate).push(n));
            }
            Delivery::Appended
        } else {
            self.history = Ghost(
                History {
                    starts: h.starts,
                    frames: h.frames,
                    fate: h.fate.push(false),
                    opened: h.opened,
                },
            );
            proof {
                assert(h.fate.push(false).drop_last() =~= h.fate);
                if self.phase is Streaming {
                    assert(kept_since(h.fate.push(false), h.opened.last()) =~= kept_since(
                        h.fate,
                        h.opened.last(),
                    ));
                }
                assert(h.fate.push(false).drop_last() =~= h.fate);
                assert(kept(h.fate.push(false)) =~= kept(h.fate));
            }
            Delivery::Dropped
        }
    }

    /// Whether a rotation to a segment starting at `next` may go ahead:
    /// the session is streaming and `next` is a later minute than the open
    /// segment's start, so the new segment's path differs from the open one's.
    /// To be asked before the next segment's file is created.
    pub fn may_rotate_to(&self, next: Stamp) -> (r: bool)
        requires
            self.wf(),
        ensures
            r == (self@.phase is Streaming && later(next, self@.starts.last())),
    {
        match self.active {
            Some(seg) => matches!(self.phase, Phase::Streaming) && next.is_later_than(&seg.start),
            None => false,
        }
    }

    /// A rotation tick. When the next segment (starting at `next`, a later
    /// minute than the open segment's start) was created, it becomes the open
    /// segment, starting with no frames, and the previous one is returned
    /// finalized; otherwise the current segment stays open. Fails unless
    /// streaming.
    pub fn rotate(&mut self, next: Stamp, created: bool) -> (r: Result<Rotation, SessionError>)
        requires
            old(self).wf(),
        ensures
            final(self).wf(),
            !(old(self)@.phase is Streaming) ==> r == Err::<Rotation, SessionError>(
                SessionError::InvalidState,
            ) && final(self)@ == old(self)@,
            old(self)@.phase is Streaming && !(created && later(next, old(self)@.starts.last()))
                ==> r == Ok::<Rotation, SessionError>(Rotation::Skipped) && final(self)@ == old(
                self,
            )@,
            old(self)@.phase is Streaming && created && later(next, old(self)@.starts.last()) ==> r == Ok::<Rotation, SessionError>(
                Rotation::Swapped {
                    finished: Segment {
                        start: old(self)@.starts.last(),
                        state: SegmentState::Finalized,
                    },
                },
            ) && final(self)@ == (SessionView {
                phase: Phase::Streaming,
                active: Some(Segment { start: next, state: SegmentState::Open }),
                starts: old(self)@.starts.push(next),
                frames: old(self)@.frames.push(Seq::empty()),
                fate: old(self)@.fate,
                opened: old(self)@.opened.push(old(self)@.fate.len()),
            }),
    {
        if !matches!(self.phase, Phase::Streaming) {
            return Err(SessionError::InvalidState);
        }
        let mut finished = match self.active {
            Some(seg) => seg,
            None => {
                return Err(SessionError::InvalidState);
            },
        };
        if !created || !next.is_later_than(&finished.start) {
            return Ok(Rotation::Skipped);
        }
        let _ = finished.finalize();
        self.active = Some(Segment::open(next));
        let ghost h = self.history@;
        let ghost fr = h.frames.push(Seq::<nat>::empty());
        self.history = Ghost(
            History {
                starts: h.starts.push(next),
                frames: fr,
                fate: h.fate,
                opened: h.opened.push(h.fate.len()),
            },
        );
        proof {
            lemma_kept_since_none(h.fate, h.fate.len());
            assert(fr.drop_last() =~= h.frames);
            assert(flatten(fr) =~= flatten(h.frames));
        }
        Ok(Rotation::Swapped { finished })
    }

    /// Stops the session once no further frames can arrive, returning the
    /// last segment finalized. Fails unless streaming.
    pub fn stop(&mut self) -> (r: Result<Segment, SessionError>)
        requires
            old(self).wf(),
        ensures
            final(self).wf(),
            !(old(self)@.phase is Streaming) ==> r == Err::<Segment, SessionError>(
                SessionError::InvalidState,
            ) && final(self)@ == old(self)@,
            old(self)@.phase is Streaming ==> r == Ok::<Segment, SessionError>(
                Segment { start: old(self)@.starts.last(), state: SegmentState::Finalized },
            ) && final(self)@ == (SessionView {
                phase: Phase::Stopped,
                active: None,
                ..old(self)@
            }),
    {
        if !matches!(self.phase, Phase::Streaming) {
            return Err(SessionError::InvalidState);
        }
        let mut finished = match self.active {
            Some(seg) => seg,
            None => {
                return Err(SessionError::InvalidState);
            },
        };
        let _ = finished.finalize();
        self.active = None;
        self.phase = Phase::Stopped;
        Ok(finished)
    }
}

proof fn lemma_kept_since_none(fate: Seq<bool>, a: nat)
    requires
        fate.len() <= a,
    ensures
        kept_since(fate, a) == Seq::<nat>::empty(),
    decreases fate.len(),
{
    if fate.len() > 0 {
        lemma_kept_since_none(fate.drop_last(), a);
    }
}

proof fn lemma_kept_since_all(fate: Seq<bool>, a: nat)
    requires
        a <= fate.len(),
        forall|k: int| a <= k < fate.len() ==> #[trigger] fate[k],
    ensures
        kept_since(fate, a) =~= Seq::new((fate.len() - a) as nat, |i: int| (a + i) as nat),
    decreases fate.len(),
{
    if fate.len() == a {
        lemma_kept_since_none(fate, a);
    } else {
        let d = fate.drop_last();
        assert forall|k: int| a <= k < d.len() implies #[trigger] d[k] by {
            assert(d[k] == fate[k]);
        }
        lemma_kept_since_all(d, a);
    }
}

/// While a writer stays available, the open segment receives every pushed
/// frame: if no frame was dropped since the open segment was installed, its
/// frames are exactly the frames pushed since then, in push order.
pub proof fn uninterrupted_pushes_fill_open_segment(s: &Session)
    requires
        s.wf(),
        s@.phase is Streaming,
        forall|k: int| s@.opened.last() <= k < s@.fate.len() ==> #[trigger] s@.fate[k],
    ensures
        s@.frames.last() =~= Seq::new(
            (s@.fate.len() - s@.opened.last()) as nat,
            |i: int| (s@.opened.last() + i) as nat,
        ),
{
    lemma_kept_since_all(s@.fate, s@.opened.last());
}

/// Across all segments of a session, taken in creation order, the frames
/// written are exactly the pushed frames minus the dropped ones, in push
/// order, each in one segment only; within each segment they keep push order,
/// and segments never overlap: every frame of a segment was pushed before any
/// frame of a later segment.
pub proof fn segments_partition_kept_frames(s: &Session)
    requires
        s.wf(),
    ensures
        flatten(s@.frames) == kept(s@.fate),
        forall|i: int, j: int, k: int|
            0 <= i < s@.frames.len() && 0 <= j < k < s@.frames[i].len() ==> #[trigger] s@.frames[i][j]
                < #[trigger] s@.frames[i][k],
        forall|i: int, i2: int, j: int, k: int|
            0 <= i < i2 < s@.frames.len() && 0 <= j < s@.frames[i].len() && 0 <= k
                < s@.frames[i2].len() ==> #[trigger] s@.frames[i][j] < #[trigger] s@.frames[i2][k],
{
}

} // verus!
