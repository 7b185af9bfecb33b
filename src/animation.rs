//! Frame-timed sprite animation that reports the markers of each frame it enters.
use vstd::prelude::*;

use std::ops::Range;

verus! {

/// Nanoseconds in a millisecond.
pub const NANOS_PER_MILLI: u64 = 1_000_000;

/// One frame: the atlas index it shows, how long it lasts in nanoseconds, and its markers.
pub struct Frame {
    pub index: usize,
    pub duration: u64,
    pub markers: Vec<usize>,
}

/// An ordered sequence of frames, played in a loop.
pub struct Animation {
    pub frames: Vec<Frame>,
}

/// A one-shot countdown over nanoseconds. Once finished it stays finished.
#[derive(Clone, Copy, Debug, PartialEq, Eq, Structural)]
pub struct FrameTimer {
    pub duration: u64,
    pub elapsed: u64,
    pub finished: bool,
}

/// Playback position of one sprite.
#[derive(Clone, Copy, Debug, PartialEq, Eq, Structural)]
pub struct AnimationPlayerState {
    pub frame_index: usize,
    pub atlas_index: usize,
    pub timer: FrameTimer,
}

/// A fresh one-shot timer of `duration` nanoseconds.
pub open spec fn timer_of(duration: u64) -> FrameTimer {
    FrameTimer { duration, elapsed: 0, finished: false }
}

/// The timer after `delta` more nanoseconds: elapsed time saturates, and reaching the duration
/// finishes the timer with its elapsed time held at the duration.
pub open spec fn ticked(t: FrameTimer, delta: u64) -> FrameTimer {
    if t.finished {
        t
    } else {
        let e = if t.elapsed + delta > u64::MAX {
            u64::MAX
        } else {
            (t.elapsed + delta) as u64
        };
        if e >= t.duration {
            FrameTimer { duration: t.duration, elapsed: t.duration, finished: true }
        } else {
            FrameTimer { duration: t.duration, elapsed: e, finished: false }
        }
    }
}

/// The state with nothing played.
pub open spec fn default_state() -> AnimationPlayerState {
    AnimationPlayerState { frame_index: 0, atlas_index: 0, timer: timer_of(0) }
}

/// The state at the start of `a`: its first frame, or the default state if it has none.
pub open spec fn initial_state(a: Animation) -> AnimationPlayerState {
    if a.frames@.len() == 0 {
        default_state()
    } else {
        AnimationPlayerState {
            frame_index: 0,
            atlas_index: a.frames@[0].index,
            timer: timer_of(a.frames@[0].duration),
        }
    }
}

/// Index of the frame after frame `i` of an animation of `len` frames, wrapping to the start.
pub open spec fn next_index(i: usize, len: nat) -> nat {
    ((i + 1) % (len as int)) as nat
}

/// The state after entering the next frame of `a`, and the markers of that frame; an empty
/// animation leaves the state alone and reports nothing.
pub open spec fn entered_next(s: AnimationPlayerState, a: Animation) -> (AnimationPlayerState, Seq<
    usize,
>) {
    if a.frames@.len() == 0 {
        (s, Seq::empty())
    } else {
        let f = a.frames@[next_index(s.frame_index, a.frames@.len()) as int];
        (
            AnimationPlayerState {
                frame_index: next_index(s.frame_index, a.frames@.len()) as usize,
                atlas_index: f.index,
                timer: timer_of(f.duration),
            },
            f.markers@,
        )
    }
}

/// One update of a player: a newly bound animation restarts from its beginning and reports
/// nothing; an animation without frames leaves the state alone; otherwise the timer runs `delta`
/// nanoseconds and, when it finishes, the next frame is entered and its markers reported.
pub open spec fn stepped(s: AnimationPlayerState, a: Animation, rebound: bool, delta: u64) -> (
    AnimationPlayerState,
    Seq<usize>,
) {
    if rebound {
        (initial_state(a), Seq::empty())
    } else if a.frames@.len() == 0 {
        (s, Seq::empty())
    } else {
        let t = ticked(s.timer, delta);
        let s1 = AnimationPlayerState { timer: t, ..s };
        if t.finished {
            entered_next(s1, a)
        } else {
            (s1, Seq::empty())
        }
    }
}

/// What a player shows and reports over a stream of updates without rebinding: per update, the
/// frame index, the atlas index, and the markers reported.
pub open spec fn playback(s: AnimationPlayerState, a: Animation, deltas: Seq<u64>) -> Seq<
    (usize, usize, Seq<usize>),
>
    decreases deltas.len(),
{
    if deltas.len() == 0 {
        Seq::empty()
    } else {
        let (s1, m) = stepped(s, a, false, deltas[0]);
        seq![(s1.frame_index, s1.atlas_index, m)] + playback(s1, a, deltas.drop_first())
    }
}

/// Number of entries of `s` equal to `v`.
pub open spec fn count_of(s: Seq<usize>, v: int) -> nat
    decreases s.len(),
{
    if s.len() == 0 {
        0
    } else {
        count_of(s.drop_last(), v) + if s.last() == v {
            1nat
        } else {
            0nat
        }
    }
}

impl FrameTimer {
    /// A fresh one-shot timer of `duration` nanoseconds.
    pub fn new(duration: u64) -> (r: Self)
        ensures
            r == timer_of(duration),
    {
        FrameTimer { duration, elapsed: 0, finished: false }
    }

    /// Runs the timer for `delta` nanoseconds and says whether it has finished.
    pub fn tick(&mut self, delta: u64) -> (r: bool)
        ensures
            *final(self) == ticked(*old(self), delta),
            r == final(self).finished,
    {
        if !self.finished {
            let e = self.elapsed.saturating_add(delta);
            if e >= self.duration {
                self.elapsed = self.duration;
                self.finished = true;
            } else {
                self.elapsed = e;
            }
        }
        self.finished
    }
}

impl Default for AnimationPlayerState {
    fn default() -> (r: Self)
        ensures
            r == default_state(),
    {
        AnimationPlayerState { frame_index: 0, atlas_index: 0, timer: FrameTimer::new(0) }
    }
}

impl Animation {
    /// Frames showing atlas indices `range`, in order, each lasting `frame_millis` milliseconds.
    pub fn from_frame_range_and_millis(range: Range<usize>, frame_millis: u64) -> (r: Self)
        requires
            frame_millis * NANOS_PER_MILLI <= u64::MAX,
        ensures
            r.frames@.len() == if range.start <= range.end {
                range.end - range.start
            } else {
                0
            },
            forall|i: int|
                0 <= i < r.frames@.len() ==> (#[trigger] r.frames@[i]).index == range.start + i
                    && r.frames@[i].duration == frame_millis * NANOS_PER_MILLI
                    && r.frames@[i].markers@.len() == 0,
    {
        let duration = frame_millis * NANOS_PER_MILLI;
        let mut frames: Vec<Frame> = Vec::new();
        let mut index = range.start;
        while index < range.end
            invariant
                range.start <= index || range.start > range.end,
                range.start <= range.end ==> index <= range.end,
                range.start > range.end ==> index == range.start,
                frames@.len() == if range.start <= index {
                    index - range.start
                } else {
                    0
                },
                forall|i: int|
                    0 <= i < frames@.len() ==> (#[trigger] frames@[i]).index == range.start + i
                        && frames@[i].duration == duration && frames@[i].markers@.len() == 0,
            decreases range.end - index,
        {
            frames.push(Frame { index, duration, markers: Vec::new() });
            index += 1;
        }
        Animation { frames }
    }

    /// Adds `marker` to each listed frame, once per time the frame is listed.
    pub fn with_marker(self, marker: usize, frames: &[usize]) -> (r: Self)
        requires
            forall|k: int| 0 <= k < frames@.len() ==> #[trigger] frames@[k] < self.frames@.len(),
        ensures
            r.frames@.len() == self.frames@.len(),
            forall|i: int|
                0 <= i < r.frames@.len() ==> (#[trigger] r.frames@[i]).index == self.frames@[i].index
                    && r.frames@[i].duration == self.frames@[i].duration && r.frames@[i].markers@
                    == self.frames@[i].markers@ + Seq::new(
                    count_of(frames@, i),
                    |j: int| marker,
                ),
    {
        let ghost orig = self.frames@;
        let mut anim = self;
        let mut k: usize = 0;
        while k < frames.len()
            invariant
                k <= frames@.len(),
                anim.frames@.len() == orig.len(),
                forall|k: int| 0 <= k < frames@.len() ==> #[trigger] frames@[k] < orig.len(),
                forall|i: int|
                    0 <= i < orig.len() ==> (#[trigger] anim.frames@[i]).index == orig[i].index
                        && anim.frames@[i].duration == orig[i].duration && anim.frames@[i].markers@
                        == orig[i].markers@ + Seq::new(
                        count_of(frames@.subrange(0, k as int), i),
                        |j: int| marker,
                    ),
            decreases frames@.len() - k,
        {
            let i = frames[k];
            let ghost before = anim.frames@;
            let mut frame = Frame { index: 0, duration: 0, markers: Vec::new() };
            anim.frames.set_and_swap(i, &mut frame);
            frame.markers.push(marker);
            anim.frames.set_and_swap(i, &mut frame);
            proof {
                let pre = frames@.subrange(0, k as int);
                let post = frames@.subrange(0, k + 1);
                assert(post.drop_last() == pre);
                assert forall|t: int| 0 <= t < orig.len() implies (#[trigger] anim.frames@[t]).index
                    == orig[t].index && anim.frames@[t].duration == orig[t].duration
                    && anim.frames@[t].markers@ == orig[t].markers@ + Seq::new(
                    count_of(post, t),
                    |j: int| marker,
                ) by {
                    if t == i {
                        assert(Seq::new(count_of(post, t), |j: int| marker) == Seq::new(
                            count_of(pre, t),
                            |j: int| marker,
                        ).push(marker));
                    } else {
                        assert(anim.frames@[t] == before[t]);
                    }
                }
            }
            k += 1;
        }
        proof {
            assert(frames@.subrange(0, frames@.len() as int) == frames@);
        }
        anim
    }
}

impl AnimationPlayerState {
    /// The state at the start of `animation`: its first frame, or the default state if it has
    /// none.
    pub fn init(animation: &Animation) -> (r: Self)
        ensures
            r == initial_state(*animation),
    {
        if animation.frames.len() == 0 {
            return AnimationPlayerState::default();
        }
        let first = &animation.frames[0];
        AnimationPlayerState {
            frame_index: 0,
            atlas_index: first.index,
            timer: FrameTimer::new(first.duration),
        }
    }

    /// Runs the frame timer for `delta` nanoseconds and says whether it has finished.
    pub fn tick(&mut self, delta: u64) -> (r: bool)
        ensures
            *final(self) == (AnimationPlayerState { timer: ticked(old(self).timer, delta), ..*old(self) }),
            r == final(self).timer.finished,
    {
        self.timer.tick(delta)
    }

    /// Enters the next frame of `animation`, wrapping to the first, and returns its markers.
    pub fn go_to_next_frame<'a>(&mut self, animation: &'a Animation) -> (r: &'a [usize])
        ensures
            (*final(self), r@) == entered_next(*old(self), *animation),
    {
        let len = animation.frames.len();
        if len == 0 {
            return &[];
        }
        let index = (self.frame_index % len + 1) % len;
        proof {
            vstd::arithmetic::div_mod::lemma_add_mod_noop(self.frame_index as int, 1, len as int);
            if len > 1 {
                vstd::arithmetic::div_mod::lemma_small_mod(1, len as nat);
            } else {
                assert(index == 0);
                assert((old(self).frame_index + 1) % (len as int) == 0);
            }
            assert(index == next_index(old(self).frame_index, len as nat));
        }
        let frame = &animation.frames[index];
        self.frame_index = index;
        self.atlas_index = frame.index;
        self.timer = FrameTimer::new(frame.duration);
        frame.markers.as_slice()
    }

    /// One update of a player bound to `animation`: `rebound` restarts it at the animation's
    /// beginning with nothing reported; an animation without frames leaves it alone; otherwise the timer runs `delta` nanoseconds and, when
    /// it finishes, the next frame is entered. Returns the markers reported.
    pub fn update(&mut self, animation: &Animation, rebound: bool, delta: u64) -> (r: Vec<usize>)
        ensures
            (*final(self), r@) == stepped(*old(self), *animation, rebound, delta),
    {
        if rebound {
            *self = AnimationPlayerState::init(animation);
            return Vec::new();
        }
        let mut out: Vec<usize> = Vec::new();
        if animation.frames.len() == 0 {
            return out;
        }
        if self.tick(delta) {
            let markers = self.go_to_next_frame(animation);
            let mut k: usize = 0;
            while k < markers.len()
                invariant
                    k <= markers@.len(),
                    out@ == markers@.subrange(0, k as int),
                decreases markers@.len() - k,
            {
                out.push(markers[k]);
                k += 1;
            }
            assert(markers@.subrange(0, markers@.len() as int) == markers@);
        }
        out
    }
}

/// Two animations with the same frames: same atlas indices, durations and markers.
pub open spec fn same_frames(a1: Animation, a2: Animation) -> bool {
    &&& a1.frames@.len() == a2.frames@.len()
    &&& forall|i: int|
        0 <= i < a1.frames@.len() ==> (#[trigger] a1.frames@[i]).index == a2.frames@[i].index
            && a1.frames@[i].duration == a2.frames@[i].duration && a1.frames@[i].markers@
            == a2.frames@[i].markers@
}

/// Playback is determined by the starting state, the frames and the stream of updates: two
/// animations with the same frames, fed the same updates, show the same frame and atlas indices
/// and report the same markers at every update.
pub proof fn playback_is_deterministic(
    s: AnimationPlayerState,
    a1: Animation,
    a2: Animation,
    deltas: Seq<u64>,
)
    requires
        same_frames(a1, a2),
    ensures
        playback(s, a1, deltas) == playback(s, a2, deltas),
    decreases deltas.len(),
{
    if deltas.len() > 0 {
        let (s1, m1) = stepped(s, a1, false, deltas[0]);
        let (s2, m2) = stepped(s, a2, false, deltas[0]);
        assert(s1 == s2 && m1 == m2);
        playback_is_deterministic(s1, a1, a2, deltas.drop_first());
    }
}

/// The state after a stream of updates without rebinding.
pub open spec fn state_after(s: AnimationPlayerState, a: Animation, deltas: Seq<u64>) -> AnimationPlayerState
    decreases deltas.len(),
{
    if deltas.len() == 0 {
        s
    } else {
        state_after(stepped(s, a, false, deltas[0]).0, a, deltas.drop_first())
    }
}

/// An animation without frames starts in the default state, and playing it never changes the
/// state and reports no marker, whatever the updates: a player bound to it stays in the default
/// state.
pub proof fn empty_animation_plays_nothing(a: Animation, deltas: Seq<u64>)
    requires
        a.frames@.len() == 0,
    ensures
        initial_state(a) == default_state(),
        state_after(initial_state(a), a, deltas) == default_state(),
        playback(initial_state(a), a, deltas).len() == deltas.len(),
        forall|i: int|
            0 <= i < deltas.len() ==> #[trigger] playback(initial_state(a), a, deltas)[i] == (
                0usize,
                0usize,
                Seq::<usize>::empty(),
            ),
{
    lemma_empty_keeps(a, default_state(), deltas);
}

proof fn lemma_empty_keeps(a: Animation, s: AnimationPlayerState, deltas: Seq<u64>)
    requires
        a.frames@.len() == 0,
    ensures
        state_after(s, a, deltas) == s,
        playback(s, a, deltas).len() == deltas.len(),
        forall|i: int|
            0 <= i < deltas.len() ==> #[trigger] playback(s, a, deltas)[i] == (
                s.frame_index,
                s.atlas_index,
                Seq::<usize>::empty(),
            ),
    decreases deltas.len(),
{
    if deltas.len() > 0 {
        lemma_empty_keeps(a, s, deltas.drop_first());
        let rest = playback(s, a, deltas.drop_first());
        assert forall|i: int| 0 <= i < deltas.len() implies #[trigger] playback(s, a, deltas)[i] == (
            s.frame_index,
            s.atlas_index,
            Seq::<usize>::empty(),
        ) by {
            if i > 0 {
                assert(playback(s, a, deltas)[i] == rest[i - 1]);
            }
        }
    }
}

} // verus!
