//! Stepping a player through the frames of a decoded animation.
//!
//! Separate from the curve-driven motion of the rest of this module: a GIF's
//! frames are already timed by the file, so playing one is a matter of
//! spending elapsed time on frame delays, not of interpolating a number.
use vstd::prelude::*;

use crate::asset::gif::{AnimationSpec, FrameSpec};
use crate::asset::table::AnimTable;

verus! {

/// Where a player is: the frame it shows and how long it has shown it.
#[derive(Clone, Copy, PartialEq, Eq, Structural, Debug)]
pub struct Playhead {
    /// Index of the frame on screen.
    pub frame: u32,
    /// Microseconds spent on that frame so far.
    pub elapsed_us: u64,
}

/// How long frame `idx` stays up: its own delay, 100 ms for an index past
/// the end, and never less than a microsecond.
pub open spec fn frame_delay(frames: Seq<FrameSpec>, idx: int) -> int {
    let d = if 0 <= idx < frames.len() { frames[idx].delay_us as int } else { 100_000 };
    if d == 0 { 1 } else { d }
}

/// The frame after `idx`, wrapping at either end.
pub open spec fn next_frame(len: nat, idx: int, backwards: bool) -> int {
    if backwards {
        if idx == 0 { len - 1 } else { idx - 1 }
    } else {
        (idx + 1) % (len as int)
    }
}

/// Spend `acc` microseconds on the frames from `idx` on, at most `steps`
/// frames: the frame reached and the time left over on it.
pub open spec fn play(frames: Seq<FrameSpec>, idx: int, acc: int, backwards: bool, steps: nat) -> (int, int)
    decreases steps,
{
    if steps == 0 || acc < frame_delay(frames, idx) {
        (idx, acc)
    } else {
        play(
            frames,
            next_frame(frames.len(), idx, backwards),
            acc - frame_delay(frames, idx),
            backwards,
            (steps - 1) as nat,
        )
    }
}

/// `a + b`, stopping at `u64::MAX`.
pub open spec fn saturating_sum(a: u64, b: u64) -> int {
    if a + b > u64::MAX { u64::MAX as int } else { a + b }
}

/// Where a player on animation `anim` of `table` stands after `scaled_us`
/// more microseconds of playback: unmoved when the animation is missing or
/// has no frames, and otherwise moved on by at most one full cycle.
pub open spec fn playback(
    table: Seq<AnimationSpec>,
    anim: u32,
    at: Playhead,
    scaled_us: u64,
    backwards: bool,
) -> Playhead {
    if anim >= table.len() || table[anim as int].frames.len() == 0 {
        at
    } else {
        let frames = table[anim as int].frames;
        let r = play(
            frames,
            at.frame as int,
            saturating_sum(at.elapsed_us, scaled_us),
            backwards,
            frames.len(),
        );
        Playhead { frame: r.0 as u32, elapsed_us: r.1 as u64 }
    }
}

/// A player whose frame is not yet due stays on it and banks the time.
pub proof fn lemma_play_waits_for_the_delay(frames: Seq<FrameSpec>, idx: int, acc: int, backwards: bool, steps: nat)
    requires
        acc < frame_delay(frames, idx),
    ensures
        play(frames, idx, acc, backwards, steps) == (idx, acc),
{
}

/// A player that has been shown a frame long enough moves off it: with any
/// steps left, the frame after it is where the walk continues, with the
/// frame's delay spent.
pub proof fn lemma_play_moves_when_due(frames: Seq<FrameSpec>, idx: int, acc: int, backwards: bool, steps: nat)
    requires
        steps > 0,
        acc >= frame_delay(frames, idx),
    ensures
        play(frames, idx, acc, backwards, steps) == play(
            frames,
            next_frame(frames.len(), idx, backwards),
            acc - frame_delay(frames, idx),
            backwards,
            (steps - 1) as nat,
        ),
{
}

/// The time spent on the frames a walk from `idx` steps past, at most
/// `steps` of them, with `acc` to spend.
pub open spec fn time_spent(frames: Seq<FrameSpec>, idx: int, acc: int, backwards: bool, steps: nat) -> int
    decreases steps,
{
    if steps == 0 || acc < frame_delay(frames, idx) {
        0
    } else {
        frame_delay(frames, idx) + time_spent(
            frames,
            next_frame(frames.len(), idx, backwards),
            acc - frame_delay(frames, idx),
            backwards,
            (steps - 1) as nat,
        )
    }
}

/// A walk over the frames keeps the player on a frame that exists, steps
/// past at most `steps` frames, and loses no time: what is left over plus
/// the delays of the frames stepped past is all the time it was handed.
pub proof fn lemma_play_accounts_for_time(frames: Seq<FrameSpec>, idx: int, acc: int, backwards: bool, steps: nat)
    requires
        0 <= idx < frames.len(),
        0 <= acc,
    ensures
        0 <= play(frames, idx, acc, backwards, steps).0 < frames.len(),
        0 <= play(frames, idx, acc, backwards, steps).1 <= acc,
        play(frames, idx, acc, backwards, steps).1 + time_spent(frames, idx, acc, backwards, steps) == acc,
    decreases steps,
{
    if !(steps == 0 || acc < frame_delay(frames, idx)) {
        let n = next_frame(frames.len(), idx, backwards);
        assert(0 <= n < frames.len()) by {
            if !backwards {
                assert(0 <= (idx + 1) % (frames.len() as int) < frames.len());
            }
        }
        lemma_play_accounts_for_time(frames, n, acc - frame_delay(frames, idx), backwards, (steps - 1) as nat);
    }
}

/// Advance a player on animation `anim` by `scaled_us` microseconds of
/// playback, already scaled by the player's speed; `backwards` plays the
/// frames in reverse order.
///
/// Time is spent on each frame's own delay, so a file whose frames have
/// different delays keeps those proportions at any speed. One call advances
/// at most one full cycle, however much time it is handed.
pub fn tick_playback(anims: &AnimTable, anim: u32, at: Playhead, scaled_us: u64, backwards: bool) -> (res:
    Playhead)
    requires
        forall|i: int| 0 <= i < anims@.len() ==> anims@[i].frames.len() <= u32::MAX,
    ensures
        res == playback(anims@, anim, at, scaled_us, backwards),
        anim < anims@.len() && at.frame < anims@[anim as int].frames.len() ==> res.frame < anims@[anim
            as int].frames.len() && res.elapsed_us <= saturating_sum(at.elapsed_us, scaled_us),
{
    proof {
        if anim < anims@.len() && at.frame < anims@[anim as int].frames.len() {
            lemma_play_accounts_for_time(
                anims@[anim as int].frames,
                at.frame as int,
                saturating_sum(at.elapsed_us, scaled_us),
                backwards,
                anims@[anim as int].frames.len(),
            );
        }
    }
    let a = match anims.get(anim) {
        Some(a) => a,
        None => return at,
    };
    let n = a.frames.len();
    if n == 0 {
        return at;
    }
    let ghost frames = a@.frames;
    let mut acc = at.elapsed_us.saturating_add(scaled_us);
    let mut idx: usize = at.frame as usize;
    let mut k: usize = 0;
    while k < n
        invariant
            n == frames.len(),
            frames == a@.frames,
            0 < n <= u32::MAX,
            k <= n,
            idx <= u32::MAX,
            play(frames, at.frame as int, saturating_sum(at.elapsed_us, scaled_us), backwards, n as nat)
                == play(frames, idx as int, acc as int, backwards, (n - k) as nat),
        ensures
            play(frames, at.frame as int, saturating_sum(at.elapsed_us, scaled_us), backwards, n as nat)
                == (idx as int, acc as int),
        decreases n - k,
    {
        let mut delay: u64 = if idx < n {
            a.frames[idx].delay_us
        } else {
            100_000
        };
        if delay == 0 {
            delay = 1;
        }
        assert(delay == frame_delay(frames, idx as int));
        if acc < delay {
            break;
        }
        acc = acc - delay;
        idx = if backwards {
            if idx == 0 {
                n - 1
            } else {
                idx - 1
            }
        } else {
            ((idx as u64 + 1) % (n as u64)) as usize
        };
        k = k + 1;
    }
    Playhead { frame: idx as u32, elapsed_us: acc }
}

} // verus!
