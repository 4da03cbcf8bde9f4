use copilot::anim::{tick_playback, Clock, Playhead, Progress, Repeat, MAX_STEP_US};
use copilot::asset::gif::{Animation, Frame};
use copilot::asset::AnimTable;
use copilot::Color;

/// A table holding one animation whose frames last `delays` microseconds.
fn table(delays: &[u64]) -> AnimTable {
    let frames = delays
        .iter()
        .map(|&delay_us| Frame { pixels: vec![Color::rgb(1, 2, 3)], delay_us })
        .collect();
    let mut t = AnimTable::new();
    t.push(Animation { width: 1, height: 1, frames });
    t
}

fn at(frame: u32, elapsed_us: u64) -> Playhead {
    Playhead { frame, elapsed_us }
}

#[test]
fn a_frame_that_is_not_due_banks_the_time() {
    let t = table(&[100, 200, 300]);
    assert_eq!(tick_playback(&t, 0, at(0, 20), 50, false), at(0, 70));
}

#[test]
fn time_is_spent_on_each_frames_own_delay() {
    let t = table(&[100, 200, 300]);
    assert_eq!(tick_playback(&t, 0, at(0, 0), 150, false), at(1, 50));
    assert_eq!(tick_playback(&t, 0, at(0, 0), 300, false), at(2, 0));
    assert_eq!(tick_playback(&t, 0, at(2, 250), 60, false), at(0, 10));
}

#[test]
fn backwards_play_wraps_to_the_last_frame() {
    let t = table(&[100, 200, 300]);
    assert_eq!(tick_playback(&t, 0, at(0, 0), 100, true), at(2, 0));
    assert_eq!(tick_playback(&t, 0, at(2, 0), 350, true), at(1, 50));
}

#[test]
fn one_tick_walks_at_most_one_cycle() {
    let t = table(&[100, 100, 100]);
    assert_eq!(tick_playback(&t, 0, at(0, 0), 10_000, false), at(0, 9_700));
}

#[test]
fn a_zero_delay_counts_as_a_microsecond() {
    let t = table(&[0, 0]);
    assert_eq!(tick_playback(&t, 0, at(0, 0), 1, false), at(1, 0));
}

#[test]
fn a_frame_past_the_end_lasts_a_tenth_of_a_second() {
    let t = table(&[10, 10]);
    assert_eq!(tick_playback(&t, 0, at(7, 0), 99_999, false), at(7, 99_999));
    assert_eq!(tick_playback(&t, 0, at(7, 0), 100_005, false), at(0, 5));
}

#[test]
fn a_missing_animation_leaves_the_player_alone() {
    let t = table(&[100]);
    assert_eq!(tick_playback(&t, 3, at(0, 5), 1_000, false), at(0, 5));
    let empty = {
        let mut e = AnimTable::new();
        e.push(Animation { width: 1, height: 1, frames: Vec::new() });
        e
    };
    assert_eq!(tick_playback(&empty, 0, at(0, 5), 1_000, false), at(0, 5));
}

#[test]
fn elapsed_time_saturates_rather_than_wrapping() {
    let t = table(&[u64::MAX]);
    assert_eq!(tick_playback(&t, 0, at(0, u64::MAX - 1), 10, false), at(0, 0));
}

#[test]
fn a_once_run_stops_at_its_end() {
    let mut p = Progress::new(10, Repeat::Once);
    assert_eq!(p.duration_us(), 10_000);
    p.advance(4_000);
    assert_eq!((p.elapsed_us(), p.is_finished()), (4_000, false));
    p.advance(50_000);
    assert_eq!((p.elapsed_us(), p.is_finished()), (10_000, true));
    p.advance(1_000);
    assert_eq!((p.elapsed_us(), p.is_finished()), (10_000, true));
}

#[test]
fn a_loop_returns_to_the_start() {
    let mut p = Progress::new(10, Repeat::Loop);
    p.advance(10_000);
    assert_eq!((p.elapsed_us(), p.is_finished(), p.is_reversed()), (0, false, false));
    p.advance(25_000);
    assert_eq!(p.elapsed_us(), 5_000);
}

#[test]
fn ping_pong_turns_round_at_each_end() {
    let mut p = Progress::new(10, Repeat::PingPong);
    p.advance(12_000);
    assert_eq!((p.elapsed_us(), p.is_reversed()), (2_000, true));
    p.advance(10_000);
    assert_eq!((p.elapsed_us(), p.is_reversed()), (2_000, false));
    p.advance(29_000);
    assert_eq!((p.elapsed_us(), p.is_reversed()), (1_000, true));
}

#[test]
fn split_time_lands_where_whole_time_does() {
    let mut one = Progress::new(7, Repeat::PingPong);
    let mut two = one;
    one.advance(23_456);
    two.advance(11_111);
    two.advance(12_345);
    assert_eq!((one.elapsed_us(), one.is_reversed()), (two.elapsed_us(), two.is_reversed()));
}

#[test]
fn a_zero_duration_is_raised_to_a_millisecond() {
    assert_eq!(Progress::new(0, Repeat::Loop).duration_us(), 1_000);
}

#[test]
fn the_first_tick_sets_the_baseline_and_moves_nothing() {
    let mut c = Clock::new();
    assert_eq!(c.tick(5_000_000), 0);
    assert_eq!(c.tick(5_016_000), 16_000);
}

#[test]
fn a_stall_costs_one_step_not_the_whole_stall() {
    let mut c = Clock::new();
    c.tick(0);
    assert_eq!(c.tick(3_000_000), MAX_STEP_US);
}

#[test]
fn a_clock_that_goes_backwards_freezes() {
    let mut c = Clock::new();
    c.tick(1_000_000);
    assert_eq!(c.tick(500_000), 0);
    assert_eq!(c.tick(510_000), 10_000);
}
