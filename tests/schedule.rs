use raytrace_stream::color::Color;
use raytrace_stream::image::ImageDimension;
use raytrace_stream::session::{Event, Step, TileScheduler};
use raytrace_stream::tiles::Tile;

fn run(width: usize, height: usize, stop_after_levels: Option<usize>) -> Vec<Step> {
    let mut sched = TileScheduler::new(&ImageDimension { width, height });
    let mut out = Vec::new();
    let mut levels = 0usize;
    if stop_after_levels == Some(0) {
        sched.request_stop();
    }
    while let Some(step) = sched.next_step() {
        if step == Step::LevelComplete {
            levels += 1;
            if stop_after_levels == Some(levels) {
                sched.request_stop();
            }
        }
        out.push(step);
        assert!(out.len() < 100_000);
    }
    assert!(sched.is_finished());
    assert_eq!(sched.next_step(), None);
    out
}

#[test]
fn full_session_on_two_by_two_frame() {
    let steps = run(2, 2, None);
    let whole = Step::Paint(Tile { x: 0, y: 0, w: 2, h: 2 });
    let mut expected = Vec::new();
    // Tile edges 64, 32, 16, 8, 4 and 2 each cover the frame with one tile.
    for _ in 0..6 {
        expected.push(whole);
        expected.push(Step::LevelComplete);
    }
    for (x, y) in [(0, 0), (1, 0), (0, 1), (1, 1)] {
        expected.push(Step::Paint(Tile { x, y, w: 1, h: 1 }));
    }
    expected.push(Step::LevelComplete);
    expected.push(Step::Finish);
    assert_eq!(steps, expected);
}

#[test]
fn session_finishes_exactly_once_at_the_end() {
    for (w, h) in [(1usize, 1usize), (3, 5), (70, 2), (0, 3), (4, 0), (0, 0)] {
        for stop in [None, Some(0), Some(1), Some(3), Some(7)] {
            let steps = run(w, h, stop);
            assert_eq!(steps.last(), Some(&Step::Finish));
            assert_eq!(steps.iter().filter(|s| **s == Step::Finish).count(), 1);
            if w * h > 0 {
                for i in 0..steps.len() {
                    if steps[i] == Step::LevelComplete {
                        assert!(i > 0);
                        assert!(matches!(steps[i - 1], Step::Paint(_)));
                    }
                }
            }
        }
    }
}

#[test]
fn stop_before_start_finishes_after_first_level() {
    let steps = run(100, 70, Some(0));
    assert_eq!(
        steps,
        vec![
            Step::Paint(Tile { x: 0, y: 0, w: 64, h: 64 }),
            Step::Paint(Tile { x: 64, y: 0, w: 36, h: 64 }),
            Step::Paint(Tile { x: 0, y: 64, w: 64, h: 6 }),
            Step::Paint(Tile { x: 64, y: 64, w: 36, h: 6 }),
            Step::Finish,
        ]
    );
}

#[test]
fn stop_after_two_levels_skips_the_rest() {
    let steps = run(3, 3, Some(2));
    let whole = Step::Paint(Tile { x: 0, y: 0, w: 3, h: 3 });
    // Levels 64 and 32 complete; the stop is seen at the end of level 16.
    assert_eq!(steps, vec![whole, Step::LevelComplete, whole, Step::LevelComplete, whole, Step::Finish]);
}

#[test]
fn empty_frame_still_walks_levels_and_finishes() {
    let steps = run(4, 0, None);
    assert_eq!(steps.len(), 8);
    assert!(steps[..7].iter().all(|s| *s == Step::LevelComplete));
    assert_eq!(steps[7], Step::Finish);
}

#[test]
fn steps_map_to_events() {
    let c = Color { r: 1, g: 2, b: 3, a: 4 };
    assert_eq!(
        Step::Paint(Tile { x: 5, y: 6, w: 7, h: 8 }).to_event(c),
        Event::SetPixels { x: 5, y: 6, w: 7, h: 8, color: c }
    );
    assert_eq!(Step::LevelComplete.to_event(c), Event::Update);
    assert_eq!(Step::Finish.to_event(c), Event::Finish);
}

#[test]
fn stop_in_the_middle_of_a_level_finishes_that_level() {
    let mut sched = TileScheduler::new(&ImageDimension { width: 100, height: 70 });
    let first = sched.next_step();
    assert_eq!(first, Some(Step::Paint(Tile { x: 0, y: 0, w: 64, h: 64 })));
    sched.request_stop();
    let mut rest = Vec::new();
    while let Some(step) = sched.next_step() {
        rest.push(step);
    }
    assert_eq!(
        rest,
        vec![
            Step::Paint(Tile { x: 64, y: 0, w: 36, h: 64 }),
            Step::Paint(Tile { x: 0, y: 64, w: 64, h: 6 }),
            Step::Paint(Tile { x: 64, y: 64, w: 36, h: 6 }),
            Step::Finish,
        ]
    );
}

#[test]
fn second_level_of_a_wide_frame_uses_half_tiles() {
    let steps = run(70, 20, Some(2));
    // Level 64: two tiles, then completion; level 32: three tiles, completion;
    // level 16: ten tiles, then the finish.
    assert_eq!(steps[0], Step::Paint(Tile { x: 0, y: 0, w: 64, h: 20 }));
    assert_eq!(steps[1], Step::Paint(Tile { x: 64, y: 0, w: 6, h: 20 }));
    assert_eq!(steps[2], Step::LevelComplete);
    assert_eq!(steps[3], Step::Paint(Tile { x: 0, y: 0, w: 32, h: 20 }));
    assert_eq!(steps[5], Step::Paint(Tile { x: 64, y: 0, w: 6, h: 20 }));
    assert_eq!(steps[6], Step::LevelComplete);
    assert_eq!(steps[7], Step::Paint(Tile { x: 0, y: 0, w: 16, h: 16 }));
    assert_eq!(steps[15], Step::Paint(Tile { x: 48, y: 16, w: 16, h: 4 }));
    assert_eq!(steps[16], Step::Paint(Tile { x: 64, y: 16, w: 6, h: 4 }));
    assert_eq!(steps[17], Step::Finish);
    assert_eq!(steps.len(), 2 + 1 + 3 + 1 + 10 + 1);
}
