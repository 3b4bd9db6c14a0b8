use word_displayer::hotkey::{
    apply_window_shape, current_monitor_id, current_monitor_id_away_from, hide_window, is_visible,
    new_signal, restore_size, snap_top_center, snap_top_center_on,
};
use word_displayer::screen::{
    dist_to_rect2, intersection_area, monitor_by_overlap, nearest_monitor, place_window_step,
    rect_center, rect_height, rect_width, resize_edge, shape_key, shape_step, tiny_window_step,
    top_center, window_area, FollowStep, Monitor, MonitorFollow, Point, Rect, ResizeEdge,
    ShapeStep, MONITOR_SWITCH_SNAP_FRAMES, PLACE_WINDOW_FRAMES,
};
use word_displayer::single_instance::acquire;

fn rect(left: i32, top: i32, right: i32, bottom: i32) -> Rect {
    Rect { left, top, right, bottom }
}

fn monitor(id: isize, r: Rect) -> Monitor {
    Monitor { id, rect: r, work: Rect { bottom: r.bottom - 40, ..r } }
}

#[test]
fn rectangle_measures() {
    let a = rect(0, 0, 100, 50);
    let b = rect(60, 20, 200, 300);
    assert_eq!(rect_width(a), 100);
    assert_eq!(rect_height(a), 50);
    assert_eq!(intersection_area(a, b), 40 * 30);
    assert_eq!(intersection_area(b, a), 40 * 30);
    assert_eq!(intersection_area(a, rect(100, 0, 200, 50)), 0);
    assert_eq!(window_area(rect(10, 10, 5, 20)), 0);
    assert_eq!(dist_to_rect2(Point { x: 50, y: 25 }, a), 0);
    assert_eq!(dist_to_rect2(Point { x: -3, y: 54 }, a), 9 + 25);
    assert_eq!(dist_to_rect2(Point { x: 100, y: 0 }, a), 1);
    let c = rect_center(rect(-11, 0, 0, 3));
    assert_eq!((c.x, c.y), (-6, 1));
}

#[test]
fn display_with_largest_overlap_wins() {
    let left = monitor(1, rect(-1920, 0, 0, 1080));
    let right = monitor(2, rect(0, 0, 2560, 1440));
    let ms = [left, right];
    // mostly on the right display
    assert_eq!(monitor_by_overlap(rect(-100, 0, 900, 500), &ms, None), Some(1));
    // half and half: the first in the list
    assert_eq!(monitor_by_overlap(rect(-500, 0, 500, 500), &ms, None), Some(0));
    // nowhere
    assert_eq!(monitor_by_overlap(rect(5000, 0, 5100, 10), &ms, None), None);
}

#[test]
fn a_move_away_from_the_previous_display_is_followed() {
    let left = monitor(1, rect(-1920, 0, 0, 1080));
    let right = monitor(2, rect(0, 0, 2560, 1440));
    let ms = [left, right];
    // 20% on the right display, 80% still on the left one it came from
    let w = rect(-800, 0, 200, 500);
    assert_eq!(monitor_by_overlap(w, &ms, None), Some(0));
    assert_eq!(monitor_by_overlap(w, &ms, Some(1)), Some(1));
    // under a tenth on the other display: stay with the larger overlap
    let w = rect(-950, 0, 50, 500);
    assert_eq!(monitor_by_overlap(w, &ms, Some(1)), Some(0));
}

#[test]
fn nearest_display_to_a_point() {
    let ms = [monitor(1, rect(0, 0, 10, 10)), monitor(2, rect(20, 0, 30, 10))];
    assert_eq!(nearest_monitor(Point { x: 16, y: 5 }, &ms), Some(1));
    assert_eq!(nearest_monitor(Point { x: 14, y: 5 }, &ms), Some(0));
    assert_eq!(nearest_monitor(Point { x: 0, y: 0 }, &[]), None);
}

#[test]
fn window_goes_to_the_top_centre() {
    let work = rect(-1920, 0, 0, 1040);
    assert_eq!(top_center(work, 1440, 900), Some((-1920 + 240, 0)));
    assert_eq!(top_center(work, 1441, 900), Some((-1920 + 239, 0)));
    // wider than the work area: it overhangs both sides equally
    assert_eq!(top_center(work, 2001, 900), Some((-1920 - 40, 0)));
    assert_eq!(top_center(work, 0, 900), None);
    assert_eq!(top_center(work, 100, -1), None);
}

#[test]
fn window_shape_is_set_once_per_size() {
    let (step, key) = shape_step(1440, 900, 34, 0);
    assert!(matches!(step, ShapeStep::Round(68)));
    assert_eq!(key, shape_key(1440, 900, 34));
    let (step, key2) = shape_step(1440, 900, 34, key);
    assert!(matches!(step, ShapeStep::Unchanged));
    assert_eq!(key2, key);
    let (step, _) = shape_step(1440, 900, 0, key);
    assert!(matches!(step, ShapeStep::Clear));
    let (step, _) = shape_step(40, 30, 34, key);
    assert!(matches!(step, ShapeStep::Round(30)));
    let (step, k) = shape_step(0, 900, 34, 7);
    assert!(matches!(step, ShapeStep::Skip));
    assert_eq!(k, 7);
    assert_eq!(shape_key(1, 2, 3), (1u64 << 40) | (2 << 16) | 3);
}

#[test]
fn start_up_placement_happens_twice_then_stops() {
    let mut left = PLACE_WINDOW_FRAMES;
    let mut placed_at = Vec::new();
    let mut frames = 0;
    while left > 0 {
        let (next, now) = place_window_step(left);
        if now {
            placed_at.push(frames);
        }
        left = next;
        frames += 1;
    }
    assert_eq!(placed_at, vec![14, 41]);
    assert_eq!(frames, 43);
    assert_eq!(place_window_step(0), (0, false));
}

#[test]
fn a_display_switch_snaps_three_times() {
    let mut f = MonitorFollow::new();
    assert!(matches!(f.begin_frame(), FollowStep::Observe(None)));
    f.observed(Some(1));
    assert_eq!((f.last_monitor, f.snap_frames), (Some(1), 0));
    assert!(matches!(f.begin_frame(), FollowStep::Observe(Some(1))));
    f.observed(Some(2));
    assert_eq!(f.snap_target, Some(2));
    assert_eq!(f.snap_frames, MONITOR_SWITCH_SNAP_FRAMES);
    let mut snaps = Vec::new();
    for frame in 0..MONITOR_SWITCH_SNAP_FRAMES {
        match f.begin_frame() {
            FollowStep::Snap(target) => {
                assert_eq!(target, Some(2));
                snaps.push(frame);
                f.snapped(None);
            }
            FollowStep::Idle => {}
            FollowStep::Observe(_) => panic!("no observing during a snap"),
        }
    }
    assert_eq!(snaps, vec![3, 7, 11]);
    assert_eq!((f.last_monitor, f.snap_target, f.snap_frames), (Some(2), None, 0));
    // a window that disappears from every display starts no snap
    f.observed(None);
    assert_eq!((f.last_monitor, f.snap_frames), (None, 0));
}

#[test]
fn a_failed_snap_keeps_the_target() {
    let mut f = MonitorFollow { last_monitor: Some(1), snap_target: Some(2), snap_frames: 1 };
    assert!(matches!(f.begin_frame(), FollowStep::Snap(Some(2))));
    // no success reported: the target stays for a later switch
    assert_eq!(f.snap_target, Some(2));
    let mut g = MonitorFollow { last_monitor: Some(1), snap_target: None, snap_frames: 9 };
    assert!(matches!(g.begin_frame(), FollowStep::Snap(None)));
    g.snapped(Some(5));
    assert_eq!(g.last_monitor, Some(5));
}

#[test]
fn a_tiny_window_is_restored_after_a_while() {
    let mut count = 0;
    let mut restored = None;
    for frame in 0..40 {
        let (next, restore) = tiny_window_step(count, true);
        count = next;
        if restore {
            restored = Some(frame);
            break;
        }
    }
    assert_eq!(restored, Some(30));
    assert_eq!(count, 0);
    assert_eq!(tiny_window_step(12, false), (0, false));
}

#[test]
fn resize_handles() {
    assert!(matches!(resize_edge(true, false, true, false), Some(ResizeEdge::NorthWest)));
    assert!(matches!(resize_edge(false, true, true, false), Some(ResizeEdge::NorthEast)));
    assert!(matches!(resize_edge(true, false, false, true), Some(ResizeEdge::SouthWest)));
    assert!(matches!(resize_edge(false, true, false, true), Some(ResizeEdge::SouthEast)));
    assert!(matches!(resize_edge(true, true, false, false), Some(ResizeEdge::West)));
    assert!(matches!(resize_edge(false, true, false, false), Some(ResizeEdge::East)));
    assert!(matches!(resize_edge(false, false, true, true), Some(ResizeEdge::North)));
    assert!(matches!(resize_edge(false, false, false, true), Some(ResizeEdge::South)));
    assert!(resize_edge(false, false, false, false).is_none());
}

#[test]
fn this_platform_has_no_window_control() {
    let s = new_signal();
    assert!(!s.load(std::sync::atomic::Ordering::SeqCst));
    assert!(is_visible());
    hide_window();
    apply_window_shape(34);
    assert!(!snap_top_center());
    assert!(!snap_top_center_on(Some(3)));
    assert_eq!(current_monitor_id(), None);
    assert_eq!(current_monitor_id_away_from(Some(1)), None);
    assert!(!restore_size(1440, 900));
}

#[test]
fn a_single_instance_may_always_start_here() {
    assert!(matches!(acquire(), Ok(Some(_))));
}
