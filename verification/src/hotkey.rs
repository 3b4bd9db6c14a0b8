//! The window's show/hide switch and its placement requests, as this
//! platform provides them.
//!
//! A global hot key and direct window control need the windowing system's
//! own interface; on this platform there is none to call, so the window is
//! always taken as visible, hiding and shaping it do nothing, and every
//! placement request reports that it was not carried out. The hot key
//! still works inside the window.
use std::sync::atomic::AtomicBool;
use std::sync::Arc;

use vstd::prelude::*;

verus! {

/// Raised by the hot key, so the main thread can clear it once woken.
pub type Signal = Arc<AtomicBool>;

/// A fresh, lowered signal.
pub fn new_signal() -> Signal {
    Arc::new(AtomicBool::new(false))
}

/// Whether the window is showing. Without a way to ask the system it is
/// taken as showing, so that nothing stops drawing it.
pub fn is_visible() -> (r: bool)
    ensures
        r,
{
    true
}

/// Hides the window (nothing to do here).
pub fn hide_window() {
}

/// Clips the window to a rounded rectangle of corner radius `radius_px`
/// (physical pixels); here the rounding is only drawn.
pub fn apply_window_shape(radius_px: i32) {
}

/// Moves the window to the top centre of its display; reports failure.
pub fn snap_top_center() -> (r: bool)
    ensures
        !r,
{
    false
}

/// Moves the window to the top centre of display `monitor_id` (or of its
/// own display); reports failure.
pub fn snap_top_center_on(monitor_id: Option<isize>) -> (r: bool)
    ensures
        !r,
{
    false
}

/// The display the window is on; unknown here.
pub fn current_monitor_id() -> (r: Option<isize>)
    ensures
        r is None,
{
    current_monitor_id_away_from(None)
}

/// The display the window is on, preferring one it has moved onto away
/// from `previous`; unknown here.
pub fn current_monitor_id_away_from(previous: Option<isize>) -> (r: Option<isize>)
    ensures
        r is None,
{
    None
}

/// Gives the window back a `w` x `h` size at the top centre of its display;
/// reports failure.
pub fn restore_size(w: i32, h: i32) -> (r: bool)
    ensures
        !r,
{
    false
}

} // verus!
