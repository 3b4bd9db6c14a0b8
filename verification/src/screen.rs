//! Where the borderless window goes: which display it is on, where the top
//! centre of that display is, and the shape of its rounded corners.
//!
//! Everything is in physical pixels, with rectangles as Win32 reports them
//! (`right` and `bottom` exclusive).
use vstd::prelude::*;

verus! {

#[derive(Clone, Copy)]
pub struct Rect {
    pub left: i32,
    pub top: i32,
    pub right: i32,
    pub bottom: i32,
}

#[derive(Clone, Copy)]
pub struct Point {
    pub x: i32,
    pub y: i32,
}

/// A display: the system's handle for it (as an integer), its full area and
/// its work area (the full area without the task bar).
#[derive(Clone, Copy)]
pub struct Monitor {
    pub id: isize,
    pub rect: Rect,
    pub work: Rect,
}

pub open spec fn fits_i32(x: int) -> bool {
    i32::MIN <= x <= i32::MAX
}

pub open spec fn min(a: int, b: int) -> int {
    if a <= b {
        a
    } else {
        b
    }
}

pub open spec fn max(a: int, b: int) -> int {
    if a >= b {
        a
    } else {
        b
    }
}

/// Integer division by two, rounding toward zero (Rust's `/`).
pub open spec fn half(x: int) -> int {
    if x >= 0 {
        x / 2
    } else {
        -((-x) / 2)
    }
}

pub open spec fn width(r: Rect) -> int {
    r.right - r.left
}

pub open spec fn height(r: Rect) -> int {
    r.bottom - r.top
}

pub open spec fn overlap_w(a: Rect, b: Rect) -> int {
    min(a.right as int, b.right as int) - max(a.left as int, b.left as int)
}

pub open spec fn overlap_h(a: Rect, b: Rect) -> int {
    min(a.bottom as int, b.bottom as int) - max(a.top as int, b.top as int)
}

/// The rectangles' sizes and overlaps can be computed in `i32`.
pub open spec fn sane(r: Rect) -> bool {
    fits_i32(width(r)) && fits_i32(height(r))
}

pub open spec fn overlap_ok(a: Rect, b: Rect) -> bool {
    fits_i32(overlap_w(a, b)) && fits_i32(overlap_h(a, b))
}

/// Area two rectangles share.
pub open spec fn shared_area(a: Rect, b: Rect) -> int {
    max(overlap_w(a, b), 0) * max(overlap_h(a, b), 0)
}

/// Area of a rectangle (zero when it is turned inside out).
pub open spec fn area(r: Rect) -> int {
    max(width(r), 0) * max(height(r), 0)
}

/// Per-axis distance of `p` outside `r` (zero inside).
pub open spec fn gap(p: int, lo: int, hi: int) -> int {
    if p < lo {
        lo - p
    } else if p >= hi {
        p - hi + 1
    } else {
        0
    }
}

pub open spec fn dist2(p: Point, r: Rect) -> int {
    gap(p.x as int, r.left as int, r.right as int) * gap(p.x as int, r.left as int, r.right as int)
        + gap(p.y as int, r.top as int, r.bottom as int) * gap(p.y as int, r.top as int, r.bottom as int)
}

pub open spec fn dist_ok(p: Point, r: Rect) -> bool {
    fits_i32(gap(p.x as int, r.left as int, r.right as int)) && fits_i32(
        gap(p.y as int, r.top as int, r.bottom as int),
    )
}

fn min_i32(a: i32, b: i32) -> (r: i32)
    ensures
        r == min(a as int, b as int),
{
    if a <= b {
        a
    } else {
        b
    }
}

fn max_i32(a: i32, b: i32) -> (r: i32)
    ensures
        r == max(a as int, b as int),
{
    if a >= b {
        a
    } else {
        b
    }
}

pub fn rect_width(r: Rect) -> (w: i32)
    requires
        fits_i32(width(r)),
    ensures
        w == width(r),
{
    r.right - r.left
}

pub fn rect_height(r: Rect) -> (h: i32)
    requires
        fits_i32(height(r)),
    ensures
        h == height(r),
{
    r.bottom - r.top
}

/// The area two rectangles share.
pub fn intersection_area(a: Rect, b: Rect) -> (s: i64)
    requires
        overlap_ok(a, b),
    ensures
        s == shared_area(a, b),
        s >= 0,
{
    let left = max_i32(a.left, b.left);
    let top = max_i32(a.top, b.top);
    let right = min_i32(a.right, b.right);
    let bottom = min_i32(a.bottom, b.bottom);
    let w = max_i32(right - left, 0) as i64;
    let h = max_i32(bottom - top, 0) as i64;
    assert(0 <= w * h <= 0x7fff_ffff * 0x7fff_ffff) by (nonlinear_arith)
        requires
            0 <= w <= 0x7fff_ffff,
            0 <= h <= 0x7fff_ffff,
    ;
    w * h
}

/// Squared distance from `p` to the nearest pixel of `r`.
pub fn dist_to_rect2(p: Point, r: Rect) -> (d: i64)
    requires
        dist_ok(p, r),
    ensures
        d == dist2(p, r),
        d >= 0,
{
    let dx = if p.x < r.left {
        r.left - p.x
    } else if p.x >= r.right {
        p.x - r.right + 1
    } else {
        0
    } as i64;
    let dy = if p.y < r.top {
        r.top - p.y
    } else if p.y >= r.bottom {
        p.y - r.bottom + 1
    } else {
        0
    } as i64;
    assert(0 <= dx * dx <= 0x7fff_ffff * 0x7fff_ffff && 0 <= dy * dy <= 0x7fff_ffff * 0x7fff_ffff)
        by (nonlinear_arith)
        requires
            0 <= dx <= 0x7fff_ffff,
            0 <= dy <= 0x7fff_ffff,
    ;
    dx * dx + dy * dy
}

/// The area of a window rectangle.
pub fn window_area(r: Rect) -> (s: i64)
    requires
        sane(r),
    ensures
        s == area(r),
        s >= 0,
{
    let w = max_i32(rect_width(r), 0) as i64;
    let h = max_i32(rect_height(r), 0) as i64;
    assert(0 <= w * h <= 0x7fff_ffff * 0x7fff_ffff) by (nonlinear_arith)
        requires
            0 <= w <= 0x7fff_ffff,
            0 <= h <= 0x7fff_ffff,
    ;
    w * h
}

fn half_i32(x: i32) -> (r: i32)
    ensures
        r == half(x as int),
{
    if x >= 0 {
        x / 2
    } else {
        let y = x as i64;
        (-((-y) / 2)) as i32
    }
}

/// The middle of a rectangle (rounded toward its top left corner).
pub fn rect_center(r: Rect) -> (c: Point)
    requires
        sane(r),
        fits_i32(r.left + half(width(r))),
        fits_i32(r.top + half(height(r))),
    ensures
        c.x == r.left + half(width(r)),
        c.y == r.top + half(height(r)),
{
    Point { x: r.left + half_i32(rect_width(r)), y: r.top + half_i32(rect_height(r)) }
}

// ------------------------------------------------------------------ display choice

/// `i` is a display the window overlaps.
pub open spec fn is_hit(r: Rect, ms: Seq<Monitor>, i: int) -> bool {
    0 <= i < ms.len() && shared_area(r, ms[i].rect) > 0
}

/// In the list of overlapped displays sorted by overlap, largest first (and
/// in list order on ties), `i` comes before `j`.
pub open spec fn overlaps_more(r: Rect, ms: Seq<Monitor>, i: int, j: int) -> bool {
    shared_area(r, ms[i].rect) > shared_area(r, ms[j].rect) || (shared_area(r, ms[i].rect)
        == shared_area(r, ms[j].rect) && i < j)
}

/// The window sits largely (a tenth of its area or more) on display `i`,
/// which is not the display `previous`.
pub open spec fn moved_onto(r: Rect, ms: Seq<Monitor>, previous: isize, i: int) -> bool {
    ms[i].id != previous && shared_area(r, ms[i].rect) * 10 >= area(r)
}

/// Display `i` may be chosen: any display, or when `moved_only`, one the
/// window has moved onto away from `previous`.
pub open spec fn qualifies(r: Rect, ms: Seq<Monitor>, previous: Option<isize>, moved_only: bool, i: int) -> bool {
    !moved_only || (previous is Some && moved_onto(r, ms, previous->0, i))
}

/// `i` is the first overlapped display, in overlap order, that qualifies.
pub open spec fn best_among(r: Rect, ms: Seq<Monitor>, previous: Option<isize>, moved_only: bool, i: int) -> bool {
    &&& is_hit(r, ms, i)
    &&& qualifies(r, ms, previous, moved_only, i)
    &&& forall|j: int|
        is_hit(r, ms, j) && qualifies(r, ms, previous, moved_only, j) && j != i ==> #[trigger] overlaps_more(
            r,
            ms,
            i,
            j,
        )
}

/// The display the window is seen on, as far as overlaps decide it: after a
/// move away from `previous`, the most overlapped other display that holds
/// a tenth of the window; otherwise the most overlapped display. `None`
/// when the window overlaps no display.
pub open spec fn picked(r: Rect, ms: Seq<Monitor>, previous: Option<isize>, res: Option<usize>) -> bool {
    match res {
        Some(i) => if exists|j: int| is_hit(r, ms, j) && #[trigger] qualifies(r, ms, previous, true, j) {
            best_among(r, ms, previous, true, i as int)
        } else {
            best_among(r, ms, previous, false, i as int)
        },
        None => forall|j: int| !#[trigger] is_hit(r, ms, j),
    }
}

/// Every overlap and area needed to choose among `ms` fits the integer types.
pub open spec fn displays_ok(r: Rect, ms: Seq<Monitor>) -> bool {
    &&& sane(r)
    &&& forall|i: int| 0 <= i < ms.len() ==> overlap_ok(r, #[trigger] ms[i].rect)
}

/// The first display in overlap order that qualifies, by a single scan.
fn best_hit(r: Rect, ms: &[Monitor], previous: Option<isize>, moved_only: bool) -> (res: Option<usize>)
    requires
        displays_ok(r, ms@),
    ensures
        match res {
            Some(i) => i < ms.len() && best_among(r, ms@, previous, moved_only, i as int),
            None => forall|j: int| !(is_hit(r, ms@, j) && #[trigger] qualifies(r, ms@, previous, moved_only, j)),
        },
{
    let whole = window_area(r);
    proof {
        assert(area(r) <= 0x7fff_ffff * 0x7fff_ffff) by (nonlinear_arith)
            requires
                max(width(r), 0) <= 0x7fff_ffff,
                max(height(r), 0) <= 0x7fff_ffff,
                0 <= max(width(r), 0),
                0 <= max(height(r), 0),
                area(r) == max(width(r), 0) * max(height(r), 0),
        ;
    }
    let mut best: Option<usize> = None;
    let mut best_area: i64 = 0;
    let mut i = 0usize;
    while i < ms.len()
        invariant
            i <= ms.len(),
            displays_ok(r, ms@),
            whole == area(r),
            whole <= 0x7fff_ffff * 0x7fff_ffff,
            match best {
                Some(b) => b < i && is_hit(r, ms@, b as int) && qualifies(r, ms@, previous, moved_only, b as int)
                    && best_area == shared_area(r, ms@[b as int].rect)
                    && forall|j: int| 0 <= j < i && is_hit(r, ms@, j) && qualifies(r, ms@, previous, moved_only, j) && j != b
                        ==> #[trigger] overlaps_more(r, ms@, b as int, j),
                None => forall|j: int| 0 <= j < i ==> !(is_hit(r, ms@, j) && #[trigger] qualifies(r, ms@, previous, moved_only, j)),
            },
        decreases ms.len() - i,
    {
        assert(overlap_ok(r, ms@[i as int].rect));
        let a = intersection_area(r, ms[i].rect);
        let fits = if !moved_only {
            true
        } else {
            match previous {
                Some(p) => ms[i].id != p && (a > 0x0CCC_CCCC_CCCC_CCCC || a * 10 >= whole),
                None => false,
            }
        };
        proof {
            if a > 0x0CCC_CCCC_CCCC_CCCC {
                assert(a * 10 >= whole) by (nonlinear_arith)
                    requires
                        a > 0x0CCC_CCCC_CCCC_CCCC,
                        whole <= 0x7fff_ffff * 0x7fff_ffff,
                ;
            }
            assert(fits == qualifies(r, ms@, previous, moved_only, i as int));
        }
        let ghost old_best = best;
        if a > 0 && fits {
            match best {
                Some(b) => {
                    if a > best_area {
                        best = Some(i);
                        best_area = a;
                    }
                },
                None => {
                    best = Some(i);
                    best_area = a;
                },
            }
        }
        proof {
            if best == Some(i) {
                assert forall|j: int| 0 <= j < i + 1 && is_hit(r, ms@, j) && qualifies(r, ms@, previous, moved_only, j) && j != i
                    implies #[trigger] overlaps_more(r, ms@, i as int, j) by {
                    let b = old_best->0 as int;
                    if j != b {
                        assert(overlaps_more(r, ms@, b, j));
                    }
                }
            } else if best is Some {
                let b = best->0 as int;
                assert forall|j: int| 0 <= j < i + 1 && is_hit(r, ms@, j) && qualifies(r, ms@, previous, moved_only, j) && j != b
                    implies #[trigger] overlaps_more(r, ms@, b, j) by {
                    if j == i {
                        assert(shared_area(r, ms@[j].rect) == a);
                    }
                }
            }
        }
        i = i + 1;
    }
    best
}

/// The display the window is on, by overlap (see `picked`).
pub fn monitor_by_overlap(r: Rect, ms: &[Monitor], previous: Option<isize>) -> (res: Option<usize>)
    requires
        displays_ok(r, ms@),
    ensures
        picked(r, ms@, previous, res),
        match res {
            Some(i) => i < ms.len(),
            None => true,
        },
{
    if previous.is_some() {
        match best_hit(r, ms, previous, true) {
            Some(i) => {
                return Some(i);
            },
            None => {},
        }
    }
    let any_hit = best_hit(r, ms, previous, false);
    match any_hit {
        Some(i) => Some(i),
        None => {
            assert forall|j: int| !#[trigger] is_hit(r, ms@, j) by {
                assert(qualifies(r, ms@, previous, false, j));
            }
            None
        },
    }
}

/// `i` is the display nearest to `p` (the first one on ties).
pub open spec fn nearest_to(p: Point, ms: Seq<Monitor>, i: int) -> bool {
    &&& 0 <= i < ms.len()
    &&& forall|j: int| 0 <= j < ms.len() ==> dist2(p, ms[i].rect) <= #[trigger] dist2(p, ms[j].rect)
    &&& forall|j: int| 0 <= j < i ==> dist2(p, ms[i].rect) < #[trigger] dist2(p, ms[j].rect)
}

/// The display nearest to the point `p`; `None` when there is none.
pub fn nearest_monitor(p: Point, ms: &[Monitor]) -> (res: Option<usize>)
    requires
        forall|i: int| 0 <= i < ms.len() ==> dist_ok(p, #[trigger] ms@[i].rect),
    ensures
        match res {
            Some(i) => nearest_to(p, ms@, i as int),
            None => ms.len() == 0,
        },
{
    if ms.len() == 0 {
        return None;
    }
    let mut best = 0usize;
    let mut best_d = dist_to_rect2(p, ms[0].rect);
    let mut i = 1usize;
    while i < ms.len()
        invariant
            1 <= i <= ms.len(),
            best < i,
            forall|k: int| 0 <= k < ms.len() ==> dist_ok(p, #[trigger] ms@[k].rect),
            best_d == dist2(p, ms@[best as int].rect),
            forall|j: int| 0 <= j < i ==> best_d <= #[trigger] dist2(p, ms@[j].rect),
            forall|j: int| 0 <= j < best ==> best_d < #[trigger] dist2(p, ms@[j].rect),
        decreases ms.len() - i,
    {
        let d = dist_to_rect2(p, ms[i].rect);
        if d < best_d {
            best = i;
            best_d = d;
        }
        i = i + 1;
    }
    Some(best)
}

/// Where a `win_w` x `win_h` window goes to sit at the top centre of a work
/// area; `None` for a window with no size.
pub open spec fn top_center_spot(work: Rect, win_w: int, win_h: int) -> Option<(int, int)> {
    if win_w <= 0 || win_h <= 0 {
        None
    } else {
        Some((work.left + half(width(work) - win_w), work.top as int))
    }
}

pub fn top_center(work: Rect, win_w: i32, win_h: i32) -> (r: Option<(i32, i32)>)
    requires
        sane(work),
        fits_i32(width(work) - win_w),
        fits_i32(work.left + half(width(work) - win_w)),
    ensures
        match r {
            Some((x, y)) => top_center_spot(work, win_w as int, win_h as int) == Some((x as int, y as int)),
            None => top_center_spot(work, win_w as int, win_h as int) is None,
        },
{
    if win_w <= 0 || win_h <= 0 {
        return None;
    }
    let x = work.left + half_i32(rect_width(work) - win_w);
    Some((x, work.top))
}

// ------------------------------------------------------------------ window shape

/// What to do with the window's clipping shape this frame.
pub enum ShapeStep {
    /// The window has no size yet: leave everything as it is.
    Skip,
    /// Same size and radius as last time: nothing to do.
    Unchanged,
    /// No rounding (full screen, maximised): back to a plain rectangle.
    Clear,
    /// Clip to a rounded rectangle with this corner diameter.
    Round(i32),
}

/// The size and radius packed in 64 bits: width from bit 40, height (24
/// bits) from bit 16, radius (16 bits) at the bottom.
pub open spec fn shape_key_of(w: i32, h: i32, radius: i32) -> u64 {
    ((w as u64) << 40u64) | (((h as u64) & 0xFF_FFFFu64) << 16u64) | ((radius as u64) & 0xFFFFu64)
}

pub fn shape_key(w: i32, h: i32, radius: i32) -> (k: u64)
    ensures
        k == shape_key_of(w, h, radius),
{
    ((w as u64) << 40u64) | (((h as u64) & 0xFF_FFFFu64) << 16u64) | ((radius as u64) & 0xFFFFu64)
}

/// The corner diameter for a radius, at most the window's shorter side.
pub open spec fn corner_diameter(radius: int, w: int, h: int) -> int {
    let d = radius * 2;
    let cap = min(w, h);
    if d < 0 {
        0
    } else if d > cap {
        cap
    } else {
        d
    }
}

/// The shape step for a `w` x `h` window (physical pixels) with corner
/// radius `radius`, given the key stored last time; also the key to store.
pub open spec fn shape_plan(w: i32, h: i32, radius: i32, last: u64) -> (ShapeStep, u64) {
    if w <= 0 || h <= 0 {
        (ShapeStep::Skip, last)
    } else if shape_key_of(w, h, radius) == last {
        (ShapeStep::Unchanged, last)
    } else if radius <= 0 {
        (ShapeStep::Clear, shape_key_of(w, h, radius))
    } else {
        (ShapeStep::Round(corner_diameter(radius as int, w as int, h as int) as i32), shape_key_of(w, h, radius))
    }
}

pub fn shape_step(w: i32, h: i32, radius: i32, last: u64) -> (r: (ShapeStep, u64))
    requires
        radius < 0x4000_0000,
    ensures
        r == shape_plan(w, h, radius, last),
{
    if w <= 0 || h <= 0 {
        return (ShapeStep::Skip, last);
    }
    let key = shape_key(w, h, radius);
    if key == last {
        return (ShapeStep::Unchanged, last);
    }
    if radius <= 0 {
        return (ShapeStep::Clear, key);
    }
    let cap = min_i32(w, h);
    let d = radius * 2;
    let d = if d < 0 {
        0
    } else if d > cap {
        cap
    } else {
        d
    };
    (ShapeStep::Round(d), key)
}

// ------------------------------------------------------------------ frame rules

/// How many frames the window is given to settle at start before it is
/// placed at the top centre of its display.
pub const PLACE_WINDOW_FRAMES: u32 = 60;

/// One frame of the start-up placement: the frames left after this one, and
/// whether to place the window now. The window is placed twice, once its
/// size has settled and again a little later, then no more.
pub open spec fn place_plan(left: u32) -> (u32, bool) {
    if left == 0 {
        (0, false)
    } else {
        let l = (left - 1) as u32;
        (if l < 18 {
            0
        } else {
            l
        }, l == 45 || l == 18)
    }
}

pub fn place_window_step(left: u32) -> (r: (u32, bool))
    ensures
        r == place_plan(left),
{
    if left == 0 {
        return (0, false);
    }
    let l = left - 1;
    let now = l == 45 || l == 18;
    (if l < 18 {
        0
    } else {
        l
    }, now)
}

/// Frames over which the window is snapped back to the top centre after the
/// system moved it to another display.
pub const MONITOR_SWITCH_SNAP_FRAMES: u32 = 12;

/// Follows the window across displays: the system can move it with a key
/// chord the application never sees, so the display under the window is
/// watched, and after a switch the window is snapped to the top centre of
/// the new display a few times while the move settles.
pub struct MonitorFollow {
    /// The display the window was last seen on.
    pub last_monitor: Option<isize>,
    /// The display a pending snap goes to.
    pub snap_target: Option<isize>,
    /// Frames left in a pending snap.
    pub snap_frames: u32,
}

/// What the window has to do this frame.
pub enum FollowStep {
    /// Nothing.
    Idle,
    /// Snap to the top centre of this display (or of the current one).
    Snap(Option<isize>),
    /// Look up the display under the window, knowing it was on this one.
    Observe(Option<isize>),
}

/// The snap frames on which the window is actually moved.
pub open spec fn snap_frame(frames: u32) -> bool {
    frames == 8 || frames == 4 || frames == 0
}

impl MonitorFollow {
    pub fn new() -> (m: MonitorFollow)
        ensures
            m.last_monitor is None,
            m.snap_target is None,
            m.snap_frames == 0,
    {
        MonitorFollow { last_monitor: None, snap_target: None, snap_frames: 0 }
    }

    /// Starts a frame. During a pending snap one frame is counted off and
    /// the window is snapped on the frames that `snap_frame` names;
    /// otherwise the display under the window is to be looked up.
    pub fn begin_frame(&mut self) -> (step: FollowStep)
        ensures
            old(self).snap_frames > 0 ==> {
                &&& final(self).snap_frames == old(self).snap_frames - 1
                &&& final(self).last_monitor == old(self).last_monitor
                &&& final(self).snap_target == old(self).snap_target
                &&& step == if snap_frame(final(self).snap_frames) {
                    FollowStep::Snap(old(self).snap_target)
                } else {
                    FollowStep::Idle
                }
            },
            old(self).snap_frames == 0 ==> {
                &&& *final(self) == *old(self)
                &&& step == FollowStep::Observe(old(self).last_monitor)
            },
    {
        if self.snap_frames > 0 {
            self.snap_frames = self.snap_frames - 1;
            if self.snap_frames == 8 || self.snap_frames == 4 || self.snap_frames == 0 {
                FollowStep::Snap(self.snap_target)
            } else {
                FollowStep::Idle
            }
        } else {
            FollowStep::Observe(self.last_monitor)
        }
    }

    /// A snap succeeded. The window is now on the snap's display, or, with
    /// no display named, on `current`. The last snap clears the target.
    pub fn snapped(&mut self, current: Option<isize>)
        ensures
            final(self).last_monitor == (if old(self).snap_target is Some {
                old(self).snap_target
            } else {
                current
            }),
            final(self).snap_target == (if old(self).snap_frames == 0 {
                None
            } else {
                old(self).snap_target
            }),
            final(self).snap_frames == old(self).snap_frames,
    {
        self.last_monitor = match self.snap_target {
            Some(t) => Some(t),
            None => current,
        };
        if self.snap_frames == 0 {
            self.snap_target = None;
        }
    }

    /// The display under the window is `current`. A move from one known
    /// display to another starts a snap towards the new one.
    pub fn observed(&mut self, current: Option<isize>)
        ensures
            final(self).last_monitor == current,
            (current != old(self).last_monitor && old(self).last_monitor is Some && current is Some) ==> {
                &&& final(self).snap_target == current
                &&& final(self).snap_frames == MONITOR_SWITCH_SNAP_FRAMES
            },
            !(current != old(self).last_monitor && old(self).last_monitor is Some && current is Some) ==> {
                &&& final(self).snap_target == old(self).snap_target
                &&& final(self).snap_frames == old(self).snap_frames
            },
    {
        if current != self.last_monitor {
            if self.last_monitor.is_some() && current.is_some() {
                self.snap_target = current;
                self.snap_frames = MONITOR_SWITCH_SNAP_FRAMES;
            }
            self.last_monitor = current;
        }
    }
}

/// Frames a too-small window is tolerated before its size is restored
/// (moving between displays of different scale gives a few odd frames).
pub const TINY_FRAMES_LIMIT: u32 = 30;

/// One frame of the too-small check: the new count of consecutive tiny
/// frames, and whether to restore the default size now.
pub open spec fn tiny_plan(count: u32, tiny: bool) -> (u32, bool) {
    if !tiny {
        (0, false)
    } else if count + 1 > TINY_FRAMES_LIMIT {
        (0, true)
    } else {
        ((count + 1) as u32, false)
    }
}

pub fn tiny_window_step(count: u32, tiny: bool) -> (r: (u32, bool))
    requires
        count < u32::MAX,
    ensures
        r == tiny_plan(count, tiny),
{
    if !tiny {
        return (0, false);
    }
    let c = count + 1;
    if c > TINY_FRAMES_LIMIT {
        (0, true)
    } else {
        (c, false)
    }
}

/// The edge or corner a resize drag starts from.
pub enum ResizeEdge {
    North,
    South,
    East,
    West,
    NorthEast,
    NorthWest,
    SouthEast,
    SouthWest,
}

/// The resize handle under the pointer, from which window borders it is
/// near; corners win over edges, and on a window too small to tell left
/// from right (or top from bottom) the left and top sides win.
pub open spec fn edge_under(left: bool, right: bool, top: bool, bottom: bool) -> Option<ResizeEdge> {
    if left && top {
        Some(ResizeEdge::NorthWest)
    } else if right && top {
        Some(ResizeEdge::NorthEast)
    } else if left && bottom {
        Some(ResizeEdge::SouthWest)
    } else if right && bottom {
        Some(ResizeEdge::SouthEast)
    } else if left {
        Some(ResizeEdge::West)
    } else if right {
        Some(ResizeEdge::East)
    } else if top {
        Some(ResizeEdge::North)
    } else if bottom {
        Some(ResizeEdge::South)
    } else {
        None
    }
}

pub fn resize_edge(left: bool, right: bool, top: bool, bottom: bool) -> (r: Option<ResizeEdge>)
    ensures
        r == edge_under(left, right, top, bottom),
{
    if left && top {
        Some(ResizeEdge::NorthWest)
    } else if right && top {
        Some(ResizeEdge::NorthEast)
    } else if left && bottom {
        Some(ResizeEdge::SouthWest)
    } else if right && bottom {
        Some(ResizeEdge::SouthEast)
    } else if left {
        Some(ResizeEdge::West)
    } else if right {
        Some(ResizeEdge::East)
    } else if top {
        Some(ResizeEdge::North)
    } else if bottom {
        Some(ResizeEdge::South)
    } else {
        None
    }
}

// ------------------------------------------------------------------ laws

/// Two rectangles share the same area whichever is named first.
pub proof fn lemma_shared_area_symmetric(a: Rect, b: Rect)
    ensures
        shared_area(a, b) == shared_area(b, a),
{
}

/// A window snapped to the top centre is centred: the room left of it and
/// the room right of it differ by at most one pixel.
pub proof fn lemma_top_center_centred(work: Rect, win_w: int, win_h: int)
    requires
        win_w > 0,
        win_h > 0,
    ensures
        ({
            let spot = top_center_spot(work, win_w, win_h)->0;
            let x = spot.0;
            let left_room = x - work.left;
            let right_room = work.right - (x + win_w);
            -1 <= left_room - right_room <= 1
        }),
{
    let d = width(work) - win_w;
    assert(-1 <= 2 * half(d) - d <= 1) by (nonlinear_arith)
        requires
            half(d) == if d >= 0 {
                d / 2
            } else {
                -((-d) / 2)
            },
    ;
}

/// A window snapped to the top centre sits at the top of the work area and,
/// when it fits, inside it: its top edge is the work area's top, and it
/// stays within the work area's sides and bottom as far as its size allows.
/// A window with no size gets no spot.
pub proof fn lemma_top_center_inside(work: Rect, win_w: int, win_h: int)
    ensures
        (win_w <= 0 || win_h <= 0) <==> top_center_spot(work, win_w, win_h) is None,
        top_center_spot(work, win_w, win_h) matches Some(spot) ==> {
            &&& spot.1 == work.top
            &&& win_h <= work.bottom - work.top ==> spot.1 + win_h <= work.bottom
            &&& win_w <= work.right - work.left ==> work.left <= spot.0 && spot.0 + win_w <= work.right
        },
{
    if win_w > 0 && win_h > 0 {
        let d = width(work) - win_w;
        assert(d >= 0 ==> 0 <= half(d) && 2 * half(d) <= d) by (nonlinear_arith)
            requires
                half(d) == if d >= 0 {
                    d / 2
                } else {
                    -((-d) / 2)
                },
        ;
    }
}

/// The shape settles: asked again for the same size and radius, nothing
/// has to change.
pub proof fn lemma_shape_settles(w: i32, h: i32, radius: i32, last: u64)
    requires
        w > 0,
        h > 0,
    ensures
        shape_plan(w, h, radius, shape_plan(w, h, radius, last).1).0 == ShapeStep::Unchanged,
{
}

} // verus!
