//! Positions and sizes on the screen.

use vstd::prelude::*;

verus! {

/// Indent in pixels per nesting level of the sidebar.
pub const INDENT: i32 = 14;

/// Left margin in pixels of a row at depth 0.
pub const MARGIN: i32 = 6;

/// A rectangle in pixels: its upper left corner and its size.
#[derive(Debug, Clone, Copy, PartialEq)]
pub struct Rect {
    pub x: i32,
    pub y: i32,
    pub width: i32,
    pub height: i32,
}

/// The left margin in pixels of a sidebar row at the given depth.
pub open spec fn margin_at(depth: usize) -> int {
    MARGIN + (depth as i32) * INDENT
}

/// Whether the margin at this depth, and the indent in it, fit the machine's
/// numbers.
pub open spec fn margin_fits(depth: usize) -> bool {
    i32::MIN <= (depth as i32) * INDENT && margin_at(depth) <= i32::MAX
}

/// Half of `d`, rounded towards zero.
pub open spec fn half(d: int) -> int {
    if d >= 0 {
        d / 2
    } else {
        -((-d) / 2)
    }
}

/// Where something of length `size` starts when it is centred on the stretch
/// of length `extent` that starts at `origin`.
pub open spec fn centred(origin: int, extent: int, size: int) -> int {
    origin + half(extent - size)
}

/// Whether that, and the room left over, fit the machine's numbers.
pub open spec fn centred_fits(origin: i32, extent: i32, size: i32) -> bool {
    &&& i32::MIN <= extent - size <= i32::MAX
    &&& i32::MIN <= centred(origin as int, extent as int, size as int) <= i32::MAX
}

/// The monitor to centre on: the one the window is on, or a common size.
pub open spec fn monitor(found: Option<Rect>) -> Rect {
    match found {
        Some(m) => m,
        None => Rect { x: 0, y: 0, width: 1920, height: 1080 },
    }
}

/// Whether the position of a window centred on the monitor fits the machine's
/// numbers.
pub open spec fn position_fits(found: Option<Rect>, w: i32, h: i32) -> bool {
    &&& centred_fits(monitor(found).x, monitor(found).width, w)
    &&& centred_fits(monitor(found).y, monitor(found).height, h)
}

/// The left margin in pixels of a sidebar row at the given depth.
pub fn row_margin(depth: usize) -> (r: i32)
    requires
        margin_fits(depth),
    ensures
        r == margin_at(depth),
{
    let d = depth as i32;
    MARGIN + d * INDENT
}

/// Whether `row_margin` has a result for this depth.
pub fn row_margin_fits(depth: usize) -> (r: bool)
    ensures
        r == margin_fits(depth),
{
    let d = depth as i32;
    assert(d * INDENT == d * 14);
    let indent: i64 = d as i64 * INDENT as i64;
    i32::MIN as i64 <= indent && MARGIN as i64 + indent <= i32::MAX as i64
}

/// The size to centre: the window's own, or the default one, at least one
/// pixel each way, where the window has no size yet.
pub fn window_size(own: (i32, i32), default: (i32, i32)) -> (r: (i32, i32))
    ensures
        own.0 > 1 && own.1 > 1 ==> r == own,
        own.0 <= 1 || own.1 <= 1 ==> {
            &&& r.0 == (if default.0 > 1 {
                default.0
            } else {
                1
            })
            &&& r.1 == (if default.1 > 1 {
                default.1
            } else {
                1
            })
        },
{
    if own.0 <= 1 || own.1 <= 1 {
        let w = if default.0 > 1 {
            default.0
        } else {
            1
        };
        let h = if default.1 > 1 {
            default.1
        } else {
            1
        };
        (w, h)
    } else {
        own
    }
}

fn centred_start(origin: i32, extent: i32, size: i32) -> (r: i32)
    requires
        centred_fits(origin, extent, size),
    ensures
        r == centred(origin as int, extent as int, size as int),
{
    let room = extent - size;
    if room >= 0 {
        origin + room / 2
    } else {
        let over: i64 = -(room as i64);
        (origin as i64 - over / 2) as i32
    }
}

fn centred_start_fits(origin: i32, extent: i32, size: i32) -> (r: bool)
    ensures
        r == centred_fits(origin, extent, size),
{
    let room: i64 = extent as i64 - size as i64;
    if room < i32::MIN as i64 || room > i32::MAX as i64 {
        return false;
    }
    let start: i64 = if room >= 0 {
        origin as i64 + room / 2
    } else {
        origin as i64 - (-room) / 2
    };
    i32::MIN as i64 <= start && start <= i32::MAX as i64
}

/// The upper left corner of a window of size `w` by `h` centred on the
/// monitor it is on.
pub fn centre_position(found: Option<Rect>, w: i32, h: i32) -> (r: (i32, i32))
    requires
        position_fits(found, w, h),
    ensures
        r.0 == centred(monitor(found).x as int, monitor(found).width as int, w as int),
        r.1 == centred(monitor(found).y as int, monitor(found).height as int, h as int),
{
    let m = match found {
        Some(m) => m,
        None => Rect { x: 0, y: 0, width: 1920, height: 1080 },
    };
    (centred_start(m.x, m.width, w), centred_start(m.y, m.height, h))
}

/// Whether `centre_position` has a result for these sizes.
pub fn centre_position_fits(found: Option<Rect>, w: i32, h: i32) -> (r: bool)
    ensures
        r == position_fits(found, w, h),
{
    let m = match found {
        Some(m) => m,
        None => Rect { x: 0, y: 0, width: 1920, height: 1080 },
    };
    centred_start_fits(m.x, m.width, w) && centred_start_fits(m.y, m.height, h)
}

/// What is centred leaves the same room on both sides, up to one pixel.
pub proof fn law_centred_leaves_equal_room(origin: int, extent: int, size: int)
    ensures
        ({
            let before = centred(origin, extent, size) - origin;
            let after = origin + extent - (centred(origin, extent, size) + size);
            -1 <= after - before <= 1
        }),
{
}

/// A row lies one indent to the right of a row one level up.
pub proof fn law_margin_grows_with_depth(depth: usize)
    requires
        depth < i32::MAX,
    ensures
        margin_at(0) == MARGIN,
        margin_at((depth + 1) as usize) == margin_at(depth) + INDENT,
{
}

/// Where the room left over is odd, what is centred starts on the pixel that is
/// nearer to the start of the stretch, both where it fits the stretch and where
/// it is larger. That leaves one place only.
pub proof fn law_centred_rounds_towards_the_origin(origin: int, extent: int, size: int)
    ensures
        ({
            let before = centred(origin, extent, size) - origin;
            let after = origin + extent - (centred(origin, extent, size) + size);
            &&& size <= extent ==> 0 <= after - before <= 1
            &&& size > extent ==> -1 <= after - before <= 0
        }),
{
}

/// A row begins 6 pixels from the edge, and 14 further for each level.
pub proof fn law_margin_in_pixels(depth: usize)
    requires
        depth <= i32::MAX,
    ensures
        margin_at(depth) == 6 + 14 * depth,
        margin_fits(depth) <==> 6 + 14 * depth <= i32::MAX,
{
}

/// A window is centred on the monitor it is on, or else on one of 1920 by 1080
/// pixels at the origin.
pub proof fn law_monitor_to_centre_on(found: Option<Rect>)
    ensures
        found matches Some(m) ==> monitor(found) == m,
        found is None ==> {
            &&& monitor(found).x == 0
            &&& monitor(found).y == 0
            &&& monitor(found).width == 1920
            &&& monitor(found).height == 1080
        },
{
}

/// A position can be given exactly where the room left over and the position
/// itself are within the machine's numbers, in both directions.
pub proof fn law_when_a_position_fits(found: Option<Rect>, w: i32, h: i32)
    ensures
        ({
            let m = monitor(found);
            let x = centred(m.x as int, m.width as int, w as int);
            let y = centred(m.y as int, m.height as int, h as int);
            position_fits(found, w, h) <==> {
                &&& -0x8000_0000 <= m.width - w <= 0x7fff_ffff
                &&& -0x8000_0000 <= m.height - h <= 0x7fff_ffff
                &&& -0x8000_0000 <= x <= 0x7fff_ffff
                &&& -0x8000_0000 <= y <= 0x7fff_ffff
            }
        }),
{
}

} // verus!
