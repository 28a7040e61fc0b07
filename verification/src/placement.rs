//! Where the windows stand on the screen.

use vstd::prelude::*;

verus! {

/// The popover's least height, in logical pixels.
pub const POPOVER_MIN_H: u32 = 240;

/// The popover's height before its page says how high it is.
pub const POPOVER_H: u32 = 600;

/// The popover's width.
pub const POPOVER_W: u32 = 384;

/// The popup's width and height.
pub const POPUP_W: u32 = 460;

pub const POPUP_H: u32 = 280;

/// The gap between the popover and the edges of the work area, in physical pixels.
pub const EDGE_MARGIN: i32 = 12;

/// The height of a taskbar, where the work area is not known.
pub const TASKBAR_H: i32 = 48;

/// A rectangle of the screen.
#[derive(Debug, Clone, Copy, PartialEq, Eq, Structural)]
pub struct Area {
    pub left: i32,
    pub top: i32,
    pub right: i32,
    pub bottom: i32,
}

pub open spec fn larger(a: int, b: int) -> int {
    if a < b {
        b
    } else {
        a
    }
}

fn max(a: i64, b: i64) -> (r: i64)
    ensures
        r == larger(a as int, b as int),
{
    if a < b {
        b
    } else {
        a
    }
}

/// The work area: what the system says, or the screen without a taskbar.
pub fn work_area(known: Option<Area>, screen_w: i32, screen_h: i32) -> (r: Area)
    requires
        screen_h >= i32::MIN + TASKBAR_H,
    ensures
        r == match known {
            Some(a) => a,
            None => Area { left: 0, top: 0, right: screen_w, bottom: (screen_h - TASKBAR_H) as i32 },
        },
{
    match known {
        Some(a) => a,
        None => Area { left: 0, top: 0, right: screen_w, bottom: screen_h - TASKBAR_H },
    }
}

/// Where a window stands, and how large it is.
#[derive(Debug, Clone, Copy, PartialEq, Eq, Structural)]
pub struct Placed {
    pub x: i32,
    pub y: i32,
    pub width: u32,
    pub height: u32,
}

/// The height that the popover gets: its page's, but no less than the least and no
/// more than the work area holds.
pub open spec fn fitted(height: int, min_height: int, area: Area) -> int {
    let room = larger(area.bottom - area.top - 2 * EDGE_MARGIN, min_height);
    if height < min_height {
        min_height
    } else if height > room {
        room
    } else {
        height
    }
}

/// The popover above the tray: at the bottom right of the work area, clear of its
/// edges, and never above or left of it. All sizes are physical pixels.
pub fn reposition(area: Area, width: i32, height: i32, min_height: i32) -> (r: Placed)
    requires
        0 <= width,
        0 <= min_height,
    ensures
        ({
            let h = fitted(height as int, min_height as int, area);
            &&& r.height == larger(h, 1)
            &&& r.width == larger(width as int, 1)
            &&& r.x == larger(area.right - width - EDGE_MARGIN, area.left as int)
            &&& r.y == larger(area.bottom - h - EDGE_MARGIN, area.top as int)
        }),
{
    let margin: i64 = EDGE_MARGIN as i64;
    let least: i64 = min_height as i64;
    let room: i64 = max(area.bottom as i64 - area.top as i64 - 2 * margin, least);
    let h: i64 = if (height as i64) < least {
        least
    } else if height as i64 > room {
        room
    } else {
        height as i64
    };
    Placed {
        x: max(area.right as i64 - width as i64 - margin, area.left as i64) as i32,
        y: max(area.bottom as i64 - h - margin, area.top as i64) as i32,
        width: max(width as i64, 1) as u32,
        height: max(h, 1) as u32,
    }
}

/// The popup in the middle of the work area that holds the cursor; at its corner
/// where the area is smaller than the popup.
pub fn centered(area: Area, width: i32, height: i32) -> (r: (i32, i32))
    requires
        0 <= width,
        0 <= height,
    ensures
        r.0 == area.left + (larger(area.right - area.left, width as int) - width) / 2,
        r.1 == area.top + (larger(area.bottom - area.top, height as int) - height) / 2,
{
    let w: i64 = max(area.right as i64 - area.left as i64, width as i64);
    let h: i64 = max(area.bottom as i64 - area.top as i64, height as i64);
    let x: i64 = area.left as i64 + (w - width as i64) / 2;
    let y: i64 = area.top as i64 + (h - height as i64) / 2;
    (x as i32, y as i32)
}

// ---- laws -----------------------------------------------------------------

/// A work area that has room for the least height and for the width holds the whole
/// popover, with its margins.
pub proof fn popover_stays_inside(area: Area, width: int, height: int, min_height: int)
    requires
        0 < width,
        0 < min_height,
        min_height + 2 * EDGE_MARGIN <= area.bottom - area.top,
        width + 2 * EDGE_MARGIN <= area.right - area.left,
    ensures
        ({
            let h = fitted(height, min_height, area);
            let x = larger(area.right - width - EDGE_MARGIN, area.left as int);
            let y = larger(area.bottom - h - EDGE_MARGIN, area.top as int);
            &&& area.left + EDGE_MARGIN <= x
            &&& x + width + EDGE_MARGIN <= area.right
            &&& area.top + EDGE_MARGIN <= y
            &&& y + h + EDGE_MARGIN <= area.bottom
        }),
{
}

/// A work area at least as large as the popup holds all of it.
pub proof fn popup_stays_inside(area: Area, width: int, height: int)
    requires
        0 < width <= area.right - area.left,
        0 < height <= area.bottom - area.top,
    ensures
        ({
            let x = area.left + (larger(area.right - area.left, width) - width) / 2;
            let y = area.top + (larger(area.bottom - area.top, height) - height) / 2;
            &&& area.left <= x
            &&& x + width <= area.right
            &&& area.top <= y
            &&& y + height <= area.bottom
        }),
{
}

/// The popover is as high as its page asks, but not lower than the lowest it may be, nor,
/// above that, higher than the room between the margins.
pub proof fn heights_are_kept_where_they_fit(height: int, min_height: int, area: Area)
    ensures
        ({
            let room = area.bottom - area.top - 24;
            let h = fitted(height, min_height, area);
            &&& h >= min_height
            &&& h > min_height ==> h <= room
            &&& min_height <= height <= room ==> h == height
            &&& height < min_height ==> h == min_height
            &&& height > room >= min_height ==> h == room
        }),
{
}

} // verus!
