use crate::opencv::{as_signed, max_int, min_int, to_signed};
use vstd::prelude::*;

verus! {

/// Number of clock readings kept to estimate the frame rate.
pub const FRAME_HISTORY_LEN: usize = 10;

/// The square of half-side `margin` around the cursor at `(x, y)`, clipped to
/// the monitor (margin and sizes taken as `i32`): `(x0, y0, x1, y1)` when
/// it is not empty.
pub open spec fn region_of(x: i32, y: i32, margin: u32, width: u32, height: u32) -> Option<(u32, u32, u32, u32)> {
    let m = as_signed(margin);
    let x0 = max_int(x - m, 0);
    let y0 = max_int(y - m, 0);
    let x1 = min_int(x + m, as_signed(width));
    let y1 = min_int(y + m, as_signed(height));
    if x1 - x0 <= 0 || y1 - y0 <= 0 {
        None
    } else {
        Some((x0 as u32, y0 as u32, x1 as u32, y1 as u32))
    }
}

/// The pacing of the screen capture around the cursor: the monitor's size,
/// the pause between captures and the times of the latest captures.
pub struct CursorCapturer {
    pub width: u32,
    pub height: u32,
    /// Pause after each capture, in milliseconds.
    pub sleep_millis: u64,
    /// Clock readings of the latest captures, oldest first.
    pub frame_history: std::collections::VecDeque<u64>,
}

impl CursorCapturer {
    /// Capture pacing for a `width` by `height` monitor, with no pause and no
    /// capture yet.
    pub fn new(width: u32, height: u32) -> (c: Self)
        ensures
            c.width == width,
            c.height == height,
            c.sleep_millis == 0,
            c.frame_history@.len() == 0,
    {
        CursorCapturer {
            width,
            height,
            sleep_millis: 0,
            frame_history: std::collections::VecDeque::with_capacity(FRAME_HISTORY_LEN),
        }
    }

    /// The region to capture around the cursor, if the cursor position is known
    /// and the region is not empty.
    pub fn get_region(&self, mouse: Option<(i32, i32)>, margin: u32) -> (r: Option<(u32, u32, u32, u32)>)
        ensures
            r == match mouse {
                Some((x, y)) => region_of(x, y, margin, self.width, self.height),
                None => None,
            },
    {
        let (x, y) = match mouse {
            Some(p) => p,
            None => {
                return None;
            },
        };
        let m: i64 = to_signed(margin);
        let mut x0: i64 = x as i64 - m;
        let mut y0: i64 = y as i64 - m;
        let mut x1: i64 = x as i64 + m;
        let mut y1: i64 = y as i64 + m;
        if x0 < 0 {
            x0 = 0;
        }
        if y0 < 0 {
            y0 = 0;
        }
        let w: i64 = to_signed(self.width);
        let h: i64 = to_signed(self.height);
        if x1 > w {
            x1 = w;
        }
        if y1 > h {
            y1 = h;
        }
        if x1 - x0 <= 0 || y1 - y0 <= 0 {
            return None;
        }
        Some((x0 as u32, y0 as u32, x1 as u32, y1 as u32))
    }

    /// Records a capture at clock reading `now`, keeping the latest ten.
    pub fn add_frame_history(&mut self, now: u64)
        ensures
            final(self).frame_history@ == (if old(self).frame_history@.len() >= FRAME_HISTORY_LEN {
                old(self).frame_history@.drop_first()
            } else {
                old(self).frame_history@
            }).push(now),
            old(self).frame_history@.len() <= FRAME_HISTORY_LEN ==> final(self).frame_history@.len()
                <= FRAME_HISTORY_LEN,
            final(self).width == old(self).width,
            final(self).height == old(self).height,
            final(self).sleep_millis == old(self).sleep_millis,
    {
        if self.frame_history.len() >= FRAME_HISTORY_LEN {
            let _ = self.frame_history.pop_front();
            proof {
                let o = old(self).frame_history@;
                assert(o.subrange(1, o.len() as int) =~= o.drop_first());
            }
        }
        self.frame_history.push_back(now);
    }

    /// Adapts the pause to the measured frame rate: one millisecond longer
    /// when faster than the target, one shorter when not faster and the pause
    /// is at least 5 ms.
    pub fn adjust_sleep(&mut self, fps: u8, target_fps: u8)
        requires
            old(self).sleep_millis < u64::MAX,
        ensures
            final(self).sleep_millis == if fps > target_fps {
                old(self).sleep_millis + 1
            } else if old(self).sleep_millis >= 5 {
                old(self).sleep_millis - 1
            } else {
                old(self).sleep_millis as int
            },
            final(self).frame_history == old(self).frame_history,
            final(self).width == old(self).width,
            final(self).height == old(self).height,
    {
        if fps > target_fps {
            self.sleep_millis = self.sleep_millis + 1;
        } else if self.sleep_millis >= 5 {
            self.sleep_millis = self.sleep_millis - 1;
        }
    }
}

/// The region lies inside the monitor, and is empty only when it is absent.
pub proof fn law_region_inside(x: i32, y: i32, margin: u32, width: u32, height: u32)
    requires
        width <= i32::MAX,
        height <= i32::MAX,
    ensures
        region_of(x, y, margin, width, height) matches Some((x0, y0, x1, y1)) ==> x0 < x1 <= width
            && y0 < y1 <= height,
{
}

} // verus!
