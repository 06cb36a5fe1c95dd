use vstd::prelude::*;
use crate::header::{FrameKind, FrameLens};

verus! {

/// Which of the two frames an overlap is written into.
#[derive(Clone, Copy, Debug, PartialEq, Eq, Structural)]
pub enum OverlapTarget {
    Left,
    Right,
}

/// A half-open range of sample positions.
#[derive(Clone, Copy, Debug, PartialEq, Eq, Structural)]
pub struct WindowRange {
    pub start: usize,
    pub end: usize,
}

impl WindowRange {
    pub fn len(&self) -> (r: usize)
        requires
            self.start <= self.end,
        ensures
            r == self.end - self.start,
    {
        self.end - self.start
    }
}

/// The geometry of the overlap of a previous (left) frame with a current
/// (right) frame. The slopes are those of the shorter frame, `slope_len`
/// samples long.
#[derive(Clone, Copy, Debug, PartialEq, Eq, Structural)]
pub struct Window {
    pub left: WindowRange,
    /// The left slope ends at `left.end`.
    pub left_slope_start: usize,
    pub right: WindowRange,
    /// The right slope starts at `right.start`.
    pub right_slope_end: usize,
    pub slope_len: usize,
    pub overlap_target: OverlapTarget,
}

/// The window for a left frame of `l` samples and a right frame of `r` samples.
pub open spec fn window_spec(l: nat, r: nat) -> Window {
    if l == r {
        Window {
            left: WindowRange { start: (l / 2) as usize, end: l as usize },
            left_slope_start: (l / 2) as usize,
            right: WindowRange { start: 0, end: (r / 2) as usize },
            right_slope_end: (r / 2) as usize,
            slope_len: (r / 2) as usize,
            overlap_target: OverlapTarget::Left,
        }
    } else if l > r {
        Window {
            left: WindowRange { start: (l / 2) as usize, end: (l * 3 / 4 + r / 4) as usize },
            left_slope_start: (l * 3 / 4 - r / 4) as usize,
            right: WindowRange { start: 0, end: (r / 2) as usize },
            right_slope_end: (r / 2) as usize,
            slope_len: (r / 2) as usize,
            overlap_target: OverlapTarget::Left,
        }
    } else {
        Window {
            left: WindowRange { start: (l / 2) as usize, end: l as usize },
            left_slope_start: (l / 2) as usize,
            right: WindowRange { start: (r / 4 - l / 4) as usize, end: (r / 2) as usize },
            right_slope_end: (r / 4 + l / 4) as usize,
            slope_len: (l / 2) as usize,
            overlap_target: OverlapTarget::Right,
        }
    }
}

/// Number of ready samples of a window: the length of its target range.
pub open spec fn window_len_spec(w: Window) -> nat {
    match w.overlap_target {
        OverlapTarget::Left => (w.left.end - w.left.start) as nat,
        OverlapTarget::Right => (w.right.end - w.right.start) as nat,
    }
}

impl Window {
    /// Both ranges are ordered.
    pub open spec fn wf(&self) -> bool {
        self.left.start <= self.left.end && self.right.start <= self.right.end
    }

    pub fn new(left_len: usize, right_len: usize) -> (r: Self)
        requires
            left_len <= 0x1_0000,
            right_len <= 0x1_0000,
        ensures
            r == window_spec(left_len as nat, right_len as nat),
            r.wf(),
    {
        let left_start = left_len / 2;
        let right_end = right_len / 2;
        if left_len == right_len {
            // Long -> long or short -> short.
            Window {
                left: WindowRange { start: left_start, end: left_len },
                left_slope_start: left_start,
                right: WindowRange { start: 0, end: right_end },
                right_slope_end: right_end,
                slope_len: right_end,
                overlap_target: OverlapTarget::Left,
            }
        } else if left_len > right_len {
            // Long -> short.
            let left_point = left_len * 3 / 4;
            let right_point = right_len / 4;
            Window {
                left: WindowRange { start: left_start, end: left_point + right_point },
                left_slope_start: left_point - right_point,
                right: WindowRange { start: 0, end: right_end },
                right_slope_end: right_end,
                slope_len: right_end,
                overlap_target: OverlapTarget::Left,
            }
        } else {
            // Short -> long.
            let left_point = left_len / 4;
            let right_point = right_len / 4;
            Window {
                left: WindowRange { start: left_start, end: left_len },
                left_slope_start: left_start,
                right: WindowRange { start: right_point - left_point, end: right_end },
                right_slope_end: right_point + left_point,
                slope_len: left_start,
                overlap_target: OverlapTarget::Right,
            }
        }
    }

    /// Number of samples the overlap makes ready.
    pub fn len(&self) -> (r: usize)
        requires
            self.wf(),
        ensures
            r == window_len_spec(*self),
    {
        match self.overlap_target {
            OverlapTarget::Left => self.left.len(),
            OverlapTarget::Right => self.right.len(),
        }
    }
}

/// Index of the window for a pair of frame kinds.
pub open spec fn window_idx_spec(left_kind: FrameKind, right_kind: FrameKind) -> int {
    (if left_kind == FrameKind::Long { 1int } else { 0int }) + (if right_kind == FrameKind::Long { 2int } else { 0int })
}

/// The four windows of a stream, one per pair of frame kinds.
#[derive(Debug)]
pub struct Windows {
    pub windows: Vec<Window>,
    pub lens: FrameLens,
}

impl Windows {
    pub open spec fn wf(&self) -> bool {
        &&& self.windows@.len() == 4
        &&& forall|a: FrameKind, b: FrameKind| #[trigger] self.windows@[window_idx_spec(a, b)] == window_spec(
            crate::header::frame_len_of(self.lens, a) as nat,
            crate::header::frame_len_of(self.lens, b) as nat,
        )
    }

    pub fn new(frame_lens: FrameLens) -> (r: Self)
        requires
            frame_lens.short <= frame_lens.long <= 0x1_0000,
        ensures
            r.wf(),
            r.lens == frame_lens,
    {
        let mut windows: Vec<Window> = Vec::new();
        windows.push(Window::new(frame_lens.short(), frame_lens.short()));
        windows.push(Window::new(frame_lens.long(), frame_lens.short()));
        windows.push(Window::new(frame_lens.short(), frame_lens.long()));
        windows.push(Window::new(frame_lens.long(), frame_lens.long()));
        let r = Windows { windows, lens: frame_lens };
        proof {
            assert forall|a: FrameKind, b: FrameKind| #[trigger] r.windows@[window_idx_spec(a, b)] == window_spec(
                crate::header::frame_len_of(r.lens, a) as nat,
                crate::header::frame_len_of(r.lens, b) as nat,
            ) by {
                match a {
                    FrameKind::Short => match b {
                        FrameKind::Short => {},
                        FrameKind::Long => {},
                    },
                    FrameKind::Long => match b {
                        FrameKind::Short => {},
                        FrameKind::Long => {},
                    },
                }
            }
        }
        r
    }

    /// The window from a frame of kind `left_kind` to one of kind `right_kind`.
    pub fn get(&self, left_kind: FrameKind, right_kind: FrameKind) -> (r: Window)
        requires
            self.wf(),
        ensures
            r == window_spec(
                crate::header::frame_len_of(self.lens, left_kind) as nat,
                crate::header::frame_len_of(self.lens, right_kind) as nat,
            ),
    {
        let l: usize = match left_kind {
            FrameKind::Short => 0,
            FrameKind::Long => 1,
        };
        let r: usize = match right_kind {
            FrameKind::Short => 0,
            FrameKind::Long => 2,
        };
        proof {
            assert(self.windows@[window_idx_spec(left_kind, right_kind)] == window_spec(
                crate::header::frame_len_of(self.lens, left_kind) as nat,
                crate::header::frame_len_of(self.lens, right_kind) as nat,
            ));
        }
        self.windows[l + r]
    }
}

} // verus!
