//! Showing frames in a window: where the frame lands, and what to do when the window does not
//! take one.

use vstd::prelude::*;

use crate::fixed::{div_nearest, greater, law_rounding_is_closest, magnitude, nearest};

verus! {

/// A rectangle in millionths of a pixel.
#[derive(Debug, Clone, Copy, PartialEq, Eq, Structural)]
pub struct Rect {
    pub x: i128,
    pub y: i128,
    pub w: i128,
    pub h: i128,
}

/// The size of a frame that fills a window as far as its shape allows.
pub open spec fn fitted(fw: int, fh: int, sw: int, sh: int) -> (int, int) {
    if sw * fh <= sh * fw {
        (sw * 1_000_000, nearest(fh * (sw * 1_000_000), fw))
    } else {
        (nearest(fw * (sh * 1_000_000), fh), sh * 1_000_000)
    }
}

/// A size in the middle of a window.
pub open spec fn centred(size: (int, int), sw: int, sh: int) -> Rect {
    Rect {
        x: nearest(sw * 1_000_000 - size.0, 2) as i128,
        y: nearest(sh * 1_000_000 - size.1, 2) as i128,
        w: size.0 as i128,
        h: size.1 as i128,
    }
}

fn side(a: u32, b: u32, d: u32) -> (r: i128)
    requires
        d > 0,
    ensures
        r == nearest(a * (b * 1_000_000), d as int),
        0 <= r <= 20_000_000_000_000_000_000_000_000,
{
    let x: i128 = a as i128;
    let y: i128 = b as i128 * 1_000_000;
    assert(0 <= x * y <= 20_000_000_000_000_000_000_000_000) by (nonlinear_arith)
        requires
            0 <= x <= 0xffff_ffff,
            0 <= y <= 0xffff_ffff * 1_000_000,
    ;
    proof {
        crate::fixed::lemma_nearest_bound(x * y, d as int);
    }
    div_nearest(x * y, d as i128)
}

fn fit(fw: u32, fh: u32, sw: u32, sh: u32) -> (r: (i128, i128))
    requires
        fw > 0,
        fh > 0,
    ensures
        (r.0 as int, r.1 as int) == fitted(fw as int, fh as int, sw as int, sh as int),
        0 <= r.0 <= 20_000_000_000_000_000_000_000_000,
        0 <= r.1 <= 20_000_000_000_000_000_000_000_000,
{
    assert(0 <= sw * fh <= 0xffff_ffff * 0xffff_ffff) by (nonlinear_arith)
        requires
            0 <= sw <= 0xffff_ffff,
            0 <= fh <= 0xffff_ffff,
    ;
    assert(0 <= sh * fw <= 0xffff_ffff * 0xffff_ffff) by (nonlinear_arith)
        requires
            0 <= sh <= 0xffff_ffff,
            0 <= fw <= 0xffff_ffff,
    ;
    if sw as u64 * fh as u64 <= sh as u64 * fw as u64 {
        (sw as i128 * 1_000_000, side(fh, sw, fw))
    } else {
        (side(fw, sh, fh), sh as i128 * 1_000_000)
    }
}

/// Where a frame lands in a window: as large as fits, in the middle.
pub fn frame_rect(fw: u32, fh: u32, sw: u32, sh: u32) -> (r: Rect)
    requires
        fw > 0,
        fh > 0,
    ensures
        r == centred(fitted(fw as int, fh as int, sw as int, sh as int), sw as int, sh as int),
{
    let (w, h) = fit(fw, fh, sw, sh);
    Rect {
        x: div_nearest(sw as i128 * 1_000_000 - w, 2),
        y: div_nearest(sh as i128 * 1_000_000 - h, 2),
        w,
        h,
    }
}

/// Where a frame is drawn in a window: as where it lands, but never smaller than a pixel.
pub fn drawn_rect(fw: u32, fh: u32, sw: u32, sh: u32) -> (r: Rect)
    requires
        fw > 0,
        fh > 0,
    ensures
        ({
            let (w, h) = fitted(fw as int, fh as int, sw as int, sh as int);
            r == centred((greater(w, 1_000_000), greater(h, 1_000_000)), sw as int, sh as int)
        }),
{
    let (fit_w, fit_h) = fit(fw, fh, sw, sh);
    let w: i128 = if fit_w > 1_000_000 {
        fit_w
    } else {
        1_000_000
    };
    let h: i128 = if fit_h > 1_000_000 {
        fit_h
    } else {
        1_000_000
    };
    Rect {
        x: div_nearest(sw as i128 * 1_000_000 - w, 2),
        y: div_nearest(sh as i128 * 1_000_000 - h, 2),
        w,
        h,
    }
}

/// The first format that stores bytes as they are; the first of all where none does.
pub open spec fn plain_format(encodes: Seq<bool>, from: int) -> int
    decreases encodes.len() - from,
{
    if from < 0 || from >= encodes.len() {
        0
    } else if !encodes[from] {
        from
    } else {
        plain_format(encodes, from + 1)
    }
}

/// The format to show frames in, by which of them encode colours once more: one that does not,
/// if there is one. None where the window has no format.
pub fn pick_format(encodes: &[bool]) -> (r: Option<usize>)
    ensures
        match r {
            Some(i) => encodes@.len() > 0 && i < encodes@.len() && i == plain_format(encodes@, 0),
            None => encodes@.len() == 0,
        },
{
    if encodes.len() == 0 {
        return None;
    }
    let mut i: usize = 0;
    while i < encodes.len()
        invariant
            i <= encodes@.len(),
            plain_format(encodes@, 0) == plain_format(encodes@, i as int),
        decreases encodes@.len() - i,
    {
        if !encodes[i] {
            return Some(i);
        }
        i = i + 1;
    }
    Some(0)
}

/// What a window answers when it is asked for room for a frame.
#[derive(Debug, Clone, Copy, PartialEq, Eq, Structural)]
pub enum Answer {
    /// There is room.
    Ready,
    /// The window has changed.
    Outdated,
    /// The window was lost.
    Lost,
    /// It took too long.
    Timeout,
    /// The window is not visible.
    Occluded,
    /// The request was not valid.
    Validation,
}

/// What to do about an answer.
#[derive(Debug, Clone, Copy, PartialEq, Eq, Structural)]
pub enum Turn {
    /// Draw the frame.
    Draw,
    /// Set the window up again and leave the frame out.
    Reconfigure,
    /// Leave the frame out.
    Skip,
    /// Give up.
    Fail,
}

/// What to do about an answer.
pub fn turn(answer: Answer) -> (t: Turn)
    ensures
        t == match answer {
            Answer::Ready => Turn::Draw,
            Answer::Outdated => Turn::Reconfigure,
            Answer::Lost => Turn::Reconfigure,
            Answer::Timeout => Turn::Skip,
            Answer::Occluded => Turn::Skip,
            Answer::Validation => Turn::Fail,
        },
{
    match answer {
        Answer::Ready => Turn::Draw,
        Answer::Outdated => Turn::Reconfigure,
        Answer::Lost => Turn::Reconfigure,
        Answer::Timeout => Turn::Skip,
        Answer::Occluded => Turn::Skip,
        Answer::Validation => Turn::Fail,
    }
}

/// A frame is shown no larger than its window, and as wide or as high as that.
pub proof fn law_frames_land_inside(fw: int, fh: int, sw: int, sh: int)
    requires
        0 < fw,
        0 < fh,
        0 <= sw,
        0 <= sh,
    ensures
        ({
            let (w, h) = fitted(fw, fh, sw, sh);
            &&& 0 <= w <= sw * 1_000_000
            &&& 0 <= h <= sh * 1_000_000
            &&& w == sw * 1_000_000 || h == sh * 1_000_000
        }),
{
    if sw * fh <= sh * fw {
        lemma_side(fh, sw, fw, sh);
    } else {
        assert(sh * fw <= sw * fh);
        lemma_side(fw, sh, fh, sw);
    }
}

proof fn lemma_side(a: int, b: int, d: int, most: int)
    requires
        0 <= a,
        0 <= b,
        0 < d,
        0 <= most,
        b * a <= most * d,
    ensures
        0 <= nearest(a * (b * 1_000_000), d) <= most * 1_000_000,
{
    let n = a * (b * 1_000_000);
    let top = most * 1_000_000;
    assert(0 <= n <= top * d) by (nonlinear_arith)
        requires
            n == a * (b * 1_000_000),
            top == most * 1_000_000,
            b * a <= most * d,
            0 <= a,
            0 <= b,
    ;
    assert(0 <= (2 * n + d) / (2 * d) <= top) by (nonlinear_arith)
        requires
            0 <= n <= top * d,
            d > 0,
            top >= 0,
    {
        assert(2 * n + d < 2 * d * (top + 1)) by (nonlinear_arith)
            requires
                n <= top * d,
                d > 0,
        ;
        assert((2 * n + d) / (2 * d) < top + 1) by (nonlinear_arith)
            requires
                2 * n + d < 2 * d * (top + 1),
                d > 0,
        ;
        assert((2 * n + d) / (2 * d) >= 0) by (nonlinear_arith)
            requires
                n >= 0,
                d > 0,
        ;
    }
}

/// A frame in a window keeps its proportions and has the same room on both sides.
pub proof fn law_frames_stay_in_the_middle(fw: int, fh: int, sw: int, sh: int)
    requires
        0 < fw <= u32::MAX,
        0 < fh <= u32::MAX,
        0 <= sw <= u32::MAX,
        0 <= sh <= u32::MAX,
    ensures
        ({
            let size = fitted(fw, fh, sw, sh);
            let r = centred(size, sw, sh);
            &&& r.w == size.0 && r.h == size.1
            &&& magnitude(2 * r.x + r.w - sw * 1_000_000) <= 1
            &&& magnitude(2 * r.y + r.h - sh * 1_000_000) <= 1
            &&& 0 <= r.x && 0 <= r.y
            &&& 2 * magnitude(r.w * fh - r.h * fw) <= fw || 2 * magnitude(r.w * fh - r.h * fw) <= fh
        }),
{
    let (w, h) = fitted(fw, fh, sw, sh);
    law_frames_land_inside(fw, fh, sw, sh);
    law_rounding_is_closest(sw * 1_000_000 - w, 2);
    law_rounding_is_closest(sh * 1_000_000 - h, 2);
    law_rounding_is_closest(fh * (sw * 1_000_000), fw);
    law_rounding_is_closest(fw * (sh * 1_000_000), fh);
    assert(w * fh == fh * w && h * fw == fw * h) by (nonlinear_arith);
}

} // verus!
