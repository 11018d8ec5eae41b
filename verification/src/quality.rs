//! One quality number that means the same thing on every encoder.
//!
//! The scale runs from 0 to 100 and higher is better. It is mapped to each
//! encoder's own scale here; the mapping to hardware encoders is a rule of
//! thumb, since no published equivalence exists.

use vstd::prelude::*;

verus! {

/// Lowest quality the scale offers.
pub const MIN: u32 = 0;

/// Highest quality the scale offers.
pub const MAX: u32 = 100;

/// Default quality: x264 CRF 20, about where the useful range for an upload
/// ends.
pub const DEFAULT: u32 = 70;

/// A quality limited to the scale.
pub open spec fn on_scale(quality: u32) -> int {
    if quality > MAX {
        MAX as int
    } else {
        quality as int
    }
}

/// The CRF of a quality: 34 less a fifth of it, rounded to the nearest whole.
pub open spec fn crf_of(quality: u32) -> int {
    34 - (2 * on_scale(quality) + 5) / 10
}

/// The quantiser of a quality on a hardware encoder.
pub open spec fn hardware_q_of(quality: u32) -> int {
    if crf_of(quality) + 3 > 51 {
        51
    } else {
        crf_of(quality) + 3
    }
}

/// The quality of a stored CRF.
pub open spec fn quality_of_crf(crf: u32) -> int {
    if crf <= 14 {
        MAX as int
    } else if crf >= 34 {
        MIN as int
    } else {
        5 * (34 - crf)
    }
}

/// The user's number as an x264 CRF. Linear: 100 gives 14, 0 gives 34.
pub fn x264_crf(quality: u32) -> (crf: u32)
    ensures
        crf == crf_of(quality),
        14 <= crf <= 34,
{
    let q: u32 = if quality > MAX {
        MAX
    } else {
        quality
    };
    34 - (2 * q + 5) / 10
}

/// The same point on the scale for a hardware encoder's quantiser: three steps
/// coarser, which matches x264's file size.
pub fn hardware_q(quality: u32) -> (q: u32)
    ensures
        q == hardware_q_of(quality),
        q <= 51,
{
    let q: u32 = x264_crf(quality) + 3;
    if q > 51 {
        51
    } else {
        q
    }
}

/// Converts a setting that was stored as an x264 CRF into the quality scale.
pub fn from_legacy_crf(crf: u32) -> (quality: u32)
    ensures
        quality == quality_of_crf(crf),
        quality <= MAX,
{
    let c: u32 = if crf < 14 {
        14
    } else if crf > 34 {
        34
    } else {
        crf
    };
    let q: u32 = (34 - c) * 5;
    if q > MAX {
        MAX
    } else {
        q
    }
}

/// What a quality value costs, in plain words.
pub open spec fn description_of(quality: u32) -> Seq<char> {
    if quality >= 90 {
        "Near-lossless. Very large files."@
    } else if quality >= 75 {
        "High. More than an upload needs."@
    } else if quality >= 60 {
        "Recommended. Good for YouTube."@
    } else if quality >= 40 {
        "Smaller files, still clean."@
    } else {
        "Draft. Visibly soft."@
    }
}

/// A short description of what a quality value costs, for the hint under the
/// slider.
pub fn describe(quality: u32) -> (text: &'static str)
    ensures
        text@ == description_of(quality),
{
    if quality >= 90 {
        "Near-lossless. Very large files."
    } else if quality >= 75 {
        "High. More than an upload needs."
    } else if quality >= 60 {
        "Recommended. Good for YouTube."
    } else if quality >= 40 {
        "Smaller files, still clean."
    } else {
        "Draft. Visibly soft."
    }
}

/// A higher quality never asks for a coarser encode, on x264 or in hardware.
pub proof fn law_quality_is_monotone(lower: u32, higher: u32)
    requires
        lower <= higher,
    ensures
        crf_of(lower) >= crf_of(higher),
        hardware_q_of(lower) >= hardware_q_of(higher),
{
}

/// Converting a stored CRF and mapping it back gives the same encode, for every
/// CRF the scale reaches.
pub proof fn law_stored_crf_survives(crf: u32)
    requires
        14 <= crf <= 34,
    ensures
        crf_of(quality_of_crf(crf) as u32) == crf,
{
}

/// The scale goes from a factor of 34 at the bottom to 14 at the top, one step down for every five
/// points; the hardware encoders are asked for three steps more.
pub proof fn law_five_points_are_a_step(quality: u32)
    ensures
        crf_of(0) == 34,
        crf_of(100) == 14,
        quality > 100 ==> crf_of(quality) == 14,
        quality + 5 <= 100 ==> crf_of((quality + 5) as u32) == crf_of(quality) - 1,
        hardware_q_of(quality) == crf_of(quality) + 3,
        quality_of_crf(14) == 100,
        quality_of_crf(34) == 0,
{
}

} // verus!
