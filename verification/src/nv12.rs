//! Turning a rendered frame into what the encoder wants.
//!
//! NV12 takes 1.5 bytes per pixel where RGBA takes 4. The maths is BT.601 limited
//! range in fixed point, scaled by 2^16.

use vstd::prelude::*;

use crate::fixed::within;

verus! {

pub const KY_R: i32 = 16830;
pub const KY_G: i32 = 33039;
pub const KY_B: i32 = 6416;
pub const KU_R: i32 = -9714;
pub const KU_G: i32 = -19070;
pub const KU_B: i32 = 28784;
pub const KV_R: i32 = 28784;
pub const KV_G: i32 = -24103;
pub const KV_B: i32 = -4681;

/// Half of the scale, for rounding.
pub const HALF: i32 = 32768;

/// The size of an NV12 frame: a luma plane in full resolution, and a chroma plane in
/// half of it.
pub open spec fn frame_size(width: int, height: int) -> int {
    width * height + width * height / 2
}

/// Bytes that an NV12 frame of this size takes.
pub fn nv12_len(width: usize, height: usize) -> (len: usize)
    requires
        frame_size(width as int, height as int) <= usize::MAX,
    ensures
        len == frame_size(width as int, height as int),
{
    assert(0 <= width * height) by (nonlinear_arith)
        requires
            width >= 0,
            height >= 0,
    ;
    width * height + width * height / 2
}

/// Whether a frame size can be encoded as NV12: chroma is shared by blocks of two by two.
pub open spec fn supported(width: int, height: int) -> bool {
    width % 2 == 0 && height % 2 == 0 && width > 0 && height > 0
}

/// Whether a frame size can be encoded as NV12 at all.
pub fn nv12_supported(width: usize, height: usize) -> (r: bool)
    ensures
        r == supported(width as int, height as int),
{
    width % 2 == 0 && height % 2 == 0 && width > 0 && height > 0
}

/// Whether a frame size can be converted on the GPU, whose shader packs four pixels of a
/// row into one word.
pub fn gpu_supported(width: u32, height: u32) -> (r: bool)
    ensures
        r == (supported(width as int, height as int) && width % 4 == 0),
{
    nv12_supported(width as usize, height as usize) && width % 4 == 0
}

/// The luma of a colour.
pub open spec fn luma_of(r: int, g: int, b: int) -> int {
    within(16 + (KY_R * r + KY_G * g + KY_B * b + HALF) / 65536, 0, 255)
}

/// The luma of a colour.
pub fn luma(r: i32, g: i32, b: i32) -> (y: u8)
    requires
        0 <= r <= 255,
        0 <= g <= 255,
        0 <= b <= 255,
    ensures
        y == luma_of(r as int, g as int, b as int),
{
    let y: i32 = 16 + (KY_R * r + KY_G * g + KY_B * b + HALF) / 65536;
    if y > 255 {
        255
    } else {
        y as u8
    }
}

/// A chroma value of four colours, from their channel sums.
pub open spec fn chroma_of(kr: int, kg: int, kb: int, r: int, g: int, b: int) -> int {
    within(128 + (kr * r + kg * g + kb * b + 4 * HALF) / 262144, 0, 255)
}

/// The first chroma value of four colours.
pub open spec fn u_of(r: int, g: int, b: int) -> int {
    chroma_of(KU_R as int, KU_G as int, KU_B as int, r, g, b)
}

/// The second chroma value of four colours.
pub open spec fn v_of(r: int, g: int, b: int) -> int {
    chroma_of(KV_R as int, KV_G as int, KV_B as int, r, g, b)
}

fn chroma_value(n: i32) -> (c: u8)
    requires
        -52_000_000 <= n <= 52_000_000,
    ensures
        c == within(128 + (n as int) / 262144, 0, 255),
{
    // Floor division by a shift that keeps the dividend positive.
    let v: i32 = 128 + ((n + 262144 * 200) / 262144 - 200);
    if v < 0 {
        0
    } else if v > 255 {
        255
    } else {
        v as u8
    }
}

fn chroma(r: i32, g: i32, b: i32) -> (uv: (u8, u8))
    requires
        0 <= r <= 1020,
        0 <= g <= 1020,
        0 <= b <= 1020,
    ensures
        uv.0 == u_of(r as int, g as int, b as int),
        uv.1 == v_of(r as int, g as int, b as int),
{
    (
        chroma_value(KU_R * r + KU_G * g + KU_B * b + HALF * 4),
        chroma_value(KV_R * r + KV_G * g + KV_B * b + HALF * 4),
    )
}

/// The luma of pixel `p`.
#[verifier::opaque]
pub open spec fn luma_at(src: Seq<u8>, p: int) -> u8 {
    luma_of(src[4 * p] as int, src[4 * p + 1] as int, src[4 * p + 2] as int) as u8
}

/// Channel `c` of the two by two pixels whose first is `p`, added up.
pub open spec fn block_sum(src: Seq<u8>, width: int, p: int, c: int) -> int {
    src[4 * p + c] + src[4 * (p + 1) + c] + src[4 * (p + width) + c] + src[4 * (p + width + 1) + c]
}

/// Byte `k` of the chroma plane: the values of a block alternate along a row.
#[verifier::opaque]
pub open spec fn chroma_at(src: Seq<u8>, width: int, k: int) -> u8 {
    let x = k % width;
    let p = 2 * (k / width) * width + (x - x % 2);
    let r = block_sum(src, width, p, 0);
    let g = block_sum(src, width, p, 1);
    let b = block_sum(src, width, p, 2);
    if x % 2 == 0 {
        u_of(r, g, b) as u8
    } else {
        v_of(r, g, b) as u8
    }
}

/// The luma plane of the first `n` pixels.
pub open spec fn luma_plane(src: Seq<u8>, n: int) -> Seq<u8> {
    Seq::new(n as nat, |p: int| luma_at(src, p))
}

/// The first `n` bytes of the chroma plane.
pub open spec fn chroma_plane(src: Seq<u8>, width: int, n: int) -> Seq<u8> {
    Seq::new(n as nat, |k: int| chroma_at(src, width, k))
}

/// The planes of a frame of the given size, one behind the other.
pub open spec fn planes(src: Seq<u8>, width: int, height: int) -> Seq<u8> {
    luma_plane(src, width * height) + chroma_plane(src, width, width * height / 2)
}

proof fn lemma_chroma_index(width: int, by: int, x: int)
    requires
        0 <= x < width,
        0 <= by,
    ensures
        (by * width + x) / width == by,
        (by * width + x) % width == x,
{
    vstd::arithmetic::div_mod::lemma_fundamental_div_mod_converse(by * width + x, width, by, x);
}

/// The two chroma bytes of the block at column `x` of block row `by`.
proof fn lemma_chroma_of_block(src: Seq<u8>, width: int, by: int, x: int)
    requires
        0 <= x,
        x + 1 < width,
        x % 2 == 0,
        0 <= by,
    ensures
        ({
            let p = 2 * (by * width) + x;
            let r = block_sum(src, width, p, 0);
            let g = block_sum(src, width, p, 1);
            let b = block_sum(src, width, p, 2);
            &&& chroma_at(src, width, by * width + x) == u_of(r, g, b) as u8
            &&& chroma_at(src, width, by * width + x + 1) == v_of(r, g, b) as u8
        }),
{
    reveal(chroma_at);
    lemma_chroma_index(width, by, x);
    lemma_chroma_index(width, by, x + 1);
    assert(2 * by * width == 2 * (by * width)) by (nonlinear_arith);
}

/// The four luma values and the two chroma values of the block whose first pixel is `p`.
fn convert_block(src: &[u8], width: usize, p: usize) -> (r: (u8, u8, u8, u8, u8, u8))
    requires
        4 * (p + width + 2) <= src@.len(),
    ensures
        r.0 == luma_at(src@, p as int),
        r.1 == luma_at(src@, p + 1),
        r.2 == luma_at(src@, p + width),
        r.3 == luma_at(src@, p + width + 1),
        ({
            let sr = block_sum(src@, width as int, p as int, 0);
            let sg = block_sum(src@, width as int, p as int, 1);
            let sb = block_sum(src@, width as int, p as int, 2);
            &&& r.4 == u_of(sr, sg, sb) as u8
            &&& r.5 == v_of(sr, sg, sb) as u8
        }),
{
    proof {
        reveal(luma_at);
    }
    let len: usize = src.len();
    let a: usize = 4 * p;
    let c: usize = 4 * (p + width);
    let (r0, g0, b0) = (src[a] as i32, src[a + 1] as i32, src[a + 2] as i32);
    let (r1, g1, b1) = (src[a + 4] as i32, src[a + 5] as i32, src[a + 6] as i32);
    let (r2, g2, b2) = (src[c] as i32, src[c + 1] as i32, src[c + 2] as i32);
    let (r3, g3, b3) = (src[c + 4] as i32, src[c + 5] as i32, src[c + 6] as i32);
    // Chroma from the sums of the block: the transform is linear, and this is one rounding
    // in place of four.
    let (u, v) = chroma(r0 + r1 + r2 + r3, g0 + g1 + g2 + g3, b0 + b1 + b2 + b3);
    (luma(r0, g0, b0), luma(r1, g1, b1), luma(r2, g2, b2), luma(r3, g3, b3), u, v)
}

/// Converts a horizontal band of rows. Their number is even, so that no block is split.
pub fn convert_band(src: &[u8], width: usize, rows: usize, y: &mut [u8], uv: &mut [u8])
    requires
        width % 2 == 0,
        rows % 2 == 0,
        4 * (width * rows) <= src@.len(),
        width * rows <= old(y)@.len(),
        width * rows / 2 <= old(uv)@.len(),
    ensures
        final(y)@ == luma_plane(src@, width * rows) + old(y)@.skip(width * rows),
        final(uv)@ == chroma_plane(src@, width as int, width * rows / 2) + old(uv)@.skip(
            width * rows / 2,
        ),
{
    let ghost w = width as int;
    let ghost n = width * rows;
    let ghost y0 = y@;
    let ghost uv0 = uv@;
    let blocks: usize = rows / 2;
    let len: usize = src.len();
    let mut by: usize = 0;
    let mut row0: usize = 0;
    let mut uv_row: usize = 0;
    proof {
        assert(2 * (blocks * w) == n) by (nonlinear_arith)
            requires
                n == w * rows,
                rows == 2 * blocks,
        ;
        assert(n >= 0) by (nonlinear_arith)
            requires
                n == w * rows,
                w >= 0,
                rows >= 0,
        ;
    }
    while by < blocks
        invariant
            by <= blocks,
            w == width,
            w % 2 == 0,
            n == width * rows,
            n == 2 * (blocks * w),
            4 * n <= src@.len() == len,
            y0.len() >= n,
            uv0.len() >= n / 2,
            y@.len() == y0.len(),
            uv@.len() == uv0.len(),
            row0 == 2 * (by * w),
            uv_row == by * w,
            row0 <= n,
            forall|p: int| 0 <= p < row0 ==> #[trigger] y@[p] == luma_at(src@, p),
            forall|p: int| n <= p < y0.len() ==> #[trigger] y@[p] == y0[p],
            forall|k: int| 0 <= k < uv_row ==> #[trigger] uv@[k] == chroma_at(src@, w, k),
            forall|k: int| n / 2 <= k < uv0.len() ==> #[trigger] uv@[k] == uv0[k],
        decreases blocks - by,
    {
        proof {
            assert((by + 1) * w == by * w + w) by (nonlinear_arith);
            assert((by + 1) * w <= blocks * w) by (nonlinear_arith)
                requires
                    by + 1 <= blocks,
                    w >= 0,
            ;
        }
        let row1: usize = row0 + width;
        let mut x: usize = 0;
        while x < width
            invariant
                x <= width,
                x % 2 == 0,
                w == width,
                w % 2 == 0,
                4 * n <= src@.len() == len,
                y0.len() >= n,
                uv0.len() >= n / 2,
                y@.len() == y0.len(),
                uv@.len() == uv0.len(),
                0 <= by,
                row0 == 2 * (by * w),
                uv_row == by * w,
                row1 == row0 + w,
                row0 + 2 * w <= n,
                uv_row + w <= n / 2,
                forall|p: int| 0 <= p < row0 + x ==> #[trigger] y@[p] == luma_at(src@, p),
                forall|p: int| row1 <= p < row1 + x ==> #[trigger] y@[p] == luma_at(src@, p),
                forall|p: int| n <= p < y0.len() ==> #[trigger] y@[p] == y0[p],
                forall|k: int| 0 <= k < uv_row + x ==> #[trigger] uv@[k] == chroma_at(src@, w, k),
                forall|k: int| n / 2 <= k < uv0.len() ==> #[trigger] uv@[k] == uv0[k],
            decreases width - x,
        {
            let a: usize = row0 + x;
            let c: usize = row1 + x;
            let (l0, l1, l2, l3, u, v) = convert_block(src, width, a);
            y[a] = l0;
            y[a + 1] = l1;
            y[c] = l2;
            y[c + 1] = l3;
            uv[uv_row + x] = u;
            uv[uv_row + x + 1] = v;
            proof {
                lemma_chroma_of_block(src@, w, by as int, x as int);
            }
            x = x + 2;
        }
        row0 = row0 + 2 * width;
        uv_row = uv_row + width;
        by = by + 1;
    }
    proof {
        assert(y@ =~= luma_plane(src@, n) + y0.skip(n));
        assert(uv@ =~= chroma_plane(src@, w, n / 2) + uv0.skip(n / 2));
    }
}

/// The rows of one band where `workers` share a frame: an even number that covers the
/// height.
pub open spec fn band_size(height: int, workers: int) -> int {
    let raw = (height + workers - 1) / workers;
    raw + raw % 2
}

/// How many workers share a frame on a machine that runs so many at once.
pub fn worker_count(at_once: usize) -> (workers: usize)
    ensures
        workers == within(at_once as int, 1, 8),
{
    if at_once < 1 {
        1
    } else if at_once > 8 {
        8
    } else {
        at_once
    }
}

/// The rows of one band where `workers` share a frame.
pub fn band_rows(height: usize, workers: usize) -> (rows: usize)
    requires
        0 < height,
        0 < workers,
        height + workers <= usize::MAX,
    ensures
        rows == band_size(height as int, workers as int),
        rows % 2 == 0,
        0 < rows <= height + 1,
        rows * workers >= height,
{
    let raw: usize = (height + workers - 1) / workers;
    proof {
        let h = height as int;
        let k = workers as int;
        let r = raw as int;
        assert(1 <= r <= h && r * k >= h) by (nonlinear_arith)
            requires
                r == (h + k - 1) / k,
                h >= 1,
                k >= 1,
        {
            let m = (h + k - 1) % k;
            assert(h + k - 1 == k * r + m && 0 <= m < k) by (nonlinear_arith)
                requires
                    r == (h + k - 1) / k,
                    m == (h + k - 1) % k,
                    k >= 1,
            ;
            assert(r * k == k * r) by (nonlinear_arith);
            if r < 1 {
                assert(k * r <= 0) by (nonlinear_arith)
                    requires
                        r < 1,
                        k >= 1,
                ;
            }
            if r > h {
                assert(k * r >= k * (h + 1)) by (nonlinear_arith)
                    requires
                        r >= h + 1,
                        k >= 1,
                ;
                assert(k * (h + 1) >= k + h) by (nonlinear_arith)
                    requires
                        k >= 1,
                        h >= 1,
                ;
            }
        }
        assert((r + r % 2) * k >= r * k) by (nonlinear_arith)
            requires
                k >= 1,
                r % 2 >= 0,
        ;
    }
    raw + raw % 2
}

/// A plane of two bands is the two planes of the bands.
proof fn lemma_two_bands(src: Seq<u8>, width: int, top: int, rest: int)
    requires
        width > 0,
        width % 2 == 0,
        top >= 0,
        top % 2 == 0,
        rest >= 0,
        rest % 2 == 0,
        4 * (width * (top + rest)) <= src.len(),
    ensures
        luma_plane(src, width * (top + rest)) == luma_plane(src, width * top) + luma_plane(
            src.skip(4 * (width * top)),
            width * rest,
        ),
        chroma_plane(src, width, width * (top + rest) / 2) == chroma_plane(
            src,
            width,
            width * top / 2,
        ) + chroma_plane(src.skip(4 * (width * top)), width, width * rest / 2),
{
    let a = width * top;
    let b = width * rest;
    let tail = src.skip(4 * a);
    let half = top / 2;
    assert(width * (top + rest) == a + b) by (nonlinear_arith)
        requires
            a == width * top,
            b == width * rest,
    ;
    assert(0 <= a && a == 2 * (half * width) && 0 <= b) by (nonlinear_arith)
        requires
            a == width * top,
            b == width * rest,
            top == 2 * half,
            width > 0,
            top >= 0,
            rest >= 0,
    ;
    assert(b % 2 == 0) by (nonlinear_arith)
        requires
            b == width * rest,
            rest % 2 == 0,
    {
        let k = rest / 2;
        assert(b == 2 * (width * k)) by (nonlinear_arith)
            requires
                b == width * rest,
                rest == 2 * k,
        ;
    }
    assert forall|p: int| 0 <= p < b implies luma_at(src, a + p) == luma_at(tail, p) by {
        reveal(luma_at);
    }
    assert(luma_plane(src, a + b) =~= luma_plane(src, a) + luma_plane(tail, b));
    assert forall|k: int| 0 <= k < b / 2 implies chroma_at(src, width, a / 2 + k) == chroma_at(
        tail,
        width,
        k,
    ) by {
        reveal(chroma_at);
        let by = k / width;
        let x = k % width;
        assert(k == by * width + x && 0 <= x < width && 0 <= by) by (nonlinear_arith)
            requires
                by == k / width,
                x == k % width,
                width > 0,
                k >= 0,
        ;
        lemma_chroma_index(width, half + by, x);
        assert((half + by) * width + x == a / 2 + k) by (nonlinear_arith)
            requires
                a == 2 * (half * width),
                k == by * width + x,
        ;
        let p = 2 * by * width + (x - x % 2);
        assert(2 * (half + by) * width + (x - x % 2) == a + p) by (nonlinear_arith)
            requires
                a == 2 * (half * width),
                p == 2 * by * width + (x - x % 2),
        ;
        lemma_block_in_band(by, x, width, rest);
        assert(0 <= p && p + width + 1 < b);
        assert(forall|c: int| 0 <= c <= 2 ==> #[trigger] block_sum(src, width, a + p, c)
            == block_sum(tail, width, p, c));
    }
    assert(chroma_plane(src, width, (a + b) / 2) =~= chroma_plane(src, width, a / 2)
        + chroma_plane(tail, width, b / 2));
}

/// The block of a chroma byte lies within its band.
proof fn lemma_block_in_band(by: int, x: int, width: int, rest: int)
    requires
        0 <= x < width,
        width % 2 == 0,
        0 <= by,
        rest % 2 == 0,
        by * width + x < width * rest / 2,
    ensures
        ({
            let p = 2 * by * width + (x - x % 2);
            0 <= p && p + width + 1 < width * rest
        }),
{
    let half = rest / 2;
    assert(width * rest / 2 == half * width) by (nonlinear_arith)
        requires
            rest == 2 * half,
    {
        assert(width * rest == 2 * (half * width)) by (nonlinear_arith)
            requires
                rest == 2 * half,
        ;
    }
    assert(by < half) by (nonlinear_arith)
        requires
            by * width + x < half * width,
            0 <= x < width,
    ;
    assert(2 * by * width + 2 * width <= width * rest) by (nonlinear_arith)
        requires
            by + 1 <= half,
            rest == 2 * half,
            width > 0,
    ;
    assert(0 <= 2 * by * width) by (nonlinear_arith)
        requires
            0 <= by,
            0 < width,
    ;
}

/// Whether a frame can be converted: its size is supported, and both buffers hold it.
pub open spec fn convertible(src_len: int, width: int, height: int, dst_len: int) -> bool {
    &&& supported(width, height)
    &&& src_len >= width * height * 4
    &&& dst_len >= frame_size(width, height)
}

fn fits(src_len: usize, width: usize, height: usize, dst_len: usize) -> (r: bool)
    ensures
        r == convertible(src_len as int, width as int, height as int, dst_len as int),
{
    if !nv12_supported(width, height) {
        return false;
    }
    let ghost n = width * height;
    if height > src_len / width {
        proof {
            assert(n > src_len) by (nonlinear_arith)
                requires
                    n == width * height,
                    height > src_len / width,
                    width > 0,
            {
                let q = src_len / width;
                let r = src_len % width;
                assert(src_len == width * q + r && 0 <= r < width) by (nonlinear_arith)
                    requires
                        q == src_len / width,
                        r == src_len % width,
                        width > 0,
                ;
                assert(width * height >= width * (q + 1)) by (nonlinear_arith)
                    requires
                        height >= q + 1,
                        width > 0,
                ;
                assert(width * (q + 1) == width * q + width) by (nonlinear_arith);
            }
        }
        return false;
    }
    assert(n <= src_len) by (nonlinear_arith)
        requires
            n == width * height,
            height <= src_len / width,
            width > 0,
    {
        let q = src_len / width;
        assert(width * q <= src_len) by (nonlinear_arith)
            requires
                q == src_len / width,
                width > 0,
        ;
        assert(width * height <= width * q) by (nonlinear_arith)
            requires
                height <= q,
                width > 0,
        ;
    }
    let pixels: usize = width * height;
    pixels as u128 * 4 <= src_len as u128 && pixels as u128 + (pixels / 2) as u128 <= dst_len as u128
}

/// Fills `dst` with the NV12 form of `src`, band by band as `workers` share it. Returns
/// false, and changes nothing, where the sizes do not line up. The result does not depend
/// on the number of bands.
pub fn rgba_to_nv12_banded(
    src: &[u8],
    width: usize,
    height: usize,
    workers: usize,
    dst: &mut [u8],
) -> (r: bool)
    requires
        0 < workers <= 0x7fff_ffff,
        height <= 0x7fff_ffff,
    ensures
        r == convertible(src@.len() as int, width as int, height as int, old(dst)@.len() as int),
        !r ==> final(dst)@ == old(dst)@,
        r ==> final(dst)@ == planes(src@, width as int, height as int) + old(dst)@.skip(
            frame_size(width as int, height as int),
        ),
{
    if !fits(src.len(), width, height, dst.len()) {
        return false;
    }
    let ghost w = width as int;
    let ghost h = height as int;
    let ghost n = w * h;
    let ghost d0 = dst@;
    assert(n > 0 && n % 2 == 0) by (nonlinear_arith)
        requires
            n == w * h,
            w > 0,
            h > 0,
            w % 2 == 0,
    {
        let k = w / 2;
        assert(n == 2 * (k * h)) by (nonlinear_arith)
            requires
                n == w * h,
                w == 2 * k,
        ;
    }
    let pixels: usize = width * height;
    let band: usize = band_rows(height, workers);
    let len: usize = src.len();
    let (y_plane, rest) = dst.split_at_mut(pixels);
    let (uv_plane, tail) = rest.split_at_mut(pixels / 2);
    let ghost y0 = y_plane@;
    let ghost uv0 = uv_plane@;
    let mut row: usize = 0;
    proof {
        assert(luma_plane(src@, 0) =~= Seq::empty());
        assert(chroma_plane(src@, w, 0) =~= Seq::empty());
        assert(y0.skip(0) =~= y0);
        assert(uv0.skip(0) =~= uv0);
        assert(w * 0 == 0);
    }
    while row < height
        invariant
            row <= height,
            row % 2 == 0,
            height % 2 == 0,
            w == width,
            h == height,
            w > 0,
            w % 2 == 0,
            n == w * h,
            pixels == n,
            4 * n <= src@.len() == len,
            0 < band,
            band % 2 == 0,
            height <= 0x7fff_ffff,
            y0.len() == n,
            uv0.len() == n / 2,
            y_plane@ == luma_plane(src@, w * row) + y0.skip(w * row),
            uv_plane@ == chroma_plane(src@, w, w * row / 2) + uv0.skip(w * row / 2),
        decreases height - row,
    {
        let rows: usize = if band < height - row {
            band
        } else {
            height - row
        };
        proof {
            lemma_band_bounds(w, row as int, rows as int, h);
            lemma_two_bands(src@, w, row as int, rows as int);
        }
        let start: usize = width * row;
        let s: &[u8] = vstd::slice::slice_subrange(src, 4 * start, len);
        let ghost y_before = y_plane@;
        let ghost uv_before = uv_plane@;
        let (_y_done, y) = y_plane.split_at_mut(start);
        let (_uv_done, uv) = uv_plane.split_at_mut(start / 2);
        convert_band(s, width, rows, y, uv);
        proof {
            let done = w * row;
            let more = w * rows;
            assert(s@ =~= src@.skip(4 * done));
            assert(w * (row + rows) == done + more) by (nonlinear_arith)
                requires
                    done == w * row,
                    more == w * rows,
            ;
            assert(y_plane@ =~= luma_plane(src@, done + more) + y0.skip(done + more));
            assert(uv_plane@ =~= chroma_plane(src@, w, (done + more) / 2) + uv0.skip(
                (done + more) / 2,
            ));
        }
        row = row + rows;
    }
    proof {
        assert(w * row == n);
        assert(y_plane@ =~= luma_plane(src@, n));
        assert(uv_plane@ =~= chroma_plane(src@, w, n / 2));
        assert(tail@ =~= d0.skip(frame_size(w, h)));
    }
    true
}

proof fn lemma_band_bounds(w: int, row: int, rows: int, h: int)
    requires
        0 < w,
        w % 2 == 0,
        0 <= row,
        0 < rows,
        row + rows <= h,
    ensures
        0 <= w * row,
        0 <= w * rows,
        w * row + w * rows <= w * h,
        w * (row + rows) == w * row + w * rows,
        (w * row) % 2 == 0,
        (w * rows) % 2 == 0,
        4 * (w * (row + rows)) <= 4 * (w * h),
{
    let k = w / 2;
    assert(w * row == 2 * (k * row)) by (nonlinear_arith)
        requires
            w == 2 * k,
    ;
    assert(w * rows == 2 * (k * rows)) by (nonlinear_arith)
        requires
            w == 2 * k,
    ;
    assert(0 <= w * row && 0 <= w * rows) by (nonlinear_arith)
        requires
            0 < w,
            0 <= row,
            0 < rows,
    ;
    assert(w * (row + rows) == w * row + w * rows) by (nonlinear_arith);
    assert(w * (row + rows) <= w * h) by (nonlinear_arith)
        requires
            row + rows <= h,
            0 < w,
    ;
}

/// Fills `dst` with the NV12 form of `src`. Returns false, and changes nothing, where the
/// sizes do not line up.
pub fn rgba_to_nv12(src: &[u8], width: usize, height: usize, dst: &mut [u8]) -> (r: bool)
    ensures
        r == convertible(src@.len() as int, width as int, height as int, old(dst)@.len() as int),
        !r ==> final(dst)@ == old(dst)@,
        r ==> final(dst)@ == planes(src@, width as int, height as int) + old(dst)@.skip(
            frame_size(width as int, height as int),
        ),
{
    if !fits(src.len(), width, height, dst.len()) {
        return false;
    }
    let ghost d0 = dst@;
    let pixels: usize = width * height;
    let (y_plane, rest) = dst.split_at_mut(pixels);
    let (uv_plane, tail) = rest.split_at_mut(pixels / 2);
    convert_band(src, width, height, y_plane, uv_plane);
    proof {
        let n = width * height;
        assert(y_plane@ =~= luma_plane(src@, n));
        assert(uv_plane@ =~= chroma_plane(src@, width as int, n / 2));
        assert(tail@ =~= d0.skip(frame_size(width as int, height as int)));
    }
    true
}

/// A neutral grey has neutral chroma, whatever its level.
pub proof fn law_grey_is_neutral(level: int)
    requires
        0 <= level <= 255,
    ensures
        u_of(4 * level, 4 * level, 4 * level) == 128,
        v_of(4 * level, 4 * level, 4 * level) == 128,
{
}

/// Whether a pixel is grey.
pub open spec fn is_grey(src: Seq<u8>, p: int) -> bool {
    src[4 * p] == src[4 * p + 1] && src[4 * p] == src[4 * p + 2]
}

/// A block of four greys has neutral chroma, however their levels differ.
pub proof fn law_grey_block_is_neutral(src: Seq<u8>, width: int, k: int)
    requires
        ({
            let x = k % width;
            let p = 2 * (k / width) * width + (x - x % 2);
            &&& is_grey(src, p)
            &&& is_grey(src, p + 1)
            &&& is_grey(src, p + width)
            &&& is_grey(src, p + width + 1)
        }),
    ensures
        chroma_at(src, width, k) == 128,
{
    reveal(chroma_at);
    let x = k % width;
    let p = 2 * (k / width) * width + (x - x % 2);
    let n = block_sum(src, width, p, 0);
    assert(n == block_sum(src, width, p, 1) && n == block_sum(src, width, p, 2));
    assert(0 <= n <= 1020);
    assert(u_of(n, n, n) == 128 && v_of(n, n, n) == 128);
}

/// Luma stays within the limited range, from 16 to 235.
pub proof fn law_luma_is_limited(r: int, g: int, b: int)
    requires
        0 <= r <= 255,
        0 <= g <= 255,
        0 <= b <= 255,
    ensures
        16 <= luma_of(r, g, b) <= 235,
{
}

/// A frame converted as two bands, one above the other, has the same planes.
pub proof fn law_banding_changes_nothing(src: Seq<u8>, width: int, top: int, rest: int)
    requires
        width > 0,
        width % 2 == 0,
        top >= 0,
        top % 2 == 0,
        rest >= 0,
        rest % 2 == 0,
        4 * (width * (top + rest)) <= src.len(),
    ensures
        luma_plane(src, width * (top + rest)) == luma_plane(src, width * top) + luma_plane(
            src.skip(4 * (width * top)),
            width * rest,
        ),
        chroma_plane(src, width, width * (top + rest) / 2) == chroma_plane(
            src,
            width,
            width * top / 2,
        ) + chroma_plane(src.skip(4 * (width * top)), width, width * rest / 2),
{
    lemma_two_bands(src, width, top, rest);
}

/// Black is 16 and white 235; a pixel gets no darker as any of its colours gets stronger, and of
/// the three green counts most and blue least.
pub proof fn law_luma_grows_with_light(r: int, g: int, b: int, more: int)
    requires
        0 <= r <= 255,
        0 <= g <= 255,
        0 <= b <= 255,
        0 <= more,
    ensures
        luma_of(0, 0, 0) == 16,
        luma_of(255, 255, 255) == 235,
        luma_of(r, g, b) <= luma_of(r + more, g, b),
        luma_of(r, g, b) <= luma_of(r, g + more, b),
        luma_of(r, g, b) <= luma_of(r, g, b + more),
        luma_of(0, 0, b) <= luma_of(b, 0, 0) <= luma_of(0, b, 0),
        luma_of(255, 0, 0) == 81,
        luma_of(0, 255, 0) == 145,
        luma_of(0, 0, 255) == 41,
{
}

/// The first difference rises with blue and falls with red and green, the second rises with red and
/// falls with green and blue; neither leaves its range, and pure blue and red reach the top of it.
pub proof fn law_differences_name_their_color(r: int, g: int, b: int, more: int)
    requires
        0 <= r <= 1020,
        0 <= g <= 1020,
        0 <= b <= 1020,
        0 <= more,
    ensures
        16 <= u_of(r, g, b) <= 240,
        16 <= v_of(r, g, b) <= 240,
        u_of(r, g, b) <= u_of(r, g, b + more),
        u_of(r + more, g, b) <= u_of(r, g, b),
        u_of(r, g + more, b) <= u_of(r, g, b),
        v_of(r, g, b) <= v_of(r + more, g, b),
        v_of(r, g + more, b) <= v_of(r, g, b),
        v_of(r, g, b + more) <= v_of(r, g, b),
        u_of(0, 0, 1020) == 240,
        v_of(1020, 0, 0) == 240,
        u_of(1020, 1020, 0) == 16,
        v_of(0, 1020, 1020) == 16,
{
}

/// A frame holds the luma of each pixel at the pixel's place, and behind all of them, for each block
/// of two by two pixels, the first difference and then the second, of the block's mean colour.
pub proof fn law_planes_keep_places(
    src: Seq<u8>,
    width: int,
    height: int,
    x: int,
    y: int,
)
    requires
        supported(width, height),
        0 <= x < width,
        0 <= y < height,
        src.len() >= 4 * (width * height),
    ensures
        ({
            let out = planes(src, width, height);
            let p = y * width + x;
            &&& out.len() == frame_size(width, height)
            &&& 0 <= p < width * height
            &&& out[p] == luma_of(
                src[4 * p] as int,
                src[4 * p + 1] as int,
                src[4 * p + 2] as int,
            ) as u8
        }),
        y % 2 == 0 && x % 2 == 0 ==> ({
            let out = planes(src, width, height);
            let at = width * height + y / 2 * width + x;
            let p = y * width + x;
            let (r, g, b) = (
                block_sum(src, width, p, 0),
                block_sum(src, width, p, 1),
                block_sum(src, width, p, 2),
            );
            &&& width * height <= at && at + 1 < out.len()
            &&& out[at] == u_of(r, g, b) as u8
            &&& out[at + 1] == v_of(r, g, b) as u8
        }),
{
    reveal(luma_at);
    reveal(chroma_at);
    let p = y * width + x;
    assert(0 <= p < width * height) by (nonlinear_arith)
        requires
            p == y * width + x,
            0 <= x < width,
            0 <= y < height,
    ;
    let n = width * height;
    if y % 2 == 0 && x % 2 == 0 {
        let h = y / 2;
        let k = h * width + x;
        assert(0 <= k && k + 1 < n / 2) by (nonlinear_arith)
            requires
                k == h * width + x,
                0 <= h,
                2 * h + 2 <= height,
                height % 2 == 0,
                0 <= x,
                x + 1 < width,
                n == width * height,
        {
            let m = height / 2;
            assert(n == 2 * (width * m)) by (nonlinear_arith)
                requires
                    n == width * height,
                    height == 2 * m,
            ;
            assert(h * width + width <= m * width) by (nonlinear_arith)
                requires
                    h + 1 <= m,
                    width > 0,
            ;
            assert(m * width == width * m) by (nonlinear_arith);
        }
        vstd::arithmetic::div_mod::lemma_fundamental_div_mod_converse(k, width, h, x);
        vstd::arithmetic::div_mod::lemma_fundamental_div_mod_converse(k + 1, width, h, x + 1);
        assert(2 * h * width == y * width) by (nonlinear_arith)
            requires
                y == 2 * h,
        ;
        let out = planes(src, width, height);
        assert(out[n + k] == chroma_at(src, width, k));
        assert(out[n + k + 1] == chroma_at(src, width, k + 1));
    }
}

} // verus!
