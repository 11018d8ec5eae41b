//! Laying one picture over another, and taking the padding out of rows.

use vstd::prelude::*;

use crate::pictures::{ceiling, has_pixels};

verus! {

/// A byte over another one, by the alpha of the first.
pub open spec fn over(s: u8, d: u8, a: u8) -> u8 {
    ((s * a + d * (255 - a)) / 255) as u8
}

/// Where a pixel of the upper picture lands: rows that run over the right edge go on below.
pub open spec fn landing(dw: int, sw: int, x: int, y: int, k: int) -> int {
    4 * ((y + k / sw) * dw + (x + k % sw))
}

/// A picture after pixel `k` of another one was laid over it: clear pixels change nothing, nor
/// do those that land behind its end.
pub open spec fn laid(dst: Seq<u8>, dw: int, src: Seq<u8>, sw: int, x: int, y: int, k: int) -> Seq<u8> {
    let a = src[4 * k + 3];
    let at = landing(dw, sw, x, y, k);
    if a == 0 || at + 3 >= dst.len() {
        dst
    } else {
        dst.update(at, over(src[4 * k], dst[at], a)).update(
            at + 1,
            over(src[4 * k + 1], dst[at + 1], a),
        ).update(at + 2, over(src[4 * k + 2], dst[at + 2], a)).update(at + 3, 255)
    }
}

/// A picture after the first `n` pixels of another one were laid over it.
pub open spec fn blitted(
    dst: Seq<u8>,
    dw: int,
    src: Seq<u8>,
    sw: int,
    x: int,
    y: int,
    n: int,
) -> Seq<u8>
    decreases n,
{
    if n <= 0 {
        dst
    } else {
        laid(blitted(dst, dw, src, sw, x, y, n - 1), dw, src, sw, x, y, n - 1)
    }
}

fn mixed(s: u8, d: u8, a: u8) -> (r: u8)
    ensures
        r == over(s, d, a),
{
    assert(0 <= s * a <= 255 * a && 0 <= d * (255 - a) <= 255 * (255 - a)) by (nonlinear_arith)
        requires
            0 <= s <= 255,
            0 <= d <= 255,
            0 <= a <= 255,
    ;
    ((s as u32 * a as u32 + d as u32 * (255 - a as u32)) / 255) as u8
}

/// Lays a picture over another one, whose rows are `dw` pixels long, by its alpha.
pub fn blit_over(dst: &mut Vec<u8>, dw: u32, src: &[u8], sw: u32, sh: u32, x: u64, y: u32)
    requires
        has_pixels(src@, sw as int, sh as int),
    ensures
        final(dst)@ == blitted(
            old(dst)@,
            dw as int,
            src@,
            sw as int,
            x as int,
            y as int,
            sw * sh,
        ),
        final(dst)@.len() == old(dst)@.len(),
{
    let ghost begun = dst@;
    let len: usize = dst.len();
    let src_len: usize = src.len();
    let mut row: u32 = 0;
    while row < sh
        invariant
            row <= sh,
            len == dst@.len() == begun.len(),
            src_len == src@.len(),
            has_pixels(src@, sw as int, sh as int),
            dst@ == blitted(begun, dw as int, src@, sw as int, x as int, y as int, row * sw),
        decreases sh - row,
    {
        let mut col: u32 = 0;
        while col < sw
            invariant
                col <= sw,
                row < sh,
                len == dst@.len() == begun.len(),
                src_len == src@.len(),
                has_pixels(src@, sw as int, sh as int),
                dst@ == blitted(
                    begun,
                    dw as int,
                    src@,
                    sw as int,
                    x as int,
                    y as int,
                    row * sw + col,
                ),
            decreases sw - col,
        {
            let ghost k = row * sw + col;
            proof {
                assert(0 <= row * sw && row * sw + sw <= sw * sh) by (nonlinear_arith)
                    requires
                        0 <= row,
                        row + 1 <= sh,
                        0 <= sw,
                ;
                vstd::arithmetic::div_mod::lemma_fundamental_div_mod_converse(
                    k,
                    sw as int,
                    row as int,
                    col as int,
                );
                assert(0 <= (y + row) * dw <= 0x2_0000_0000 * 0xffff_ffff) by (nonlinear_arith)
                    requires
                        0 <= y <= 0xffff_ffff,
                        0 <= row <= 0xffff_ffff,
                        0 <= dw <= 0xffff_ffff,
                ;
            }
            let si: usize = 4 * (row as usize * sw as usize + col as usize);
            let a: u8 = src[si + 3];
            let at: u128 = 4 * ((y as u128 + row as u128) * dw as u128 + (x as u128
                + col as u128));
            assert(at == landing(dw as int, sw as int, x as int, y as int, k));
            if a != 0 && at + 3 < len as u128 {
                let di: usize = at as usize;
                let r: u8 = mixed(src[si], dst[di], a);
                let g: u8 = mixed(src[si + 1], dst[di + 1], a);
                let b: u8 = mixed(src[si + 2], dst[di + 2], a);
                dst.set(di, r);
                dst.set(di + 1, g);
                dst.set(di + 2, b);
                dst.set(di + 3, 255);
            }
            col = col + 1;
        }
        assert((row + 1) * sw == row * sw + sw) by (nonlinear_arith);
        row = row + 1;
    }
    assert(sh * sw == sw * sh) by (nonlinear_arith);
}

/// A picture that begins behind the end of another one changes nothing there.
pub proof fn lemma_behind_the_end(
    dst: Seq<u8>,
    dw: int,
    src: Seq<u8>,
    sw: int,
    x: int,
    y: int,
    n: int,
)
    requires
        4 * x >= dst.len(),
        dw >= 0,
        sw > 0,
        y >= 0,
    ensures
        blitted(dst, dw, src, sw, x, y, n) == dst,
    decreases n,
{
    if n > 0 {
        lemma_behind_the_end(dst, dw, src, sw, x, y, n - 1);
        let k = n - 1;
        let (row, col) = (k / sw, k % sw);
        assert(row >= 0 && col >= 0) by (nonlinear_arith)
            requires
                row == k / sw,
                col == k % sw,
                k >= 0,
                sw > 0,
        ;
        assert((y + row) * dw >= 0) by (nonlinear_arith)
            requires
                y >= 0,
                row >= 0,
                dw >= 0,
        ;
    }
}

/// Whether a pixel of the lower picture lies below the upper one.
pub open spec fn lies_below(sw: int, sh: int, x: int, y: int, px: int, py: int) -> bool {
    x <= px < x + sw && y <= py < y + sh
}

/// A picture laid over another one changes only what lies below it, and there each pixel by
/// itself: the colours are mixed by the alpha above, and the pixel becomes opaque, unless the
/// one above is clear. This holds where the upper picture does not run over the right edge.
pub proof fn law_blit_mixes_pixels(
    dst: Seq<u8>,
    dw: int,
    src: Seq<u8>,
    sw: int,
    sh: int,
    x: int,
    y: int,
    px: int,
    py: int,
    c: int,
)
    requires
        0 < sw,
        0 <= sh,
        0 <= x,
        0 <= y,
        x + sw <= dw,
        has_pixels(src, sw, sh),
        0 <= px < dw,
        0 <= py,
        0 <= c < 4,
        4 * (py * dw + px) + 3 < dst.len(),
    ensures
        ({
            let at = 4 * (py * dw + px);
            let k = (py - y) * sw + (px - x);
            let end = blitted(dst, dw, src, sw, x, y, sw * sh);
            &&& end.len() == dst.len()
            &&& end[at + c] == (if lies_below(sw, sh, x, y, px, py) && src[4 * k + 3] != 0 {
                if c == 3 {
                    255u8
                } else {
                    over(src[4 * k + c], dst[at + c], src[4 * k + 3])
                }
            } else {
                dst[at + c]
            })
        }),
{
    assert(0 <= sw * sh) by (nonlinear_arith)
        requires
            0 <= sw,
            0 <= sh,
    ;
    lemma_blitted(dst, dw, src, sw, sh, x, y, px, py, c, sw * sh);
    if lies_below(sw, sh, x, y, px, py) {
        let r = py - y;
        assert(r * sw + sw <= sw * sh) by (nonlinear_arith)
            requires
                r + 1 <= sh,
                0 < sw,
        ;
    }
}

proof fn lemma_blitted(
    dst: Seq<u8>,
    dw: int,
    src: Seq<u8>,
    sw: int,
    sh: int,
    x: int,
    y: int,
    px: int,
    py: int,
    c: int,
    n: int,
)
    requires
        0 < sw,
        0 <= sh,
        0 <= x,
        0 <= y,
        x + sw <= dw,
        0 <= n <= sw * sh,
        0 <= px < dw,
        0 <= py,
        0 <= c < 4,
        4 * (py * dw + px) + 3 < dst.len(),
    ensures
        ({
            let at = 4 * (py * dw + px);
            let k = (py - y) * sw + (px - x);
            let end = blitted(dst, dw, src, sw, x, y, n);
            &&& end.len() == dst.len()
            &&& end[at + c] == (if lies_below(sw, sh, x, y, px, py) && k < n && src[4 * k + 3]
                != 0 {
                if c == 3 {
                    255u8
                } else {
                    over(src[4 * k + c], dst[at + c], src[4 * k + 3])
                }
            } else {
                dst[at + c]
            })
        }),
    decreases n,
{
    let k = (py - y) * sw + (px - x);
    if n > 0 {
        lemma_blitted(dst, dw, src, sw, sh, x, y, px, py, c, n - 1);
        let m = n - 1;
        let row = m / sw;
        let col = m % sw;
        let at = 4 * (py * dw + px);
        vstd::arithmetic::div_mod::lemma_fundamental_div_mod(m, sw);
        assert(sw * row == row * sw) by (nonlinear_arith);
        assert(0 <= row) by (nonlinear_arith)
            requires
                row == m / sw,
                m >= 0,
                sw > 0,
        ;
        assert(row < sh) by (nonlinear_arith)
            requires
                row * sw + col == m,
                m < sw * sh,
                0 <= col,
                sw > 0,
        ;
        let target = (y + row) * dw + (x + col);
        assert(target >= 0) by (nonlinear_arith)
            requires
                target == (y + row) * dw + (x + col),
                y + row >= 0,
                dw >= 0,
                x + col >= 0,
        ;
        if target == py * dw + px {
            assert(py == y + row && px == x + col) by {
                vstd::arithmetic::div_mod::lemma_fundamental_div_mod_converse(
                    target,
                    dw,
                    py,
                    px,
                );
                vstd::arithmetic::div_mod::lemma_fundamental_div_mod_converse(
                    target,
                    dw,
                    y + row,
                    x + col,
                );
            }
            assert(k == m);
        } else if lies_below(sw, sh, x, y, px, py) && k == m {
            assert(py - y == row && px - x == col) by {
                vstd::arithmetic::div_mod::lemma_fundamental_div_mod_converse(
                    k,
                    sw,
                    py - y,
                    px - x,
                );
            }
            assert(false);
        }
    } else if lies_below(sw, sh, x, y, px, py) {
        assert(k >= 0) by (nonlinear_arith)
            requires
                k == (py - y) * sw + (px - x),
                py >= y,
                px >= x,
                sw > 0,
        ;
    }
}

/// The length of a row of pixels in a buffer: padded to a multiple of 256 bytes.
pub open spec fn padded_row(width: int) -> int {
    256 * ceiling(4 * width, 256)
}

/// The length of a row of pixels in a buffer, with its padding, in bytes.
pub fn row_pitch(width: u32) -> (n: u64)
    ensures
        n == padded_row(width as int),
        4 * width <= n < 4 * width + 256,
{
    (4 * width as u64 + 255) / 256 * 256
}

/// The first `n` rows of a buffer without their padding.
pub open spec fn unpadded(bytes: Seq<u8>, row: int, pitch: int, n: int) -> Seq<u8>
    decreases n,
{
    if n <= 0 {
        Seq::empty()
    } else {
        unpadded(bytes, row, pitch, n - 1) + bytes.subrange(
            (n - 1) * pitch,
            (n - 1) * pitch + row,
        )
    }
}

/// Takes the padding out of the rows of a buffer.
pub fn unpad_rows(bytes: &[u8], row: usize, pitch: usize, rows: usize) -> (r: Vec<u8>)
    requires
        row <= pitch,
        pitch * rows <= bytes@.len(),
    ensures
        r@ == unpadded(bytes@, row as int, pitch as int, rows as int),
{
    let len: usize = bytes.len();
    let mut out: Vec<u8> = Vec::new();
    let mut n: usize = 0;
    let mut start: usize = 0;
    while n < rows
        invariant
            n <= rows,
            row <= pitch,
            pitch * rows <= len,
            len == bytes@.len(),
            start == n * pitch,
            out@ == unpadded(bytes@, row as int, pitch as int, n as int),
        decreases rows - n,
    {
        assert(n * pitch + pitch <= pitch * rows) by (nonlinear_arith)
            requires
                n + 1 <= rows,
                0 <= pitch,
        ;
        assert((n + 1) * pitch == n * pitch + pitch) by (nonlinear_arith);
        let ghost before = out@;
        let mut i: usize = 0;
        assert(out@ =~= before + bytes@.subrange(start as int, start as int));
        while i < row
            invariant
                i <= row,
                start + row <= len == bytes@.len(),
                out@ == before + bytes@.subrange(start as int, start + i),
            decreases row - i,
        {
            out.push(bytes[start + i]);
            assert(out@ =~= before + bytes@.subrange(start as int, start + i + 1));
            i = i + 1;
        }
        start = start + pitch;
        n = n + 1;
    }
    out
}

/// Where rows have no padding, nothing is taken out.
pub proof fn law_tight_rows_stay(bytes: Seq<u8>, row: int, n: int)
    requires
        0 <= row,
        0 <= n,
        n * row <= bytes.len(),
    ensures
        unpadded(bytes, row, row, n) == bytes.take(n * row),
    decreases n,
{
    if n > 0 {
        assert((n - 1) * row + row == n * row) by (nonlinear_arith);
        assert(0 <= (n - 1) * row) by (nonlinear_arith)
            requires
                n >= 1,
                row >= 0,
        ;
        law_tight_rows_stay(bytes, row, n - 1);
        assert(bytes.take((n - 1) * row) + bytes.subrange((n - 1) * row, n * row) =~= bytes.take(
            n * row,
        ));
    } else {
        assert(n * row == 0) by (nonlinear_arith)
            requires
                n == 0,
        ;
        assert(bytes.take(0) =~= Seq::empty());
    }
}

/// An opaque byte replaces the one below it, a clear one leaves it, and any other gives something
/// between the two.
pub proof fn law_alpha_mixes(s: u8, d: u8, a: u8)
    ensures
        over(s, d, 255) == s,
        over(s, d, 0) == d,
        s <= d ==> s <= over(s, d, a) <= d,
        d <= s ==> d <= over(s, d, a) <= s,
{
    let m = s * a + d * (255 - a);
    assert(s <= d ==> s * 255 <= m <= d * 255) by (nonlinear_arith)
        requires
            m == s * a + d * (255 - a),
            0 <= a <= 255,
    ;
    assert(d <= s ==> d * 255 <= m <= s * 255) by (nonlinear_arith)
        requires
            m == s * a + d * (255 - a),
            0 <= a <= 255,
    ;
}

/// Without its padding a picture keeps each byte in its row and its column.
pub proof fn law_unpadding_keeps_rows(bytes: Seq<u8>, row: int, pitch: int, n: int, r: int, c: int)
    requires
        0 <= c < row <= pitch,
        0 <= r < n,
        n * pitch <= bytes.len(),
    ensures
        unpadded(bytes, row, pitch, n).len() == n * row,
        0 <= r * row + c < n * row,
        unpadded(bytes, row, pitch, n)[r * row + c] == bytes[r * pitch + c],
    decreases n,
{
    let m = n - 1;
    assert(n * row == m * row + row && n * pitch == m * pitch + pitch) by (nonlinear_arith)
        requires
            n == m + 1,
    ;
    assert(0 <= m * pitch && 0 <= m * row) by (nonlinear_arith)
        requires
            m >= 0,
            row > 0,
            pitch > 0,
    ;
    if m > 0 {
        let k = if r < m {
            r
        } else {
            0
        };
        law_unpadding_keeps_rows(bytes, row, pitch, m, k, c);
    } else {
        assert(m * row == 0) by (nonlinear_arith)
            requires
                m == 0,
        ;
        assert(unpadded(bytes, row, pitch, 0).len() == 0);
    }
    assert(0 <= r * row <= m * row) by (nonlinear_arith)
        requires
            0 <= r <= m,
            row > 0,
    ;
}

} // verus!
