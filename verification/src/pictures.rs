//! Pictures of red, green, blue and alpha bytes: decoding, shrinking and laying one over another.

use vstd::prelude::*;

use crate::count::{lemma_total_bound, lemma_total_same, total};
use crate::error::Error;
use crate::fixed::{greater, within};
use crate::text::begins;

verus! {

/// A decoded picture.
#[derive(Debug, Clone)]
pub struct Picture {
    /// Red, green, blue and alpha of each pixel, row by row.
    pub rgba: Vec<u8>,
    pub width: u32,
    pub height: u32,
}

/// Whether bytes hold the pixels of a picture of a size.
pub open spec fn has_pixels(rgba: Seq<u8>, w: int, h: int) -> bool {
    rgba.len() >= 4 * (w * h)
}

/// The width, the height and the pixels of the picture that `image::load_from_memory` decodes,
/// as red, green, blue and alpha; none where it fails.
pub uninterp spec fn picture_of(bytes: Seq<u8>) -> Option<(u32, u32, Seq<u8>)>;

/// Whether bytes start as a JPEG does.
pub open spec fn is_jpeg(bytes: Seq<u8>) -> bool {
    begins(bytes, seq![0xffu8, 0xd8, 0xff])
}

/// Whether a picture is the one that bytes hold. Two decodings of a JPEG agree in size alone.
pub open spec fn is_decoded(p: Picture, bytes: Seq<u8>) -> bool {
    &&& picture_of(bytes) matches Some(of) && {
        &&& (p.width, p.height) == (of.0, of.1)
        &&& is_jpeg(bytes) || p.rgba@ == of.2
    }
    &&& has_pixels(p.rgba@, p.width as int, p.height as int)
}

/// `image::load_from_memory` decodes a picture of any format that it knows, and `to_rgba8` of
/// the `image` crate makes four bytes of each of its pixels. The outcome depends on the bytes
/// alone, as long as nobody registers a decoding hook of that crate. The pixels of a JPEG are
/// left open: they are worked out by code that is chosen by the processor.
#[verifier::external_body]
fn load_image(bytes: &[u8]) -> (r: Option<Picture>)
    ensures
        match r {
            Some(p) => is_decoded(p, bytes@),
            None => picture_of(bytes@) is None,
        },
{
    let rgba = image::load_from_memory(bytes).ok()?.to_rgba8();
    let (width, height) = rgba.dimensions();
    Some(Picture { rgba: rgba.into_raw(), width, height })
}

/// Decodes a picture of any format; none where its bytes are not one.
pub fn decode_image_rgba(bytes: &[u8]) -> (r: Option<Picture>)
    ensures
        match r {
            Some(p) => is_decoded(p, bytes@),
            None => picture_of(bytes@) is None,
        },
{
    load_image(bytes)
}

/// The PNG file that `png::Encoder` writes of a picture, or the words of its error.
pub uninterp spec fn png_of(rgba: Seq<u8>, width: u32, height: u32) -> Result<
    Seq<u8>,
    Seq<char>,
>;

/// Whether bytes are exactly the pixels of a picture that is not empty.
pub open spec fn is_whole(rgba: Seq<u8>, w: int, h: int) -> bool {
    w > 0 && h > 0 && rgba.len() == 4 * (w * h)
}

/// `png::Encoder` with `write_header` and `write_image_data` of the `png` crate write a PNG file
/// of eight bits for each of red, green, blue and alpha. They refuse an empty picture and bytes
/// that are not as many as its pixels need, and nothing else while they write to memory. The file
/// and the words of a refusal depend on the arguments alone.
#[verifier::external_body]
fn encode_png(rgba: &[u8], width: u32, height: u32) -> (r: Result<Vec<u8>, String>)
    requires
        4 * width + 1 <= usize::MAX,
        (4 * width + 1) * height <= usize::MAX,
    ensures
        match r {
            Ok(file) => png_of(rgba@, width, height) == Result::<Seq<u8>, Seq<char>>::Ok(file@),
            Err(e) => png_of(rgba@, width, height) == Result::<Seq<u8>, Seq<char>>::Err(e@),
        },
        r is Ok == is_whole(rgba@, width as int, height as int),
{
    let mut file: Vec<u8> = Vec::new();
    let mut encoder = png::Encoder::new(&mut file, width, height);
    encoder.set_color(png::ColorType::Rgba);
    encoder.set_depth(png::BitDepth::Eight);
    let mut writer = encoder.write_header().map_err(|e| e.to_string())?;
    writer.write_image_data(rgba).map_err(|e| e.to_string())?;
    drop(writer);
    Ok(file)
}

/// Encodes a picture as a PNG file. It is refused where it is empty or where the bytes are not
/// as many as its pixels need.
pub fn png_file(rgba: &[u8], width: u32, height: u32) -> (r: Result<Vec<u8>, Error>)
    requires
        4 * width + 1 <= usize::MAX,
        (4 * width + 1) * height <= usize::MAX,
    ensures
        match r {
            Ok(file) => png_of(rgba@, width, height) == Result::<Seq<u8>, Seq<char>>::Ok(file@),
            Err(Error::Png(e)) => png_of(rgba@, width, height) == Result::<
                Seq<u8>,
                Seq<char>,
            >::Err(e@),
            Err(_) => false,
        },
        r is Ok == is_whole(rgba@, width as int, height as int),
{
    match encode_png(rgba, width, height) {
        Ok(file) => Ok(file),
        Err(e) => Err(Error::Png(e)),
    }
}

/// Byte `c` of the pixel at a place.
pub open spec fn channel(rgba: Seq<u8>, w: int, x: int, y: int, c: int) -> int {
    rgba[4 * (y * w + x) + c] as int
}

/// Byte `c` of the pixel at a place, weighted by its alpha or not.
pub open spec fn value(rgba: Seq<u8>, w: int, c: int, weighted: bool, x: int, y: int) -> int {
    if weighted {
        channel(rgba, w, x, y, c) * channel(rgba, w, x, y, 3)
    } else {
        channel(rgba, w, x, y, c)
    }
}

/// The values of a row from a column on.
pub open spec fn across(rgba: Seq<u8>, w: int, c: int, weighted: bool, x0: int, y: int) -> spec_fn(
    int,
) -> int {
    |dx: int| value(rgba, w, c, weighted, x0 + dx, y)
}

/// The sums of rows from a row on.
pub open spec fn down(
    rgba: Seq<u8>,
    w: int,
    c: int,
    weighted: bool,
    x0: int,
    y0: int,
    cols: int,
) -> spec_fn(int) -> int {
    |dy: int| total(across(rgba, w, c, weighted, x0, y0 + dy), cols as nat)
}

/// The values of a box of pixels added up.
pub open spec fn box_sum(
    rgba: Seq<u8>,
    w: int,
    c: int,
    weighted: bool,
    x0: int,
    y0: int,
    cols: int,
    rows: int,
) -> int {
    total(down(rgba, w, c, weighted, x0, y0, cols), rows as nat)
}

/// How many of `s` places from `from` on lie before a limit.
pub open spec fn reach(from: int, s: int, limit: int) -> int {
    within(limit - from, 0, s)
}

/// A quotient rounded up. For `d > 0`.
pub open spec fn ceiling(n: int, d: int) -> int {
    (n + d - 1) / d
}

/// How many pixels become one so that the longer side comes down to a target.
pub open spec fn pool_scale(w: int, h: int, target: int) -> int {
    greater(ceiling(greater(w, h), target), 1)
}

fn scale_for(w: u32, h: u32, target: u32) -> (s: u32)
    requires
        target > 0,
    ensures
        s == pool_scale(w as int, h as int, target as int),
        s >= 1,
{
    let longer: u32 = if w > h {
        w
    } else {
        h
    };
    let s: u32 = ceil_div(longer, target);
    if s > 1 {
        s
    } else {
        1
    }
}

fn ceil_div(n: u32, d: u32) -> (q: u32)
    requires
        d > 0,
    ensures
        q == ceiling(n as int, d as int),
        q <= n,
{
    let sum: u64 = n as u64 + d as u64 - 1;
    let q: u64 = sum / d as u64;
    assert(q <= n) by (nonlinear_arith)
        requires
            q == (n + d - 1) / (d as int),
            d > 0,
            n >= 0,
    {
        assert(n + d - 1 < (n + 1) * d) by (nonlinear_arith)
            requires
                d >= 1,
                n >= 0,
        ;
        assert((n + d - 1) / (d as int) < n + 1) by (nonlinear_arith)
            requires
                n + d - 1 < (n + 1) * d,
                d > 0,
        ;
    }
    q as u32
}

proof fn lemma_inside(x: int, y: int, w: int, h: int)
    requires
        0 <= x < w,
        0 <= y < h,
    ensures
        0 <= y * w + x < w * h,
        0 <= y * w,
{
    assert(0 <= y * w && y * w + w <= h * w) by (nonlinear_arith)
        requires
            0 <= y,
            y + 1 <= h,
            0 <= w,
    ;
    assert(h * w == w * h) by (nonlinear_arith);
}

proof fn lemma_row_bound(rgba: Seq<u8>, w: int, c: int, weighted: bool, x0: int, y: int, n: nat)
    ensures
        0 <= total(across(rgba, w, c, weighted, x0, y), n) <= n * 65_025,
{
    let f = across(rgba, w, c, weighted, x0, y);
    assert forall|i: int| 0 <= i < n implies 0 <= #[trigger] f(i) <= 65_025 by {
        let a = channel(rgba, w, x0 + i, y, c);
        let b = channel(rgba, w, x0 + i, y, 3);
        assert(0 <= a * b <= 65_025) by (nonlinear_arith)
            requires
                0 <= a <= 255,
                0 <= b <= 255,
        ;
    }
    lemma_total_bound(f, n, 0, 65_025);
}

fn row_total(rgba: &[u8], w: u32, c: usize, weighted: bool, x0: u32, y: u32, h: u32, cols: u32) -> (sum:
    u128)
    requires
        has_pixels(rgba@, w as int, h as int),
        c < 4,
        y < h,
        x0 + cols <= w,
    ensures
        sum == total(
            across(rgba@, w as int, c as int, weighted, x0 as int, y as int),
            cols as nat,
        ),
        sum <= cols * 65_025,
{
    let ghost f = across(rgba@, w as int, c as int, weighted, x0 as int, y as int);
    let len: usize = rgba.len();
    let mut sum: u128 = 0;
    let mut dx: u32 = 0;
    while dx < cols
        invariant
            dx <= cols,
            len == rgba@.len(),
            c < 4,
            y < h,
            x0 + cols <= w,
            has_pixels(rgba@, w as int, h as int),
            f == across(rgba@, w as int, c as int, weighted, x0 as int, y as int),
            sum == total(f, dx as nat),
            sum <= dx * 65_025,
        decreases cols - dx,
    {
        proof {
            lemma_inside(x0 + dx, y as int, w as int, h as int);
            lemma_row_bound(rgba@, w as int, c as int, weighted, x0 as int, y as int, (dx + 1) as nat);
        }
        let at: usize = 4 * (y as usize * w as usize + (x0 + dx) as usize);
        let v: u128 = rgba[at + c] as u128;
        let part: u128 = if weighted {
            let a: u128 = rgba[at + 3] as u128;
            assert(0 <= v * a <= 65_025) by (nonlinear_arith)
                requires
                    0 <= v <= 255,
                    0 <= a <= 255,
            ;
            v * a
        } else {
            v
        };
        assert(f(dx as int) == part);
        sum = sum + part;
        dx = dx + 1;
    }
    sum
}

fn box_total(
    rgba: &[u8],
    w: u32,
    h: u32,
    c: usize,
    weighted: bool,
    x0: u32,
    y0: u32,
    cols: u32,
    rows: u32,
) -> (sum: u128)
    requires
        has_pixels(rgba@, w as int, h as int),
        c < 4,
        x0 + cols <= w,
        y0 + rows <= h,
    ensures
        sum == box_sum(
            rgba@,
            w as int,
            c as int,
            weighted,
            x0 as int,
            y0 as int,
            cols as int,
            rows as int,
        ),
{
    let ghost f = down(rgba@, w as int, c as int, weighted, x0 as int, y0 as int, cols as int);
    let mut sum: u128 = 0;
    let mut dy: u32 = 0;
    while dy < rows
        invariant
            dy <= rows,
            c < 4,
            x0 + cols <= w,
            y0 + rows <= h,
            has_pixels(rgba@, w as int, h as int),
            f == down(rgba@, w as int, c as int, weighted, x0 as int, y0 as int, cols as int),
            sum == total(f, dy as nat),
            sum <= dy * 300_000_000_000_000,
        decreases rows - dy,
    {
        let part: u128 = row_total(rgba, w, c, weighted, x0, y0 + dy, h, cols);
        assert(f(dy as int) == part);
        sum = sum + part;
        dy = dy + 1;
    }
    sum
}

fn reach_to(from: u64, s: u32, limit: u32) -> (n: u32)
    ensures
        n == reach(from as int, s as int, limit as int),
{
    if from >= limit as u64 {
        0
    } else if limit as u64 - from > s as u64 {
        s
    } else {
        (limit as u64 - from) as u32
    }
}

/// A pixel of a picture that was averaged down: the mean of its box, opaque.
pub open spec fn pooled_pixel(rgba: Seq<u8>, w: int, h: int, s: int, ox: int, oy: int) -> Seq<u8> {
    let cols = reach(ox * s, s, w);
    let rows = reach(oy * s, s, h);
    let n = greater(cols * rows, 1);
    seq![
        (box_sum(rgba, w, 0, false, ox * s, oy * s, cols, rows) / n) as u8,
        (box_sum(rgba, w, 1, false, ox * s, oy * s, cols, rows) / n) as u8,
        (box_sum(rgba, w, 2, false, ox * s, oy * s, cols, rows) / n) as u8,
        255u8,
    ]
}

/// The first `k` pixels of a picture that was averaged down, `ow` to a row.
pub open spec fn pooled(rgba: Seq<u8>, w: int, h: int, s: int, ow: int, k: int) -> Seq<u8>
    decreases k,
{
    if k <= 0 {
        Seq::empty()
    } else {
        pooled(rgba, w, h, s, ow, k - 1) + pooled_pixel(
            rgba,
            w,
            h,
            s,
            (k - 1) % ow,
            (k - 1) / ow,
        )
    }
}

/// The side of a picture that was averaged down: whole boxes only, but one at least.
pub open spec fn pooled_side(side: int, s: int) -> int {
    greater(side / s, 1)
}

fn side_pooled(side: u32, s: u32) -> (n: u32)
    requires
        s > 0,
    ensures
        n == pooled_side(side as int, s as int),
        n >= 1,
{
    let n: u32 = side / s;
    if n > 1 {
        n
    } else {
        1
    }
}

proof fn lemma_place(k: int, ow: int, ox: int, oy: int)
    requires
        0 <= ox < ow,
        k == oy * ow + ox,
    ensures
        k % ow == ox,
        k / ow == oy,
{
    vstd::arithmetic::div_mod::lemma_fundamental_div_mod_converse(k, ow, oy, ox);
}

/// A mean of bytes is a byte.
proof fn lemma_mean(
    rgba: Seq<u8>,
    w: int,
    c: int,
    x0: int,
    y0: int,
    cols: int,
    rows: int,
)
    requires
        cols >= 0,
        rows >= 0,
    ensures
        0 <= box_sum(rgba, w, c, false, x0, y0, cols, rows) / greater(cols * rows, 1) <= 255,
{
    let f = down(rgba, w, c, false, x0, y0, cols);
    assert forall|dy: int| 0 <= dy < rows implies 0 <= #[trigger] f(dy) <= 255 * cols by {
        let g = across(rgba, w, c, false, x0, y0 + dy);
        assert forall|dx: int| 0 <= dx < cols implies 0 <= #[trigger] g(dx) <= 255 by {}
        lemma_total_bound(g, cols as nat, 0, 255);
    }
    lemma_total_bound(f, rows as nat, 0, 255 * cols);
    let sum = box_sum(rgba, w, c, false, x0, y0, cols, rows);
    let n = greater(cols * rows, 1);
    assert(0 <= cols * rows) by (nonlinear_arith)
        requires
            cols >= 0,
            rows >= 0,
    ;
    assert(rows * (255 * cols) == 255 * (cols * rows)) by (nonlinear_arith);
    assert(0 <= sum / n <= 255) by (nonlinear_arith)
        requires
            0 <= sum <= 255 * n,
            n >= 1,
    {
        assert(sum < 256 * n) by (nonlinear_arith)
            requires
                sum <= 255 * n,
                n >= 1,
        ;
        assert(0 <= sum / n && sum / n < 256) by (nonlinear_arith)
            requires
                0 <= sum < 256 * n,
                n >= 1,
        ;
    }
}

fn mean_of(
    rgba: &[u8],
    w: u32,
    h: u32,
    c: usize,
    x0: u32,
    y0: u32,
    cols: u32,
    rows: u32,
) -> (m: u8)
    requires
        has_pixels(rgba@, w as int, h as int),
        c < 4,
        x0 + cols <= w,
        y0 + rows <= h,
    ensures
        m == box_sum(
            rgba@,
            w as int,
            c as int,
            false,
            x0 as int,
            y0 as int,
            cols as int,
            rows as int,
        ) / greater(cols * rows, 1),
{
    let sum: u128 = box_total(rgba, w, h, c, false, x0, y0, cols, rows);
    assert(0 <= cols * rows <= 0xffff_ffff * 0xffff_ffff) by (nonlinear_arith)
        requires
            0 <= cols <= 0xffff_ffff,
            0 <= rows <= 0xffff_ffff,
    ;
    let n: u128 = cols as u128 * rows as u128;
    proof {
        lemma_mean(
            rgba@,
            w as int,
            c as int,
            x0 as int,
            y0 as int,
            cols as int,
            rows as int,
        );
    }
    if n > 1 {
        (sum / n) as u8
    } else {
        assert(sum == sum as int / 1);
        sum as u8
    }
}

/// Averages a picture down so that its longer side has at most `target` pixels.
pub fn average_pool(pixels: &[u8], w: u32, h: u32, target: u32) -> (r: (Vec<u8>, u32, u32))
    requires
        target > 0,
        has_pixels(pixels@, w as int, h as int),
    ensures
        ({
            let s = pool_scale(w as int, h as int, target as int);
            &&& r.1 == pooled_side(w as int, s)
            &&& r.2 == pooled_side(h as int, s)
            &&& r.0@ == pooled(pixels@, w as int, h as int, s, r.1 as int, r.1 * r.2)
        }),
{
    let s: u32 = scale_for(w, h, target);
    let ow: u32 = side_pooled(w, s);
    let oh: u32 = side_pooled(h, s);
    let mut out: Vec<u8> = Vec::new();
    let mut oy: u32 = 0;
    while oy < oh
        invariant
            oy <= oh,
            ow >= 1,
            s >= 1,
            has_pixels(pixels@, w as int, h as int),
            out@ == pooled(pixels@, w as int, h as int, s as int, ow as int, oy * ow),
        decreases oh - oy,
    {
        let mut ox: u32 = 0;
        while ox < ow
            invariant
                ox <= ow,
                oy < oh,
                ow >= 1,
                s >= 1,
                has_pixels(pixels@, w as int, h as int),
                out@ == pooled(pixels@, w as int, h as int, s as int, ow as int, oy * ow + ox),
            decreases ow - ox,
        {
            assert(0 <= ox * s <= 0xffff_ffff * 0xffff_ffff) by (nonlinear_arith)
                requires
                    0 <= ox <= 0xffff_ffff,
                    0 <= s <= 0xffff_ffff,
            ;
            assert(0 <= oy * s <= 0xffff_ffff * 0xffff_ffff) by (nonlinear_arith)
                requires
                    0 <= oy <= 0xffff_ffff,
                    0 <= s <= 0xffff_ffff,
            ;
            let x: u64 = ox as u64 * s as u64;
            let y: u64 = oy as u64 * s as u64;
            let cols: u32 = reach_to(x, s, w);
            let rows: u32 = reach_to(y, s, h);
            let pixel: [u8; 3] = pooled_at(pixels, w, h, x, y, cols, rows);
            proof {
                lemma_place(oy * ow + ox, ow as int, ox as int, oy as int);
            }
            let ghost before = out@;
            out.push(pixel[0]);
            out.push(pixel[1]);
            out.push(pixel[2]);
            out.push(255);
            assert(out@ =~= before + pooled_pixel(
                pixels@,
                w as int,
                h as int,
                s as int,
                ox as int,
                oy as int,
            ));
            ox = ox + 1;
        }
        assert((oy + 1) * ow == oy * ow + ow) by (nonlinear_arith);
        oy = oy + 1;
    }
    assert(oh * ow == ow * oh) by (nonlinear_arith);
    (out, ow, oh)
}

fn pooled_at(rgba: &[u8], w: u32, h: u32, x: u64, y: u64, cols: u32, rows: u32) -> (p: [u8; 3])
    requires
        has_pixels(rgba@, w as int, h as int),
        cols > 0 ==> x + cols <= w,
        rows > 0 ==> y + rows <= h,
    ensures
        forall|c: int|
            0 <= c < 3 ==> #[trigger] p@[c] == box_sum(
                rgba@,
                w as int,
                c,
                false,
                x as int,
                y as int,
                cols as int,
                rows as int,
            ) / greater(cols * rows, 1),
{
    if cols == 0 || rows == 0 {
        assert(cols * rows == 0) by (nonlinear_arith)
            requires
                cols == 0 || rows == 0,
        ;
        assert forall|c: int| 0 <= c < 3 implies #[trigger] box_sum(
            rgba@,
            w as int,
            c,
            false,
            x as int,
            y as int,
            cols as int,
            rows as int,
        ) == 0 by {
            let f = down(rgba@, w as int, c, false, x as int, y as int, cols as int);
            if rows > 0 {
                assert forall|dy: int| 0 <= dy < rows implies 0 <= #[trigger] f(dy) <= 0 by {}
                lemma_total_bound(f, rows as nat, 0, 0);
            }
        }
        return [0, 0, 0];
    }
    let x0: u32 = x as u32;
    let y0: u32 = y as u32;
    [
        mean_of(rgba, w, h, 0, x0, y0, cols, rows),
        mean_of(rgba, w, h, 1, x0, y0, cols, rows),
        mean_of(rgba, w, h, 2, x0, y0, cols, rows),
    ]
}

/// A share of a sum: nothing where the whole is nothing.
pub open spec fn share(part: int, whole: int) -> int {
    if whole == 0 {
        0
    } else {
        part / whole
    }
}

/// A pixel of an icon that was shrunk: the mean of its box, the colours weighted by alpha.
pub open spec fn icon_pixel(rgba: Seq<u8>, w: int, h: int, s: int, ox: int, oy: int) -> Seq<u8> {
    let x = ox * s;
    let y = oy * s;
    let cols = reach(x, s, w);
    let rows = reach(y, s, h);
    let a = box_sum(rgba, w, 3, false, x, y, cols, rows);
    seq![
        share(box_sum(rgba, w, 0, true, x, y, cols, rows), a) as u8,
        share(box_sum(rgba, w, 1, true, x, y, cols, rows), a) as u8,
        share(box_sum(rgba, w, 2, true, x, y, cols, rows), a) as u8,
        (a / greater(cols * rows, 1)) as u8,
    ]
}

/// The first `k` pixels of an icon that was shrunk, `ow` to a row.
pub open spec fn shrunk(rgba: Seq<u8>, w: int, h: int, s: int, ow: int, k: int) -> Seq<u8>
    decreases k,
{
    if k <= 0 {
        Seq::empty()
    } else {
        shrunk(rgba, w, h, s, ow, k - 1) + icon_pixel(rgba, w, h, s, (k - 1) % ow, (k - 1) / ow)
    }
}

/// The side of an icon that was shrunk: the last box may be cut off.
pub open spec fn icon_side(side: int, s: int) -> int {
    greater(ceiling(side, s), 1)
}

fn side_shrunk(side: u32, s: u32) -> (n: u32)
    requires
        s > 0,
    ensures
        n == icon_side(side as int, s as int),
        n >= 1,
{
    let n: u32 = ceil_div(side, s);
    if n > 1 {
        n
    } else {
        1
    }
}

/// A weighted mean of bytes is a byte.
proof fn lemma_weighted(
    rgba: Seq<u8>,
    w: int,
    c: int,
    x0: int,
    y0: int,
    cols: int,
    rows: nat,
)
    requires
        cols >= 0,
    ensures
        0 <= box_sum(rgba, w, c, true, x0, y0, cols, rows as int) <= 255 * box_sum(
            rgba,
            w,
            3,
            false,
            x0,
            y0,
            cols,
            rows as int,
        ),
    decreases rows,
{
    if rows > 0 {
        lemma_weighted(rgba, w, c, x0, y0, cols, (rows - 1) as nat);
        lemma_weighted_row(rgba, w, c, x0, y0 + rows - 1, cols as nat);
        let f = down(rgba, w, c, true, x0, y0, cols);
        let g = down(rgba, w, 3, false, x0, y0, cols);
        assert(f(rows - 1) == total(across(rgba, w, c, true, x0, y0 + rows - 1), cols as nat));
        assert(g(rows - 1) == total(across(rgba, w, 3, false, x0, y0 + rows - 1), cols as nat));
    }
}

proof fn lemma_weighted_row(rgba: Seq<u8>, w: int, c: int, x0: int, y: int, n: nat)
    ensures
        0 <= total(across(rgba, w, c, true, x0, y), n) <= 255 * total(
            across(rgba, w, 3, false, x0, y),
            n,
        ),
    decreases n,
{
    if n > 0 {
        lemma_weighted_row(rgba, w, c, x0, y, (n - 1) as nat);
        let f = across(rgba, w, c, true, x0, y);
        let g = across(rgba, w, 3, false, x0, y);
        let a = channel(rgba, w, x0 + n - 1, y, c);
        let b = channel(rgba, w, x0 + n - 1, y, 3);
        assert(f(n - 1) == a * b);
        assert(g(n - 1) == b);
        assert(0 <= a * b <= 255 * b) by (nonlinear_arith)
            requires
                0 <= a <= 255,
                0 <= b,
        ;
    }
}

fn icon_at(rgba: &[u8], w: u32, h: u32, s: u32, ox: u32, oy: u32) -> (p: [u8; 4])
    requires
        has_pixels(rgba@, w as int, h as int),
        s >= 1,
    ensures
        p@ == icon_pixel(rgba@, w as int, h as int, s as int, ox as int, oy as int),
{
    assert(0 <= ox * s <= 0xffff_ffff * 0xffff_ffff) by (nonlinear_arith)
        requires
            0 <= ox <= 0xffff_ffff,
            0 <= s <= 0xffff_ffff,
    ;
    assert(0 <= oy * s <= 0xffff_ffff * 0xffff_ffff) by (nonlinear_arith)
        requires
            0 <= oy <= 0xffff_ffff,
            0 <= s <= 0xffff_ffff,
    ;
    let x: u64 = ox as u64 * s as u64;
    let y: u64 = oy as u64 * s as u64;
    let cols: u32 = reach_to(x, s, w);
    let rows: u32 = reach_to(y, s, h);
    let ghost (gw, gx, gy, gc, gr) = (w as int, x as int, y as int, cols as int, rows as int);
    if cols == 0 || rows == 0 {
        assert(cols * rows == 0) by (nonlinear_arith)
            requires
                cols == 0 || rows == 0,
        ;
        assert(box_sum(rgba@, gw, 3, false, gx, gy, gc, gr) == 0) by {
            let f = down(rgba@, gw, 3, false, gx, gy, gc);
            if rows > 0 {
                assert forall|dy: int| 0 <= dy < rows implies 0 <= #[trigger] f(dy) <= 0 by {}
                lemma_total_bound(f, rows as nat, 0, 0);
            }
        }
        let p: [u8; 4] = [0, 0, 0, 0];
        assert(p@ =~= icon_pixel(rgba@, gw, h as int, s as int, ox as int, oy as int));
        return p;
    }
    let x0: u32 = x as u32;
    let y0: u32 = y as u32;
    let a: u128 = box_total(rgba, w, h, 3, false, x0, y0, cols, rows);
    let r: u128 = box_total(rgba, w, h, 0, true, x0, y0, cols, rows);
    let g: u128 = box_total(rgba, w, h, 1, true, x0, y0, cols, rows);
    let b: u128 = box_total(rgba, w, h, 2, true, x0, y0, cols, rows);
    let alpha: u8 = mean_of(rgba, w, h, 3, x0, y0, cols, rows);
    proof {
        lemma_weighted(rgba@, gw, 0, gx, gy, gc, rows as nat);
        lemma_weighted(rgba@, gw, 1, gx, gy, gc, rows as nat);
        lemma_weighted(rgba@, gw, 2, gx, gy, gc, rows as nat);
    }
    let p: [u8; 4] = [byte_share(r, a), byte_share(g, a), byte_share(b, a), alpha];
    assert(p@ =~= icon_pixel(rgba@, gw, h as int, s as int, ox as int, oy as int));
    p
}

fn byte_share(part: u128, whole: u128) -> (r: u8)
    requires
        part <= 255 * whole,
    ensures
        r == share(part as int, whole as int),
{
    if whole == 0 {
        return 0;
    }
    assert(part / whole <= 255) by (nonlinear_arith)
        requires
            part <= 255 * whole,
            whole > 0,
    {
        assert(part < 256 * whole) by (nonlinear_arith)
            requires
                part <= 255 * whole,
                whole > 0,
        ;
    }
    (part / whole) as u8
}

/// Shrinks an icon so that its longer side has at most `target` pixels. The colours are weighted
/// by alpha, so that clear pixels darken nothing.
pub fn downscale_icon(rgba: &[u8], w: u32, h: u32, target: u32) -> (r: (Vec<u8>, u32, u32))
    requires
        target > 0,
        has_pixels(rgba@, w as int, h as int),
    ensures
        ({
            let s = pool_scale(w as int, h as int, target as int);
            &&& r.1 == icon_side(w as int, s)
            &&& r.2 == icon_side(h as int, s)
            &&& r.0@ == shrunk(rgba@, w as int, h as int, s, r.1 as int, r.1 * r.2)
            &&& r.0@.len() == 4 * (r.1 * r.2)
        }),
{
    let s: u32 = scale_for(w, h, target);
    let ow: u32 = side_shrunk(w, s);
    let oh: u32 = side_shrunk(h, s);
    let mut out: Vec<u8> = Vec::new();
    let mut oy: u32 = 0;
    while oy < oh
        invariant
            oy <= oh,
            ow >= 1,
            s >= 1,
            has_pixels(rgba@, w as int, h as int),
            out@ == shrunk(rgba@, w as int, h as int, s as int, ow as int, oy * ow),
            out@.len() == 4 * (oy * ow),
        decreases oh - oy,
    {
        let mut ox: u32 = 0;
        while ox < ow
            invariant
                ox <= ow,
                oy < oh,
                ow >= 1,
                s >= 1,
                has_pixels(rgba@, w as int, h as int),
                out@ == shrunk(rgba@, w as int, h as int, s as int, ow as int, oy * ow + ox),
                out@.len() == 4 * (oy * ow + ox),
            decreases ow - ox,
        {
            let pixel: [u8; 4] = icon_at(rgba, w, h, s, ox, oy);
            proof {
                lemma_place(oy * ow + ox, ow as int, ox as int, oy as int);
            }
            let ghost before = out@;
            out.push(pixel[0]);
            out.push(pixel[1]);
            out.push(pixel[2]);
            out.push(pixel[3]);
            assert(out@ =~= before + pixel@);
            ox = ox + 1;
        }
        assert((oy + 1) * ow == oy * ow + ow) by (nonlinear_arith);
        oy = oy + 1;
    }
    assert(oh * ow == ow * oh) by (nonlinear_arith);
    (out, ow, oh)
}

/// Whether two pictures of a size look the same: equally clear everywhere, and of one colour
/// wherever they are not clear.
pub open spec fn look_alike(p: Seq<u8>, q: Seq<u8>, w: int, h: int) -> bool {
    forall|x: int, y: int, c: int|
        0 <= x < w && 0 <= y < h && 0 <= c < 4 && (c == 3 || channel(p, w, x, y, 3) > 0)
            ==> #[trigger] channel(p, w, x, y, c) == channel(q, w, x, y, c)
}

proof fn lemma_box_alike(
    p: Seq<u8>,
    q: Seq<u8>,
    w: int,
    h: int,
    c: int,
    x0: int,
    y0: int,
    cols: int,
    rows: int,
)
    requires
        look_alike(p, q, w, h),
        0 <= c < 4,
        0 <= x0,
        0 <= y0,
        0 <= cols,
        0 <= rows,
        cols > 0 ==> x0 + cols <= w,
        rows > 0 ==> y0 + rows <= h,
    ensures
        box_sum(p, w, c, c < 3, x0, y0, cols, rows) == box_sum(q, w, c, c < 3, x0, y0, cols, rows),
{
    let f = down(p, w, c, c < 3, x0, y0, cols);
    let g = down(q, w, c, c < 3, x0, y0, cols);
    assert forall|dy: int| 0 <= dy < rows implies #[trigger] f(dy) == g(dy) by {
        let a = across(p, w, c, c < 3, x0, y0 + dy);
        let b = across(q, w, c, c < 3, x0, y0 + dy);
        assert forall|dx: int| 0 <= dx < cols implies #[trigger] a(dx) == b(dx) by {
            let (x, y) = (x0 + dx, y0 + dy);
            assert(channel(p, w, x, y, 3) == channel(q, w, x, y, 3));
            if channel(p, w, x, y, 3) > 0 {
                assert(channel(p, w, x, y, c) == channel(q, w, x, y, c));
            } else {
                let (u, v) = (channel(p, w, x, y, c), channel(q, w, x, y, c));
                assert(u * 0 == v * 0);
                assert(channel(p, w, x, y, 3) == 0);
            }
        }
        lemma_total_same(a, b, cols as nat);
    }
    lemma_total_same(f, g, rows as nat);
}

/// Clear pixels never show in an icon: whatever colours they hold, the shrunk icon is the same.
pub proof fn law_clear_pixels_never_show(
    p: Seq<u8>,
    q: Seq<u8>,
    w: int,
    h: int,
    s: int,
    ow: int,
    k: int,
)
    requires
        look_alike(p, q, w, h),
        0 <= w,
        0 <= h,
        s >= 1,
        ow >= 1,
    ensures
        shrunk(p, w, h, s, ow, k) == shrunk(q, w, h, s, ow, k),
    decreases k,
{
    if k > 0 {
        law_clear_pixels_never_show(p, q, w, h, s, ow, k - 1);
        let ox = (k - 1) % ow;
        let oy = (k - 1) / ow;
        assert(0 <= ox && 0 <= oy) by (nonlinear_arith)
            requires
                ox == (k - 1) % ow,
                oy == (k - 1) / ow,
                k > 0,
                ow >= 1,
        ;
        let x = ox * s;
        let y = oy * s;
        assert(0 <= x && 0 <= y) by (nonlinear_arith)
            requires
                x == ox * s,
                y == oy * s,
                0 <= ox,
                0 <= oy,
                s >= 1,
        ;
        let cols = reach(x, s, w);
        let rows = reach(y, s, h);
        lemma_box_alike(p, q, w, h, 0, x, y, cols, rows);
        lemma_box_alike(p, q, w, h, 1, x, y, cols, rows);
        lemma_box_alike(p, q, w, h, 2, x, y, cols, rows);
        lemma_box_alike(p, q, w, h, 3, x, y, cols, rows);
        assert(icon_pixel(p, w, h, s, ox, oy) =~= icon_pixel(q, w, h, s, ox, oy));
    }
}

/// The longer side of a shrunk picture has at most as many pixels as asked for.
pub proof fn law_pictures_reach_the_target(w: int, h: int, target: int)
    requires
        0 <= w,
        0 <= h,
        0 < target,
    ensures
        ({
            let s = pool_scale(w, h, target);
            &&& 1 <= pooled_side(w, s) <= target
            &&& 1 <= pooled_side(h, s) <= target
            &&& 1 <= icon_side(w, s) <= target
            &&& 1 <= icon_side(h, s) <= target
        }),
{
    let s = pool_scale(w, h, target);
    let m = greater(w, h);
    let q = ceiling(m, target);
    assert(q * target >= m) by (nonlinear_arith)
        requires
            q == (m + target - 1) / target,
            target > 0,
    ;
    assert(s * target >= m) by (nonlinear_arith)
        requires
            q * target >= m,
            s >= q,
            target > 0,
    ;
    lemma_side(w, s, target);
    lemma_side(h, s, target);
}

proof fn lemma_side(side: int, s: int, target: int)
    requires
        0 <= side <= s * target,
        s >= 1,
        target >= 1,
    ensures
        side / s <= target,
        ceiling(side, s) <= target,
{
    assert(ceiling(side, s) <= target) by (nonlinear_arith)
        requires
            0 <= side <= s * target,
            s >= 1,
            ceiling(side, s) == (side + s - 1) / s,
    {
        assert(side + s - 1 < s * (target + 1)) by (nonlinear_arith)
            requires
                side <= s * target,
                s >= 1,
        ;
        assert((side + s - 1) / s < target + 1) by (nonlinear_arith)
            requires
                side + s - 1 < s * (target + 1),
                s >= 1,
        ;
    }
    assert(side / s <= target) by (nonlinear_arith)
        requires
            0 <= side <= s * target,
            s >= 1,
    ;
}

proof fn lemma_row_lies_between(
    rgba: Seq<u8>,
    w: int,
    c: int,
    x0: int,
    y: int,
    n: nat,
    lo: int,
    hi: int,
)
    requires
        forall|dx: int| 0 <= dx < n ==> lo <= #[trigger] channel(rgba, w, x0 + dx, y, c) <= hi,
    ensures
        lo * n <= total(across(rgba, w, c, false, x0, y), n) <= hi * n,
    decreases n,
{
    if n > 0 {
        let m = (n - 1) as nat;
        lemma_row_lies_between(rgba, w, c, x0, y, m, lo, hi);
        assert(lo <= channel(rgba, w, x0 + m, y, c) <= hi);
        assert(lo * n == lo * m + lo && hi * n == hi * m + hi) by (nonlinear_arith)
            requires
                n == m + 1,
        ;
    } else {
        assert(lo * n == 0 && hi * n == 0) by (nonlinear_arith)
            requires
                n == 0,
        ;
    }
}

proof fn lemma_box_lies_between(
    rgba: Seq<u8>,
    w: int,
    c: int,
    x0: int,
    y0: int,
    cols: nat,
    rows: nat,
    lo: int,
    hi: int,
)
    requires
        forall|dx: int, dy: int|
            0 <= dx < cols && 0 <= dy < rows ==> lo <= #[trigger] channel(
                rgba,
                w,
                x0 + dx,
                y0 + dy,
                c,
            ) <= hi,
    ensures
        lo * (cols * rows) <= total(down(rgba, w, c, false, x0, y0, cols as int), rows) <= hi * (
        cols * rows),
    decreases rows,
{
    if rows > 0 {
        let m = (rows - 1) as nat;
        lemma_box_lies_between(rgba, w, c, x0, y0, cols, m, lo, hi);
        assert forall|dx: int| 0 <= dx < cols implies lo <= #[trigger] channel(
            rgba,
            w,
            x0 + dx,
            y0 + m,
            c,
        ) <= hi by {}
        lemma_row_lies_between(rgba, w, c, x0, y0 + m, cols, lo, hi);
        assert(lo * (cols * rows) == lo * (cols * m) + lo * cols) by (nonlinear_arith)
            requires
                rows == m + 1,
        ;
        assert(hi * (cols * rows) == hi * (cols * m) + hi * cols) by (nonlinear_arith)
            requires
                rows == m + 1,
        ;
    } else {
        assert(lo * (cols * rows) == 0 && hi * (cols * rows) == 0) by (nonlinear_arith)
            requires
                rows == 0,
        ;
    }
}

/// A pooled pixel lies between the least and the greatest value of the square of pixels that it
/// stands for, so that an even picture keeps its colour, and is opaque.
pub proof fn law_pooled_pixels_lie_among_theirs(
    rgba: Seq<u8>,
    w: int,
    h: int,
    s: int,
    ox: int,
    oy: int,
    c: int,
    lo: u8,
    hi: u8,
)
    requires
        s >= 1,
        0 <= ox,
        0 <= oy,
        ox * s < w,
        oy * s < h,
        0 <= c < 3,
        forall|x: int, y: int|
            ox * s <= x < ox * s + s && x < w && oy * s <= y < oy * s + s && y < h ==> lo
                <= #[trigger] channel(rgba, w, x, y, c) <= hi,
    ensures
        lo <= pooled_pixel(rgba, w, h, s, ox, oy)[c] <= hi,
        pooled_pixel(rgba, w, h, s, ox, oy)[3] == 255,
{
    let (x0, y0) = (ox * s, oy * s);
    let (cols, rows) = (reach(x0, s, w), reach(y0, s, h));
    let n = cols * rows;
    assert(n >= 1) by (nonlinear_arith)
        requires
            n == cols * rows,
            cols >= 1,
            rows >= 1,
    ;
    assert forall|dx: int, dy: int| 0 <= dx < cols && 0 <= dy < rows implies lo <= #[trigger] channel(
        rgba,
        w,
        x0 + dx,
        y0 + dy,
        c,
    ) <= hi by {}
    lemma_box_lies_between(rgba, w, c, x0, y0, cols as nat, rows as nat, lo as int, hi as int);
    let sum = box_sum(rgba, w, c, false, x0, y0, cols, rows);
    assert(lo <= sum / n <= hi) by (nonlinear_arith)
        requires
            lo * n <= sum <= hi * n,
            n >= 1,
    ;
}

/// Without pooling, every pixel keeps its colour.
pub proof fn law_unpooled_pixels_stay(rgba: Seq<u8>, w: int, h: int, ox: int, oy: int, c: int)
    requires
        0 <= ox < w,
        0 <= oy < h,
        0 <= c < 3,
    ensures
        pooled_pixel(rgba, w, h, 1, ox, oy)[c] == channel(rgba, w, ox, oy, c),
{
    let v = rgba[4 * (oy * w + ox) + c];
    assert(ox * 1 == ox && oy * 1 == oy);
    assert forall|x: int, y: int|
        ox * 1 <= x < ox * 1 + 1 && x < w && oy * 1 <= y < oy * 1 + 1 && y < h implies v
        <= #[trigger] channel(rgba, w, x, y, c) <= v by {
        assert(x == ox && y == oy);
    }
    law_pooled_pixels_lie_among_theirs(rgba, w, h, 1, ox, oy, c, v, v);
}

/// Pooling puts each square's pixel into the square's column and row.
pub proof fn law_pooling_keeps_places(
    rgba: Seq<u8>,
    w: int,
    h: int,
    s: int,
    ow: int,
    k: int,
    ox: int,
    oy: int,
    c: int,
)
    requires
        0 <= ox < ow,
        0 <= oy,
        oy * ow + ox < k,
        0 <= c < 4,
    ensures
        pooled(rgba, w, h, s, ow, k).len() == 4 * k,
        shrunk(rgba, w, h, s, ow, k).len() == 4 * k,
        pooled(rgba, w, h, s, ow, k)[4 * (oy * ow + ox) + c] == pooled_pixel(
            rgba,
            w,
            h,
            s,
            ox,
            oy,
        )[c],
        shrunk(rgba, w, h, s, ow, k)[4 * (oy * ow + ox) + c] == icon_pixel(
            rgba,
            w,
            h,
            s,
            ox,
            oy,
        )[c],
    decreases k,
{
    let at = oy * ow + ox;
    assert(at >= 0) by (nonlinear_arith)
        requires
            at == oy * ow + ox,
            0 <= ox,
            0 <= oy,
            0 < ow,
    ;
    lemma_pooled_length(rgba, w, h, s, ow, k - 1);
    if at < k - 1 {
        law_pooling_keeps_places(rgba, w, h, s, ow, k - 1, ox, oy, c);
    } else {
        vstd::arithmetic::div_mod::lemma_fundamental_div_mod_converse(at, ow, oy, ox);
    }
}

proof fn lemma_pooled_length(rgba: Seq<u8>, w: int, h: int, s: int, ow: int, k: int)
    requires
        k >= 0,
    ensures
        pooled(rgba, w, h, s, ow, k).len() == 4 * k,
        shrunk(rgba, w, h, s, ow, k).len() == 4 * k,
    decreases k,
{
    if k > 0 {
        lemma_pooled_length(rgba, w, h, s, ow, k - 1);
    }
}

} // verus!
