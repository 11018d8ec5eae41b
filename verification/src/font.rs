//! The letters of the overlay: one picture that holds them all, and laying out text with it.

use vstd::prelude::*;

use crate::drawing::{drawn, fill_rect, rect_at, words_at, write_text, Align, Op, Paint, Shape};
use crate::fixed::{
    div_nearest, greater, law_rounding_is_closest, law_rounding_keeps_whole_numbers, magnitude,
    nearest,
};
use crate::text::chars_of;
use crate::words::{dot_color, dot_of, SpeedMark};

verus! {

/// Width of the picture.
pub const ATLAS_W: usize = 2048;

/// Height that the letters are drawn at once; text scales from it.
pub const BASE_PX: u32 = 96;

/// The largest letter that is packed, in pixels.
pub const CELL_LIMIT: usize = 2048;

/// A letter as it was drawn.
#[derive(Debug, Clone)]
pub struct Cell {
    /// Its number in ASCII.
    pub code: u8,
    pub width: usize,
    pub height: usize,
    /// From the pen to its left edge, in pixels.
    pub xmin: i32,
    /// From the baseline up to its lower edge, in pixels.
    pub ymin: i32,
    /// How far the pen moves on, in millionths of a pixel.
    pub advance: i64,
    /// How much of each pixel it covers, row by row.
    pub bitmap: Vec<u8>,
}

/// Where a letter stands in the picture, and how it is set.
#[derive(Debug, Clone, Copy, PartialEq, Eq, Structural)]
pub struct Glyph {
    pub ax: usize,
    pub ay: usize,
    pub aw: usize,
    pub ah: usize,
    pub xmin: i32,
    pub ymin: i32,
    pub advance: i64,
}

/// All letters in one picture.
#[derive(Debug, Clone)]
pub struct FontAtlas {
    pub width: usize,
    pub height: usize,
    /// How much of each pixel is covered, row by row.
    pub pixels: Vec<u8>,
    /// The letters by their number, where there is one.
    pub glyphs: Vec<Option<Glyph>>,
}

/// Whether letters can be packed.
pub open spec fn can_pack(cells: Seq<Cell>) -> bool {
    &&& cells.len() <= 128
    &&& forall|i: int|
        0 <= i < cells.len() ==> {
            &&& (#[trigger] cells[i]).code < 128
            &&& cells[i].width <= CELL_LIMIT
            &&& cells[i].height <= CELL_LIMIT
            &&& cells[i].bitmap@.len() == cells[i].width * cells[i].height
        }
}

/// The shelf that is filled after `n` letters: where the next one goes, and how high it is.
pub open spec fn shelf(cells: Seq<Cell>, n: int) -> (int, int, int)
    decreases n,
{
    if n <= 0 {
        (0, 0, 0)
    } else {
        let (x, y, row) = shelf(cells, n - 1);
        let c = cells[n - 1];
        if x + c.width + 1 > ATLAS_W {
            (c.width + 1, y + row + 1, c.height as int)
        } else {
            (x + c.width + 1, y, greater(row, c.height as int))
        }
    }
}

/// Where letter `i` goes: on the shelf, or on a new one where it is full.
pub open spec fn place(cells: Seq<Cell>, i: int) -> (int, int) {
    let (x, y, row) = shelf(cells, i);
    if x + cells[i].width + 1 > ATLAS_W {
        (0, y + row + 1)
    } else {
        (x, y)
    }
}

/// Whether letter `i` covers a place of the picture.
pub open spec fn covers(cells: Seq<Cell>, i: int, x: int, y: int) -> bool {
    let (px, py) = place(cells, i);
    px <= x < px + cells[i].width && py <= y < py + cells[i].height
}

/// What a place of the picture holds after the first `n` letters.
pub open spec fn coverage(cells: Seq<Cell>, n: int, x: int, y: int) -> u8
    decreases n,
{
    if n <= 0 {
        0
    } else if covers(cells, n - 1, x, y) {
        let (px, py) = place(cells, n - 1);
        cells[n - 1].bitmap@[(y - py) * cells[n - 1].width + (x - px)]
    } else {
        coverage(cells, n - 1, x, y)
    }
}

/// What the picture holds after the first `n` letters.
pub open spec fn picture(cells: Seq<Cell>, n: int, height: int) -> Seq<u8> {
    Seq::new(
        (ATLAS_W * height) as nat,
        |p: int| coverage(cells, n, p % (ATLAS_W as int), p / (ATLAS_W as int)),
    )
}

/// The power of two that a height is rounded up to.
pub open spec fn doubled_up(from: int, to: int) -> int
    decreases greater(to - from, 0),
{
    if from <= 0 || from >= to {
        from
    } else {
        doubled_up(2 * from, to)
    }
}

/// The height of the picture.
pub open spec fn atlas_height(cells: Seq<Cell>) -> int {
    let (x, y, row) = shelf(cells, cells.len() as int);
    doubled_up(1, y + row + 1)
}

/// How letter `i` is set.
pub open spec fn glyph_of(cells: Seq<Cell>, i: int) -> Glyph {
    Glyph {
        ax: place(cells, i).0 as usize,
        ay: place(cells, i).1 as usize,
        aw: cells[i].width,
        ah: cells[i].height,
        xmin: cells[i].xmin,
        ymin: cells[i].ymin,
        advance: cells[i].advance,
    }
}

/// The last of the first `n` letters with a number, where there is one.
pub open spec fn glyph_for(cells: Seq<Cell>, n: int, code: int) -> Option<Glyph>
    decreases n,
{
    if n <= 0 {
        None
    } else if cells[n - 1].code == code {
        Some(glyph_of(cells, n - 1))
    } else {
        glyph_for(cells, n - 1, code)
    }
}

/// Whether an atlas holds letters: each one where the shelves have room for it, nothing between.
pub open spec fn is_packed(a: FontAtlas, cells: Seq<Cell>) -> bool {
    &&& a.width == ATLAS_W
    &&& a.height == atlas_height(cells)
    &&& a.pixels@ == picture(cells, cells.len() as int, atlas_height(cells))
    &&& a.glyphs@ == Seq::new(128, |c: int| glyph_for(cells, cells.len() as int, c))
}

/// Shelves lie one below the other.
proof fn lemma_shelf(cells: Seq<Cell>, n: int)
    requires
        can_pack(cells),
        0 <= n <= cells.len(),
    ensures
        0 <= shelf(cells, n).0 <= ATLAS_W + 1,
        0 <= shelf(cells, n).1 <= n * (CELL_LIMIT + 1),
        0 <= shelf(cells, n).2 <= CELL_LIMIT,
        forall|i: int|
            0 <= i < n ==> {
                &&& 0 <= (#[trigger] place(cells, i)).0
                &&& 0 <= place(cells, i).1
                &&& place(cells, i).0 + cells[i].width <= ATLAS_W
                &&& (place(cells, i).1 + cells[i].height + 1 <= shelf(cells, n).1 || (place(
                    cells,
                    i,
                ).1 == shelf(cells, n).1 && place(cells, i).0 + cells[i].width + 1 <= shelf(
                    cells,
                    n,
                ).0 && cells[i].height <= shelf(cells, n).2))
            },
    decreases n,
{
    if n > 0 {
        lemma_shelf(cells, n - 1);
        let c = cells[n - 1];
        assert(c.width <= CELL_LIMIT && c.height <= CELL_LIMIT);
        assert(place(cells, n - 1).1 + c.height <= shelf(cells, n).1 + shelf(cells, n).2);
    }
}

/// No two letters overlap, and all lie in the picture.
pub proof fn law_letters_do_not_overlap(cells: Seq<Cell>, i: int, j: int, x: int, y: int)
    requires
        can_pack(cells),
        0 <= i < j < cells.len(),
        covers(cells, i, x, y),
    ensures
        !covers(cells, j, x, y),
        0 <= x < ATLAS_W,
        0 <= y < atlas_height(cells),
{
    lemma_shelf(cells, j);
    lemma_shelf(cells, cells.len() as int);
    let (x2, y2, row) = shelf(cells, cells.len() as int);
    lemma_doubled_up(1, y2 + row + 1);
    assert(place(cells, i).0 >= 0);
}

/// Each pixel of a letter stands in the picture.
pub proof fn law_letters_are_kept(cells: Seq<Cell>, i: int, x: int, y: int)
    requires
        can_pack(cells),
        0 <= i < cells.len(),
        covers(cells, i, x, y),
    ensures
        coverage(cells, cells.len() as int, x, y) == cells[i].bitmap@[(y - place(cells, i).1)
            * cells[i].width + (x - place(cells, i).0)],
{
    lemma_kept(cells, i, cells.len() as int, x, y);
}

proof fn lemma_kept(cells: Seq<Cell>, i: int, n: int, x: int, y: int)
    requires
        can_pack(cells),
        0 <= i < n <= cells.len(),
        covers(cells, i, x, y),
    ensures
        coverage(cells, n, x, y) == cells[i].bitmap@[(y - place(cells, i).1) * cells[i].width + (x
            - place(cells, i).0)],
    decreases n,
{
    if n - 1 > i {
        law_letters_do_not_overlap(cells, i, n - 1, x, y);
        lemma_kept(cells, i, n - 1, x, y);
    }
}

proof fn lemma_doubled_up(from: int, to: int)
    requires
        0 < from,
    ensures
        to <= doubled_up(from, to),
        from <= doubled_up(from, to),
        doubled_up(from, to) < 2 * to || doubled_up(from, to) == from,
    decreases greater(to - from, 0),
{
    if from < to {
        lemma_doubled_up(2 * from, to);
    }
}

fn lay_shelves(cells: &[Cell]) -> (r: (Vec<(usize, usize)>, usize))
    requires
        can_pack(cells@),
    ensures
        r.0@.len() == cells@.len(),
        forall|i: int|
            0 <= i < cells@.len() ==> ((#[trigger] r.0@[i]).0 as int, r.0@[i].1 as int) == place(
                cells@,
                i,
            ),
        r.1 == atlas_height(cells@),
        r.1 <= 1_000_000,
{
    let mut x: usize = 0;
    let mut y: usize = 0;
    let mut row: usize = 0;
    let mut places: Vec<(usize, usize)> = Vec::new();
    let mut i: usize = 0;
    while i < cells.len()
        invariant
            i <= cells@.len(),
            can_pack(cells@),
            (x as int, y as int, row as int) == shelf(cells@, i as int),
            places@.len() == i,
            forall|k: int|
                0 <= k < i ==> ((#[trigger] places@[k]).0 as int, places@[k].1 as int) == place(
                    cells@,
                    k,
                ),
        decreases cells@.len() - i,
    {
        proof {
            lemma_shelf(cells@, i as int);
            assert(i * (CELL_LIMIT + 1) <= 128 * 2049) by (nonlinear_arith)
                requires
                    0 <= i <= 128,
            ;
        }
        let c: &Cell = &cells[i];
        assert(c.width <= CELL_LIMIT && c.height <= CELL_LIMIT);
        if x + c.width + 1 > ATLAS_W {
            x = 0;
            y = y + row + 1;
            row = 0;
        }
        places.push((x, y));
        x = x + c.width + 1;
        if c.height > row {
            row = c.height;
        }
        i = i + 1;
    }
    proof {
        lemma_shelf(cells@, i as int);
        assert(i * (CELL_LIMIT + 1) <= 128 * 2049) by (nonlinear_arith)
            requires
                0 <= i <= 128,
        ;
        lemma_doubled_up(1, y + row + 1);
    }
    let used: usize = y + row + 1;
    let mut height: usize = 1;
    while height < used
        invariant
            0 < height,
            used <= 400_000,
            height == 1 || height < 2 * used,
            doubled_up(1, used as int) == doubled_up(height as int, used as int),
        decreases greater(used - height, 0),
    {
        height = 2 * height;
    }
    (places, height)
}

proof fn lemma_pixel(x: int, y: int)
    requires
        0 <= x < ATLAS_W,
        0 <= y,
    ensures
        (y * ATLAS_W + x) % (ATLAS_W as int) == x,
        (y * ATLAS_W + x) / (ATLAS_W as int) == y,
{
    vstd::arithmetic::div_mod::lemma_fundamental_div_mod_converse(
        y * ATLAS_W + x,
        ATLAS_W as int,
        y,
        x,
    );
}

/// Writes one letter into the picture.
fn stamp(pixels: &mut Vec<u8>, cells: &[Cell], i: usize, at: (usize, usize), height: usize)
    requires
        can_pack(cells@),
        i < cells@.len(),
        (at.0 as int, at.1 as int) == place(cells@, i as int),
        height == atlas_height(cells@),
        height <= 1_000_000,
        old(pixels)@ == picture(cells@, i as int, height as int),
    ensures
        final(pixels)@ == picture(cells@, i + 1, height as int),
{
    proof {
        lemma_shelf(cells@, cells@.len() as int);
        let (x2, y2, row2) = shelf(cells@, cells@.len() as int);
        lemma_doubled_up(1, y2 + row2 + 1);
        assert(place(cells@, i as int).0 >= 0);
    }
    let c: &Cell = &cells[i];
    let (px, py) = at;
    let w: usize = c.width;
    let h: usize = c.height;
    let ghost before = pixels@;
    assert(px + w <= ATLAS_W);
    assert(py + h <= height);
    let mut row: usize = 0;
    while row < h
        invariant
            row <= h,
            i < cells@.len(),
            *c == cells@[i as int],
            w == c.width,
            h == c.height,
            w <= CELL_LIMIT,
            h <= CELL_LIMIT,
            c.bitmap@.len() == w * h,
            px + w <= ATLAS_W,
            py + h <= height <= 1_000_000,
            (px as int, py as int) == place(cells@, i as int),
            before == picture(cells@, i as int, height as int),
            pixels@.len() == ATLAS_W * height,
            forall|p: int|
                0 <= p < pixels@.len() ==> #[trigger] pixels@[p] == (if covers(
                    cells@,
                    i as int,
                    p % (ATLAS_W as int),
                    p / (ATLAS_W as int),
                ) && p / (ATLAS_W as int) < py + row {
                    coverage(cells@, i + 1, p % (ATLAS_W as int), p / (ATLAS_W as int))
                } else {
                    before[p]
                }),
        decreases h - row,
    {
        let mut col: usize = 0;
        assert(row * w + w <= w * h) by (nonlinear_arith)
            requires
                row + 1 <= h,
                0 <= w,
        ;
        assert((py + row) * ATLAS_W + ATLAS_W <= ATLAS_W * height) by (nonlinear_arith)
            requires
                py + row + 1 <= height,
                ATLAS_W >= 0,
        ;
        assert(w * h <= 2048 * 2048) by (nonlinear_arith)
            requires
                w <= 2048,
                h <= 2048,
        ;
        while col < w
            invariant
                row < h,
                col <= w,
                i < cells@.len(),
                *c == cells@[i as int],
                w == c.width,
                h == c.height,
                w <= CELL_LIMIT,
                h <= CELL_LIMIT,
                c.bitmap@.len() == w * h,
                w * h <= 2048 * 2048,
                row * w + w <= w * h,
                px + w <= ATLAS_W,
                py + h <= height <= 1_000_000,
                (py + row) * ATLAS_W + ATLAS_W <= ATLAS_W * height,
                ATLAS_W * height <= 2_048_000_000,
                (px as int, py as int) == place(cells@, i as int),
                before == picture(cells@, i as int, height as int),
                pixels@.len() == ATLAS_W * height,
                forall|p: int|
                    0 <= p < pixels@.len() ==> #[trigger] pixels@[p] == (if covers(
                        cells@,
                        i as int,
                        p % (ATLAS_W as int),
                        p / (ATLAS_W as int),
                    ) && (p / (ATLAS_W as int) < py + row || (p / (ATLAS_W as int) == py + row
                        && p % (ATLAS_W as int) < px + col)) {
                        coverage(cells@, i + 1, p % (ATLAS_W as int), p / (ATLAS_W as int))
                    } else {
                        before[p]
                    }),
            decreases w - col,
        {
            let to: usize = (py + row) * ATLAS_W + (px + col);
            let ghost held = pixels@;
            proof {
                lemma_pixel(px + col, py + row);
                assert forall|p: int|
                    #![trigger held[p]]
                    0 <= p < held.len() && p != to implies !(p / (ATLAS_W as int) == py + row && p
                    % (ATLAS_W as int) == px + col) by {
                    vstd::arithmetic::div_mod::lemma_fundamental_div_mod(p, ATLAS_W as int);
                    assert((ATLAS_W as int) * (p / (ATLAS_W as int)) == (p / (ATLAS_W as int))
                        * ATLAS_W) by (nonlinear_arith);
                }
            }
            let v: u8 = c.bitmap[row * w + col];
            pixels.set(to, v);
            assert(covers(cells@, i as int, px + col, py + row));
            assert(coverage(cells@, i + 1, px + col, py + row) == v);
            col = col + 1;
        }
        row = row + 1;
    }
    assert forall|p: int| 0 <= p < pixels@.len() implies #[trigger] pixels@[p] == picture(
        cells@,
        i + 1,
        height as int,
    )[p] by {
        let x = p % (ATLAS_W as int);
        let y = p / (ATLAS_W as int);
        assert(before[p] == coverage(cells@, i as int, x, y));
    }
    assert(pixels@ =~= picture(cells@, i + 1, height as int));
}

fn zeros(n: usize) -> (v: Vec<u8>)
    ensures
        v@.len() == n,
        forall|i: int| 0 <= i < n ==> v@[i] == 0,
{
    let mut v: Vec<u8> = Vec::new();
    let mut i: usize = 0;
    while i < n
        invariant
            i <= n,
            v@.len() == i,
            forall|k: int| 0 <= k < i ==> v@[k] == 0,
        decreases n - i,
    {
        v.push(0);
        i = i + 1;
    }
    v
}

impl FontAtlas {
    /// Packs letters on shelves, one below the other, into one picture.
    pub fn pack(cells: &[Cell]) -> (a: FontAtlas)
        requires
            can_pack(cells@),
        ensures
            is_packed(a, cells@),
    {
        let (places, height) = lay_shelves(cells);
        let mut pixels: Vec<u8> = zeros(ATLAS_W * height);
        assert(pixels@ =~= picture(cells@, 0, height as int));
        let mut glyphs: Vec<Option<Glyph>> = Vec::new();
        let mut k: usize = 0;
        while k < 128
            invariant
                k <= 128,
                glyphs@.len() == k,
                forall|c: int| 0 <= c < k ==> #[trigger] glyphs@[c] == None::<Glyph>,
            decreases 128 - k,
        {
            glyphs.push(None);
            k = k + 1;
        }
        assert(glyphs@ =~= Seq::new(128, |c: int| glyph_for(cells@, 0, c)));
        let mut i: usize = 0;
        while i < cells.len()
            invariant
                i <= cells@.len(),
                can_pack(cells@),
                places@.len() == cells@.len(),
                forall|k: int|
                    0 <= k < cells@.len() ==> ((#[trigger] places@[k]).0 as int, places@[k].1 as int)
                        == place(cells@, k),
                height == atlas_height(cells@),
                height <= 1_000_000,
                pixels@ == picture(cells@, i as int, height as int),
                glyphs@ == Seq::new(128, |c: int| glyph_for(cells@, i as int, c)),
            decreases cells@.len() - i,
        {
            stamp(&mut pixels, cells, i, places[i], height);
            let c: &Cell = &cells[i];
            let g: Glyph = Glyph {
                ax: places[i].0,
                ay: places[i].1,
                aw: c.width,
                ah: c.height,
                xmin: c.xmin,
                ymin: c.ymin,
                advance: c.advance,
            };
            assert(g == glyph_of(cells@, i as int));
            assert(c.code < 128);
            glyphs.set(c.code as usize, Some(g));
            i = i + 1;
            assert(glyphs@ =~= Seq::new(128, |c: int| glyph_for(cells@, i as int, c)));
        }
        FontAtlas { width: ATLAS_W, height, pixels, glyphs }
    }

    /// The letter for a character.
    pub open spec fn letter(self, c: char) -> Option<Glyph> {
        if 0 <= c as int && (c as int) < self.glyphs@.len() {
            self.glyphs@[c as int]
        } else {
            None
        }
    }

    /// The letter for a character; none for one that the font lacks.
    pub fn glyph(&self, c: char) -> (g: Option<Glyph>)
        ensures
            g == self.letter(c),
    {
        let i: usize = c as u32 as usize;
        if i < self.glyphs.len() {
            self.glyphs[i]
        } else {
            None
        }
    }

    /// How far the pen moves over the first `n` characters at the base size, in millionths of a
    /// pixel.
    pub open spec fn pen(self, text: Seq<char>, n: int) -> int
        decreases n,
    {
        if n <= 0 {
            0
        } else {
            self.pen(text, n - 1) + match self.letter(text[n - 1]) {
                Some(g) => g.advance as int,
                None => 0,
            }
        }
    }

    /// The width of a text at a size.
    pub open spec fn width_of(self, text: Seq<char>, px: int) -> int {
        nearest(self.pen(text, text.len() as int) * px, 96_000_000)
    }
}

/// The largest size and coordinate that text is laid out for.
pub const TEXT_LIMIT: i128 = 1_000_000_000_000_000_000_000;

/// Whether the letters of an atlas are small enough to lay text out with.
pub open spec fn can_set(a: FontAtlas) -> bool {
    forall|i: int| 0 <= i < a.glyphs@.len() ==> is_small(#[trigger] a.glyphs@[i])
}

/// Whether a letter is small enough to lay text out with.
pub open spec fn is_small(g: Option<Glyph>) -> bool {
    match g {
        Some(g) => magnitude(g.advance as int) <= 1_000_000_000 && g.aw <= 1_000_000 && g.ah
            <= 1_000_000,
        None => true,
    }
}

/// Whether a text is short enough to lay out.
pub open spec fn is_line(text: Seq<char>) -> bool {
    text.len() <= 1_000_000
}

/// Whether letters can be packed.
pub fn packs(cells: &[Cell]) -> (r: bool)
    ensures
        r == can_pack(cells@),
{
    if cells.len() > 128 {
        return false;
    }
    let mut i: usize = 0;
    while i < cells.len()
        invariant
            i <= cells@.len() <= 128,
            forall|k: int|
                0 <= k < i ==> {
                    &&& (#[trigger] cells@[k]).code < 128
                    &&& cells@[k].width <= CELL_LIMIT
                    &&& cells@[k].height <= CELL_LIMIT
                    &&& cells@[k].bitmap@.len() == cells@[k].width * cells@[k].height
                },
        decreases cells@.len() - i,
    {
        let c: &Cell = &cells[i];
        if c.code >= 128 || c.width > CELL_LIMIT || c.height > CELL_LIMIT {
            return false;
        }
        assert(c.width * c.height <= 2048 * 2048) by (nonlinear_arith)
            requires
                c.width <= 2048,
                c.height <= 2048,
        ;
        if c.bitmap.len() != c.width * c.height {
            return false;
        }
        i = i + 1;
    }
    true
}

impl FontAtlas {
    /// Whether the letters are small enough to lay text out with.
    pub fn sets(&self) -> (r: bool)
        ensures
            r == can_set(*self),
    {
        let mut i: usize = 0;
        while i < self.glyphs.len()
            invariant
                i <= self.glyphs@.len(),
                forall|k: int| 0 <= k < i ==> is_small(#[trigger] self.glyphs@[k]),
            decreases self.glyphs@.len() - i,
        {
            if let Some(g) = self.glyphs[i] {
                if g.advance < -1_000_000_000 || g.advance > 1_000_000_000 || g.aw > 1_000_000
                    || g.ah > 1_000_000 {
                    assert(!is_small(self.glyphs@[i as int]));
                    return false;
                }
            }
            i = i + 1;
        }
        true
    }
}

/// A letter on the screen: its place in millionths of a pixel, and its part of the picture.
#[derive(Debug, Clone, Copy, PartialEq, Eq, Structural)]
pub struct Quad {
    pub x: i128,
    pub y: i128,
    pub w: i128,
    pub h: i128,
    pub glyph: Glyph,
}

/// Where text starts.
pub open spec fn start_of(a: FontAtlas, text: Seq<char>, x: int, px: int, align: Align) -> int {
    match align {
        Align::Left => x,
        Align::Center => x - nearest(a.width_of(text, px), 2),
        Align::Right => x - a.width_of(text, px),
    }
}

/// A letter with the pen at a place.
pub open spec fn set_letter(g: Glyph, pen: int, y: int, px: int) -> Quad {
    Quad {
        x: (pen + nearest(g.xmin * px, 96)) as i128,
        y: (y - nearest((g.ymin + g.ah) * px, 96)) as i128,
        w: nearest(g.aw * px, 96) as i128,
        h: nearest(g.ah * px, 96) as i128,
        glyph: g,
    }
}

/// The letters of the first `n` characters, without those that show nothing.
pub open spec fn set_letters(
    a: FontAtlas,
    text: Seq<char>,
    n: int,
    start: int,
    y: int,
    px: int,
) -> Seq<Quad>
    decreases n,
{
    if n <= 0 {
        Seq::empty()
    } else {
        let before = set_letters(a, text, n - 1, start, y, px);
        match a.letter(text[n - 1]) {
            Some(g) => if g.aw > 0 && g.ah > 0 {
                before.push(
                    set_letter(g, start + nearest(a.pen(text, n - 1) * px, 96_000_000), y, px),
                )
            } else {
                before
            },
            None => before,
        }
    }
}

/// The size that makes a text fit into a width: its own where it fits, or where no width is set.
pub open spec fn fitting(a: FontAtlas, text: Seq<char>, px: int, widest: int) -> int {
    let own = a.width_of(text, px);
    if widest == 0 || own <= widest {
        px
    } else {
        nearest(px * widest, own)
    }
}

proof fn lemma_pen(a: FontAtlas, text: Seq<char>, n: int)
    requires
        can_set(a),
        0 <= n <= text.len(),
    ensures
        magnitude(a.pen(text, n)) <= n * 1_000_000_000,
    decreases n,
{
    if n > 0 {
        lemma_pen(a, text, n - 1);
        assert(is_small(a.letter(text[n - 1])));
    }
}

fn scale_up(v: i128, px: i128, den: i128) -> (r: i128)
    requires
        magnitude(v as int) <= 1_000_000_000_000_000,
        magnitude(px as int) <= TEXT_LIMIT,
        0 < den <= 96_000_000,
    ensures
        r == nearest(v * px, den as int),
        magnitude(r as int) <= 1_000_000_000_000_000_000_000_000_000_000_000_000,
{
    assert(magnitude(v * px) <= 1_000_000_000_000_000_000_000_000_000_000_000_000)
        by (nonlinear_arith)
        requires
            -1_000_000_000_000_000 <= v <= 1_000_000_000_000_000,
            -1_000_000_000_000_000_000_000 <= px <= 1_000_000_000_000_000_000_000,
    ;
    div_nearest(v * px, den)
}

impl FontAtlas {
    fn pen_end(&self, chars: &[char]) -> (r: i128)
        requires
            can_set(*self),
            is_line(chars@),
        ensures
            r == self.pen(chars@, chars@.len() as int),
            magnitude(r as int) <= 1_000_000_000_000_000,
    {
        let mut sum: i128 = 0;
        let mut i: usize = 0;
        while i < chars.len()
            invariant
                i <= chars@.len() <= 1_000_000,
                can_set(*self),
                sum == self.pen(chars@, i as int),
                magnitude(sum as int) <= i * 1_000_000_000,
            decreases chars@.len() - i,
        {
            proof {
                lemma_pen(*self, chars@, i as int);
                lemma_pen(*self, chars@, i + 1);
            }
            if let Some(g) = self.glyph(chars[i]) {
                sum = sum + g.advance as i128;
            }
            i = i + 1;
        }
        sum
    }

    /// The width of a text at a size, in millionths of a pixel.
    pub fn measure(&self, text: &str, px: i128) -> (w: i128)
        requires
            can_set(*self),
            is_line(text@),
            magnitude(px as int) <= TEXT_LIMIT,
        ensures
            w == self.width_of(text@, px as int),
            magnitude(w as int) <= 1_000_000_000_000_000_000_000_000_000_000_000_000,
    {
        let chars: Vec<char> = chars_of(text);
        scale_up(self.pen_end(chars.as_slice()), px, 96_000_000)
    }

    /// Lays text out on a baseline, anchored at a place.
    pub fn set_text(&self, text: &str, x: i128, y: i128, px: i128, align: Align) -> (quads: Vec<Quad>)
        requires
            can_set(*self),
            is_line(text@),
            magnitude(px as int) <= TEXT_LIMIT,
            magnitude(x as int) <= 1_000_000_000_000_000_000_000_000_000_000_000_000,
            magnitude(y as int) <= 1_000_000_000_000_000_000_000_000_000_000_000_000,
        ensures
            quads@ == set_letters(
                *self,
                text@,
                text@.len() as int,
                start_of(*self, text@, x as int, px as int, align),
                y as int,
                px as int,
            ),
    {
        let chars: Vec<char> = chars_of(text);
        let start: i128 = match align {
            Align::Left => x,
            Align::Center => x - div_nearest(self.measure(text, px), 2),
            Align::Right => x - self.measure(text, px),
        };
        let mut quads: Vec<Quad> = Vec::new();
        let mut sum: i128 = 0;
        let mut i: usize = 0;
        while i < chars.len()
            invariant
                i <= chars@.len() <= 1_000_000,
                chars@ == text@,
                can_set(*self),
                sum == self.pen(text@, i as int),
                magnitude(px as int) <= TEXT_LIMIT,
                magnitude(start as int) <= 2_000_000_000_000_000_000_000_000_000_000_000_000,
                magnitude(y as int) <= 1_000_000_000_000_000_000_000_000_000_000_000_000,
                quads@ == set_letters(*self, text@, i as int, start as int, y as int, px as int),
            decreases chars@.len() - i,
        {
            proof {
                lemma_pen(*self, text@, i as int);
                lemma_pen(*self, text@, i + 1);
                assert(is_small(self.letter(text@[i as int])));
            }
            if let Some(g) = self.glyph(chars[i]) {
                if g.aw > 0 && g.ah > 0 {
                    let pen: i128 = start + scale_up(sum, px, 96_000_000);
                    quads.push(
                        Quad {
                            x: pen + scale_up(g.xmin as i128, px, 96),
                            y: y - scale_up(g.ymin as i128 + g.ah as i128, px, 96),
                            w: scale_up(g.aw as i128, px, 96),
                            h: scale_up(g.ah as i128, px, 96),
                            glyph: g,
                        },
                    );
                }
                sum = sum + g.advance as i128;
            }
            i = i + 1;
        }
        quads
    }

    /// The size that makes a text fit into a width; 0 sets no width.
    pub fn fit(&self, text: &str, px: i128, widest: i128) -> (r: i128)
        requires
            can_set(*self),
            is_line(text@),
            0 <= px <= 1_000_000_000_000_000_000,
            0 <= widest <= 1_000_000_000_000_000_000,
        ensures
            r == fitting(*self, text@, px as int, widest as int),
    {
        let own: i128 = self.measure(text, px);
        if widest == 0 || own <= widest {
            return px;
        }
        assert(0 <= px * widest <= 1_000_000_000_000_000_000_000_000_000_000_000_000)
            by (nonlinear_arith)
            requires
                0 <= px <= 1_000_000_000_000_000_000,
                0 <= widest <= 1_000_000_000_000_000_000,
        ;
        div_nearest(px * widest, own)
    }
}

/// The leader between a label and its value: from behind the one to before the other.
pub open spec fn leader(
    a: FontAtlas,
    label: Seq<char>,
    label_x: int,
    value: Seq<char>,
    value_x: int,
    px: int,
    gap: int,
) -> (int, int) {
    (label_x + a.width_of(label, px) + gap, value_x - a.width_of(value, px) - gap)
}

/// The leader between a label on the left and its value on the right, where there is room.
pub fn leader_span(
    a: &FontAtlas,
    label: &str,
    label_x: i128,
    value: &str,
    value_x: i128,
    px: i128,
    gap: i128,
) -> (r: Option<(i128, i128)>)
    requires
        can_set(*a),
        is_line(label@),
        is_line(value@),
        magnitude(px as int) <= TEXT_LIMIT,
        magnitude(gap as int) <= TEXT_LIMIT,
        magnitude(label_x as int) <= TEXT_LIMIT,
        magnitude(value_x as int) <= TEXT_LIMIT,
    ensures
        ({
            let (from, to) = leader(
                *a,
                label@,
                label_x as int,
                value@,
                value_x as int,
                px as int,
                gap as int,
            );
            match r {
                Some(s) => from < to && (s.0 as int, s.1 as int) == (from, to),
                None => to <= from,
            }
        }),
{
    let from: i128 = label_x + a.measure(label, px) + gap;
    let to: i128 = value_x - a.measure(value, px) - gap;
    if to > from {
        Some((from, to))
    } else {
        None
    }
}

/// The last piece of text among operations.
pub open spec fn last_text(ops: Seq<Op>) -> Option<int>
    decreases ops.len(),
{
    if ops.len() == 0 {
        None
    } else if ops.last().shape is Text {
        Some(ops.len() - 1)
    } else {
        last_text(ops.drop_last())
    }
}

fn find_text(ops: &[Op], end: usize) -> (at: Option<usize>)
    requires
        end <= ops@.len(),
    ensures
        match at {
            Some(i) => i < end && last_text(ops@.take(end as int)) == Some(i as int)
                && ops@[i as int].shape is Text,
            None => last_text(ops@.take(end as int)) is None,
        },
{
    let mut i: usize = end;
    while i > 0
        invariant
            i <= end <= ops@.len(),
            last_text(ops@.take(end as int)) == last_text(ops@.take(i as int)),
        decreases i,
    {
        let is_text: bool = match ops[i - 1].shape {
            Shape::Text { .. } => true,
            _ => false,
        };
        assert(ops@.take(i as int).drop_last() =~= ops@.take(i - 1));
        i = i - 1;
        if is_text {
            return Some(i);
        }
    }
    None
}

/// Whether a number lies where text can be set.
pub open spec fn is_near(v: i128) -> bool {
    magnitude(v as int) <= TEXT_LIMIT
}

fn near(v: i128) -> (r: bool)
    ensures
        r == is_near(v),
{
    -TEXT_LIMIT <= v && v <= TEXT_LIMIT
}

/// The label and the value that a leader joins: the last two pieces of text before it, where they
/// can be set.
pub open spec fn joined(before: Seq<Op>, gap: i128) -> Option<(int, int)> {
    match last_text(before) {
        Some(v) => match last_text(before.take(v)) {
            Some(l) => match (before[l].shape, before[v].shape) {
                (Shape::Text { x: label_x, .. }, Shape::Text { x: value_x, px, .. }) => if is_line(
                    before[l].text@,
                ) && is_line(before[v].text@) && is_near(label_x) && is_near(value_x) && is_near(px)
                    && is_near(gap) {
                    Some((l, v))
                } else {
                    None
                },
                _ => None,
            },
            None => None,
        },
        None => None,
    }
}

/// The place of a piece of text.
pub open spec fn text_x(op: Op) -> int {
    match op.shape {
        Shape::Text { x, .. } => x as int,
        _ => 0,
    }
}

/// The size of a piece of text.
pub open spec fn text_px(op: Op) -> int {
    match op.shape {
        Shape::Text { px, .. } => px as int,
        _ => 0,
    }
}

/// Between which places a leader runs: from behind the last label to before the last value, both
/// at the size of the value, where there is room.
pub fn leader_ends(a: &FontAtlas, before: &[Op], gap: i128) -> (r: Option<(i128, i128)>)
    requires
        can_set(*a),
    ensures
        match joined(before@, gap) {
            Some((l, v)) => ({
                let (from, to) = leader(
                    *a,
                    before@[l].text@,
                    text_x(before@[l]),
                    before@[v].text@,
                    text_x(before@[v]),
                    text_px(before@[v]),
                    gap as int,
                );
                match r {
                    Some(s) => from < to && (s.0 as int, s.1 as int) == (from, to),
                    None => to <= from,
                }
            }),
            None => r is None,
        },
{
    assert(before@.take(before@.len() as int) =~= before@);
    let v: usize = match find_text(before, before.len()) {
        Some(v) => v,
        None => {
            return None;
        },
    };
    let l: usize = match find_text(before, v) {
        Some(l) => l,
        None => {
            return None;
        },
    };
    let (value_x, px): (i128, i128) = match before[v].shape {
        Shape::Text { x, px, .. } => (x, px),
        _ => (0, 0),
    };
    let label_x: i128 = match before[l].shape {
        Shape::Text { x, .. } => x,
        _ => 0,
    };
    let label: &str = before[l].text.as_str();
    let value: &str = before[v].text.as_str();
    if chars_of(label).len() > 1_000_000 || chars_of(value).len() > 1_000_000 || !near(label_x)
        || !near(value_x) || !near(px) || !near(gap) {
        return None;
    }
    leader_span(a, label, label_x, value, value_x, px, gap)
}

/// The size of the number inside a ring: shrunk to stay clear of the ring.
pub open spec fn ring_px(a: FontAtlas, text: Seq<char>, radius: int) -> int {
    fitting(a, text, nearest(radius * 55, 100), nearest(radius * 13, 10))
}

/// The size and the baseline of the number inside a ring whose middle is at a height.
pub fn ring_label(a: &FontAtlas, text: &str, radius: i128, y: i128) -> (r: (i128, i128))
    requires
        can_set(*a),
        is_line(text@),
        0 <= radius <= 700_000_000_000_000_000,
        is_near(y),
    ensures
        r.0 == ring_px(*a, text@, radius as int),
        r.1 == y + nearest(r.0 * 36, 100),
{
    let size: i128 = div_nearest(radius * 55, 100);
    let widest: i128 = div_nearest(radius * 13, 10);
    assert(size == (2 * (radius * 55) + 100) / 200);
    assert(widest == (2 * (radius * 13) + 10) / 20);
    let px: i128 = a.fit(text, size, widest);
    proof {
        let own = a.width_of(text@, size as int);
        assert(0 <= size * widest <= 400_000_000_000_000_000_000_000_000_000_000_000)
            by (nonlinear_arith)
            requires
                0 <= size <= 400_000_000_000_000_000,
                0 <= widest <= 1_000_000_000_000_000_000,
        ;
        if widest != 0 && own > widest {
            crate::fixed::lemma_nearest_bound(size * widest, own);
        }
    }
    (px, y + div_nearest(px * 36, 100))
}

/// The width of the dots of a ranked speed.
pub open spec fn marks_width(steps: int, up: bool, dot: int) -> int {
    if up {
        steps * nearest(dot * 18, 10) + dot
    } else {
        steps * nearest(dot * 22, 10)
    }
}

/// The size of the dots beside a speed of a size.
pub open spec fn dot_size(px: int) -> int {
    greater(nearest(px * 16, 100), 1_500_000)
}

/// The dots of step `i`: three in the shape of a bracket above the map's own speed, one below.
pub open spec fn step_ops(
    steps: int,
    up: bool,
    i: int,
    x: int,
    mid: int,
    dot: int,
    alpha: i128,
) -> Seq<(Shape, Seq<char>)> {
    let ink = Paint { color: dot_of(steps - 1 - i), alpha };
    if up {
        let stride = nearest(dot * 18, 10);
        let mx = x + i * stride;
        seq![
            rect_at(mx, mid, dot, dot, ink),
            rect_at(mx + stride, mid - stride, dot, dot, ink),
            rect_at(mx + stride, mid + stride, dot, dot, ink),
        ]
    } else {
        seq![rect_at(x + i * nearest(dot * 22, 10), mid, dot, dot, ink)]
    }
}

/// The dots of the first `n` steps.
pub open spec fn steps_ops(
    steps: int,
    up: bool,
    n: int,
    x: int,
    mid: int,
    dot: int,
    alpha: i128,
) -> Seq<(Shape, Seq<char>)>
    decreases n,
{
    if n <= 0 {
        Seq::empty()
    } else {
        steps_ops(steps, up, n - 1, x, mid, dot, alpha) + step_ops(
            steps,
            up,
            n - 1,
            x,
            mid,
            dot,
            alpha,
        )
    }
}

/// The sign of a ranked speed.
pub open spec fn sign_of(up: bool) -> Seq<char> {
    if up {
        "+"@
    } else {
        "-"@
    }
}

/// A ranked speed: the letter S, a mark per step, and the sign, centred.
pub open spec fn ranked_ops(
    a: FontAtlas,
    steps: int,
    up: bool,
    cx: int,
    y: int,
    px: int,
    paint: Paint,
) -> Seq<(Shape, Seq<char>)> {
    let dot = dot_size(px);
    let gap = nearest(px, 10);
    let marks = marks_width(steps, up, dot);
    let letter = a.width_of("S"@, px);
    let x = cx - nearest(letter + gap + marks + a.width_of(sign_of(up), px), 2);
    seq![words_at("S"@, x, y, px, Align::Left, paint)] + steps_ops(
        steps,
        up,
        steps,
        x + letter + gap,
        y - nearest(px * 3, 10),
        dot,
        paint.alpha,
    ) + seq![words_at(sign_of(up), x + letter + gap + marks, y, px, Align::Left, paint)]
}

fn push_step(
    ops: &mut Vec<Op>,
    steps: u8,
    up: bool,
    i: u8,
    x: i128,
    mid: i128,
    dot: i128,
    alpha: i128,
)
    requires
        i < steps <= 3,
        magnitude(x as int) <= 10_000_000_000_000_000_000_000_000_000_000_000_000,
        magnitude(mid as int) <= 10_000_000_000_000_000_000_000_000_000_000_000_000,
        0 <= dot <= 10_000_000_000_000_000_000_000_000_000,
    ensures
        drawn(final(ops)@) == drawn(old(ops)@) + step_ops(
            steps as int,
            up,
            i as int,
            x as int,
            mid as int,
            dot as int,
            alpha,
        ),
{
    let ink: Paint = Paint { color: dot_color(steps, i), alpha };
    if up {
        let stride: i128 = div_nearest(dot * 18, 10);
        assert(magnitude(i * stride) <= 3 * 180_000_000_000_000_000_000_000_000_000)
            by (nonlinear_arith)
            requires
                0 <= i <= 3,
                -180_000_000_000_000_000_000_000_000_000 <= stride
                    <= 180_000_000_000_000_000_000_000_000_000,
        ;
        let mx: i128 = x + i as i128 * stride;
        fill_rect(ops, mx, mid, dot, dot, ink);
        fill_rect(ops, mx + stride, mid - stride, dot, dot, ink);
        fill_rect(ops, mx + stride, mid + stride, dot, dot, ink);
    } else {
        let stride: i128 = div_nearest(dot * 22, 10);
        assert(magnitude(i * stride) <= 3 * 220_000_000_000_000_000_000_000_000_000)
            by (nonlinear_arith)
            requires
                0 <= i <= 3,
                -220_000_000_000_000_000_000_000_000_000 <= stride
                    <= 220_000_000_000_000_000_000_000_000_000,
        ;
        fill_rect(ops, x + i as i128 * stride, mid, dot, dot, ink);
    }
    assert(drawn(ops@) =~= drawn(old(ops)@) + step_ops(
        steps as int,
        up,
        i as int,
        x as int,
        mid as int,
        dot as int,
        alpha,
    ));
}

fn push_steps(
    ops: &mut Vec<Op>,
    steps: u8,
    up: bool,
    x: i128,
    mid: i128,
    dot: i128,
    alpha: i128,
)
    requires
        steps <= 3,
        magnitude(x as int) <= 10_000_000_000_000_000_000_000_000_000_000_000_000,
        magnitude(mid as int) <= 10_000_000_000_000_000_000_000_000_000_000_000_000,
        0 <= dot <= 10_000_000_000_000_000_000_000_000_000,
    ensures
        drawn(final(ops)@) == drawn(old(ops)@) + steps_ops(
            steps as int,
            up,
            steps as int,
            x as int,
            mid as int,
            dot as int,
            alpha,
        ),
{
    let ghost begun = drawn(ops@);
    let mut i: u8 = 0;
    assert(drawn(ops@) =~= begun + steps_ops(
        steps as int,
        up,
        0,
        x as int,
        mid as int,
        dot as int,
        alpha,
    ));
    while i < steps
        invariant
            i <= steps <= 3,
            magnitude(x as int) <= 10_000_000_000_000_000_000_000_000_000_000_000_000,
            magnitude(mid as int) <= 10_000_000_000_000_000_000_000_000_000_000_000_000,
            0 <= dot <= 10_000_000_000_000_000_000_000_000_000,
            drawn(ops@) == begun + steps_ops(
                steps as int,
                up,
                i as int,
                x as int,
                mid as int,
                dot as int,
                alpha,
            ),
        decreases steps - i,
    {
        push_step(ops, steps, up, i, x, mid, dot, alpha);
        assert(drawn(ops@) =~= begun + steps_ops(
            steps as int,
            up,
            i + 1,
            x as int,
            mid as int,
            dot as int,
            alpha,
        ));
        i = i + 1;
    }
}

fn dot_for(px: i128) -> (dot: i128)
    requires
        0 <= px <= TEXT_LIMIT,
    ensures
        dot == dot_size(px as int),
        0 <= dot <= 20_000_000_000_000_000_000_000,
{
    let small: i128 = div_nearest(px * 16, 100);
    if small > 1_500_000 {
        small
    } else {
        1_500_000
    }
}

fn width_of_marks(steps: u8, up: bool, dot: i128) -> (w: i128)
    requires
        steps <= 3,
        0 <= dot <= 20_000_000_000_000_000_000_000,
    ensures
        w == marks_width(steps as int, up, dot as int),
        magnitude(w as int) <= 2_000_000_000_000_000_000_000_000,
{
    let stride: i128 = if up {
        div_nearest(dot * 18, 10)
    } else {
        div_nearest(dot * 22, 10)
    };
    assert(magnitude(steps * stride) <= 3 * 500_000_000_000_000_000_000_000) by (nonlinear_arith)
        requires
            0 <= steps <= 3,
            -500_000_000_000_000_000_000_000 <= stride <= 500_000_000_000_000_000_000_000,
    ;
    if up {
        steps as i128 * stride + dot
    } else {
        steps as i128 * stride
    }
}

fn sign_text(up: bool) -> (s: &'static str)
    ensures
        s@ == sign_of(up),
        s@.len() == 1,
{
    proof {
        reveal_strlit("+");
        reveal_strlit("-");
    }
    if up {
        "+"
    } else {
        "-"
    }
}

fn push_ranked(
    ops: &mut Vec<Op>,
    a: &FontAtlas,
    steps: u8,
    up: bool,
    cx: i128,
    y: i128,
    px: i128,
    paint: Paint,
)
    requires
        can_set(*a),
        steps <= 3,
        0 <= px <= TEXT_LIMIT,
        magnitude(cx as int) <= TEXT_LIMIT,
        magnitude(y as int) <= TEXT_LIMIT,
    ensures
        drawn(final(ops)@) == drawn(old(ops)@) + ranked_ops(
            *a,
            steps as int,
            up,
            cx as int,
            y as int,
            px as int,
            paint,
        ),
{
    proof {
        reveal_strlit("S");
    }
    let sign: &str = sign_text(up);
    let dot: i128 = dot_for(px);
    let gap: i128 = div_nearest(px, 10);
    let marks: i128 = width_of_marks(steps, up, dot);
    let letter: i128 = a.measure("S", px);
    let x: i128 = cx - div_nearest(letter + gap + marks + a.measure(sign, px), 2);
    write_text(ops, "S".to_owned(), x, y, px, Align::Left, paint);
    let mid: i128 = y - div_nearest(px * 3, 10);
    push_steps(ops, steps, up, x + letter + gap, mid, dot, paint.alpha);
    write_text(ops, sign.to_owned(), x + letter + gap + marks, y, px, Align::Left, paint);
    assert(drawn(ops@) =~= drawn(old(ops)@) + ranked_ops(
        *a,
        steps as int,
        up,
        cx as int,
        y as int,
        px as int,
        paint,
    ));
}

/// Lays out the mark of a playback speed, centred on a baseline: nothing at the map's own speed.
/// An unranked one is a slashed circle, which is not laid out here.
pub fn speed_label(
    a: &FontAtlas,
    mark: SpeedMark,
    cx: i128,
    y: i128,
    px: i128,
    paint: Paint,
) -> (r: Option<Vec<Op>>)
    requires
        can_set(*a),
        0 <= px <= TEXT_LIMIT,
        magnitude(cx as int) <= TEXT_LIMIT,
        magnitude(y as int) <= TEXT_LIMIT,
        mark matches SpeedMark::Ranked { steps, up } ==> steps <= 3,
    ensures
        match (mark, r) {
            (SpeedMark::Plain, Some(ops)) => drawn(ops@) == Seq::<(Shape, Seq<char>)>::empty(),
            (SpeedMark::Ranked { steps, up }, Some(ops)) => drawn(ops@) == ranked_ops(
                *a,
                steps as int,
                up,
                cx as int,
                y as int,
                px as int,
                paint,
            ),
            (SpeedMark::Unranked, None) => true,
            _ => false,
        },
{
    let mut ops: Vec<Op> = Vec::new();
    assert(drawn(ops@) =~= Seq::empty());
    match mark {
        SpeedMark::Plain => Some(ops),
        SpeedMark::Unranked => None,
        SpeedMark::Ranked { steps, up } => {
            push_ranked(&mut ops, a, steps, up, cx, y, px, paint);
            assert(drawn(ops@) =~= ranked_ops(
                *a,
                steps as int,
                up,
                cx as int,
                y as int,
                px as int,
                paint,
            ));
            Some(ops)
        },
    }
}

/// A text that is shrunk to a width is no wider than its own size made it.
pub proof fn law_fitted_text_is_never_larger(a: FontAtlas, text: Seq<char>, px: int, widest: int)
    requires
        0 <= px,
        0 <= widest,
    ensures
        0 <= fitting(a, text, px, widest) <= px,
{
    let own = a.width_of(text, px);
    if widest != 0 && own > widest {
        assert(0 <= px * widest <= px * own) by (nonlinear_arith)
            requires
                0 <= px,
                0 <= widest < own,
        ;
        let p = px * widest;
        assert(0 <= (2 * p + own) / (2 * own) <= px) by (nonlinear_arith)
            requires
                0 <= p <= px * own,
                own > 0,
                px >= 0,
        {
            assert(2 * p + own < 2 * own * (px + 1)) by (nonlinear_arith)
                requires
                    p <= px * own,
                    own > 0,
            ;
            assert((2 * p + own) / (2 * own) < px + 1) by (nonlinear_arith)
                requires
                    2 * p + own < 2 * own * (px + 1),
                    own > 0,
            ;
            assert((2 * p + own) / (2 * own) >= 0) by (nonlinear_arith)
                requires
                    p >= 0,
                    own > 0,
            ;
        }
    }
}

/// Text that is set from the left starts at its place, text set to the right ends there, and centred
/// text has it in its middle.
pub proof fn law_text_is_aligned(a: FontAtlas, text: Seq<char>, x: int, px: int)
    ensures
        start_of(a, text, x, px, Align::Left) == x,
        start_of(a, text, x, px, Align::Right) + a.width_of(text, px) == x,
        magnitude(
            2 * start_of(a, text, x, px, Align::Center) + a.width_of(text, px) - 2 * x,
        ) <= 1,
{
    law_rounding_is_closest(a.width_of(text, px), 2);
}

/// Letters stand on the line: scaled from the size that the font was drawn at, with their lower edge
/// where the font puts it.
pub proof fn law_letters_scale_with_the_size(g: Glyph, pen: int, y: int)
    requires
        g.aw <= 1_000_000,
        g.ah <= 1_000_000,
        magnitude(pen) <= 1_000_000_000_000,
        magnitude(y) <= 1_000_000_000_000,
    ensures
        ({
            let q = set_letter(g, pen, y, 96);
            &&& q.w == g.aw && q.h == g.ah
            &&& q.x == pen + g.xmin
            &&& y - (q.y + q.h) == g.ymin
        }),
        ({
            let q = set_letter(g, pen, y, 192);
            &&& q.w == 2 * g.aw && q.h == 2 * g.ah
            &&& q.x == pen + 2 * g.xmin
            &&& y - (q.y + q.h) == 2 * g.ymin
        }),
{
    let (w, h) = (g.aw as int, g.ah as int);
    law_rounding_keeps_whole_numbers(w, 0, 96);
    law_rounding_keeps_whole_numbers(h, 0, 96);
    law_rounding_keeps_whole_numbers(g.xmin as int, 0, 96);
    law_rounding_keeps_whole_numbers(g.ymin + g.ah, 0, 96);
    law_rounding_keeps_whole_numbers(2 * w, 0, 96);
    law_rounding_keeps_whole_numbers(2 * h, 0, 96);
    law_rounding_keeps_whole_numbers(2 * g.xmin, 0, 96);
    law_rounding_keeps_whole_numbers(2 * (g.ymin + g.ah), 0, 96);
}

/// An atlas is as high as it has to be and its height a power of two.
pub proof fn law_heights_double(from: int, to: int)
    requires
        from > 0,
    ensures
        doubled_up(from, to) >= to,
        doubled_up(from, to) >= from,
        from < to ==> doubled_up(from, to) < 2 * to,
        doubled_up(from, to) % from == 0,
    decreases greater(to - from, 0),
{
    if from < to {
        law_heights_double(2 * from, to);
        let d = doubled_up(2 * from, to);
        vstd::arithmetic::div_mod::lemma_fundamental_div_mod(d, 2 * from);
        let q = d / (2 * from);
        assert(d == (2 * q) * from) by (nonlinear_arith)
            requires
                d == 2 * from * q,
        ;
        vstd::arithmetic::div_mod::lemma_mod_multiples_basic(2 * q, from);
    } else {
        vstd::arithmetic::div_mod::lemma_mod_self_0(from);
    }
}

} // verus!
