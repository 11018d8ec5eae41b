//! The picture at the end of a run: what lies behind the results, whose numbers stand where, and
//! the icons of the mods.

use vstd::prelude::*;

use crate::blit::{blit_over, blitted, lemma_behind_the_end};
use crate::compose::FRAME_LIMIT;
use crate::config::SkinConfig;
use crate::count::gather;
use crate::fixed::greater;
use crate::mods::{mod_list, mod_names, texts};
use crate::pictures::{
    decode_image_rgba, downscale_icon, has_pixels, icon_side, is_decoded,
    law_pictures_reach_the_target, picture_of, pool_scale, shrunk, Picture,
};
use crate::replay::Replay;
use crate::results::ResultsPart;
use crate::text::same_text;

verus! {

/// What a tile of the picture shows.
#[derive(Debug, Clone, Copy, PartialEq, Eq, Structural)]
pub enum TileKind {
    /// The cover, blurred and dark.
    Blur,
    /// A plain green.
    Green,
    /// The cover.
    Cover,
}

/// A tile of the picture, in millionths of a pixel.
#[derive(Debug, Clone, Copy, PartialEq, Eq, Structural)]
pub struct Tile {
    pub kind: TileKind,
    pub x0: i128,
    pub y0: i128,
    pub x1: i128,
    pub y1: i128,
}

/// What lies behind the results: the blurred cover, and the cover in a green frame.
pub open spec fn tiles_of(w: int, h: int) -> Seq<Tile> {
    let f = greater(h * 4_000, 2_000_000);
    seq![
        Tile {
            kind: TileKind::Blur,
            x0: 0,
            y0: 0,
            x1: (w * 1_000_000) as i128,
            y1: (h * 1_000_000) as i128,
        },
        Tile {
            kind: TileKind::Green,
            x0: (w * 44_000 - f) as i128,
            y0: (h * 62_000 - f) as i128,
            x1: (w * 214_000 + f) as i128,
            y1: (h * 365_000 + f) as i128,
        },
        Tile {
            kind: TileKind::Cover,
            x0: (w * 44_000) as i128,
            y0: (h * 62_000) as i128,
            x1: (w * 214_000) as i128,
            y1: (h * 365_000) as i128,
        },
    ]
}

/// What lies behind the results.
pub fn results_tiles(width: u32, height: u32) -> (tiles: Vec<Tile>)
    ensures
        tiles@ == tiles_of(width as int, height as int),
{
    let w: i128 = width as i128;
    let h: i128 = height as i128;
    let f: i128 = if h * 4_000 > 2_000_000 {
        h * 4_000
    } else {
        2_000_000
    };
    let mut tiles: Vec<Tile> = Vec::new();
    tiles.push(
        Tile { kind: TileKind::Blur, x0: 0, y0: 0, x1: w * 1_000_000, y1: h * 1_000_000 },
    );
    tiles.push(
        Tile {
            kind: TileKind::Green,
            x0: w * 44_000 - f,
            y0: h * 62_000 - f,
            x1: w * 214_000 + f,
            y1: h * 365_000 + f,
        },
    );
    tiles.push(
        Tile {
            kind: TileKind::Cover,
            x0: w * 44_000,
            y0: h * 62_000,
            x1: w * 214_000,
            y1: h * 365_000,
        },
    );
    assert(tiles@ =~= tiles_of(width as int, height as int));
    tiles
}

/// A part of the results and where it stands.
#[derive(Debug, Clone, Copy, PartialEq, Eq, Structural)]
pub struct Slot {
    pub part: ResultsPart,
    /// Which side's numbers it shows.
    pub side: u8,
    /// From the left, in millionths of a pixel.
    pub x: i128,
    /// The width that it is laid out for, in pixels.
    pub width: u32,
}

/// The parts of the results: all of it for one run; for a race the header over the whole width,
/// and a half for each side.
pub open spec fn slots_of(width: u32, race: bool) -> Seq<Slot> {
    if race {
        seq![
            Slot { part: ResultsPart::Header, side: 0, x: 0, width },
            Slot { part: ResultsPart::Side, side: 0, x: 0, width: width / 2 },
            Slot {
                part: ResultsPart::Side,
                side: 1,
                x: (width * 500_000) as i128,
                width: width / 2,
            },
        ]
    } else {
        seq![Slot { part: ResultsPart::Full, side: 0, x: 0, width }]
    }
}

/// The parts of the results.
pub fn results_slots(width: u32, race: bool) -> (slots: Vec<Slot>)
    ensures
        slots@ == slots_of(width, race),
{
    let mut slots: Vec<Slot> = Vec::new();
    if race {
        slots.push(Slot { part: ResultsPart::Header, side: 0, x: 0, width });
        slots.push(Slot { part: ResultsPart::Side, side: 0, x: 0, width: width / 2 });
        slots.push(
            Slot {
                part: ResultsPart::Side,
                side: 1,
                x: width as i128 * 500_000,
                width: width / 2,
            },
        );
    } else {
        slots.push(Slot { part: ResultsPart::Full, side: 0, x: 0, width });
    }
    assert(slots@ =~= slots_of(width, race));
    slots
}

/// The names of icons.
pub open spec fn icon_names(icons: Seq<(String, Vec<u8>)>) -> Seq<Seq<char>> {
    Seq::new(icons.len(), |i: int| icons[i].0@)
}

/// The first icon from `from` on that is for a mod; as many as there are where there is none.
pub open spec fn icon_for(names: Seq<Seq<char>>, name: Seq<char>, from: int) -> int
    decreases names.len() - from,
{
    if from < 0 || from >= names.len() || names[from] == name {
        from
    } else {
        icon_for(names, name, from + 1)
    }
}

/// The icons of mods, by their place in the list of icons.
pub open spec fn icons_for(mods: Seq<Seq<char>>, names: Seq<Seq<char>>) -> spec_fn(int) -> Option<usize> {
    |i: int|
        {
            let k = icon_for(names, mods[i], 0);
            if k < names.len() {
                Some(k as usize)
            } else {
                None
            }
        }
}

fn find_icon(icons: &[(String, Vec<u8>)], name: &str) -> (at: Option<usize>)
    ensures
        match at {
            Some(k) => k < icons@.len() && k == icon_for(icon_names(icons@), name@, 0),
            None => icon_for(icon_names(icons@), name@, 0) >= icons@.len(),
        },
{
    let ghost names = icon_names(icons@);
    let mut i: usize = 0;
    while i < icons.len()
        invariant
            i <= icons@.len(),
            names == icon_names(icons@),
            icon_for(names, name@, 0) == icon_for(names, name@, i as int),
        decreases icons@.len() - i,
    {
        assert(names[i as int] == icons@[i as int].0@);
        if same_text(icons[i].0.as_str(), name) {
            return Some(i);
        }
        i = i + 1;
    }
    None
}

/// The icons of a run's mods in the order of its list, by their place among the skin's icons.
pub fn active_mod_icons(replay: &Replay, config: &SkinConfig) -> (list: Vec<usize>)
    ensures
        list@ == gather(
            icons_for(mod_names(replay.mods@), icon_names(config.mod_icons@)),
            mod_names(replay.mods@).len(),
        ),
        forall|i: int| 0 <= i < list@.len() ==> (#[trigger] list@[i]) < config.mod_icons@.len(),
{
    let mods: Vec<String> = mod_list(replay);
    let ghost names = mod_names(replay.mods@);
    let ghost f = icons_for(names, icon_names(config.mod_icons@));
    let mut list: Vec<usize> = Vec::new();
    let mut i: usize = 0;
    while i < mods.len()
        invariant
            i <= mods@.len(),
            names == texts(mods@),
            f == icons_for(names, icon_names(config.mod_icons@)),
            list@ == gather(f, i as nat),
            forall|k: int| 0 <= k < list@.len() ==> (#[trigger] list@[k]) < config.mod_icons@.len(),
        decreases mods@.len() - i,
    {
        assert(names[i as int] == mods@[i as int]@);
        match find_icon(config.mod_icons.as_slice(), mods[i].as_str()) {
            Some(k) => {
                assert(f(i as int) == Some(k));
                list.push(k);
            },
            None => {
                assert(f(i as int) is None);
            },
        }
        i = i + 1;
    }
    list
}

/// The height of the icons, in pixels.
pub open spec fn icon_height(h: int) -> int {
    h * 52 / 1000
}

/// The size that icons are shrunk to, in pixels.
pub open spec fn icon_target(h: int) -> int {
    greater(icon_height(h), 8)
}

/// Where the icons of a side begin, from the left: right of the speed, which reaches further into
/// half a width.
pub open spec fn icons_left(w: int, race: bool, side: int) -> int {
    if race {
        (side * (w * 500_000) + w * 315_000) / 1_000_000
    } else {
        w * 580_000 / 1_000_000
    }
}

/// Where the icons stand, from the top.
pub open spec fn icons_top(h: int) -> int {
    h * 775 / 1000 - icon_height(h) / 2
}

/// The width of an icon on the picture.
pub open spec fn icon_width(p: Picture, h: int) -> int {
    icon_side(p.width as int, pool_scale(p.width as int, p.height as int, icon_target(h)))
}

/// Where icon `k` begins.
pub open spec fn icon_left(icons: Seq<Picture>, h: int, x: int, k: int) -> int
    decreases k,
{
    if k <= 0 {
        x
    } else {
        icon_left(icons, h, x, k - 1) + icon_width(icons[k - 1], h) + h * 15 / 1000
    }
}

/// A picture with the first `n` icons on it, one beside the other.
pub open spec fn with_icons(
    pixels: Seq<u8>,
    w: int,
    h: int,
    icons: Seq<Picture>,
    x: int,
    n: int,
) -> Seq<u8>
    decreases n,
{
    if n <= 0 {
        pixels
    } else {
        let p = icons[n - 1];
        let s = pool_scale(p.width as int, p.height as int, icon_target(h));
        let ow = icon_side(p.width as int, s);
        let oh = icon_side(p.height as int, s);
        blitted(
            with_icons(pixels, w, h, icons, x, n - 1),
            w,
            shrunk(p.rgba@, p.width as int, p.height as int, s, ow, ow * oh),
            ow,
            icon_left(icons, h, x, n - 1),
            icons_top(h),
            ow * oh,
        )
    }
}

/// Whether pictures have their pixels.
pub open spec fn icons_have_pixels(icons: Seq<Picture>) -> bool {
    forall|i: int|
        0 <= i < icons.len() ==> has_pixels(
            (#[trigger] icons[i]).rgba@,
            icons[i].width as int,
            icons[i].height as int,
        )
}

fn left_of_icons(width: u32, race: bool, second: bool) -> (x: u32)
    requires
        width <= FRAME_LIMIT,
    ensures
        x == icons_left(
            width as int,
            race,
            if second {
                1
            } else {
                0
            },
        ),
        x <= FRAME_LIMIT,
{
    let w: u64 = width as u64;
    if race {
        let off: u64 = if second {
            w * 500_000
        } else {
            0
        };
        ((off + w * 315_000) / 1_000_000) as u32
    } else {
        (w * 580_000 / 1_000_000) as u32
    }
}

/// Lays the icons of one side's mods on the picture, shrunk to size.
pub fn draw_icons(
    pixels: &mut Vec<u8>,
    width: u32,
    height: u32,
    icons: &[Picture],
    race: bool,
    second: bool,
)
    requires
        width <= FRAME_LIMIT,
        height <= FRAME_LIMIT,
        icons_have_pixels(icons@),
    ensures
        final(pixels)@ == with_icons(
            old(pixels)@,
            width as int,
            height as int,
            icons@,
            icons_left(
                width as int,
                race,
                if second {
                    1
                } else {
                    0
                },
            ),
            icons@.len() as int,
        ),
        final(pixels)@.len() == old(pixels)@.len(),
{
    let h: u64 = height as u64;
    let icon_h: u32 = (h * 52 / 1000) as u32;
    let target: u32 = if icon_h > 8 {
        icon_h
    } else {
        8
    };
    let left: u32 = left_of_icons(width, race, second);
    let top: u32 = (h * 775 / 1000) as u32 - icon_h / 2;
    let gap: u32 = (h * 15 / 1000) as u32;
    let ghost begun = pixels@;
    let mut x: u64 = left as u64;
    let mut i: usize = 0;
    while i < icons.len()
        invariant
            i <= icons@.len(),
            icons_have_pixels(icons@),
            height <= FRAME_LIMIT,
            width <= FRAME_LIMIT,
            target == icon_target(height as int),
            target <= 60_000,
            top == icons_top(height as int),
            gap == height * 15 / 1000,
            gap <= 20_000,
            x <= icon_left(icons@, height as int, left as int, i as int),
            x == icon_left(icons@, height as int, left as int, i as int) || x
                > 0x4000_0000_0000_0000,
            x <= 0x4000_0001_0000_0000,
            pixels@.len() == begun.len(),
            pixels@ == with_icons(
                begun,
                width as int,
                height as int,
                icons@,
                left as int,
                i as int,
            ),
        decreases icons@.len() - i,
    {
        let p: &Picture = &icons[i];
        assert(has_pixels(icons@[i as int].rgba@, p.width as int, p.height as int));
        proof {
            crate::pictures::law_pictures_reach_the_target(
                p.width as int,
                p.height as int,
                target as int,
            );
        }
        let ghost s = pool_scale(p.width as int, p.height as int, target as int);
        let ghost ow = icon_side(p.width as int, s);
        let ghost oh = icon_side(p.height as int, s);
        if x <= 0x4000_0000_0000_0000 {
            let (small, sw, sh) = downscale_icon(p.rgba.as_slice(), p.width, p.height, target);
            blit_over(pixels, width, small.as_slice(), sw, sh, x, top);
            x = x + sw as u64 + gap as u64;
        } else {
            proof {
                assert(pixels@.len() == pixels.len());
                lemma_behind_the_end(
                    pixels@,
                    width as int,
                    shrunk(p.rgba@, p.width as int, p.height as int, s, ow, ow * oh),
                    ow,
                    icon_left(icons@, height as int, left as int, i as int),
                    top as int,
                    ow * oh,
                );
            }
        }
        i = i + 1;
    }
}

/// Whether pictures are those icons of a list that can be decoded.
pub open spec fn are_icons(
    icons: Seq<Picture>,
    list: Seq<usize>,
    all: Seq<(String, Vec<u8>)>,
    n: int,
) -> bool
    decreases n,
{
    if n <= 0 {
        icons.len() == 0
    } else {
        let bytes = all[list[n - 1] as int].1@;
        match picture_of(bytes) {
            Some(_) => icons.len() > 0 && is_decoded(icons.last(), bytes) && are_icons(
                icons.drop_last(),
                list,
                all,
                n - 1,
            ),
            None => are_icons(icons, list, all, n - 1),
        }
    }
}

/// Decodes the icons of a run's mods; those that cannot be decoded are left out.
pub fn decode_icons(list: &[usize], config: &SkinConfig) -> (icons: Vec<Picture>)
    requires
        forall|i: int| 0 <= i < list@.len() ==> (#[trigger] list@[i]) < config.mod_icons@.len(),
    ensures
        are_icons(icons@, list@, config.mod_icons@, list@.len() as int),
        icons_have_pixels(icons@),
        icons@.len() <= list@.len(),
{
    let mut icons: Vec<Picture> = Vec::new();
    let mut i: usize = 0;
    while i < list.len()
        invariant
            i <= list@.len(),
            forall|k: int|
                0 <= k < list@.len() ==> (#[trigger] list@[k]) < config.mod_icons@.len(),
            are_icons(icons@, list@, config.mod_icons@, i as int),
            icons_have_pixels(icons@),
            icons@.len() <= i,
        decreases list@.len() - i,
    {
        let at: usize = list[i];
        assert(list@[i as int] < config.mod_icons@.len());
        let ghost before = icons@;
        if let Some(p) = decode_image_rgba(config.mod_icons[at].1.as_slice()) {
            icons.push(p);
            assert(icons@.drop_last() =~= before);
        }
        i = i + 1;
    }
    icons
}

/// The cover is framed by the same width on all four sides, within a picture that fills the screen.
pub proof fn law_the_cover_is_framed_evenly(w: int, h: int)
    requires
        0 < w <= u32::MAX,
        0 < h <= u32::MAX,
    ensures
        ({
            let t = tiles_of(w, h);
            &&& t.len() == 3
            &&& t[0].kind is Blur && t[1].kind is Green && t[2].kind is Cover
            &&& t[0].x0 == 0 && t[0].y0 == 0 && t[0].x1 == w * 1_000_000 && t[0].y1 == h * 1_000_000
            &&& t[2].x0 - t[1].x0 == t[2].y0 - t[1].y0 == t[1].x1 - t[2].x1 == t[1].y1 - t[2].y1
            &&& t[2].x0 - t[1].x0 >= 2_000_000
            &&& t[2].x0 < t[2].x1 && t[2].y0 < t[2].y1
        }),
{
}

/// In a race the second side stands half the screen to the right of the first, with the same width;
/// alone, a side has all of the screen.
pub proof fn law_sides_share_the_screen(width: u32)
    ensures
        ({
            let race = slots_of(width, true);
            let alone = slots_of(width, false);
            &&& race.len() == 3 && alone.len() == 1
            &&& race[1].width == race[2].width
            &&& 2 * race[1].width <= width < 2 * race[1].width + 2
            &&& 2 * (race[2].x - race[1].x) == width * 1_000_000
            &&& race[1].side == 0 && race[2].side == 1
            &&& race[0].width == width && alone[0].width == width
            &&& race[0].x == 0 && race[1].x == 0 && alone[0].x == 0
        }),
        ({
            let (a, b) = (icons_left(width as int, true, 0), icons_left(width as int, true, 1));
            width <= 2 * (b - a) + 2 && 2 * (b - a) <= width + 2
        }),
{
}

/// Icons stand side by side, each behind the one before it with the same gap.
pub proof fn law_icons_stand_side_by_side(icons: Seq<Picture>, h: int, x: int, k: int)
    requires
        0 <= k < icons.len(),
        h >= 0,
    ensures
        icon_left(icons, h, x, 0) == x,
        icon_left(icons, h, x, k + 1) - icon_left(icons, h, x, k) == icon_width(icons[k], h) + h * 15
            / 1000,
        icon_target(h) >= 8,
        icon_width(icons[k], h) <= icon_target(h),
{
    law_pictures_reach_the_target(
        icons[k].width as int,
        icons[k].height as int,
        icon_target(h),
    );
}

/// The icons are those of the mods that have one, in the order of the mods.
pub proof fn law_mods_find_their_icons(names: Seq<Seq<char>>, name: Seq<char>, from: int)
    requires
        0 <= from <= names.len(),
    ensures
        from <= icon_for(names, name, from) <= names.len(),
        icon_for(names, name, from) < names.len() ==> names[icon_for(names, name, from)] == name,
        forall|k: int| from <= k < icon_for(names, name, from) ==> #[trigger] names[k] != name,
    decreases names.len() - from,
{
    if from < names.len() && names[from] != name {
        law_mods_find_their_icons(names, name, from + 1);
    }
}

} // verus!
