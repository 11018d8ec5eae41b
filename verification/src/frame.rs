//! What one frame shows, and in which order it is drawn.

use vstd::prelude::*;

use crate::colors::{color_of_note, note_color};
use crate::config::{ghost_meter, HudConfig, Rgb, SkinConfig};
use crate::count::{gather, law_gathering_keeps_all_in_order, lemma_tally_same, tally};
use crate::fixed::{
    div_nearest, greater, law_rounding_is_closest, law_rounding_keeps_whole_numbers, lesser,
    magnitude, nearest, ONE,
};
use crate::hitreg::{chart_time, NoteResult};
use crate::replay::Note;
use crate::scene::{depth_at, grid_to_world, is_scene, opacity_at, world_of, SceneParams};

verus! {

/// The most things that are drawn in one frame.
pub const INSTANCE_CAP: usize = 16_384;

/// The most corners that the overlay is drawn with: whole triangles.
pub const HUD_VERT_CAP: usize = 65_535;

/// The latest note time that is worked with, in milliseconds.
pub const TIME_LIMIT: i64 = 9_000_000_000_000;

/// A part of the frame, in pixels from the left.
#[derive(Debug, Clone, Copy, PartialEq, Eq, Structural)]
pub struct Pane {
    pub x: u32,
    pub width: u32,
}

/// The views of a frame: one, or two side by side in a race.
pub open spec fn views_of(width: u32, race: bool) -> Seq<Pane> {
    if race {
        seq![
            Pane { x: 0, width: width / 2 },
            Pane { x: width / 2, width: (width - width / 2) as u32 },
        ]
    } else {
        seq![Pane { x: 0, width }]
    }
}

/// The views of a frame.
pub fn views(width: u32, race: bool) -> (v: Vec<Pane>)
    ensures
        v@ == views_of(width, race),
{
    let mut v: Vec<Pane> = Vec::new();
    if race {
        let half: u32 = width / 2;
        v.push(Pane { x: 0, width: half });
        v.push(Pane { x: half, width: width - half });
    } else {
        v.push(Pane { x: 0, width });
    }
    assert(v@ =~= views_of(width, race));
    v
}

/// The views of a frame stand side by side and fill it.
pub proof fn law_views_fill_the_frame(width: u32, race: bool)
    ensures
        ({
            let v = views_of(width, race);
            &&& v[0].x == 0
            &&& v.last().x + v.last().width == width
            &&& race ==> v[0].x + v[0].width == v[1].x
        }),
{
}

/// The settings of the second side of a race: its cursor and trail in a colour of its own, and its
/// meters where they stand on that side.
pub fn ghost_config(config: SkinConfig, color: Rgb) -> (r: SkinConfig)
    ensures
        r.cursor_trail_gradient@.len() == 0,
        r == (SkinConfig {
            cursor_color: color,
            cursor_trail_color: color,
            cursor_trail_gradient: r.cursor_trail_gradient,
            cursor_trail_inherit: true,
            hud: HudConfig {
                error_meter: ghost_meter(config.hud.error_meter),
                aim_meter: ghost_meter(config.hud.aim_meter),
                ..config.hud
            },
            ..config
        }),
{
    let hud: HudConfig = HudConfig {
        error_meter: config.hud.error_meter.for_ghost(),
        aim_meter: config.hud.aim_meter.for_ghost(),
        ..config.hud
    };
    SkinConfig {
        cursor_color: color,
        cursor_trail_color: color,
        cursor_trail_gradient: Vec::new(),
        cursor_trail_inherit: true,
        hud,
        ..config
    }
}

/// A thing in the scene. Places are in millionths of a world unit, opacities in millionths.
#[derive(Debug, Clone, Copy, PartialEq, Eq, Structural)]
pub enum Item {
    /// The skin's own background, behind everything.
    Background,
    /// The border of the field.
    Border { half: i128, color: Rgb, opacity: i64 },
    /// A line between cells: across or down, at a place, and half as thick as it says.
    GridLine { down: bool, at: i64, half_length: i128, half_thick: i128, color: Rgb, opacity: i64 },
    /// A note on its way.
    Note { index: usize, x: i128, y: i128, depth: i128, opacity: i128, color: Rgb },
}

/// How near a thing is: what is farther away is drawn first.
pub open spec fn nearness(item: Item) -> int {
    match item {
        Item::Background => i128::MIN as int,
        Item::Border { .. } => -20_000,
        Item::GridLine { .. } => -18_000,
        Item::Note { depth, .. } => -depth,
    }
}

/// How far behind the hit plane a note is: less than 0.
pub open spec fn overshoot(p: SceneParams, note_ms: int, song_ms: int) -> int {
    nearest((note_ms - song_ms) * p.approach_rate, 1000 * p.speed)
}

/// The depth and the opacity of a note; none where it is not on screen. A missed note may fly
/// on past the plane, and fades away over two and a half units.
pub open spec fn note_look(
    p: SceneParams,
    push_back: bool,
    missed: bool,
    note_ms: int,
    song_ms: int,
) -> Option<(int, int)> {
    let behind = overshoot(p, note_ms, song_ms);
    match depth_at(p, note_ms, song_ms) {
        Some(d) => Some((d, opacity_at(p, d))),
        None => if push_back && missed && -2_500_000 <= behind < 0 {
            Some((behind, greater(1_000_000 + nearest(behind * 10, 25), 0)))
        } else {
            None
        },
    }
}

/// Whether a note was missed, as far as the hits are known.
pub open spec fn is_missed(results: Option<Seq<NoteResult>>, i: int) -> bool {
    match results {
        Some(r) => !r[i].hit,
        None => false,
    }
}

/// Note `i` as a thing in the scene, where it is on screen.
pub open spec fn note_item(
    p: SceneParams,
    cfg: SkinConfig,
    notes: Seq<Note>,
    results: Option<Seq<NoteResult>>,
    song_ms: int,
    i: int,
) -> Option<Item> {
    let note = notes[i];
    match note_look(p, cfg.push_back, is_missed(results, i), chart_time(note), song_ms) {
        Some(look) => Some(
            Item::Note {
                index: i as usize,
                x: world_of(note.x as int, note.y as int).0 as i128,
                y: world_of(note.x as int, note.y as int).1 as i128,
                depth: look.0 as i128,
                opacity: look.1 as i128,
                color: color_of_note(cfg, i),
            },
        ),
        None => None,
    }
}

/// The notes as things in the scene, by their number.
pub open spec fn note_items(
    p: SceneParams,
    cfg: SkinConfig,
    notes: Seq<Note>,
    results: Option<Seq<NoteResult>>,
    song_ms: int,
) -> spec_fn(int) -> Option<Item> {
    |i: int| note_item(p, cfg, notes, results, song_ms, i)
}

/// A line between cells.
pub open spec fn grid_line(p: SceneParams, cfg: SkinConfig, down: bool, at: i64) -> Item {
    Item::GridLine {
        down,
        at,
        half_length: (p.grid_scale + 520_000) as i128,
        half_thick: greater(nearest(cfg.playfield_grid_thickness as int, 1440), 500) as i128,
        color: cfg.playfield_grid_color,
        opacity: cfg.playfield_grid_opacity,
    }
}

/// What stands still in the scene: the background where the skin has one, the border, and the
/// lines between cells where they are on.
pub open spec fn still_items(p: SceneParams, cfg: SkinConfig, background: bool) -> Seq<Item> {
    (if background {
        seq![Item::Background]
    } else {
        Seq::empty()
    }) + seq![
        Item::Border {
            half: (p.grid_scale + 520_000) as i128,
            color: cfg.border_color,
            opacity: cfg.border_opacity,
        },
    ] + (if cfg.playfield_grid && cfg.playfield_grid_opacity > 0 {
        seq![
            grid_line(p, cfg, true, (-500_000) as i64),
            grid_line(p, cfg, false, (-500_000) as i64),
            grid_line(p, cfg, true, 500_000),
            grid_line(p, cfg, false, 500_000),
        ]
    } else {
        Seq::empty()
    })
}

/// All things in the scene, before they are put in order.
pub open spec fn all_items(
    p: SceneParams,
    cfg: SkinConfig,
    background: bool,
    notes: Seq<Note>,
    results: Option<Seq<NoteResult>>,
    song_ms: int,
) -> Seq<Item> {
    still_items(p, cfg, background) + gather(
        note_items(p, cfg, notes, results, song_ms),
        notes.len(),
    )
}

/// Whether a list of positions puts things in order: the farthest first, of equally far ones the
/// one that comes first in the list.
pub open spec fn is_draw_order(order: Seq<usize>, items: Seq<Item>) -> bool {
    &&& order.len() == items.len()
    &&& forall|k: int| 0 <= k < order.len() ==> (#[trigger] order[k]) < items.len()
    &&& forall|a: int, b: int|
        0 <= a < b < order.len() ==> comes_before(
            items,
            #[trigger] order[a] as int,
            #[trigger] order[b] as int,
        )
}

/// Whether one thing is drawn before another.
pub open spec fn comes_before(items: Seq<Item>, i: int, j: int) -> bool {
    nearness(items[i]) < nearness(items[j]) || (nearness(items[i]) == nearness(items[j]) && i < j)
}

/// Things in an order.
pub open spec fn in_order(items: Seq<Item>, order: Seq<usize>) -> Seq<Item> {
    Seq::new(order.len(), |k: int| items[order[k] as int])
}

/// Whether notes have times that can be worked with.
pub open spec fn has_times(notes: Seq<Note>) -> bool {
    forall|i: int| 0 <= i < notes.len() ==> magnitude((#[trigger] notes[i]).time_ms as int) <= TIME_LIMIT
}

/// Whether notes have times that can be worked with.
pub fn times_fit(notes: &[Note]) -> (r: bool)
    ensures
        r == has_times(notes@),
{
    let mut i: usize = 0;
    while i < notes.len()
        invariant
            i <= notes@.len(),
            forall|k: int|
                0 <= k < i ==> magnitude((#[trigger] notes@[k]).time_ms as int) <= TIME_LIMIT,
        decreases notes@.len() - i,
    {
        let t: i64 = notes[i].time_ms;
        if t < -TIME_LIMIT || t > TIME_LIMIT {
            assert(magnitude(notes@[i as int].time_ms as int) > TIME_LIMIT);
            return false;
        }
        i = i + 1;
    }
    true
}

fn look_at(p: &SceneParams, push_back: bool, missed: bool, note_ms: i64, song_ms: i64) -> (r: Option<
    (i128, i128),
>)
    requires
        is_scene(*p),
    ensures
        match (r, note_look(*p, push_back, missed, note_ms as int, song_ms as int)) {
            (Some(a), Some(b)) => (a.0 as int, a.1 as int) == b,
            (None, None) => true,
            _ => false,
        },
{
    let ahead: i128 = note_ms as i128 - song_ms as i128;
    let rate: i128 = p.approach_rate as i128;
    if let Some(depth) = p.note_depth(note_ms, song_ms) {
        return Some((depth, p.note_opacity(depth)));
    }
    if !push_back || !missed {
        return None;
    }
    assert(magnitude(ahead * rate) <= 20_000_000_000_000_000_000_000_000_000_000_000)
        by (nonlinear_arith)
        requires
            -0xffff_ffff_ffff_ffff <= ahead <= 0xffff_ffff_ffff_ffff,
            -1_000_000_000_000_000 <= rate <= 1_000_000_000_000_000,
    ;
    let behind: i128 = div_nearest(ahead * rate, 1000 * p.speed as i128);
    if -2_500_000 <= behind && behind < 0 {
        let fade: i128 = 1_000_000 + div_nearest(behind * 10, 25);
        let opacity: i128 = if fade > 0 {
            fade
        } else {
            0
        };
        Some((behind, opacity))
    } else {
        None
    }
}

fn push_still(items: &mut Vec<Item>, p: &SceneParams, cfg: &SkinConfig, background: bool)
    ensures
        final(items)@ == old(items)@ + still_items(*p, *cfg, background),
{
    if background {
        items.push(Item::Background);
    }
    let half: i128 = p.playfield_half();
    items.push(Item::Border { half, color: cfg.border_color, opacity: cfg.border_opacity });
    if cfg.playfield_grid && cfg.playfield_grid_opacity > 0 {
        let thin: i128 = div_nearest(cfg.playfield_grid_thickness as i128, 1440);
        let half_thick: i128 = if thin > 500 {
            thin
        } else {
            500
        };
        let color: Rgb = cfg.playfield_grid_color;
        let opacity: i64 = cfg.playfield_grid_opacity;
        let at: i64 = -500_000;
        items.push(
            Item::GridLine { down: true, at, half_length: half, half_thick, color, opacity },
        );
        items.push(
            Item::GridLine { down: false, at, half_length: half, half_thick, color, opacity },
        );
        let at: i64 = 500_000;
        items.push(
            Item::GridLine { down: true, at, half_length: half, half_thick, color, opacity },
        );
        items.push(
            Item::GridLine { down: false, at, half_length: half, half_thick, color, opacity },
        );
    }
    assert(items@ =~= old(items)@ + still_items(*p, *cfg, background));
}

/// Hits as a list, where they are known.
pub open spec fn known(results: Option<&[NoteResult]>) -> Option<Seq<NoteResult>> {
    match results {
        Some(r) => Some(r@),
        None => None,
    }
}

/// What a frame shows at a song time, before it is put in order: what stands still, and each
/// note that is on screen.
pub fn scene_items(
    p: &SceneParams,
    cfg: &SkinConfig,
    background: bool,
    notes: &[Note],
    results: Option<&[NoteResult]>,
    song_time_ms: i64,
) -> (items: Vec<Item>)
    requires
        is_scene(*p),
        has_times(notes@),
        results matches Some(r) ==> r@.len() == notes@.len(),
    ensures
        items@ == all_items(*p, *cfg, background, notes@, known(results), song_time_ms as int),
{
    let mut items: Vec<Item> = Vec::new();
    push_still(&mut items, p, cfg, background);
    let ghost still = items@;
    let ghost f = note_items(*p, *cfg, notes@, known(results), song_time_ms as int);
    let mut i: usize = 0;
    assert(items@ =~= still + gather(f, 0));
    while i < notes.len()
        invariant
            i <= notes@.len(),
            is_scene(*p),
            has_times(notes@),
            results matches Some(r) ==> r@.len() == notes@.len(),
            f == note_items(*p, *cfg, notes@, known(results), song_time_ms as int),
            items@ == still + gather(f, i as nat),
        decreases notes@.len() - i,
    {
        let note: Note = notes[i];
        let missed: bool = match results {
            Some(r) => !r[i].hit,
            None => false,
        };
        assert(magnitude(notes@[i as int].time_ms as int) <= TIME_LIMIT);
        let look: Option<(i128, i128)> = look_at(
            p,
            cfg.push_back,
            missed,
            note.time_ms * ONE,
            song_time_ms,
        );
        let ghost before = items@;
        match look {
            Some((depth, opacity)) => {
                let (x, y) = grid_to_world(note.x, note.y);
                let item: Item = Item::Note {
                    index: i,
                    x,
                    y,
                    depth,
                    opacity,
                    color: note_color(cfg, i),
                };
                assert(f(i as int) == Some(item));
                items.push(item);
            },
            None => {
                assert(f(i as int) is None);
            },
        }
        assert(items@ =~= still + gather(f, (i + 1) as nat));
        i = i + 1;
    }
    assert(still =~= still_items(*p, *cfg, background));
    items
}

fn key_of(item: &Item) -> (k: i128)
    requires
        item matches Item::Note { depth, .. } ==> depth > i128::MIN,
    ensures
        k == nearness(*item),
{
    match item {
        Item::Background => i128::MIN,
        Item::Border { .. } => -20_000,
        Item::GridLine { .. } => -18_000,
        Item::Note { depth, .. } => -*depth,
    }
}

/// Whether the depths of notes can be turned round.
pub open spec fn can_order(items: Seq<Item>) -> bool {
    forall|i: int|
        0 <= i < items.len() ==> ((#[trigger] items[i]) matches Item::Note { depth, .. } ==> depth
            > i128::MIN)
}

/// Puts things in the order in which they are drawn: the farthest first, of equally far ones the
/// one that comes first in the list.
pub fn draw_order(items: &[Item]) -> (r: Vec<Item>)
    requires
        can_order(items@),
    ensures
        exists|order: Seq<usize>| #[trigger]
            is_draw_order(order, items@) && r@ == in_order(items@, order),
{
    let mut r: Vec<Item> = Vec::new();
    let ghost mut order: Seq<usize> = Seq::empty();
    let mut i: usize = 0;
    assert(r@ =~= in_order(items@, order));
    while i < items.len()
        invariant
            i <= items@.len(),
            can_order(items@),
            order.len() == i,
            r@ == in_order(items@, order),
            forall|k: int| 0 <= k < order.len() ==> (#[trigger] order[k]) < i,
            forall|a: int, b: int|
                0 <= a < b < order.len() ==> comes_before(
                    items@,
                    #[trigger] order[a] as int,
                    #[trigger] order[b] as int,
                ),
        decreases items@.len() - i,
    {
        let item: Item = items[i];
        assert(items@[i as int] == item);
        let key: i128 = key_of(&item);
        let mut at: usize = r.len();
        while at > 0 && key_of(&r[at - 1]) > key
            invariant
                at <= r@.len() == order.len() == i,
                i < items@.len(),
                item == items@[i as int],
                key == nearness(item),
                can_order(items@),
                r@ == in_order(items@, order),
                forall|k: int| 0 <= k < order.len() ==> (#[trigger] order[k]) < i,
                forall|a: int, b: int|
                    0 <= a < b < order.len() ==> comes_before(
                        items@,
                        #[trigger] order[a] as int,
                        #[trigger] order[b] as int,
                    ),
                forall|k: int|
                    at <= k < order.len() ==> nearness(items@[#[trigger] order[k] as int]) > key,
            decreases at,
        {
            at = at - 1;
            assert(r@[at as int] == items@[order[at as int] as int]);
        }
        let ghost held = order;
        if at > 0 {
            assert(r@[at - 1] == items@[order[at - 1] as int]);
        }
        assert forall|a: int| 0 <= a < at implies comes_before(
            items@,
            #[trigger] held[a] as int,
            i as int,
        ) by {
            if a < at - 1 {
                assert(comes_before(items@, held[a] as int, held[at - 1] as int));
            }
        }
        r.insert(at, item);
        proof {
            order = held.insert(at as int, i);
        }
        assert(r@ =~= in_order(items@, order));
        assert forall|a: int, b: int| 0 <= a < b < order.len() implies comes_before(
            items@,
            #[trigger] order[a] as int,
            #[trigger] order[b] as int,
        ) by {
            if a < at && b < at {
                assert(order[a] == held[a] && order[b] == held[b]);
            } else if a < at && b == at {
                assert(order[a] == held[a]);
            } else if a < at {
                assert(order[a] == held[a] && order[b] == held[b - 1]);
            } else if a == at {
                assert(order[b] == held[b - 1]);
            } else {
                assert(order[a] == held[a - 1] && order[b] == held[b - 1]);
            }
        }
        assert forall|k: int| 0 <= k < order.len() implies (#[trigger] order[k]) < i + 1 by {
            if k < at {
                assert(order[k] == held[k]);
            } else if k > at {
                assert(order[k] == held[k - 1]);
            }
        }
        i = i + 1;
    }
    assert(is_draw_order(order, items@));
    r
}

/// How many things and how many dots over them are drawn: no more than fit, the things first.
pub fn drawn_counts(items: usize, dots: usize) -> (r: (usize, usize))
    ensures
        r.0 == lesser(items as int, INSTANCE_CAP as int),
        r.1 == lesser(dots as int, INSTANCE_CAP - r.0),
{
    let main: usize = if items < INSTANCE_CAP {
        items
    } else {
        INSTANCE_CAP
    };
    let room: usize = INSTANCE_CAP - main;
    (main, if dots < room {
        dots
    } else {
        room
    })
}

/// An order of drawing leaves nothing out: each thing stands at some place in it.
pub proof fn law_everything_is_drawn(order: Seq<usize>, items: Seq<Item>, i: int)
    requires
        is_draw_order(order, items),
        0 <= i < items.len(),
    ensures
        exists|k: int| 0 <= k < order.len() && #[trigger] order[k] == i,
{
    let seen = order.map_values(|v: usize| v as int);
    assert(seen.no_duplicates()) by {
        assert forall|a: int, b: int| 0 <= a < seen.len() && 0 <= b < seen.len() && a != b implies
            seen[a] != seen[b] by {
            if a < b {
                assert(comes_before(items, order[a] as int, order[b] as int));
            } else {
                assert(comes_before(items, order[b] as int, order[a] as int));
            }
        }
    }
    seen.unique_seq_to_set();
    let all = vstd::set_lib::set_int_range(0, items.len() as int);
    vstd::set_lib::lemma_int_range(0, items.len() as int);
    assert(seen.to_set().subset_of(all)) by {
        assert forall|v: int| seen.to_set().contains(v) implies all.contains(v) by {
            let k = choose|k: int| 0 <= k < seen.len() && seen[k] == v;
            assert(order[k] < items.len());
        }
    }
    vstd::set_lib::lemma_subset_equality(seen.to_set(), all);
    assert(seen.to_set().contains(i));
    let k = choose|k: int| 0 <= k < seen.len() && seen[k] == i;
    assert(order[k] == i);
}

/// A note is drawn at its place in the grid, seen from the middle and upwards; before its time at
/// the depth it has then, and past it only where misses are pushed back and this is one, up to 2.5
/// units behind the plane, fading evenly on the way.
pub proof fn law_notes_are_drawn_in_place(
    p: SceneParams,
    cfg: SkinConfig,
    notes: Seq<Note>,
    results: Option<Seq<NoteResult>>,
    song_ms: int,
    i: int,
)
    requires
        is_scene(p),
        has_times(notes),
        0 <= i < notes.len() <= usize::MAX,
        magnitude(song_ms) <= i64::MAX,
    ensures
        ({
            let due = notes[i].time_ms * 1_000_000;
            let item = note_item(p, cfg, notes, results, song_ms, i);
            let behind = overshoot(p, due, song_ms);
            &&& item matches Some(drawn) ==> (drawn matches Item::Note { index, x, y, color, .. }
                && index == i && x == notes[i].x - 1_000_000 && y == 1_000_000 - notes[i].y && color
                == color_of_note(cfg, i))
            &&& depth_at(p, due, song_ms) matches Some(d) ==> (item matches Some(Item::Note {
                depth,
                opacity,
                ..
            }) && depth == d && opacity == opacity_at(p, d) as i128)
            &&& song_ms > due && !cfg.push_back ==> item is None
            &&& song_ms > due && (results is None || results->0[i].hit) ==> item is None
            &&& song_ms > due && cfg.push_back && results is Some && !results->0[i].hit && -2_500_000
                <= behind < 0 ==> (item matches Some(Item::Note { depth, opacity, .. }) && depth
                == behind && 0 <= opacity <= 1_000_000 && 2 * magnitude(
                25 * (opacity - 1_000_000) - 10 * behind,
            ) <= 25)
            &&& song_ms > due && behind < -2_500_000 ==> item is None
        }),
{
    let due = notes[i].time_ms * 1_000_000;
    assert(chart_time(notes[i]) == due);
    let behind = overshoot(p, due, song_ms);
    let n = (due - song_ms) * p.approach_rate;
    assert(magnitude(due) <= 9_000_000_000_000_000_000) by {
        assert(magnitude(notes[i].time_ms as int) <= TIME_LIMIT);
    }
    assert(magnitude(n) <= 20_000_000_000_000_000_000_000_000_000_000_000) by (nonlinear_arith)
        requires
            n == (due - song_ms) * p.approach_rate,
            magnitude(due) <= 9_000_000_000_000_000_000,
            magnitude(song_ms) <= 9_223_372_036_854_775_807,
            magnitude(p.approach_rate as int) <= 1_000_000_000_000_000,
    ;
    crate::fixed::lemma_nearest_bound(n, 1000 * p.speed);
    law_rounding_is_closest(behind * 10, 25);
}

/// What is behind everything comes first, and of two notes the one further away comes before the
/// nearer one.
pub proof fn law_far_notes_are_drawn_first(order: Seq<usize>, items: Seq<Item>, a: int, b: int)
    requires
        is_draw_order(order, items),
        can_order(items),
        0 <= a < b < order.len(),
    ensures
        ({
            let drawn = in_order(items, order);
            &&& drawn[b] is Background ==> drawn[a] is Background
            &&& drawn[a] matches Item::Note { depth: far, .. } ==> drawn[b] matches Item::Note {
                depth: near,
                ..
            } ==> far >= near
            &&& drawn[a] is Note && !(drawn[b] is Note) ==> drawn[a]->depth > 0
        }),
{
    let (i, j) = (order[a] as int, order[b] as int);
    assert(comes_before(items, i, j));
}

/// The field is the same across as down: its border lies half a cell and 0.02 around the outermost
/// notes, and each line across between the cells has its like down, a half cell to either side of
/// the middle.
pub proof fn law_the_field_is_square(p: SceneParams, cfg: SkinConfig, background: bool)
    requires
        magnitude(p.grid_scale as int) <= 1_000_000_000_000_000,
    ensures
        ({
            let items = still_items(p, cfg, background);
            let from: int = if background {
                1
            } else {
                0
            };
            &&& background ==> items[0] is Background
            &&& items[from] matches Item::Border { half, color, opacity } && half == p.grid_scale
                + 520_000 && color == cfg.border_color && opacity == cfg.border_opacity
            &&& !cfg.playfield_grid || cfg.playfield_grid_opacity <= 0 ==> items.len() == from + 1
            &&& cfg.playfield_grid && cfg.playfield_grid_opacity > 0 ==> items.len() == from + 5
                && (forall|k: int|
                from < k < from + 5 ==> ((#[trigger] items[k]) matches Item::GridLine {
                    down,
                    at,
                    half_length,
                    color,
                    ..
                } && half_length == p.grid_scale + 520_000 && color == cfg.playfield_grid_color
                    && down == ((k - from) % 2 == 1) && at == (if k - from <= 2 {
                    -500_000i64
                } else {
                    500_000i64
                })))
        }),
{
}

/// Everything in sight is an item: the still parts and each note that has a look.
pub proof fn law_all_notes_in_sight_are_items(
    p: SceneParams,
    cfg: SkinConfig,
    background: bool,
    notes: Seq<Note>,
    results: Option<Seq<NoteResult>>,
    song_ms: int,
    i: int,
)
    requires
        0 <= i < notes.len(),
    ensures
        note_item(p, cfg, notes, results, song_ms, i) matches Some(item) ==> all_items(
            p,
            cfg,
            background,
            notes,
            results,
            song_ms,
        ).contains(item),
        all_items(p, cfg, background, notes, results, song_ms).len() == still_items(
            p,
            cfg,
            background,
        ).len() + tally(
            |k: int| note_item(p, cfg, notes, results, song_ms, k) is Some,
            notes.len(),
        ),
{
    let f = note_items(p, cfg, notes, results, song_ms);
    law_gathering_keeps_all_in_order(f, notes.len());
    lemma_tally_same(
        |k: int| f(k) is Some,
        |k: int| note_item(p, cfg, notes, results, song_ms, k) is Some,
        notes.len(),
    );
    if f(i) is Some {
        let k = tally(|j: int| f(j) is Some, i as nat) as int;
        let still = still_items(p, cfg, background);
        let all = all_items(p, cfg, background, notes, results, song_ms);
        assert(all[still.len() + k] == f(i)->0);
    }
}

/// A note that is past goes on behind the plane as it came, at the same pace.
pub proof fn law_passed_notes_keep_their_pace(p: SceneParams, note_ms: int, song_ms: int)
    requires
        is_scene(p),
    ensures
        2 * magnitude(
            1000 * p.speed * overshoot(p, note_ms, song_ms) - (note_ms - song_ms) * p.approach_rate,
        ) <= 1000 * p.speed,
        depth_at(p, note_ms, song_ms) matches Some(d) ==> overshoot(p, note_ms, song_ms) == d,
        overshoot(p, note_ms, note_ms) == 0,
{
    law_rounding_is_closest((note_ms - song_ms) * p.approach_rate, 1000 * p.speed);
    law_rounding_keeps_whole_numbers(0, 0, 1000 * p.speed);
    assert((note_ms - note_ms) * p.approach_rate == 0) by (nonlinear_arith);
}

} // verus!
