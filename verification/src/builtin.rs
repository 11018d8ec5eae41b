//! The game's built-in assets that a skin refers to by name, such as
//! `Textures/Game/colorsets/Arctic.txt`.

use vstd::prelude::*;

use crate::config::SkinConfig;
use crate::json::{
    all_json, all_members, as_items, as_members, as_text, items_of, json_document, members_of,
    parse_json, text_of as json_text, Json,
};
use crate::text::{
    chars_of, is_white, law_trimming_takes_the_white_off, lines_of, lowercase, lowered, occurs, occurs_at, part_of, same_chars, split_lines,
    text_of, trim, trimmed,
};

verus! {

/// The value of a hexadecimal digit.
pub open spec fn hex_value(c: char) -> Option<int> {
    if '0' <= c && c <= '9' {
        Some(c as int - '0' as int)
    } else if 'a' <= c && c <= 'f' {
        Some(c as int - 'a' as int + 10)
    } else if 'A' <= c && c <= 'F' {
        Some(c as int - 'A' as int + 10)
    } else {
        None
    }
}

/// The byte that two characters write: two hexadecimal digits, or a plus sign and one.
pub open spec fn hex_byte(a: char, b: char) -> Option<int> {
    match (hex_value(a), hex_value(b)) {
        (Some(x), Some(y)) => Some(16 * x + y),
        (None, Some(y)) => if a == '+' {
            Some(y)
        } else {
            None
        },
        _ => None,
    }
}

/// Text without the number signs at its start.
pub open spec fn without_signs(s: Seq<char>) -> Seq<char>
    decreases s.len(),
{
    if s.len() > 0 && s[0] == '#' {
        without_signs(s.drop_first())
    } else {
        s
    }
}

/// The colour that a text writes as `#rrggbb`.
pub open spec fn hex_color(s: Seq<char>) -> Option<Seq<u8>> {
    let h = without_signs(trimmed(s));
    if h.len() != 6 {
        None
    } else {
        match (hex_byte(h[0], h[1]), hex_byte(h[2], h[3]), hex_byte(h[4], h[5])) {
            (Some(r), Some(g), Some(b)) => Some(seq![r as u8, g as u8, b as u8]),
            _ => None,
        }
    }
}

fn hex_digit(c: char) -> (v: Option<u8>)
    ensures
        match v {
            Some(n) => hex_value(c) == Some(n as int) && n < 16,
            None => hex_value(c) is None,
        },
{
    let u: u32 = c as u32;
    if '0' <= c && c <= '9' {
        Some((u - 48) as u8)
    } else if 'a' <= c && c <= 'f' {
        Some((u - 97 + 10) as u8)
    } else if 'A' <= c && c <= 'F' {
        Some((u - 65 + 10) as u8)
    } else {
        None
    }
}

fn hex_pair(a: char, b: char) -> (v: Option<u8>)
    ensures
        match v {
            Some(n) => hex_byte(a, b) == Some(n as int),
            None => hex_byte(a, b) is None,
        },
{
    match (hex_digit(a), hex_digit(b)) {
        (Some(x), Some(y)) => Some(16 * x + y),
        (None, Some(y)) => if a == '+' {
            Some(y)
        } else {
            None
        },
        _ => None,
    }
}

fn hex_of(s: &[char]) -> (c: Option<[u8; 3]>)
    ensures
        match c {
            Some(rgb) => hex_color(s@) == Some(rgb@),
            None => hex_color(s@) is None,
        },
{
    let t: Vec<char> = trim(s);
    let mut from: usize = 0;
    assert(t@.skip(0) =~= t@);
    while from < t.len() && t[from] == '#'
        invariant
            from <= t@.len(),
            without_signs(t@) == without_signs(t@.skip(from as int)),
        decreases t@.len() - from,
    {
        assert(t@.skip(from as int).drop_first() =~= t@.skip(from + 1));
        from = from + 1;
    }
    let h: Vec<char> = part_of(t.as_slice(), from, t.len());
    assert(h@ =~= t@.skip(from as int));
    if h.len() != 6 {
        return None;
    }
    match (hex_pair(h[0], h[1]), hex_pair(h[2], h[3]), hex_pair(h[4], h[5])) {
        (Some(r), Some(g), Some(b)) => {
            let rgb: [u8; 3] = [r, g, b];
            assert(rgb@ =~= seq![r, g, b]);
            Some(rgb)
        },
        _ => None,
    }
}

/// Reads a colour written as `#rrggbb`.
pub fn parse_hex(s: &str) -> (c: Option<[u8; 3]>)
    ensures
        match c {
            Some(rgb) => hex_color(s@) == Some(rgb@),
            None => hex_color(s@) is None,
        },
{
    let chars: Vec<char> = chars_of(s);
    hex_of(chars.as_slice())
}

/// The colours among some texts.
pub open spec fn hex_colors(list: Seq<Seq<char>>) -> Seq<Seq<u8>>
    decreases list.len(),
{
    if list.len() == 0 {
        Seq::empty()
    } else {
        match hex_color(list.last()) {
            Some(c) => hex_colors(list.drop_last()).push(c),
            None => hex_colors(list.drop_last()),
        }
    }
}

/// The channels of some colours.
pub open spec fn channels(colors: Seq<[u8; 3]>) -> Seq<Seq<u8>> {
    Seq::new(colors.len(), |i: int| colors[i]@)
}

/// Reads a colour set: one `#rrggbb` per line; other lines are left out.
pub fn parse_colorset(text: &str) -> (colors: Vec<[u8; 3]>)
    ensures
        channels(colors@) == hex_colors(lines_of(text@)),
{
    let chars: Vec<char> = chars_of(text);
    let lines: Vec<Vec<char>> = split_lines(chars.as_slice());
    let ghost all = lines_of(text@);
    let mut colors: Vec<[u8; 3]> = Vec::new();
    let mut i: usize = 0;
    assert(channels(colors@) =~= hex_colors(all.take(0)));
    while i < lines.len()
        invariant
            i <= lines@.len(),
            all == crate::text::char_views(lines@),
            channels(colors@) == hex_colors(all.take(i as int)),
        decreases lines@.len() - i,
    {
        let ghost before = channels(colors@);
        assert(all.take(i + 1).drop_last() =~= all.take(i as int));
        if let Some(c) = hex_of(lines[i].as_slice()) {
            colors.push(c);
            assert(channels(colors@) =~= before.push(c@));
        }
        i = i + 1;
    }
    assert(all.take(i as int) =~= all);
    colors
}

/// The path under which a built-in asset of a category is named.
pub open spec fn builtin_path(category: Seq<char>) -> Seq<char> {
    "Textures/Game/"@ + category + "/"@
}

/// The last position of `part` in `s` before `before`; -1 where there is none.
pub open spec fn last_before(s: Seq<char>, part: Seq<char>, before: int) -> int
    decreases before,
{
    if before <= 0 {
        -1
    } else if occurs(s, part, before - 1) {
        before - 1
    } else {
        last_before(s, part, before - 1)
    }
}

/// The name in a reference to a built-in asset: what stands behind the last path of the
/// category; none for a path of the user's own.
pub open spec fn referred(value: Seq<char>, category: Seq<char>) -> Option<Seq<char>> {
    let path = builtin_path(category);
    let at = last_before(value, path, value.len() as int + 1);
    if at < 0 {
        None
    } else {
        Some(value.skip(at + path.len()))
    }
}

/// The name in a reference to a built-in asset of a category; none for a path of the user's
/// own.
pub fn builtin_ref(value: &str, category: &str) -> (name: Option<String>)
    ensures
        match name {
            Some(n) => referred(value@, category@) == Some(n@),
            None => referred(value@, category@) is None,
        },
{
    let mut path: String = "Textures/Game/".to_owned();
    path.append(category);
    path.append("/");
    let s: Vec<char> = chars_of(value);
    let p: Vec<char> = chars_of(path.as_str());
    assert(p@ =~= builtin_path(category@));
    let len: usize = s.len();
    let mut i: usize = len;
    let mut found: bool = occurs_at(s.as_slice(), p.as_slice(), i);
    while i > 0 && !found
        invariant
            i <= len == s@.len(),
            found == occurs(s@, p@, i as int),
            last_before(s@, p@, len + 1) == last_before(s@, p@, i + 1),
        decreases i,
    {
        i = i - 1;
        found = occurs_at(s.as_slice(), p.as_slice(), i);
    }
    if !found {
        assert(last_before(s@, p@, 0) == -1);
        return None;
    }
    let rest: Vec<char> = part_of(s.as_slice(), i + p.len(), len);
    assert(rest@ =~= s@.skip(i + p@.len()));
    Some(text_of(rest.as_slice()))
}

/// Text without the `.txt` at its end, however often it stands there.
pub open spec fn without_txt(s: Seq<char>) -> Seq<char>
    decreases s.len(),
{
    if s.len() >= 4 && occurs(s, ".txt"@, s.len() - 4) {
        without_txt(s.take(s.len() - 4))
    } else {
        s
    }
}

/// The name of the built-in colour set that a skin refers to.
pub open spec fn colorset_name_of(value: Seq<char>) -> Option<Seq<char>> {
    match referred(value, "colorsets"@) {
        Some(name) => Some(without_txt(name)),
        None => None,
    }
}

/// The name of the built-in colour set that a skin refers to.
pub fn colorset_ref(value: &str) -> (name: Option<String>)
    ensures
        match name {
            Some(n) => colorset_name_of(value@) == Some(n@),
            None => colorset_name_of(value@) is None,
        },
{
    match builtin_ref(value, "colorsets") {
        Some(name) => {
            let s: Vec<char> = chars_of(name.as_str());
            let ext: Vec<char> = chars_of(".txt");
            proof {
                reveal_strlit(".txt");
            }
            let mut to: usize = s.len();
            assert(s@.take(to as int) =~= s@);
            let mut more: bool = true;
            while more && to >= 4
                invariant
                    to <= s@.len(),
                    ext@ == ".txt"@,
                    ext@.len() == 4,
                    without_txt(s@) == without_txt(s@.take(to as int)),
                    !more ==> without_txt(s@) == s@.take(to as int),
                decreases to, (if more { 1int } else { 0int }),
            {
                let ghost cur = s@.take(to as int);
                proof {
                    assert(cur.subrange(to - 4, to as int) =~= s@.subrange(to - 4, to as int));
                    assert(cur.take(to - 4) =~= s@.take(to - 4));
                }
                if occurs_at(s.as_slice(), ext.as_slice(), to - 4) {
                    to = to - 4;
                } else {
                    more = false;
                }
            }
            let t: Vec<char> = part_of(s.as_slice(), 0, to);
            assert(t@ =~= s@.take(to as int));
            Some(text_of(t.as_slice()))
        },
        None => None,
    }
}

/// A built-in colour set: its name in small letters, and its colours.
#[derive(Debug, Clone)]
pub struct NamedColors {
    pub name: String,
    pub colors: Vec<[u8; 3]>,
}

/// The texts among some values.
pub open spec fn texts_among(items: Seq<Json>) -> Seq<Seq<char>>
    decreases items.len(),
{
    if items.len() == 0 {
        Seq::empty()
    } else {
        match json_text(items.last()) {
            Some(s) => texts_among(items.drop_last()).push(s),
            None => texts_among(items.drop_last()),
        }
    }
}

/// The colour sets among the first `n` members of a table: those with at least one colour, each
/// under its name in small letters.
pub open spec fn sets_among(members: Seq<(Seq<char>, Json)>, n: nat) -> Seq<
    (Seq<char>, Seq<Seq<u8>>),
>
    decreases n,
{
    if n == 0 {
        Seq::empty()
    } else {
        let before = sets_among(members, (n - 1) as nat);
        let (name, value) = members[n - 1];
        match items_of(value) {
            Some(items) => {
                let colors = hex_colors(texts_among(items));
                if colors.len() == 0 {
                    before
                } else {
                    before.push((lowered(name), colors))
                }
            },
            None => before,
        }
    }
}

/// The colour sets of a table; none where it cannot be read or is no object.
pub open spec fn colorset_table(doc: Result<Json, Seq<char>>) -> Seq<(Seq<char>, Seq<Seq<u8>>)> {
    match doc {
        Ok(j) => match members_of(j) {
            Some(members) => sets_among(members, members.len()),
            None => Seq::empty(),
        },
        Err(_) => Seq::empty(),
    }
}

/// Colour sets as plain values.
pub open spec fn named_models(sets: Seq<NamedColors>) -> Seq<(Seq<char>, Seq<Seq<u8>>)> {
    Seq::new(sets.len(), |i: int| (sets[i].name@, channels(sets[i].colors@)))
}

fn read_colors(items: &Vec<serde_json::Value>) -> (colors: Vec<[u8; 3]>)
    ensures
        channels(colors@) == hex_colors(texts_among(all_json(items@))),
{
    let mut colors: Vec<[u8; 3]> = Vec::new();
    let mut i: usize = 0;
    let ghost all = all_json(items@);
    assert(channels(colors@) =~= hex_colors(texts_among(all.take(0))));
    while i < items.len()
        invariant
            i <= items@.len(),
            all == all_json(items@),
            channels(colors@) == hex_colors(texts_among(all.take(i as int))),
        decreases items@.len() - i,
    {
        let ghost before = channels(colors@);
        let ghost texts = texts_among(all.take(i as int));
        assert(all.take(i + 1).drop_last() =~= all.take(i as int));
        if let Some(s) = as_text(&items[i]) {
            assert(texts.push(s@).drop_last() =~= texts);
            if let Some(c) = parse_hex(s) {
                colors.push(c);
                assert(channels(colors@) =~= before.push(c@));
            }
        }
        i = i + 1;
    }
    assert(all.take(i as int) =~= all);
    colors
}

/// Reads the table of built-in colour sets. What cannot be read is left out.
pub fn read_colorsets(json: &str) -> (sets: Vec<NamedColors>)
    ensures
        named_models(sets@) == colorset_table(json_document(json@)),
{
    let mut sets: Vec<NamedColors> = Vec::new();
    assert(named_models(sets@) =~= Seq::empty());
    let doc: serde_json::Value = match parse_json(json) {
        Ok(doc) => doc,
        Err(_) => {
            return sets;
        },
    };
    let list: Vec<(String, &serde_json::Value)> = match as_members(&doc) {
        Some(list) => list,
        None => {
            return sets;
        },
    };
    let ghost members = all_members(list@);
    let mut i: usize = 0;
    while i < list.len()
        invariant
            i <= list@.len(),
            members == all_members(list@),
            named_models(sets@) == sets_among(members, i as nat),
        decreases list@.len() - i,
    {
        let ghost before = named_models(sets@);
        if let Some(items) = as_items(list[i].1) {
            let colors: Vec<[u8; 3]> = read_colors(items);
            assert(channels(colors@).len() == colors@.len());
            if colors.len() > 0 {
                let chars: Vec<char> = chars_of(list[i].0.as_str());
                let name: String = text_of(lowercase(chars.as_slice()).as_slice());
                let set: NamedColors = NamedColors { name, colors };
                sets.push(set);
                assert(named_models(sets@) =~= before.push((set.name@, channels(set.colors@))));
            }
        }
        i = i + 1;
    }
    sets
}

/// The colours of the last set with a name, whatever the case of its letters.
pub open spec fn colors_named(
    sets: Seq<(Seq<char>, Seq<Seq<u8>>)>,
    name: Seq<char>,
) -> Option<Seq<Seq<u8>>>
    decreases sets.len(),
{
    if sets.len() == 0 {
        None
    } else if sets.last().0 == lowered(name) {
        Some(sets.last().1)
    } else {
        colors_named(sets.drop_last(), name)
    }
}

/// The colours of a built-in set, whatever the case of the letters in its name.
pub fn colorset<'a>(sets: &'a [NamedColors], name: &str) -> (colors: Option<&'a Vec<[u8; 3]>>)
    ensures
        match colors {
            Some(c) => colors_named(named_models(sets@), name@) == Some(channels(c@)),
            None => colors_named(named_models(sets@), name@) is None,
        },
{
    let chars: Vec<char> = chars_of(name);
    let wanted: Vec<char> = lowercase(chars.as_slice());
    let ghost all = named_models(sets@);
    let mut i: usize = sets.len();
    assert(all.take(i as int) =~= all);
    while i > 0
        invariant
            i <= sets@.len(),
            wanted@ == lowered(name@),
            all == named_models(sets@),
            colors_named(all, name@) == colors_named(all.take(i as int), name@),
        decreases i,
    {
        let have: Vec<char> = chars_of(sets[i - 1].name.as_str());
        assert(all.take(i as int).drop_last() =~= all.take(i - 1));
        assert(all.take(i as int).last() == all[i - 1]);
        if same_chars(have.as_slice(), wanted.as_slice()) {
            return Some(&sets[i - 1].colors);
        }
        i = i - 1;
    }
    None
}

/// The built-in files that a skin asks for.
#[derive(Debug, Clone)]
pub struct BuiltinRequests {
    /// Whether the overlay font is missing.
    pub font: bool,
    /// Whether the mod icons are missing.
    pub icons: bool,
    /// File under `notes`.
    pub note: Option<String>,
    /// File under `borders`.
    pub border: Option<String>,
    /// File under `cursors`.
    pub cursor: Option<String>,
}

/// The built-in files that were found.
#[derive(Debug, Clone)]
pub struct BuiltinFiles {
    pub font: Option<Vec<u8>>,
    pub icons: Vec<(String, Vec<u8>)>,
    pub note: Option<Vec<u8>>,
    pub border: Option<Vec<u8>>,
    pub cursor: Option<Vec<u8>>,
}

/// The file that a skin asks for: none where it brings its own picture or refers to no built-in
/// one.
pub open spec fn asked(own: Option<Vec<u8>>, value: Seq<char>, category: Seq<char>) -> Option<
    Seq<char>,
> {
    match own {
        Some(_) => None,
        None => referred(value, category),
    }
}

/// A text that may be missing, as plain values.
pub open spec fn text_in(s: Option<String>) -> Option<Seq<char>> {
    match s {
        Some(s) => Some(s@),
        None => None,
    }
}

/// The colours of a skin once built-in sets are known: its own, or those of the set that it
/// refers to.
pub open spec fn resolved_colors(
    own: Seq<Seq<u8>>,
    value: Seq<char>,
    sets: Seq<(Seq<char>, Seq<Seq<u8>>)>,
) -> Seq<Seq<u8>> {
    if own.len() > 0 {
        own
    } else {
        match colorset_name_of(value) {
            Some(name) => match colors_named(sets, name) {
                Some(colors) => colors,
                None => own,
            },
            None => own,
        }
    }
}

/// A picture of a skin once built-in files are known: its own, the file that was found where it
/// refers to one, or none.
pub open spec fn resolved_picture(
    own: Option<Vec<u8>>,
    value: Seq<char>,
    category: Seq<char>,
    found: Option<Vec<u8>>,
) -> Option<Vec<u8>> {
    match asked(own, value, category) {
        Some(_) => found,
        None => own,
    }
}

fn ask(own: &Option<Vec<u8>>, value: &str, category: &str) -> (file: Option<String>)
    ensures
        text_in(file) == asked(*own, value@, category@),
{
    match own {
        Some(_) => None,
        None => builtin_ref(value, category),
    }
}

fn fill(own: &mut Option<Vec<u8>>, value: &str, category: &str, found: Option<Vec<u8>>)
    ensures
        *final(own) == resolved_picture(*old(own), value@, category@, found),
{
    if ask(own, value, category).is_some() {
        *own = found;
    }
}

fn fill_font(own: &mut Option<Vec<u8>>, found: Option<Vec<u8>>)
    ensures
        *final(own) == (if *old(own) is None {
            found
        } else {
            *old(own)
        }),
{
    if own.is_none() {
        *own = found;
    }
}

fn fill_icons(own: &mut Vec<(String, Vec<u8>)>, found: Vec<(String, Vec<u8>)>)
    ensures
        *final(own) == (if old(own)@.len() == 0 {
            found
        } else {
            *old(own)
        }),
{
    if own.len() == 0 {
        *own = found;
    }
}

fn fill_colors(own: &mut Vec<[u8; 3]>, value: &str, sets: &[NamedColors])
    ensures
        channels(final(own)@) == resolved_colors(
            channels(old(own)@),
            value@,
            named_models(sets@),
        ),
{
    if own.len() == 0 {
        if let Some(name) = colorset_ref(value) {
            if let Some(colors) = colorset(sets, name.as_str()) {
                *own = vstd::slice::slice_to_vec(colors.as_slice());
            }
        }
    }
}

impl SkinConfig {
    /// The built-in files that the skin asks for and did not bring.
    pub fn builtin_requests(&self) -> (r: BuiltinRequests)
        ensures
            r.font == (self.hud_font is None),
            r.icons == (self.mod_icons@.len() == 0),
            text_in(r.note) == asked(self.note_texture, self.note_skin_name@, "notes"@),
            text_in(r.border) == asked(self.border_texture, self.border_skin_name@, "borders"@),
            text_in(r.cursor) == asked(self.cursor_texture, self.cursor_skin_name@, "cursors"@),
    {
        BuiltinRequests {
            font: self.hud_font.is_none(),
            icons: self.mod_icons.len() == 0,
            note: ask(&self.note_texture, self.note_skin_name.as_str(), "notes"),
            border: ask(&self.border_texture, self.border_skin_name.as_str(), "borders"),
            cursor: ask(&self.cursor_texture, self.cursor_skin_name.as_str(), "cursors"),
        }
    }

    /// Fills in the colours and files that the skin refers to by name and did not bring. What
    /// it brought stays.
    pub fn resolve_builtins(&mut self, sets: &[NamedColors], found: BuiltinFiles)
        ensures
            channels(final(self).colorset@) == resolved_colors(
                channels(old(self).colorset@),
                old(self).colorset_name@,
                named_models(sets@),
            ),
            final(self).hud_font == (if old(self).hud_font is None {
                found.font
            } else {
                old(self).hud_font
            }),
            final(self).mod_icons == (if old(self).mod_icons@.len() == 0 {
                found.icons
            } else {
                old(self).mod_icons
            }),
            final(self).note_texture == resolved_picture(
                old(self).note_texture,
                old(self).note_skin_name@,
                "notes"@,
                found.note,
            ),
            final(self).border_texture == resolved_picture(
                old(self).border_texture,
                old(self).border_skin_name@,
                "borders"@,
                found.border,
            ),
            final(self).cursor_texture == resolved_picture(
                old(self).cursor_texture,
                old(self).cursor_skin_name@,
                "cursors"@,
                found.cursor,
            ),
            *final(self) == (SkinConfig {
                colorset: final(self).colorset,
                hud_font: final(self).hud_font,
                mod_icons: final(self).mod_icons,
                note_texture: final(self).note_texture,
                border_texture: final(self).border_texture,
                cursor_texture: final(self).cursor_texture,
                ..*old(self)
            }),
    {
        fill_colors(&mut self.colorset, self.colorset_name.as_str(), sets);
        fill_font(&mut self.hud_font, found.font);
        fill_icons(&mut self.mod_icons, found.icons);
        fill(&mut self.note_texture, self.note_skin_name.as_str(), "notes", found.note);
        fill(&mut self.border_texture, self.border_skin_name.as_str(), "borders", found.border);
        fill(&mut self.cursor_texture, self.cursor_skin_name.as_str(), "cursors", found.cursor);
    }
}

/// What a skin brings is never replaced, and once its files are found nothing is asked for again.
pub proof fn law_own_pictures_stay(
    own: Option<Vec<u8>>,
    value: Seq<char>,
    category: Seq<char>,
    found: Option<Vec<u8>>,
)
    ensures
        own is Some ==> resolved_picture(own, value, category, found) == own,
        found is Some ==> asked(
            resolved_picture(own, value, category, found),
            value,
            category,
        ) is None,
{
}

/// The digit of a number below sixteen.
pub open spec fn nibble(v: int) -> char {
    if v < 10 {
        (48 + v) as char
    } else {
        (87 + v) as char
    }
}

/// A colour written as six digits, with or without the sign before it, reads back as its red, its
/// green and its blue.
pub proof fn law_hex_colors_read_back(r: u8, g: u8, b: u8)
    ensures
        ({
            let h = seq![
                nibble(r as int / 16),
                nibble(r as int % 16),
                nibble(g as int / 16),
                nibble(g as int % 16),
                nibble(b as int / 16),
                nibble(b as int % 16),
            ];
            &&& hex_color(h) == Some(seq![r, g, b])
            &&& hex_color(seq!['#'] + h) == Some(seq![r, g, b])
        }),
{
    let h = seq![
        nibble(r as int / 16),
        nibble(r as int % 16),
        nibble(g as int / 16),
        nibble(g as int % 16),
        nibble(b as int / 16),
        nibble(b as int % 16),
    ];
    lemma_byte(r);
    lemma_byte(g);
    lemma_byte(b);
    lemma_six(h, r, g, b);
}

proof fn lemma_byte(v: u8)
    ensures
        hex_byte(nibble(v as int / 16), nibble(v as int % 16)) == Some(v as int),
        nibble(v as int / 16) != '#',
        !is_white(nibble(v as int / 16)),
        !is_white(nibble(v as int % 16)),
{
    lemma_nibble(v as int / 16);
    lemma_nibble(v as int % 16);
}

proof fn lemma_six(h: Seq<char>, r: u8, g: u8, b: u8)
    requires
        h.len() == 6,
        h[0] != '#',
        !is_white(h[0]),
        !is_white(h[5]),
        hex_byte(h[0], h[1]) == Some(r as int),
        hex_byte(h[2], h[3]) == Some(g as int),
        hex_byte(h[4], h[5]) == Some(b as int),
    ensures
        hex_color(h) == Some(seq![r, g, b]),
        hex_color(seq!['#'] + h) == Some(seq![r, g, b]),
{
    lemma_bare(h);
    lemma_signed(h);
    let s = seq!['#'] + h;
    let c = seq![r, g, b];
    assert(without_signs(trimmed(h)) == h);
    assert(hex_color(h) == Some(seq![r as int as u8, g as int as u8, b as int as u8]));
    assert(without_signs(trimmed(s)) == h);
    assert(hex_color(s) == Some(seq![r as int as u8, g as int as u8, b as int as u8]));
    assert(seq![r as int as u8, g as int as u8, b as int as u8] =~= c);
}

proof fn lemma_bare(h: Seq<char>)
    requires
        h.len() > 0,
        h[0] != '#',
        !is_white(h[0]),
        !is_white(h[h.len() - 1]),
    ensures
        without_signs(trimmed(h)) == h,
{
    assert(trimmed(h) == h) by {
        law_trimming_takes_the_white_off(h);
    }
}

proof fn lemma_signed(h: Seq<char>)
    requires
        h.len() > 0,
        h[0] != '#',
        !is_white(h[h.len() - 1]),
    ensures
        without_signs(trimmed(seq!['#'] + h)) == h,
{
    let s = seq!['#'] + h;
    assert(s[0] == '#' && s[s.len() - 1] == h[h.len() - 1]);
    assert(!is_white('#'));
    assert(trimmed(s) == s) by {
        law_trimming_takes_the_white_off(s);
    }
    assert(s.drop_first() =~= h);
    assert(without_signs(s) == without_signs(h));
    assert(without_signs(h) == h);
}

proof fn lemma_nibble(v: int)
    requires
        0 <= v < 16,
    ensures
        hex_value(nibble(v)) == Some(v),
        nibble(v) != '#',
        !is_white(nibble(v)),
{
}

/// The colours of a set are found by its name however that is written, and a later set of a name
/// replaces an earlier one.
pub proof fn law_colors_are_found_by_name(
    sets: Seq<(Seq<char>, Seq<Seq<u8>>)>,
    name: Seq<char>,
    colors: Seq<Seq<u8>>,
    other: Seq<char>,
)
    requires
        lowered(other) != lowered(name),
    ensures
        colors_named(sets.push((lowered(name), colors)), name) == Some(colors),
        colors_named(sets.push((lowered(name), colors)), other) == colors_named(sets, other),
{
    let more = sets.push((lowered(name), colors));
    assert(more.drop_last() =~= sets);
    assert(more.last().0 == lowered(name));
}

} // verus!
