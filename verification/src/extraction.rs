//! Which of the entries of an executable become files, and which become colour sets.

use vstd::prelude::*;
use vstd::utf8::{decode_utf8, valid_utf8};

use crate::exe_assets::{
    base_from, entry_models, locate_blob_base, png_offsets, png_signature, scan_entries, scanned,
    Entry, EntryModel, MAX_COLORSET_LINES, MAX_TOTAL_BYTES,
};
use crate::text::{
    begins, byte_len, chars_of, contains, ends, ends_with, find_char, holds, index_from, lines_of,
    part_of, same_text, split_lines, starts_with, text_of, trim, trimmed, utf8_len,
};

verus! {

/// A text behind a prefix.
pub open spec fn behind(s: Seq<char>, prefix: Seq<char>) -> Seq<char> {
    s.skip(prefix.len() as int)
}

/// The folder and file of a skin texture: what stands before and behind the first dot. With
/// a single dot there is no folder.
pub open spec fn game_route(game: Seq<char>) -> Option<(Seq<char>, Seq<char>)> {
    let dot = index_from(game, '.', 0);
    let file = game.skip(dot + 1);
    if dot == game.len() {
        None
    } else if index_from(file, '.', 0) < file.len() {
        Some((game.take(dot), file))
    } else {
        Some((Seq::empty(), game))
    }
}

/// The folder and file that a resource goes to; none for resources without a use.
pub open spec fn route(name: Seq<char>) -> Option<(Seq<char>, Seq<char>)> {
    let rest = behind(name, "Rhythia.Resources."@);
    if !begins(name, "Rhythia.Resources."@) {
        None
    } else if begins(rest, "Textures.Game."@) {
        game_route(behind(rest, "Textures.Game."@))
    } else if begins(rest, "Shaders."@) {
        Some(("shaders"@, behind(rest, "Shaders."@)))
    } else if begins(rest, "Sounds.default_hits."@) {
        Some(("sounds"@, behind(rest, "Sounds.default_hits."@)))
    } else if begins(rest, "Sounds.default_misses."@) {
        Some(("sounds"@, behind(rest, "Sounds.default_misses."@)))
    } else if rest == "Sounds.hit.wav"@ {
        Some(("sounds"@, "hit.wav"@))
    } else if begins(rest, "Textures.Menu.mods."@) {
        Some(("mods"@, behind(rest, "Textures.Menu.mods."@)))
    } else if rest == "Fonts.default.ttf"@ {
        Some(("fonts"@, "default.ttf"@))
    } else if rest == "Fonts.default2.ttf"@ {
        Some(("fonts"@, "default2.ttf"@))
    } else {
        None
    }
}

/// Takes a prefix off.
pub fn strip_prefix(s: &[char], prefix: &str) -> (rest: Option<Vec<char>>)
    ensures
        rest is Some == begins(s@, prefix@),
        rest is Some ==> rest->0@ == behind(s@, prefix@),
{
    let p: Vec<char> = chars_of(prefix);
    if starts_with(s, prefix) {
        let rest: Vec<char> = part_of(s, p.len(), s.len());
        assert(rest@ =~= behind(s@, prefix@));
        Some(rest)
    } else {
        None
    }
}

/// Whether an optional route is the given one.
pub open spec fn routed(
    r: Option<(String, String)>,
    to: Option<(Seq<char>, Seq<char>)>,
) -> bool {
    match (r, to) {
        (Some((category, file)), Some((c, f))) => category@ == c && file@ == f,
        (None, None) => true,
        _ => false,
    }
}

fn route_game(game: &[char]) -> (r: Option<(String, String)>)
    ensures
        routed(r, game_route(game@)),
{
    let dot: usize = find_char(game, '.', 0);
    if dot == game.len() {
        return None;
    }
    let category: Vec<char> = part_of(game, 0, dot);
    let file: Vec<char> = part_of(game, dot + 1, game.len());
    assert(category@ =~= game@.take(dot as int));
    assert(file@ =~= game@.skip(dot + 1));
    if find_char(file.as_slice(), '.', 0) < file.len() {
        Some((text_of(category.as_slice()), text_of(file.as_slice())))
    } else {
        Some((String::new(), text_of(game)))
    }
}

/// The folder and file that a resource goes to; none for resources without a use (menu art,
/// story music, the database schema).
pub fn route_name(name: &str) -> (r: Option<(String, String)>)
    ensures
        routed(r, route(name@)),
{
    let chars: Vec<char> = chars_of(name);
    let rest: Vec<char> = match strip_prefix(chars.as_slice(), "Rhythia.Resources.") {
        Some(rest) => rest,
        None => {
            return None;
        },
    };
    if let Some(game) = strip_prefix(rest.as_slice(), "Textures.Game.") {
        return route_game(game.as_slice());
    }
    if let Some(f) = strip_prefix(rest.as_slice(), "Shaders.") {
        return Some(("shaders".to_owned(), text_of(f.as_slice())));
    }
    if let Some(f) = strip_prefix(rest.as_slice(), "Sounds.default_hits.") {
        return Some(("sounds".to_owned(), text_of(f.as_slice())));
    }
    if let Some(f) = strip_prefix(rest.as_slice(), "Sounds.default_misses.") {
        return Some(("sounds".to_owned(), text_of(f.as_slice())));
    }
    let text: String = text_of(rest.as_slice());
    if same_text(text.as_str(), "Sounds.hit.wav") {
        return Some(("sounds".to_owned(), "hit.wav".to_owned()));
    }
    if let Some(f) = strip_prefix(rest.as_slice(), "Textures.Menu.mods.") {
        return Some(("mods".to_owned(), text_of(f.as_slice())));
    }
    if same_text(text.as_str(), "Fonts.default.ttf") {
        return Some(("fonts".to_owned(), "default.ttf".to_owned()));
    }
    if same_text(text.as_str(), "Fonts.default2.ttf") {
        return Some(("fonts".to_owned(), "default2.ttf".to_owned()));
    }
    None
}

/// Whether a character is a control code.
pub open spec fn is_control(c: char) -> bool {
    let u = c as u32;
    u <= 0x1f || 0x7f <= u <= 0x9f
}

/// Whether a text may name a file or a folder: not empty, without separators, without a step
/// up, and without control codes.
pub open spec fn sane(s: Seq<char>) -> bool {
    &&& s.len() > 0
    &&& forall|i: int|
        0 <= i < s.len() ==> #[trigger] s[i] != '/' && s[i] != '\\' && !is_control(s[i])
    &&& !holds(s, ".."@)
}

/// Whether a text may name a file or a folder.
pub fn sane_component(s: &str) -> (r: bool)
    ensures
        r == sane(s@),
{
    let chars: Vec<char> = chars_of(s);
    if chars.len() == 0 || contains(chars.as_slice(), "..") {
        return false;
    }
    let mut i: usize = 0;
    while i < chars.len()
        invariant
            i <= chars@.len(),
            chars@ == s@,
            forall|j: int|
                0 <= j < i ==> #[trigger] chars@[j] != '/' && chars@[j] != '\\' && !is_control(
                    chars@[j],
                ),
        decreases chars@.len() - i,
    {
        let c: char = chars[i];
        let u: u32 = c as u32;
        if c == '/' || c == '\\' || u <= 0x1f || (0x7f <= u && u <= 0x9f) {
            assert(chars@[i as int] == '/' || chars@[i as int] == '\\' || is_control(
                chars@[i as int],
            ));
            return false;
        }
        i = i + 1;
    }
    true
}

/// Whether a folder is one of those that skin textures have; the empty one is for files
/// without a folder.
pub open spec fn game_category(c: Seq<char>) -> bool {
    ||| c == "notes"@
    ||| c == "borders"@
    ||| c == "cursors"@
    ||| c == "ratings"@
    ||| c == "colorsets"@
    ||| c == ""@
}

/// Whether an entry with this name goes to a folder and file that are wanted.
pub open spec fn wanted(name: Seq<char>, category: Seq<char>, file: Seq<char>) -> bool {
    &&& category.len() == 0 || sane(category)
    &&& sane(file)
    &&& !holds(name, ".Textures.Game."@) || game_category(category)
}

fn is_wanted(name: &str, category: &str, file: &str) -> (r: bool)
    ensures
        r == wanted(name@, category@, file@),
{
    if (!category.is_empty() && !sane_component(category)) || !sane_component(file) {
        return false;
    }
    let chars: Vec<char> = chars_of(name);
    if !contains(chars.as_slice(), ".Textures.Game.") {
        return true;
    }
    same_text(category, "notes") || same_text(category, "borders") || same_text(category, "cursors")
        || same_text(category, "ratings") || same_text(category, "colorsets") || same_text(
        category,
        "",
    )
}

/// What `String::from_utf8_lossy` of std reads from bytes.
pub uninterp spec fn lossy_utf8(bytes: Seq<u8>) -> Seq<char>;

/// `String::from_utf8_lossy` of std reads bytes as text, with a replacement character for
/// what is not UTF-8. Valid UTF-8 is read as it is; beyond that the result depends on the
/// bytes alone.
#[verifier::external_body]
pub(crate) fn lossy_text(bytes: &[u8]) -> (text: String)
    ensures
        text@ == lossy_utf8(bytes@),
        valid_utf8(bytes@) ==> text@ == decode_utf8(bytes@),
{
    String::from_utf8_lossy(bytes).into_owned()
}

/// Whether a line is a colour: a number sign and, in all, seven or nine bytes.
pub open spec fn color_line(l: Seq<char>) -> bool {
    l.len() > 0 && l[0] == '#' && (utf8_len(l) == 7 || utf8_len(l) == 9)
}

/// The colours among some lines.
pub open spec fn colors_among(lines: Seq<Seq<char>>) -> Seq<Seq<char>>
    decreases lines.len(),
{
    if lines.len() == 0 {
        Seq::empty()
    } else if color_line(trimmed(lines.last())) {
        colors_among(lines.drop_last()).push(trimmed(lines.last()))
    } else {
        colors_among(lines.drop_last())
    }
}

/// The colours in the text of a colour set.
pub open spec fn colors_of(text: Seq<char>) -> Seq<Seq<char>> {
    colors_among(lines_of(text))
}

/// The texts of a list.
pub open spec fn views(list: Seq<String>) -> Seq<Seq<char>> {
    Seq::new(list.len(), |i: int| list[i]@)
}

/// The colours in the text of a colour set, one per line.
pub fn colors_in(text: &str) -> (colors: Vec<String>)
    ensures
        views(colors@) == colors_of(text@),
{
    let chars: Vec<char> = chars_of(text);
    let lines: Vec<Vec<char>> = split_lines(chars.as_slice());
    let ghost all = lines_of(text@);
    let mut colors: Vec<String> = Vec::new();
    let mut i: usize = 0;
    assert(views(colors@) =~= colors_among(all.take(0)));
    while i < lines.len()
        invariant
            i <= lines@.len(),
            all == crate::text::char_views(lines@),
            views(colors@) == colors_among(all.take(i as int)),
        decreases lines@.len() - i,
    {
        assert(all.take(i + 1).drop_last() =~= all.take(i as int));
        let ghost before = views(colors@);
        let line: Vec<char> = trim(lines[i].as_slice());
        if line.len() > 0 && line[0] == '#' {
            let n: u128 = byte_len(line.as_slice());
            if n == 7 || n == 9 {
                colors.push(text_of(line.as_slice()));
                assert(views(colors@) =~= before.push(trimmed(all[i as int])));
            }
        }
        i = i + 1;
    }
    assert(all.take(i as int) =~= all);
    colors
}

/// A file to write: where it goes, and where its bytes stand in the executable.
#[derive(Debug, Clone)]
pub struct Asset {
    /// Folder, empty for a file without one.
    pub category: String,
    /// File name.
    pub file: String,
    /// Start of the bytes.
    pub start: usize,
    /// Number of bytes.
    pub len: usize,
}

/// A colour set to write.
#[derive(Debug, Clone)]
pub struct Colorset {
    /// Name of the set.
    pub name: String,
    /// Its colours, in order.
    pub colors: Vec<String>,
}

/// Why an extraction stops.
#[derive(Debug, Clone, Copy, PartialEq, Eq, Structural)]
pub enum Refusal {
    /// The file holds no game resources.
    NoResources,
    /// The data of the resources was not found.
    NoData,
    /// The entries claim more bytes than all real ones have.
    TooLarge,
    /// The colour sets claim more colours than all real ones have.
    TooManyColors,
    /// No entry was usable.
    NothingUsable,
}

impl Refusal {
    /// The words of the refusal.
    pub open spec fn words(self) -> Seq<char> {
        match self {
            Refusal::NoResources => "no game resources found in this file — is it rhythia.exe?"@,
            Refusal::NoData =>
                "could not locate the resource data in this exe (unsupported game version?)"@,
            Refusal::TooLarge => "resource index claims implausibly large assets — refusing"@,
            Refusal::TooManyColors => "implausibly many colorset entries — refusing"@,
            Refusal::NothingUsable => "resource index found, but no usable skin assets in it"@,
        }
    }

    /// The words of the refusal.
    pub fn message(self) -> (s: &'static str)
        ensures
            s@ == self.words(),
    {
        match self {
            Refusal::NoResources => "no game resources found in this file — is it rhythia.exe?",
            Refusal::NoData =>
                "could not locate the resource data in this exe (unsupported game version?)",
            Refusal::TooLarge => "resource index claims implausibly large assets — refusing",
            Refusal::TooManyColors => "implausibly many colorset entries — refusing",
            Refusal::NothingUsable => "resource index found, but no usable skin assets in it",
        }
    }
}

/// What an extraction writes, in order, and why it stops early. Files that come before a
/// refusal are written; colour sets are written only without one.
#[derive(Debug, Clone)]
pub struct Extraction {
    /// Files to write.
    pub files: Vec<Asset>,
    /// Colour sets to write, all in one file.
    pub colorsets: Vec<Colorset>,
    /// Why the extraction failed, if it did.
    pub refusal: Option<Refusal>,
}

/// A file to write, as plain values.
pub struct AssetModel {
    pub category: Seq<char>,
    pub file: Seq<char>,
    pub start: int,
    pub len: int,
}

/// An extraction under way.
pub struct Plan {
    /// Folders and files met so far.
    pub seen: Seq<(Seq<char>, Seq<char>)>,
    /// Bytes claimed so far.
    pub budget: int,
    pub files: Seq<AssetModel>,
    /// Names and colours of the colour sets.
    pub sets: Seq<(Seq<char>, Seq<Seq<char>>)>,
    pub refusal: Option<Refusal>,
}

/// How many colours some sets have together.
pub open spec fn total_colors(sets: Seq<(Seq<char>, Seq<Seq<char>>)>) -> nat
    decreases sets.len(),
{
    if sets.len() == 0 {
        0
    } else {
        total_colors(sets.drop_last()) + sets.last().1.len()
    }
}

/// What the bytes of a wanted entry, which were not met before, add.
pub open spec fn placed(exe: Seq<u8>, base: int, plan: Plan, e: EntryModel, category: Seq<char>, file: Seq<char>) -> Plan {
    let start = base + e.offset;
    let bytes = exe.subrange(start, start + e.size);
    if start + e.size > exe.len() {
        plan
    } else if ends(file, ".png"@) && !begins(bytes, png_signature()) {
        plan
    } else if category == "colorsets"@ {
        let colors = colors_of(lossy_utf8(bytes));
        if !ends(file, ".txt"@) || colors.len() == 0 {
            plan
        } else if total_colors(plan.sets) + colors.len() > MAX_COLORSET_LINES {
            Plan { refusal: Some(Refusal::TooManyColors), ..plan }
        } else {
            Plan { sets: plan.sets.push((file.take(file.len() - 4), colors)), ..plan }
        }
    } else {
        Plan {
            files: plan.files.push(AssetModel { category, file, start, len: e.size }),
            ..plan
        }
    }
}

/// What one entry adds: nothing after a refusal, for unwanted entries, and for a folder and
/// file met before.
pub open spec fn with_entry(exe: Seq<u8>, base: int, plan: Plan, e: EntryModel) -> Plan {
    match route(e.name) {
        Some((category, file)) => {
            if plan.refusal is Some || !wanted(e.name, category, file) || plan.seen.contains(
                (category, file),
            ) {
                plan
            } else {
                let next = Plan {
                    seen: plan.seen.push((category, file)),
                    budget: plan.budget + e.size,
                    ..plan
                };
                if next.budget > MAX_TOTAL_BYTES {
                    Plan { refusal: Some(Refusal::TooLarge), ..next }
                } else {
                    placed(exe, base, next, e, category, file)
                }
            }
        },
        None => plan,
    }
}

/// The extraction after the first `n` entries.
pub open spec fn plan_after(exe: Seq<u8>, base: int, entries: Seq<EntryModel>, n: nat) -> Plan
    decreases n,
{
    if n == 0 {
        Plan {
            seen: Seq::empty(),
            budget: 0,
            files: Seq::empty(),
            sets: Seq::empty(),
            refusal: None,
        }
    } else {
        with_entry(exe, base, plan_after(exe, base, entries, (n - 1) as nat), entries[n - 1])
    }
}

/// An asset as plain values.
pub open spec fn asset_model(a: Asset) -> AssetModel {
    AssetModel {
        category: a.category@,
        file: a.file@,
        start: a.start as int,
        len: a.len as int,
    }
}

/// Assets as plain values.
pub open spec fn asset_models(list: Seq<Asset>) -> Seq<AssetModel> {
    Seq::new(list.len(), |i: int| asset_model(list[i]))
}

/// A colour set as plain values.
pub open spec fn set_model(c: Colorset) -> (Seq<char>, Seq<Seq<char>>) {
    (c.name@, views(c.colors@))
}

/// Colour sets as plain values.
pub open spec fn set_models(list: Seq<Colorset>) -> Seq<(Seq<char>, Seq<Seq<char>>)> {
    Seq::new(list.len(), |i: int| set_model(list[i]))
}

/// Whether an extraction is the given plan.
pub open spec fn follows(x: Extraction, plan: Plan) -> bool {
    &&& asset_models(x.files@) == plan.files
    &&& set_models(x.colorsets@) == plan.sets
    &&& x.refusal == if plan.refusal is None && plan.files.len() == 0 && plan.sets.len() == 0 {
        Some(Refusal::NothingUsable)
    } else {
        plan.refusal
    }
}

/// Folders and files as plain text.
spec fn pair_views(list: Seq<(String, String)>) -> Seq<(Seq<char>, Seq<char>)> {
    Seq::new(list.len(), |i: int| (list[i].0@, list[i].1@))
}

fn is_seen(seen: &Vec<(String, String)>, category: &str, file: &str) -> (r: bool)
    ensures
        r == pair_views(seen@).contains((category@, file@)),
{
    let mut i: usize = 0;
    while i < seen.len()
        invariant
            i <= seen@.len(),
            forall|j: int| 0 <= j < i ==> #[trigger] pair_views(seen@)[j] != (category@, file@),
        decreases seen@.len() - i,
    {
        let same_category: bool = same_text(seen[i].0.as_str(), category);
        let same_file: bool = same_text(seen[i].1.as_str(), file);
        if same_category && same_file {
            assert(pair_views(seen@)[i as int] == (category@, file@));
            return true;
        }
        i = i + 1;
    }
    false
}

fn has_png_signature(bytes: &[u8]) -> (r: bool)
    ensures
        r == begins(bytes@, png_signature()),
{
    if bytes.len() < 8 {
        return false;
    }
    let r: bool = bytes[0] == 0x89 && bytes[1] == 0x50 && bytes[2] == 0x4e && bytes[3] == 0x47
        && bytes[4] == 0x0d && bytes[5] == 0x0a && bytes[6] == 0x1a && bytes[7] == 0x0a;
    proof {
        let found = bytes@.subrange(0, 8);
        if r {
            assert(found =~= png_signature());
        } else if found == png_signature() {
            assert(found[0] == bytes@[0] && found[1] == bytes@[1] && found[2] == bytes@[2]
                && found[3] == bytes@[3] && found[4] == bytes@[4] && found[5] == bytes@[5]
                && found[6] == bytes@[6] && found[7] == bytes@[7]);
        }
    }
    r
}

/// An extraction under way.
struct Work {
    seen: Vec<(String, String)>,
    budget: u128,
    files: Vec<Asset>,
    colorsets: Vec<Colorset>,
    colors: usize,
    refusal: Option<Refusal>,
}

impl Work {
    spec fn plan(&self) -> Plan {
        Plan {
            seen: pair_views(self.seen@),
            budget: self.budget as int,
            files: asset_models(self.files@),
            sets: set_models(self.colorsets@),
            refusal: self.refusal,
        }
    }

    spec fn wf(&self) -> bool {
        &&& self.colors == total_colors(set_models(self.colorsets@))
        &&& self.colors <= MAX_COLORSET_LINES
        &&& self.refusal is None ==> self.budget <= MAX_TOTAL_BYTES
    }

    fn new() -> (w: Work)
        ensures
            w.wf(),
            w.plan() == plan_after(Seq::empty(), 0, Seq::empty(), 0),
    {
        let w: Work = Work {
            seen: Vec::new(),
            budget: 0,
            files: Vec::new(),
            colorsets: Vec::new(),
            colors: 0,
            refusal: None,
        };
        proof {
            assert(pair_views(w.seen@) =~= Seq::empty());
            assert(asset_models(w.files@) =~= Seq::empty());
            assert(set_models(w.colorsets@) =~= Seq::empty());
        }
        w
    }

    fn place(&mut self, exe: &[u8], base: u64, e: &Entry, category: String, file: String)
        requires
            old(self).wf(),
            old(self).refusal is None,
        ensures
            final(self).wf(),
            final(self).plan() == placed(
                exe@,
                base as int,
                old(self).plan(),
                e@,
                category@,
                file@,
            ),
    {
        let start: u128 = base as u128 + e.offset as u128;
        let end: u128 = start + e.size as u128;
        if end > exe.len() as u128 {
            return;
        }
        let start: usize = start as usize;
        let end: usize = end as usize;
        let bytes: &[u8] = vstd::slice::slice_subrange(exe, start, end);
        let chars: Vec<char> = chars_of(file.as_str());
        if ends_with(chars.as_slice(), ".png") && !has_png_signature(bytes) {
            return;
        }
        if same_text(category.as_str(), "colorsets") {
            if !ends_with(chars.as_slice(), ".txt") {
                return;
            }
            proof {
                reveal_strlit(".txt");
            }
            let text: String = lossy_text(bytes);
            let colors: Vec<String> = colors_in(text.as_str());
            assert(views(colors@) == colors_of(lossy_utf8(bytes@)));
            if colors.len() == 0 {
                return;
            }
            if colors.len() > MAX_COLORSET_LINES - self.colors {
                self.refusal = Some(Refusal::TooManyColors);
                return;
            }
            let name: Vec<char> = part_of(chars.as_slice(), 0, chars.len() - 4);
            assert(name@ =~= file@.take(file@.len() - 4));
            let count: usize = colors.len();
            let set: Colorset = Colorset { name: text_of(name.as_slice()), colors };
            let ghost before = set_models(self.colorsets@);
            self.colorsets.push(set);
            self.colors = self.colors + count;
            proof {
                assert(set_models(self.colorsets@) =~= before.push(set_model(set)));
                assert(set_models(self.colorsets@).drop_last() =~= before);
            }
        } else {
            let len: usize = end - start;
            let ghost before = asset_models(self.files@);
            let asset: Asset = Asset { category, file, start, len };
            self.files.push(asset);
            proof {
                assert(asset_models(self.files@) =~= before.push(asset_model(asset)));
            }
        }
    }

    fn take_entry(&mut self, exe: &[u8], base: u64, e: &Entry)
        requires
            old(self).wf(),
        ensures
            final(self).wf(),
            final(self).plan() == with_entry(exe@, base as int, old(self).plan(), e@),
    {
        if self.refusal.is_some() {
            return;
        }
        let (category, file) = match route_name(e.name.as_str()) {
            Some(pair) => pair,
            None => {
                return;
            },
        };
        if !is_wanted(e.name.as_str(), category.as_str(), file.as_str()) {
            return;
        }
        if is_seen(&self.seen, category.as_str(), file.as_str()) {
            return;
        }
        let ghost before = pair_views(self.seen@);
        self.seen.push((category.clone(), file.clone()));
        self.budget = self.budget + e.size as u128;
        proof {
            assert(pair_views(self.seen@) =~= before.push((category@, file@)));
        }
        if self.budget > MAX_TOTAL_BYTES as u128 {
            self.refusal = Some(Refusal::TooLarge);
            return;
        }
        self.place(exe, base, e, category, file);
    }
}

/// Plans an extraction from a list of entries whose data starts at `base`.
pub fn plan_extraction(exe: &[u8], base: u64, entries: &[Entry]) -> (x: Extraction)
    ensures
        follows(
            x,
            plan_after(exe@, base as int, entry_models(entries@), entries@.len()),
        ),
{
    let mut work: Work = Work::new();
    let mut i: usize = 0;
    let ghost models = entry_models(entries@);
    while i < entries.len()
        invariant
            i <= entries@.len(),
            models == entry_models(entries@),
            work.wf(),
            work.plan() == plan_after(exe@, base as int, models, i as nat),
        decreases entries@.len() - i,
    {
        work.take_entry(exe, base, &entries[i]);
        i = i + 1;
    }
    let mut refusal: Option<Refusal> = work.refusal;
    if refusal.is_none() && work.files.len() == 0 && work.colorsets.len() == 0 {
        refusal = Some(Refusal::NothingUsable);
    }
    Extraction { files: work.files, colorsets: work.colorsets, refusal }
}

/// Whether an extraction is that of an executable: refused without entries or without a base
/// for them, and planned otherwise.
pub open spec fn is_extraction(x: Extraction, exe: Seq<u8>) -> bool {
    let entries = scanned(exe);
    let base = base_from(exe, png_offsets(entries), 0, 0);
    if entries.len() == 0 {
        x.files@.len() == 0 && x.colorsets@.len() == 0 && x.refusal == Some(Refusal::NoResources)
    } else {
        match base {
            Some(b) => follows(x, plan_after(exe, b, entries, entries.len())),
            None => x.files@.len() == 0 && x.colorsets@.len() == 0 && x.refusal == Some(
                Refusal::NoData,
            ),
        }
    }
}

/// Plans the extraction of all skin assets from an executable.
pub fn extract(exe: &[u8]) -> (x: Extraction)
    ensures
        is_extraction(x, exe@),
{
    let entries: Vec<Entry> = scan_entries(exe);
    assert(entry_models(entries@).len() == entries@.len());
    if entries.len() == 0 {
        return Extraction {
            files: Vec::new(),
            colorsets: Vec::new(),
            refusal: Some(Refusal::NoResources),
        };
    }
    match locate_blob_base(exe, entries.as_slice()) {
        Some(base) => plan_extraction(exe, base, entries.as_slice()),
        None => Extraction {
            files: Vec::new(),
            colorsets: Vec::new(),
            refusal: Some(Refusal::NoData),
        },
    }
}

/// What `serde_json::to_string_pretty` writes for colour sets by name, or its error.
pub uninterp spec fn pretty_sets(sets: Seq<(Seq<char>, Seq<Seq<char>>)>) -> Result<
    Seq<char>,
    Seq<char>,
>;

/// `serde_json::to_string_pretty` on a map from the names of colour sets to their colours: the
/// text depends on the sets alone.
#[verifier::external_body]
pub(crate) fn write_pretty(sets: &[Colorset]) -> (r: Result<String, String>)
    ensures
        match r {
            Ok(text) => pretty_sets(set_models(sets@)) == Ok::<Seq<char>, Seq<char>>(text@),
            Err(why) => pretty_sets(set_models(sets@)) == Err::<Seq<char>, Seq<char>>(why@),
        },
{
    let map: std::collections::BTreeMap<&str, &Vec<String>> =
        sets.iter().map(|s| (s.name.as_str(), &s.colors)).collect();
    serde_json::to_string_pretty(&map).map_err(|e| e.to_string())
}

/// The file of the colour sets that were found: none where there are no sets.
pub fn colors_file(sets: &[Colorset]) -> (r: Result<Option<String>, String>)
    ensures
        match r {
            Ok(None) => sets@.len() == 0,
            Ok(Some(text)) => sets@.len() > 0 && pretty_sets(set_models(sets@)) == Ok::<
                Seq<char>,
                Seq<char>,
            >(text@),
            Err(why) => sets@.len() > 0 && pretty_sets(set_models(sets@)) == Err::<
                Seq<char>,
                Seq<char>,
            >(why@),
        },
{
    if sets.len() == 0 {
        return Ok(None);
    }
    match write_pretty(sets) {
        Ok(text) => Ok(Some(text)),
        Err(why) => Err(why),
    }
}

/// What holds of every plan: no folder and file twice, every file within the executable, and
/// the claims within their limits as long as nothing is refused.
pub open spec fn sound(plan: Plan, exe: Seq<u8>) -> bool {
    &&& forall|i: int|
        0 <= i < plan.files.len() ==> {
            let f = #[trigger] plan.files[i];
            &&& plan.seen.contains((f.category, f.file))
            &&& f.category.len() == 0 || sane(f.category)
            &&& sane(f.file)
            &&& f.start + f.len <= exe.len()
        }
    &&& forall|i: int, j: int|
        0 <= i < j < plan.files.len() ==> ((#[trigger] plan.files[i]).category, plan.files[i].file)
            != ((#[trigger] plan.files[j]).category, plan.files[j].file)
    &&& forall|i: int|
        0 <= i < plan.sets.len() ==> plan.seen.contains(
            ("colorsets"@, (#[trigger] plan.sets[i]).0 + ".txt"@),
        )
    &&& forall|i: int, j: int|
        0 <= i < j < plan.sets.len() ==> (#[trigger] plan.sets[i]).0 != (#[trigger] plan.sets[j]).0
    &&& total_colors(plan.sets) <= MAX_COLORSET_LINES
    &&& plan.refusal is None ==> plan.budget <= MAX_TOTAL_BYTES
}

/// Every file of a plan has a sane name, lies within the executable and is written once;
/// colour sets have distinct names; and neither bytes nor colours exceed their limits.
pub proof fn law_plan_is_sound(exe: Seq<u8>, base: int, entries: Seq<EntryModel>, n: nat)
    requires
        n <= entries.len(),
    ensures
        sound(plan_after(exe, base, entries, n), exe),
    decreases n,
{
    if n > 0 {
        law_plan_is_sound(exe, base, entries, (n - 1) as nat);
        lemma_entry_keeps_sound(
            exe,
            base,
            plan_after(exe, base, entries, (n - 1) as nat),
            entries[n - 1],
        );
    }
}

proof fn lemma_entry_keeps_sound(exe: Seq<u8>, base: int, plan: Plan, e: EntryModel)
    requires
        sound(plan, exe),
    ensures
        sound(with_entry(exe, base, plan, e), exe),
{
    let after = with_entry(exe, base, plan, e);
    if let Some((category, file)) = route(e.name) {
        if !(plan.refusal is Some || !wanted(e.name, category, file) || plan.seen.contains(
            (category, file),
        )) {
            let seen = plan.seen.push((category, file));
            assert(forall|p: (Seq<char>, Seq<char>)| plan.seen.contains(p) ==> seen.contains(p)) by {
                assert forall|p: (Seq<char>, Seq<char>)| plan.seen.contains(p) implies seen.contains(
                    p,
                ) by {
                    let k = choose|k: int| 0 <= k < plan.seen.len() && plan.seen[k] == p;
                    assert(seen[k] == p);
                }
            }
            assert(seen.contains((category, file))) by {
                assert(seen[plan.seen.len() as int] == (category, file));
            }
            assert(after.seen == seen);
            if after.sets.len() > plan.sets.len() {
                let name = file.take(file.len() - 4);
                reveal_strlit(".txt");
                assert(file =~= name + ".txt"@);
                assert(after.sets.last().0 == name);
                assert(after.sets.drop_last() =~= plan.sets);
                assert forall|i: int| 0 <= i < plan.sets.len() implies (
                #[trigger] after.sets[i]).0 != name by {
                    assert(after.sets[i] == plan.sets[i]);
                }
            } else {
                assert(after.sets == plan.sets);
            }
        }
    }
}

/// Every file that is taken out stands where an entry of its name says, as long as that says, and a
/// picture among them is one.
pub proof fn law_files_are_where_their_entries_say(
    exe: Seq<u8>,
    base: int,
    entries: Seq<EntryModel>,
    n: nat,
    i: int,
)
    requires
        n <= entries.len(),
        0 <= i < plan_after(exe, base, entries, n).files.len(),
    ensures
        is_from_an_entry(exe, base, entries, n, plan_after(exe, base, entries, n).files[i]),
    decreases n,
{
    if n > 0 {
        let m = (n - 1) as nat;
        let before = plan_after(exe, base, entries, m);
        let after = plan_after(exe, base, entries, n);
        let e = entries[n - 1];
        if i < before.files.len() {
            law_files_are_where_their_entries_say(exe, base, entries, m, i);
            assert(after.files[i] == before.files[i]);
            let f = before.files[i];
            let k = choose|k: int|
                0 <= k < m && route((#[trigger] entries[k]).name) == Some((f.category, f.file))
                    && f.start == base + entries[k].offset && f.len == entries[k].size;
            assert(route(entries[k].name) == Some((f.category, f.file)));
        } else {
            let f = after.files[i];
            assert(route(entries[n - 1].name) == Some((f.category, f.file)));
            assert(f.start == base + e.offset && f.len == e.size);
        }
    }
}

/// Whether a file is what an entry names.
pub open spec fn is_from_an_entry(
    exe: Seq<u8>,
    base: int,
    entries: Seq<EntryModel>,
    n: nat,
    f: AssetModel,
) -> bool {
    &&& f.start + f.len <= exe.len()
    &&& ends(f.file, ".png"@) ==> begins(exe.subrange(f.start, f.start + f.len), png_signature())
    &&& exists|k: int|
        0 <= k < n && route((#[trigger] entries[k]).name) == Some((f.category, f.file)) && f.start
            == base + entries[k].offset && f.len == entries[k].size
}

} // verus!
