//! The words and colours of the overlay, the results screen and the score card.

use vstd::prelude::*;

use crate::calendar::{format_ticks, shows_moment, UNIX_EPOCH_TICKS};
use crate::config::Rgb8;
use crate::fixed::{greater, magnitude, ONE};
use crate::hud::{Grade, HudStats};
use crate::integrity::without_trailing_zeros;
use crate::number::law_written_numbers_read_back;
use crate::replay::{MapMeta, Replay};
use crate::text::{
    chars_of, decimal, digit, is_digit, occurs, occurs_at, padded, part_of, push_decimal,
    push_padded, push_rounded, rounded, same_text, ten_to, text_of,
};

verus! {

/// A number with a comma between thousands.
pub open spec fn grouped(n: nat) -> Seq<char>
    decreases n,
{
    if n < 1000 {
        decimal(n)
    } else {
        grouped(n / 1000) + ","@ + padded(n % 1000, 3)
    }
}

/// A signed number with a comma between thousands.
pub open spec fn thousands_of(n: int) -> Seq<char> {
    if n < 0 {
        "-"@ + grouped((-n) as nat)
    } else {
        grouped(n as nat)
    }
}

fn push_grouped(out: &mut String, n: u64)
    ensures
        final(out)@ == old(out)@ + grouped(n as nat),
    decreases n,
{
    if n < 1000 {
        push_decimal(out, n as u128);
    } else {
        push_grouped(out, n / 1000);
        out.append(",");
        push_padded(out, (n % 1000) as u128, 3);
        assert(out@ =~= old(out)@ + grouped(n as nat));
    }
}

/// A number with a comma between thousands.
pub fn thousands(n: i64) -> (s: String)
    requires
        n > i64::MIN,
    ensures
        s@ == thousands_of(n as int),
{
    let mut s: String = String::new();
    if n < 0 {
        s.append("-");
        push_grouped(&mut s, (-n) as u64);
    } else {
        push_grouped(&mut s, n as u64);
    }
    assert(s@ =~= thousands_of(n as int));
    s
}

/// A song time as minutes and seconds; 0 before the start.
pub open spec fn clock_of(ms: int) -> Seq<char> {
    let secs = greater(ms, 0) / 1_000_000_000;
    padded((secs / 60) as nat, 2) + ":"@ + padded((secs % 60) as nat, 2)
}

/// A song time as minutes and seconds.
pub fn clock(ms: i64) -> (s: String)
    ensures
        s@ == clock_of(ms as int),
{
    let secs: u64 = if ms > 0 {
        ms as u64 / 1_000_000_000
    } else {
        0
    };
    let mut s: String = String::new();
    push_padded(&mut s, (secs / 60) as u128, 2);
    s.append(":");
    push_padded(&mut s, (secs % 60) as u128, 2);
    assert(s@ =~= clock_of(ms as int));
    s
}

/// Text without a full stop at its end, however many stand there.
pub open spec fn without_stops(s: Seq<char>) -> Seq<char>
    decreases s.len(),
{
    if s.len() > 0 && s.last() == '.' {
        without_stops(s.drop_last())
    } else {
        s
    }
}

/// A percentage with two decimals, without the zeros at its end.
pub open spec fn percent_of(pct: int) -> Seq<char> {
    without_stops(without_trailing_zeros(rounded(pct, 1_000_000, 2))) + "%"@
}

/// A percentage with two decimals, without the zeros at its end.
pub fn percent_words(pct: i64) -> (s: String)
    ensures
        s@ == percent_of(pct as int),
{
    let mut full: String = String::new();
    push_rounded(&mut full, pct as i128, 1_000_000, 2);
    assert(full@ =~= rounded(pct as int, 1_000_000, 2));
    let chars: Vec<char> = chars_of(full.as_str());
    let mut to: usize = chars.len();
    assert(chars@.take(to as int) =~= chars@);
    while to > 0 && chars[to - 1] == '0'
        invariant
            to <= chars@.len(),
            without_trailing_zeros(chars@) == without_trailing_zeros(chars@.take(to as int)),
        decreases to,
    {
        assert(chars@.take(to as int).drop_last() =~= chars@.take(to - 1));
        to = to - 1;
    }
    let ghost cut = chars@.take(to as int);
    assert(without_trailing_zeros(chars@) == cut);
    assert(cut.take(to as int) =~= cut);
    while to > 0 && chars[to - 1] == '.'
        invariant
            to <= cut.len() <= chars@.len(),
            cut == chars@.take(cut.len() as int),
            without_stops(cut) == without_stops(chars@.take(to as int)),
        decreases to,
    {
        assert(chars@.take(to as int).drop_last() =~= chars@.take(to - 1));
        to = to - 1;
    }
    let short: Vec<char> = part_of(chars.as_slice(), 0, to);
    assert(short@ =~= chars@.take(to as int));
    let mut s: String = text_of(short.as_slice());
    s.append("%");
    s
}

/// The accuracy on the overlay: a dash until the first note is over.
pub open spec fn accuracy_of(stats: HudStats) -> Seq<char> {
    if stats.resolved == 0 {
        "--"@
    } else {
        percent_of(stats.accuracy_pct as int)
    }
}

/// The accuracy on the overlay.
pub fn accuracy_words(stats: &HudStats) -> (s: String)
    ensures
        s@ == accuracy_of(*stats),
{
    if stats.resolved == 0 {
        "--".to_owned()
    } else {
        percent_words(stats.accuracy_pct)
    }
}

/// The points on the overlay: a dash until the first note is over.
pub open spec fn points_of(stats: HudStats) -> Seq<char> {
    if stats.resolved == 0 {
        "--"@
    } else {
        rounded(stats.points as int, 1_000_000, 0)
    }
}

/// The points on the overlay.
pub fn points_words(stats: &HudStats) -> (s: String)
    ensures
        s@ == points_of(*stats),
{
    if stats.resolved == 0 {
        "--".to_owned()
    } else {
        whole_words(stats.points)
    }
}

fn whole_words(v: i64) -> (s: String)
    ensures
        s@ == rounded(v as int, 1_000_000, 0),
{
    let mut s: String = String::new();
    push_rounded(&mut s, v as i128, 1_000_000, 0);
    assert(s@ =~= rounded(v as int, 1_000_000, 0));
    s
}

/// A count in words.
pub fn count_words(n: u32) -> (s: String)
    ensures
        s@ == decimal(n as nat),
{
    let mut s: String = String::new();
    push_decimal(&mut s, n as u128);
    assert(s@ =~= decimal(n as nat));
    s
}

/// The notes on the overlay: hits over notes that are over.
pub fn notes_words(stats: &HudStats) -> (s: String)
    ensures
        s@ == decimal(stats.hits as nat) + "/"@ + decimal(stats.resolved as nat),
{
    let mut s: String = count_words(stats.hits);
    s.append("/");
    push_decimal(&mut s, stats.resolved as u128);
    s
}

/// The title line: who plays what.
pub open spec fn title_of(player: Seq<char>, song: Seq<char>) -> Seq<char> {
    if player.len() == 0 {
        song
    } else {
        "Watching "@ + player + " play "@ + song
    }
}

/// The title line.
pub fn title_words(player: &str, song: &str) -> (s: String)
    ensures
        s@ == title_of(player@, song@),
{
    let chars: Vec<char> = chars_of(player);
    if chars.len() == 0 {
        return song.to_owned();
    }
    let mut s: String = "Watching ".to_owned();
    s.append(player);
    s.append(" play ");
    s.append(song);
    s
}

/// The name of a difficulty: the mapper's own, or that of its number.
pub open spec fn difficulty_of(meta: MapMeta) -> Seq<char> {
    if meta.custom_difficulty_name@.len() > 0 {
        meta.custom_difficulty_name@
    } else if meta.difficulty == 1 {
        "Easy"@
    } else if meta.difficulty == 2 {
        "Medium"@
    } else if meta.difficulty == 3 {
        "Hard"@
    } else if meta.difficulty == 4 {
        "LOGIC?"@
    } else if meta.difficulty == 5 {
        "Tasukete"@
    } else {
        "N/A"@
    }
}

/// The difficulty line.
pub fn difficulty_words(meta: &MapMeta) -> (s: String)
    ensures
        s@ == "< "@ + difficulty_of(*meta) + " >"@,
{
    let own: Vec<char> = chars_of(meta.custom_difficulty_name.as_str());
    let mut s: String = "< ".to_owned();
    if own.len() > 0 {
        s.append(meta.custom_difficulty_name.as_str());
    } else if meta.difficulty == 1 {
        s.append("Easy");
    } else if meta.difficulty == 2 {
        s.append("Medium");
    } else if meta.difficulty == 3 {
        s.append("Hard");
    } else if meta.difficulty == 4 {
        s.append("LOGIC?");
    } else if meta.difficulty == 5 {
        s.append("Tasukete");
    } else {
        s.append("N/A");
    }
    s.append(" >");
    s
}

/// Names with commas between.
pub open spec fn listed(names: Seq<Seq<char>>) -> Seq<char>
    decreases names.len(),
{
    if names.len() == 0 {
        Seq::empty()
    } else if names.len() == 1 {
        names[0]
    } else {
        listed(names.drop_last()) + ", "@ + names.last()
    }
}

/// The mapper line.
pub fn mapper_words(mappers: &[String]) -> (s: String)
    ensures
        s@ == "by "@ + listed(crate::mods::texts(mappers@)),
{
    let ghost all = crate::mods::texts(mappers@);
    let mut s: String = "by ".to_owned();
    let mut i: usize = 0;
    assert(s@ =~= "by "@ + listed(all.take(0)));
    while i < mappers.len()
        invariant
            i <= mappers@.len(),
            all == crate::mods::texts(mappers@),
            s@ == "by "@ + listed(all.take(i as int)),
        decreases mappers@.len() - i,
    {
        assert(all.take(i + 1).drop_last() =~= all.take(i as int));
        assert(all.take(i + 1).last() == mappers@[i as int]@);
        if i > 0 {
            s.append(", ");
        }
        s.append(mappers[i].as_str());
        assert(s@ =~= "by "@ + listed(all.take(i + 1)));
        i = i + 1;
    }
    assert(all.take(i as int) =~= all);
    s
}

/// The line on who played and when.
pub open spec fn is_played_line(s: Seq<char>, player: Seq<char>, ticks: int) -> bool {
    exists|moment: Seq<char>| #[trigger]
        shows_moment(moment, ticks) && s == "Played by "@ + player + " on "@ + moment
}

/// The line on who played and when.
pub fn played_words(player: &str, ticks: i64) -> (s: String)
    requires
        ticks - UNIX_EPOCH_TICKS >= i64::MIN,
    ensures
        is_played_line(s@, player@, ticks as int),
{
    let moment: String = format_ticks(ticks);
    let mut s: String = "Played by ".to_owned();
    s.append(player);
    s.append(" on ");
    s.append(moment.as_str());
    assert(shows_moment(moment@, ticks as int));
    s
}

/// The mark of a playback speed.
#[derive(Debug, Clone, Copy, PartialEq, Eq, Structural)]
pub enum SpeedMark {
    /// The map's own speed.
    Plain,
    /// A ranked speed: so many steps up or down.
    Ranked { steps: u8, up: bool },
    /// Any other speed.
    Unranked,
}

/// Whether a speed is one of the ranked ones, to 0.005.
pub open spec fn close(speed: int, to: int) -> bool {
    magnitude(speed - to) < 5_000
}

/// The mark of a playback speed.
pub open spec fn mark_of(speed: int) -> SpeedMark {
    if close(speed, 1_000_000) {
        SpeedMark::Plain
    } else if close(speed, 870_000) {
        SpeedMark::Ranked { steps: 0, up: false }
    } else if close(speed, 800_000) {
        SpeedMark::Ranked { steps: 1, up: false }
    } else if close(speed, 750_000) {
        SpeedMark::Ranked { steps: 2, up: false }
    } else if close(speed, 1_150_000) {
        SpeedMark::Ranked { steps: 0, up: true }
    } else if close(speed, 1_250_000) {
        SpeedMark::Ranked { steps: 1, up: true }
    } else if close(speed, 1_350_000) {
        SpeedMark::Ranked { steps: 2, up: true }
    } else if close(speed, 1_450_000) {
        SpeedMark::Ranked { steps: 3, up: true }
    } else {
        SpeedMark::Unranked
    }
}

fn is_close(speed: i64, to: i64) -> (r: bool)
    requires
        0 <= to <= 2_000_000,
    ensures
        r == close(speed as int, to as int),
{
    speed < to + 5_000 && speed > to - 5_000
}

/// The mark of a playback speed.
pub fn speed_mark(speed: i64) -> (m: SpeedMark)
    ensures
        m == mark_of(speed as int),
{
    if is_close(speed, 1_000_000) {
        SpeedMark::Plain
    } else if is_close(speed, 870_000) {
        SpeedMark::Ranked { steps: 0, up: false }
    } else if is_close(speed, 800_000) {
        SpeedMark::Ranked { steps: 1, up: false }
    } else if is_close(speed, 750_000) {
        SpeedMark::Ranked { steps: 2, up: false }
    } else if is_close(speed, 1_150_000) {
        SpeedMark::Ranked { steps: 0, up: true }
    } else if is_close(speed, 1_250_000) {
        SpeedMark::Ranked { steps: 1, up: true }
    } else if is_close(speed, 1_350_000) {
        SpeedMark::Ranked { steps: 2, up: true }
    } else if is_close(speed, 1_450_000) {
        SpeedMark::Ranked { steps: 3, up: true }
    } else {
        SpeedMark::Unranked
    }
}

/// A colour in whole steps.
pub open spec fn ink(r: u8, g: u8, b: u8) -> Rgb8 {
    Rgb8 { r, g, b }
}

/// The colour of a step mark: green next to the sign, then orange, then red.
pub open spec fn dot_of(from_sign: int) -> Rgb8 {
    if from_sign <= 0 {
        ink(140, 200, 70)
    } else if from_sign == 1 {
        ink(235, 180, 60)
    } else {
        ink(225, 70, 60)
    }
}

/// The colour of step mark `i` of `steps`, counted from the letter.
pub fn dot_color(steps: u8, i: u8) -> (c: Rgb8)
    requires
        i < steps,
    ensures
        c == dot_of(steps - 1 - i),
{
    let from_sign: u8 = steps - 1 - i;
    if from_sign == 0 {
        Rgb8 { r: 140, g: 200, b: 70 }
    } else if from_sign == 1 {
        Rgb8 { r: 235, g: 180, b: 60 }
    } else {
        Rgb8 { r: 225, g: 70, b: 60 }
    }
}

/// The colour of a health.
pub open spec fn health_ink(h: int) -> Rgb8 {
    if h > 600_000 {
        ink(80, 200, 120)
    } else if h > 300_000 {
        ink(235, 180, 60)
    } else {
        ink(225, 90, 60)
    }
}

/// The colour of a health.
pub fn health_color(h: i64) -> (c: Rgb8)
    ensures
        c == health_ink(h as int),
{
    if h > 600_000 {
        Rgb8 { r: 80, g: 200, b: 120 }
    } else if h > 300_000 {
        Rgb8 { r: 235, g: 180, b: 60 }
    } else {
        Rgb8 { r: 225, g: 90, b: 60 }
    }
}

/// The letters of a run's grade: a failed one has its own.
pub open spec fn verdict_letters(failed: bool, grade: Grade) -> Seq<char> {
    if failed {
        "F"@
    } else {
        grade.letters()
    }
}

/// The colour of a run's grade.
pub open spec fn verdict_ink(failed: bool, grade: Grade) -> Rgb8 {
    if failed {
        ink(200, 40, 45)
    } else {
        ink(grade.paint()[0], grade.paint()[1], grade.paint()[2])
    }
}

/// The letters of a run's grade.
pub fn grade_letters(failed: bool, grade: Grade) -> (s: &'static str)
    ensures
        s@ == verdict_letters(failed, grade),
{
    if failed {
        "F"
    } else {
        grade.label()
    }
}

/// The colour of a run's grade.
pub fn grade_color(failed: bool, grade: Grade) -> (c: Rgb8)
    ensures
        c == verdict_ink(failed, grade),
{
    if failed {
        Rgb8 { r: 200, g: 40, b: 45 }
    } else {
        let c: [u8; 3] = grade.color();
        Rgb8 { r: c[0], g: c[1], b: c[2] }
    }
}

/// A label and its value.
#[derive(Debug, Clone)]
pub struct Row {
    pub label: String,
    pub value: String,
}

/// Labels and values as plain text.
pub open spec fn rows_view(rows: Seq<Row>) -> Seq<(Seq<char>, Seq<char>)> {
    Seq::new(rows.len(), |i: int| (rows[i].label@, rows[i].value@))
}

/// The statistics on the results screen.
pub open spec fn results_table(replay: Replay, stats: HudStats) -> Seq<(Seq<char>, Seq<char>)> {
    seq![
        ("Score"@, thousands_of(stats.score as int)),
        ("Accuracy"@, rounded(stats.accuracy_pct as int, 1_000_000, 2) + "%"@),
        ("Hits"@, decimal(stats.hits as nat)),
        ("Misses"@, decimal(stats.misses as nat)),
        ("RP"@, rounded(replay.points as int, 1_000_000, 0)),
    ] + (if replay.failed {
        seq![("Fail Time"@, clock_of(replay.fail_time_ms * ONE))]
    } else {
        Seq::empty()
    })
}

fn push_row(rows: &mut Vec<Row>, label: &str, value: String)
    ensures
        rows_view(final(rows)@) == rows_view(old(rows)@).push((label@, value@)),
{
    rows.push(Row { label: label.to_owned(), value });
    assert(rows_view(rows@) =~= rows_view(old(rows)@).push((label@, value@)));
}

/// The statistics on the results screen.
pub fn results_rows(replay: &Replay, stats: &HudStats) -> (rows: Vec<Row>)
    requires
        stats.score > i64::MIN,
    ensures
        rows_view(rows@) == results_table(*replay, *stats),
{
    let mut rows: Vec<Row> = Vec::new();
    let mut acc: String = String::new();
    push_rounded(&mut acc, stats.accuracy_pct as i128, 1_000_000, 2);
    acc.append("%");
    assert(acc@ =~= rounded(stats.accuracy_pct as int, 1_000_000, 2) + "%"@);
    push_row(&mut rows, "Score", thousands(stats.score));
    push_row(&mut rows, "Accuracy", acc);
    push_row(&mut rows, "Hits", count_words(stats.hits));
    push_row(&mut rows, "Misses", count_words(stats.misses));
    push_row(&mut rows, "RP", whole_words(replay.points));
    if replay.failed {
        push_row(&mut rows, "Fail Time", clock(replay.fail_time_ms as i64 * ONE));
    }
    assert(rows_view(rows@) =~= results_table(*replay, *stats));
    rows
}

/// The small numbers on the score card.
pub open spec fn card_table(replay: Replay, stats: HudStats) -> Seq<(Seq<char>, Seq<char>)> {
    seq![
        ("HITS"@, decimal(stats.hits as nat)),
        ("MISSES"@, decimal(stats.misses as nat)),
        ("SPEED"@, rounded(replay.speed as int, 1_000_000, 2) + "x"@),
    ] + (if replay.failed {
        seq![("FAILED AT"@, clock_of(replay.fail_time_ms * ONE))]
    } else if replay.points > 0 {
        seq![("RP"@, rounded(replay.points as int, 1_000_000, 0))]
    } else {
        Seq::empty()
    })
}

/// The small numbers on the score card.
pub fn card_cells(replay: &Replay, stats: &HudStats) -> (rows: Vec<Row>)
    ensures
        rows_view(rows@) == card_table(*replay, *stats),
{
    let mut rows: Vec<Row> = Vec::new();
    let mut speed: String = String::new();
    push_rounded(&mut speed, replay.speed as i128, 1_000_000, 2);
    speed.append("x");
    assert(speed@ =~= rounded(replay.speed as int, 1_000_000, 2) + "x"@);
    push_row(&mut rows, "HITS", count_words(stats.hits));
    push_row(&mut rows, "MISSES", count_words(stats.misses));
    push_row(&mut rows, "SPEED", speed);
    if replay.failed {
        push_row(&mut rows, "FAILED AT", clock(replay.fail_time_ms as i64 * ONE));
    } else if replay.points > 0 {
        push_row(&mut rows, "RP", whole_words(replay.points));
    }
    assert(rows_view(rows@) =~= card_table(*replay, *stats));
    rows
}

/// Whether a character is a bracket of a list.
pub open spec fn is_bracket(c: char) -> bool {
    c == '[' || c == ']'
}

/// Text without the brackets around it.
pub open spec fn unbracketed(s: Seq<char>) -> Seq<char>
    decreases s.len(),
{
    if s.len() > 0 && is_bracket(s[0]) {
        unbracketed(s.drop_first())
    } else if s.len() > 0 && is_bracket(s.last()) {
        unbracketed(s.drop_last())
    } else {
        s
    }
}

/// Text without quotes and blanks.
pub open spec fn unquoted(s: Seq<char>) -> Seq<char>
    decreases s.len(),
{
    if s.len() == 0 {
        s
    } else if s.last() == '"' || s.last() == ' ' {
        unquoted(s.drop_last())
    } else {
        unquoted(s.drop_last()).push(s.last())
    }
}

/// Text without the mark `mod_`, from one position on.
pub open spec fn unmarked(s: Seq<char>, from: int) -> Seq<char>
    decreases s.len() - from,
{
    if from < 0 || from >= s.len() {
        Seq::empty()
    } else if occurs(s, "mod_"@, from) && "mod_"@.len() > 0 {
        unmarked(s, from + "mod_"@.len())
    } else {
        seq![s[from]] + unmarked(s, from + 1)
    }
}

/// Text with two blanks in place of each comma.
pub open spec fn spaced(s: Seq<char>) -> Seq<char>
    decreases s.len(),
{
    if s.len() == 0 {
        s
    } else if s.last() == ',' {
        spaced(s.drop_last()) + "  "@
    } else {
        spaced(s.drop_last()).push(s.last())
    }
}

/// The mods of a run in a row, from their list.
pub open spec fn mods_in_a_row(mods: Seq<char>) -> Seq<char> {
    spaced(unmarked(unquoted(unbracketed(mods)), 0))
}

/// The mods of a run in a row, from their list.
pub fn mods_row(mods: &str) -> (s: String)
    ensures
        s@ == mods_in_a_row(mods@),
{
    let all: Vec<char> = chars_of(mods);
    let len: usize = all.len();
    let mut from: usize = 0;
    let mut to: usize = len;
    assert(all@.subrange(0, len as int) =~= all@);
    while from < to && (all[from] == '[' || all[from] == ']')
        invariant
            from <= to == len == all@.len(),
            unbracketed(all@) == unbracketed(all@.subrange(from as int, to as int)),
        decreases to - from,
    {
        assert(all@.subrange(from as int, to as int).drop_first() =~= all@.subrange(
            from + 1,
            to as int,
        ));
        from = from + 1;
    }
    while from < to && (all[to - 1] == '[' || all[to - 1] == ']')
        invariant
            from <= to <= len == all@.len(),
            from < to ==> !is_bracket(all@[from as int]),
            unbracketed(all@) == unbracketed(all@.subrange(from as int, to as int)),
        decreases to - from,
    {
        assert(all@.subrange(from as int, to as int).drop_last() =~= all@.subrange(
            from as int,
            to - 1,
        ));
        to = to - 1;
    }
    let ghost inner = all@.subrange(from as int, to as int);
    assert(unbracketed(all@) == inner);
    let mut plain: Vec<char> = Vec::new();
    let mut i: usize = from;
    assert(inner.take(0) =~= Seq::empty());
    while i < to
        invariant
            from <= i <= to <= all@.len(),
            inner == all@.subrange(from as int, to as int),
            plain@ == unquoted(inner.take(i - from)),
        decreases to - i,
    {
        assert(inner.take(i + 1 - from).drop_last() =~= inner.take(i - from));
        if all[i] != '"' && all[i] != ' ' {
            plain.push(all[i]);
        }
        i = i + 1;
    }
    assert(inner.take(to - from) =~= inner);
    let mark: Vec<char> = chars_of("mod_");
    proof {
        reveal_strlit("mod_");
        assert(mark@.len() == 4);
    }
    let mut bare: Vec<char> = Vec::new();
    let n: usize = plain.len();
    let mut i: usize = 0;
    assert(bare@ + unmarked(plain@, 0) =~= unmarked(plain@, 0));
    while i < n
        invariant
            i <= n == plain@.len(),
            mark@ == "mod_"@,
            mark@.len() == 4,
            bare@ + unmarked(plain@, i as int) == unmarked(plain@, 0),
        decreases n - i,
    {
        if occurs_at(plain.as_slice(), mark.as_slice(), i) {
            i = i + 4;
        } else {
            let ghost rest = unmarked(plain@, i + 1);
            let ghost before = bare@;
            bare.push(plain[i]);
            assert(before + (seq![plain@[i as int]] + rest) =~= bare@ + rest);
            i = i + 1;
        }
    }
    assert(bare@ =~= unmarked(plain@, 0));
    let mut s: String = String::new();
    let mut i: usize = 0;
    assert(bare@.take(0) =~= Seq::empty());
    while i < bare.len()
        invariant
            i <= bare@.len(),
            s@ == spaced(bare@.take(i as int)),
        decreases bare@.len() - i,
    {
        assert(bare@.take(i + 1).drop_last() =~= bare@.take(i as int));
        if bare[i] == ',' {
            s.append("  ");
        } else {
            s.push(bare[i]);
        }
        i = i + 1;
    }
    assert(bare@.take(i as int) =~= bare@);
    s
}

/// What `str::to_uppercase` of std makes of a text.
pub uninterp spec fn uppercase_of(s: Seq<char>) -> Seq<char>;

/// `str::to_uppercase` of std writes a text in capital letters. It follows the Unicode tables and
/// depends on the text alone; of plain Latin letters it makes their capitals, one for one.
#[verifier::external_body]
fn uppercase(s: &str) -> (t: String)
    ensures
        t@ == uppercase_of(s@),
        (forall|i: int| 0 <= i < s@.len() ==> (#[trigger] s@[i] as int) < 128) ==> t@ == Seq::new(
            s@.len(),
            |i: int|
                if 'a' <= s@[i] && s@[i] <= 'z' {
                    (s@[i] as int - 32) as char
                } else {
                    s@[i]
                },
        ),
{
    s.to_uppercase()
}

/// Whether the mods are written out on the results screen: only where no icons show them.
pub open spec fn writes_mods(mods: Seq<char>, icons_shown: bool) -> bool {
    !icons_shown && mods.len() > 0 && mods != "[]"@
}

/// The mods as the results screen writes them; none where it does not.
pub fn mods_words(mods: &str, icons_shown: bool) -> (s: Option<String>)
    ensures
        match s {
            Some(t) => writes_mods(mods@, icons_shown) && t@ == uppercase_of(mods_in_a_row(mods@)),
            None => !writes_mods(mods@, icons_shown),
        },
{
    let chars: Vec<char> = chars_of(mods);
    if icons_shown || chars.len() == 0 || same_text(mods, "[]") {
        return None;
    }
    Some(uppercase(mods_row(mods).as_str()))
}

/// Grouping a number puts commas between its digits and changes none of them.
#[verifier::spinoff_prover]
#[verifier::rlimit(60)]
pub proof fn law_grouping_keeps_the_digits(n: nat)
    ensures
        grouped(n).filter(|c: char| c != ',') == decimal(n),
        n < 1000 ==> grouped(n) == decimal(n),
        n >= 1000 ==> grouped(n).len() > 4 && grouped(n)[grouped(n).len() - 4] == ',',
    decreases n,
{
    let keep = |c: char| c != ',';
    if n < 1000 {
        law_written_numbers_read_back(n, 0, 0);
        lemma_nothing_to_drop(decimal(n), keep);
    } else {
        let (a, b) = (n / 1000, n % 1000);
        law_grouping_keeps_the_digits(a);
        let (g, p) = (grouped(a), padded(b, 3));
        assert(ten_to(3) == 1000) by {
            reveal_with_fuel(ten_to, 4);
        }
        law_written_numbers_read_back(b, 0, 3);
        law_written_numbers_read_back(a, 0, 0);
        lemma_nothing_to_drop(p, keep);
        reveal_strlit(",");
        let comma = ","@;
        assert(comma.filter(keep) =~= Seq::<char>::empty()) by {
            reveal(Seq::filter);
            assert(comma.last() == ',');
            assert(comma.drop_last() =~= Seq::<char>::empty());
            assert(comma.drop_last().filter(keep) =~= Seq::<char>::empty());
        }
        Seq::filter_distributes_over_add(g + comma, p, keep);
        Seq::filter_distributes_over_add(g, comma, keep);
        lemma_three_more_digits(n);
        assert(grouped(n).filter(keep) =~= decimal(a) + p);
        lemma_grouped_is_there(a);
    }
}

proof fn lemma_grouped_is_there(n: nat)
    ensures
        grouped(n).len() > 0,
    decreases n,
{
    if n < 1000 {
        law_written_numbers_read_back(n, 0, 1);
        assert(decimal(n).len() > 0);
    }
}

proof fn lemma_nothing_to_drop(s: Seq<char>, keep: spec_fn(char) -> bool)
    requires
        forall|i: int| 0 <= i < s.len() ==> is_digit(#[trigger] s[i]),
        forall|c: char| is_digit(c) ==> #[trigger] keep(c),
    ensures
        s.filter(keep) == s,
    decreases s.len(),
{
    reveal(Seq::filter);
    if s.len() > 0 {
        lemma_nothing_to_drop(s.drop_last(), keep);
        assert(is_digit(s[s.len() - 1]));
        assert(s.drop_last().push(s.last()) =~= s);
    }
}

proof fn lemma_three_more_digits(n: nat)
    requires
        n >= 1000,
    ensures
        decimal(n) == decimal(n / 1000) + padded(n % 1000, 3),
{
    let (x, y, z) = (n % 10, n / 10 % 10, n / 100 % 10);
    let b = n % 1000;
    assert(n / 10 / 10 == n / 100 && n / 100 / 10 == n / 1000);
    assert(b % 10 == x && b / 10 % 10 == y && b / 100 == z && b / 10 / 10 == z);
    let d = decimal(n / 1000);
    assert(decimal(n / 100) == d.push(digit(z as int)));
    assert(decimal(n / 10) == decimal(n / 100).push(digit(y as int)));
    assert(decimal(n) == decimal(n / 10).push(digit(x as int)));
    let p = padded(b, 3);
    assert(p =~= seq![digit(z as int), digit(y as int), digit(x as int)]) by {
        reveal_with_fuel(decimal, 4);
        assert(digit(0) == '0');
        if b < 10 {
            assert(decimal(b) =~= seq![digit(x as int)]);
        } else if b < 100 {
            assert(decimal(b / 10) =~= seq![digit(y as int)]);
            assert(decimal(b) =~= seq![digit(y as int), digit(x as int)]);
        } else {
            assert(decimal(b / 10 / 10) =~= seq![digit(z as int)]);
            assert(decimal(b / 10) =~= seq![digit(z as int), digit(y as int)]);
            assert(decimal(b) =~= seq![digit(z as int), digit(y as int), digit(x as int)]);
        }
    }
    assert(decimal(n) =~= d + p);
}

/// A clock shows whole minutes and the seconds beyond them, and stands at zero before the start.
pub proof fn law_clocks_show_minutes_and_seconds(minutes: int, seconds: int, rest: int)
    requires
        minutes >= 0,
        0 <= seconds < 60,
        0 <= rest < 1_000_000_000,
    ensures
        clock_of((60 * minutes + seconds) * 1_000_000_000 + rest) == padded(minutes as nat, 2)
            + ":"@ + padded(seconds as nat, 2),
        clock_of(-rest) == clock_of(0),
{
    let t = (60 * minutes + seconds) * 1_000_000_000 + rest;
    assert(t / 1_000_000_000 == 60 * minutes + seconds);
}

/// A speed mark points up for faster play and down for slower, with more steps the further the speed
/// is from the normal one; the normal speed has none.
pub proof fn law_marks_point_where_the_speed_goes(speed: int, other: int)
    ensures
        mark_of(1_000_000) is Plain,
        mark_of(speed) is Plain <==> 995_000 < speed < 1_005_000,
        mark_of(speed) matches SpeedMark::Ranked { steps, up } ==> {
            &&& up <==> speed > 1_000_000
            &&& mark_of(other) matches SpeedMark::Ranked { steps: more, up: same } ==> up == same
                && more > steps ==> if up {
                other > speed
            } else {
                other < speed
            }
        },
{
}

/// What is left of a mod list has no brackets around it, no quotes, no spaces and, once it is laid
/// out, no commas.
pub proof fn law_mod_rows_hold_names_only(s: Seq<char>)
    ensures
        forall|i: int|
            0 <= i < unquoted(s).len() ==> (#[trigger] unquoted(s)[i]) != '"' && unquoted(s)[i]
                != ' ',
        forall|i: int| 0 <= i < spaced(s).len() ==> (#[trigger] spaced(s)[i]) != ',',
    decreases s.len(),
{
    if s.len() > 0 {
        let r = s.drop_last();
        law_mod_rows_hold_names_only(r);
        assert forall|i: int| 0 <= i < unquoted(s).len() implies (#[trigger] unquoted(s)[i]) != '"'
            && unquoted(s)[i] != ' ' by {
            if i < unquoted(r).len() {
                assert(unquoted(s)[i] == unquoted(r)[i]);
            }
        }
        assert forall|i: int| 0 <= i < spaced(s).len() implies (#[trigger] spaced(s)[i]) != ',' by {
            reveal_strlit("  ");
            if i < spaced(r).len() {
                assert(spaced(s)[i] == spaced(r)[i]);
            }
        }
    }
}

} // verus!
