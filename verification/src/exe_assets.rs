//! Finding the game's built-in skin assets in the player's own executable.
//!
//! The executable embeds managed resources. Their index stores each entry as the
//! resource name, with its length before it, followed by offset and size into one
//! contiguous blob. The position of the blob moves between game versions, so it is
//! calibrated: the entries named as PNG files all start with a PNG signature.

use vstd::prelude::*;
use vstd::utf8::{decode_utf8, encode_utf8, valid_utf8};

use crate::count::tally;
use crate::text::{chars_of, ends, ends_with, occurs};

verus! {

/// No embedded asset is anywhere near this large.
pub const MAX_ASSET_BYTES: u64 = 67_108_864;

/// More entries than any real executable has.
pub const MAX_ENTRIES: usize = 10_000;

/// Total extraction budget.
pub const MAX_TOTAL_BYTES: u64 = 268_435_456;

/// More colours than all real colour sets have together.
pub const MAX_COLORSET_LINES: usize = 100_000;

/// One resource entry of the index: name, offset in the blob, and size.
#[derive(Debug, Clone, PartialEq)]
pub struct Entry {
    /// Full resource name.
    pub name: String,
    /// Offset of the data from the start of the blob.
    pub offset: u64,
    /// Size of the data.
    pub size: u64,
}

/// An entry as plain text and numbers.
#[verifier::ext_equal]
pub struct EntryModel {
    pub name: Seq<char>,
    pub offset: int,
    pub size: int,
}

impl View for Entry {
    type V = EntryModel;

    open spec fn view(&self) -> EntryModel {
        EntryModel { name: self.name@, offset: self.offset as int, size: self.size as int }
    }
}

/// The entries of a list as plain text and numbers.
pub open spec fn entry_models(entries: Seq<Entry>) -> Seq<EntryModel> {
    Seq::new(entries.len(), |i: int| entries[i]@)
}

/// The unsigned integer at `pos` and the number of bytes it takes. The low bits of the
/// first byte say how many: none set for one byte, and one more for each further byte, up
/// to a plain little-endian word behind a full prefix.
pub open spec fn unsigned_at(data: Seq<u8>, pos: int) -> Option<(int, int)> {
    let left = data.len() - pos;
    let b0 = data[pos] as int;
    let b1 = data[pos + 1] as int;
    let b2 = data[pos + 2] as int;
    let b3 = data[pos + 3] as int;
    let b4 = data[pos + 4] as int;
    if pos < 0 || left < 1 {
        None
    } else if b0 % 2 == 0 {
        Some((b0 / 2, 1))
    } else if b0 % 4 == 1 {
        if left < 2 {
            None
        } else {
            Some((b0 / 4 + 0x40 * b1, 2))
        }
    } else if b0 % 8 == 3 {
        if left < 3 {
            None
        } else {
            Some((b0 / 8 + 0x20 * b1 + 0x2000 * b2, 3))
        }
    } else if b0 % 16 == 7 {
        if left < 4 {
            None
        } else {
            Some((b0 / 16 + 0x10 * b1 + 0x1000 * b2 + 0x10_0000 * b3, 4))
        }
    } else if left < 5 {
        None
    } else {
        Some((b1 + 0x100 * b2 + 0x1_0000 * b3 + 0x100_0000 * b4, 5))
    }
}

/// Decodes the unsigned integer at `pos`. Returns the value and the number of bytes that it
/// takes.
pub fn decode_unsigned(data: &[u8], pos: usize) -> (r: Option<(u64, usize)>)
    ensures
        r is Some == unsigned_at(data@, pos as int) is Some,
        match r {
            Some((value, used)) => {
                &&& unsigned_at(data@, pos as int) == Some((value as int, used as int))
                &&& value <= u32::MAX
                &&& 1 <= used <= 5
                &&& pos + used <= data@.len()
            },
            None => unsigned_at(data@, pos as int) is None,
        },
{
    if pos >= data.len() {
        return None;
    }
    let left: usize = data.len() - pos;
    let b0: u64 = data[pos] as u64;
    if b0 % 2 == 0 {
        return Some((b0 / 2, 1));
    }
    if b0 % 4 == 1 {
        if left < 2 {
            return None;
        }
        let b1: u64 = data[pos + 1] as u64;
        return Some((b0 / 4 + 0x40 * b1, 2));
    }
    if b0 % 8 == 3 {
        if left < 3 {
            return None;
        }
        let b1: u64 = data[pos + 1] as u64;
        let b2: u64 = data[pos + 2] as u64;
        return Some((b0 / 8 + 0x20 * b1 + 0x2000 * b2, 3));
    }
    if b0 % 16 == 7 {
        if left < 4 {
            return None;
        }
        let b1: u64 = data[pos + 1] as u64;
        let b2: u64 = data[pos + 2] as u64;
        let b3: u64 = data[pos + 3] as u64;
        return Some((b0 / 16 + 0x10 * b1 + 0x1000 * b2 + 0x10_0000 * b3, 4));
    }
    if left < 5 {
        return None;
    }
    let b1: u64 = data[pos + 1] as u64;
    let b2: u64 = data[pos + 2] as u64;
    let b3: u64 = data[pos + 3] as u64;
    let b4: u64 = data[pos + 4] as u64;
    Some((b1 + 0x100 * b2 + 0x1_0000 * b3 + 0x100_0000 * b4, 5))
}

/// The shortest encoding of an unsigned integer below 2^32.
pub open spec fn encoded(v: int) -> Seq<u8> {
    if v < 0x80 {
        seq![(2 * v) as u8]
    } else if v < 0x4000 {
        seq![(4 * (v % 0x40) + 1) as u8, (v / 0x40) as u8]
    } else if v < 0x20_0000 {
        seq![(8 * (v % 0x20) + 3) as u8, (v / 0x20 % 0x100) as u8, (v / 0x2000) as u8]
    } else if v < 0x1000_0000 {
        seq![
            (16 * (v % 0x10) + 7) as u8,
            (v / 0x10 % 0x100) as u8,
            (v / 0x1000 % 0x100) as u8,
            (v / 0x10_0000) as u8,
        ]
    } else {
        seq![
            0x0fu8,
            (v % 0x100) as u8,
            (v / 0x100 % 0x100) as u8,
            (v / 0x1_0000 % 0x100) as u8,
            (v / 0x100_0000) as u8,
        ]
    }
}

/// Decoding gives back what was encoded, whatever follows, and takes exactly its bytes.
pub proof fn law_unsigned_round_trip(v: int, rest: Seq<u8>)
    requires
        0 <= v < 0x1_0000_0000,
    ensures
        unsigned_at(encoded(v) + rest, 0) == Some((v, encoded(v).len() as int)),
{
    let e = encoded(v);
    let d = e + rest;
    assert(forall|i: int| 0 <= i < e.len() ==> #[trigger] d[i] == e[i]);
    if v < 0x80 {
    } else if v < 0x4000 {
        assert(d[0] == 4 * (v % 0x40) + 1 && d[1] == v / 0x40);
    } else if v < 0x20_0000 {
        assert(d[0] == 8 * (v % 0x20) + 3 && d[1] == v / 0x20 % 0x100 && d[2] == v / 0x2000);
        assert(v / 0x20 / 0x100 == v / 0x2000);
    } else if v < 0x1000_0000 {
        assert(d[0] == 16 * (v % 0x10) + 7 && d[1] == v / 0x10 % 0x100);
        assert(d[2] == v / 0x1000 % 0x100 && d[3] == v / 0x10_0000);
        assert(v / 0x10 / 0x100 == v / 0x1000);
        assert(v / 0x1000 / 0x100 == v / 0x10_0000);
    } else {
        assert(d[0] == 0x0f && d[1] == v % 0x100 && d[2] == v / 0x100 % 0x100);
        assert(d[3] == v / 0x1_0000 % 0x100 && d[4] == v / 0x100_0000);
        assert(v / 0x100 / 0x100 == v / 0x1_0000);
        assert(v / 0x1_0000 / 0x100 == v / 0x100_0000);
    }
}

/// The first position of `needle` at or after `from`.
pub fn find(haystack: &[u8], needle: &[u8], from: usize) -> (at: Option<usize>)
    requires
        needle@.len() > 0,
    ensures
        match at {
            Some(i) => from <= i && occurs(haystack@, needle@, i as int) && forall|j: int|
                from <= j < i ==> !#[trigger] occurs(haystack@, needle@, j),
            None => forall|j: int| from <= j ==> !#[trigger] occurs(haystack@, needle@, j),
        },
{
    let len: usize = haystack.len();
    let mut i: usize = from;
    while i < len && needle.len() <= len - i
        invariant
            from <= i,
            len == haystack@.len(),
            forall|j: int| from <= j < i ==> !#[trigger] occurs(haystack@, needle@, j),
        decreases len - i,
    {
        let mut k: usize = 0;
        while k < needle.len() && haystack[i + k] == needle[k]
            invariant
                k <= needle@.len(),
                i + needle@.len() <= haystack@.len() == len,
                forall|j: int| 0 <= j < k ==> haystack@[i + j] == #[trigger] needle@[j],
            decreases needle@.len() - k,
        {
            k = k + 1;
        }
        if k == needle.len() {
            assert(haystack@.subrange(i as int, i + needle@.len()) =~= needle@);
            return Some(i);
        }
        proof {
            if occurs(haystack@, needle@, i as int) {
                assert(haystack@.subrange(i as int, i + needle@.len())[k as int]
                    == needle@[k as int]);
            }
        }
        i = i + 1;
    }
    None
}

/// The bytes that every resource name starts with.
pub open spec fn name_prefix() -> Seq<u8> {
    encode_utf8("Rhythia.Resources."@)
}

/// `std::str::from_utf8` reads bytes as text. It succeeds exactly on valid UTF-8, and the
/// text is what the bytes encode.
#[verifier::external_body]
fn utf8_text(bytes: &[u8]) -> (text: Option<&str>)
    ensures
        text is Some == valid_utf8(bytes@),
        text is Some ==> text->0@ == decode_utf8(bytes@),
{
    std::str::from_utf8(bytes).ok()
}

/// The entry whose name starts at `hit` and has its length in the `back` bytes before it.
#[verifier::opaque]
pub open spec fn entry_behind(exe: Seq<u8>, hit: int, back: int) -> Option<EntryModel> {
    match unsigned_at(exe, hit - back) {
        Some((len, used)) => {
            let name = exe.subrange(hit, hit + len);
            if used == back && 18 <= len <= 512 && hit + len <= exe.len() && valid_utf8(name) {
                match unsigned_at(exe, hit + len) {
                    Some((offset, more)) => match unsigned_at(exe, hit + len + more) {
                        Some((size, _)) if 0 < size < MAX_ASSET_BYTES => Some(
                            EntryModel { name: decode_utf8(name), offset, size },
                        ),
                        _ => None,
                    },
                    None => None,
                }
            } else {
                None
            }
        },
        None => None,
    }
}

/// The entry whose name starts at `hit`: the length takes one byte or two.
pub open spec fn entry_at(exe: Seq<u8>, hit: int) -> Option<EntryModel> {
    if !occurs(exe, name_prefix(), hit) {
        None
    } else {
        match entry_behind(exe, hit, 1) {
            Some(e) => Some(e),
            None => entry_behind(exe, hit, 2),
        }
    }
}

/// All entries whose names start before position `n`, in order.
pub open spec fn entries_before(exe: Seq<u8>, n: int) -> Seq<EntryModel>
    decreases n,
{
    if n <= 0 {
        Seq::empty()
    } else {
        match entry_at(exe, n - 1) {
            Some(e) => entries_before(exe, n - 1).push(e),
            None => entries_before(exe, n - 1),
        }
    }
}

/// The entries of an executable: all of them, up to a limit that no real one reaches.
pub open spec fn scanned(exe: Seq<u8>) -> Seq<EntryModel> {
    let all = entries_before(exe, exe.len() as int);
    if all.len() <= MAX_ENTRIES {
        all
    } else {
        all.take(MAX_ENTRIES as int)
    }
}

proof fn lemma_no_entries_between(exe: Seq<u8>, a: int, b: int)
    requires
        0 <= a <= b,
        forall|i: int| a <= i < b ==> !#[trigger] occurs(exe, name_prefix(), i),
    ensures
        entries_before(exe, a) == entries_before(exe, b),
    decreases b - a,
{
    if a < b {
        lemma_no_entries_between(exe, a, b - 1);
        assert(!occurs(exe, name_prefix(), b - 1));
    }
}

proof fn lemma_entries_prefix(exe: Seq<u8>, a: int, b: int)
    requires
        0 <= a <= b,
    ensures
        entries_before(exe, a).len() <= entries_before(exe, b).len(),
        entries_before(exe, b).take(entries_before(exe, a).len() as int) == entries_before(exe, a),
    decreases b - a,
{
    let short = entries_before(exe, a);
    let long = entries_before(exe, b);
    if a < b {
        lemma_entries_prefix(exe, a, b - 1);
        let mid = entries_before(exe, b - 1);
        assert(long.take(short.len() as int) =~= mid.take(short.len() as int));
    } else {
        assert(long.take(short.len() as int) =~= short);
    }
}

fn read_entry(exe: &[u8], hit: usize, back: usize) -> (e: Option<Entry>)
    requires
        hit <= exe@.len(),
        1 <= back <= 2,
    ensures
        match e {
            Some(entry) => entry_behind(exe@, hit as int, back as int) == Some(entry@),
            None => entry_behind(exe@, hit as int, back as int) is None,
        },
{
    proof {
        reveal(entry_behind);
    }
    if hit < back {
        return None;
    }
    let (len, used) = match decode_unsigned(exe, hit - back) {
        Some(v) => v,
        None => {
            return None;
        },
    };
    if used != back || len < 18 || len > 512 {
        return None;
    }
    let len: usize = len as usize;
    if len > exe.len() - hit {
        return None;
    }
    let name_bytes: &[u8] = vstd::slice::slice_subrange(exe, hit, hit + len);
    let name: &str = match utf8_text(name_bytes) {
        Some(t) => t,
        None => {
            return None;
        },
    };
    let (offset, more) = match decode_unsigned(exe, hit + len) {
        Some(v) => v,
        None => {
            return None;
        },
    };
    let (size, _end) = match decode_unsigned(exe, hit + len + more) {
        Some(v) => v,
        None => {
            return None;
        },
    };
    if size == 0 || size >= MAX_ASSET_BYTES {
        return None;
    }
    Some(Entry { name: name.to_owned(), offset, size })
}

/// Scans an executable for resource entries: the length of the name, the name itself, and
/// then offset and size.
pub fn scan_entries(exe: &[u8]) -> (entries: Vec<Entry>)
    ensures
        entry_models(entries@) == scanned(exe@),
{
    let mut entries: Vec<Entry> = Vec::new();
    let prefix: &[u8] = "Rhythia.Resources.".as_bytes();
    let len: usize = exe.len();
    proof {
        lemma_prefix_len();
        assert(entry_models(entries@) =~= entries_before(exe@, 0));
    }
    let mut at: usize = 0;
    while entries.len() < MAX_ENTRIES
        invariant
            prefix@ == name_prefix(),
            prefix@.len() == 18,
            len == exe@.len(),
            at <= exe@.len(),
            entries@.len() <= MAX_ENTRIES,
            entry_models(entries@) == entries_before(exe@, at as int),
        decreases exe@.len() - at,
    {
        let hit: usize = match find(exe, prefix, at) {
            Some(h) => h,
            None => {
                proof {
                    lemma_no_entries_between(exe@, at as int, len as int);
                }
                return entries;
            },
        };
        proof {
            lemma_no_entries_between(exe@, at as int, hit as int);
        }
        at = hit + 1;
        let found: Option<Entry> = match read_entry(exe, hit, 1) {
            Some(e) => Some(e),
            None => read_entry(exe, hit, 2),
        };
        let ghost before = entry_models(entries@);
        if let Some(e) = found {
            entries.push(e);
            assert(entry_models(entries@) =~= before.push(e@));
        }
    }
    proof {
        lemma_entries_prefix(exe@, at as int, len as int);
        let all = entries_before(exe@, len as int);
        if all.len() <= MAX_ENTRIES {
            assert(all.take(MAX_ENTRIES as int) =~= all);
        }
    }
    entries
}

/// The name prefix has as many bytes as characters.
proof fn lemma_prefix_len()
    ensures
        name_prefix().len() == 18,
{
    reveal_strlit("Rhythia.Resources.");
    vstd::utf8::is_ascii_chars_encode_utf8("Rhythia.Resources."@);
}

/// The bytes that every PNG file starts with.
pub open spec fn png_signature() -> Seq<u8> {
    seq![0x89u8, 0x50u8, 0x4eu8, 0x47u8, 0x0du8, 0x0au8, 0x1au8, 0x0au8]
}

/// The offsets of the entries named as PNG files.
pub open spec fn png_offsets(entries: Seq<EntryModel>) -> Seq<int>
    decreases entries.len(),
{
    if entries.len() == 0 {
        Seq::empty()
    } else if ends(entries.last().name, ".png"@) {
        png_offsets(entries.drop_last()).push(entries.last().offset)
    } else {
        png_offsets(entries.drop_last())
    }
}

/// Whether nine of ten offsets from a base lead to a PNG signature.
pub open spec fn agreed(exe: Seq<u8>, offsets: Seq<int>, base: int) -> bool {
    10 * tally(|i: int| occurs(exe, png_signature(), base + offsets[i]), offsets.len()) >= 9
        * offsets.len()
}

/// The base that the probes from `k` on, at signatures from position `at` on, agree on:
/// the first eight PNG entries are tried one after the other at every signature.
pub open spec fn base_from(exe: Seq<u8>, offsets: Seq<int>, k: int, at: int) -> Option<int>
    decreases 8 - k, exe.len() - at,
{
    if k < 0 || k >= 8 || k >= offsets.len() {
        None
    } else if at < 0 || at >= exe.len() {
        base_from(exe, offsets, k + 1, 0)
    } else if occurs(exe, png_signature(), at) && at >= offsets[k] && agreed(
        exe,
        offsets,
        at - offsets[k],
    ) {
        Some(at - offsets[k])
    } else {
        base_from(exe, offsets, k, at + 1)
    }
}

proof fn lemma_no_base_between(exe: Seq<u8>, offsets: Seq<int>, k: int, a: int, b: int)
    requires
        0 <= k < 8,
        k < offsets.len(),
        0 <= a <= b <= exe.len(),
        forall|i: int| a <= i < b ==> !#[trigger] occurs(exe, png_signature(), i),
    ensures
        base_from(exe, offsets, k, a) == base_from(exe, offsets, k, b),
    decreases b - a,
{
    if a < b {
        assert(!occurs(exe, png_signature(), a));
        lemma_no_base_between(exe, offsets, k, a + 1, b);
    }
}

fn png_offset_list(entries: &[Entry]) -> (offsets: Vec<u64>)
    ensures
        Seq::new(offsets@.len(), |i: int| offsets@[i] as int) == png_offsets(
            entry_models(entries@),
        ),
        offsets@.len() <= entries@.len(),
{
    let mut offsets: Vec<u64> = Vec::new();
    let mut i: usize = 0;
    while i < entries.len()
        invariant
            i <= entries@.len(),
            offsets@.len() <= i,
            Seq::new(offsets@.len(), |i: int| offsets@[i] as int) == png_offsets(
                entry_models(entries@.take(i as int)),
            ),
        decreases entries@.len() - i,
    {
        let ghost before = offsets@;
        proof {
            assert(entry_models(entries@.take(i + 1)).drop_last() =~= entry_models(
                entries@.take(i as int),
            ));
        }
        let name: Vec<char> = chars_of(entries[i].name.as_str());
        if ends_with(name.as_slice(), ".png") {
            offsets.push(entries[i].offset);
            assert(Seq::new(offsets@.len(), |i: int| offsets@[i] as int) =~= Seq::new(
                before.len(),
                |i: int| before[i] as int,
            ).push(entries@[i as int].offset as int));
        }
        i = i + 1;
    }
    assert(entries@.take(i as int) =~= entries@);
    offsets
}

fn signature_at(exe: &[u8], base: u64, offset: u64) -> (r: bool)
    ensures
        r == occurs(exe@, png_signature(), base + offset),
{
    let s: u128 = base as u128 + offset as u128;
    if s + 8 > exe.len() as u128 {
        return false;
    }
    let i: usize = s as usize;
    let r: bool = exe[i] == 0x89 && exe[i + 1] == 0x50 && exe[i + 2] == 0x4e && exe[i + 3] == 0x47
        && exe[i + 4] == 0x0d && exe[i + 5] == 0x0a && exe[i + 6] == 0x1a && exe[i + 7] == 0x0a;
    proof {
        let found = exe@.subrange(i as int, i + 8);
        if r {
            assert(found =~= png_signature());
        } else if found == png_signature() {
            assert(found[0] == exe@[i as int] && found[1] == exe@[i + 1] && found[2] == exe@[i + 2]
                && found[3] == exe@[i + 3] && found[4] == exe@[i + 4] && found[5] == exe@[i + 5]
                && found[6] == exe@[i + 6] && found[7] == exe@[i + 7]);
        }
    }
    r
}

fn base_agrees(exe: &[u8], offsets: &[u64], base: u64) -> (r: bool)
    ensures
        r == agreed(exe@, Seq::new(offsets@.len(), |i: int| offsets@[i] as int), base as int),
{
    let ghost list = Seq::new(offsets@.len(), |i: int| offsets@[i] as int);
    let ghost p = |i: int| occurs(exe@, png_signature(), base + list[i]);
    let mut hits: u128 = 0;
    let mut i: usize = 0;
    while i < offsets.len()
        invariant
            i <= offsets@.len(),
            list == Seq::new(offsets@.len(), |i: int| offsets@[i] as int),
            p == (|i: int| occurs(exe@, png_signature(), base + list[i])),
            hits == tally(p, i as nat),
            hits <= i,
        decreases offsets@.len() - i,
    {
        if signature_at(exe, base, offsets[i]) {
            hits = hits + 1;
        }
        i = i + 1;
    }
    hits * 10 >= offsets.len() as u128 * 9
}

/// Finds the base address from which nearly every entry named as a PNG file leads to a PNG
/// signature. A few bad offsets are put up with.
pub fn locate_blob_base(exe: &[u8], entries: &[Entry]) -> (base: Option<u64>)
    ensures
        match base {
            Some(b) => base_from(exe@, png_offsets(entry_models(entries@)), 0, 0) == Some(b as int),
            None => base_from(exe@, png_offsets(entry_models(entries@)), 0, 0) is None,
        },
{
    let offsets: Vec<u64> = png_offset_list(entries);
    let len: usize = exe.len();
    let ghost list = png_offsets(entry_models(entries@));
    let signature: [u8; 8] = [0x89, 0x50, 0x4e, 0x47, 0x0d, 0x0a, 0x1a, 0x0a];
    assert(signature@ =~= png_signature());
    let mut k: usize = 0;
    while k < 8 && k < offsets.len()
        invariant
            k <= 8,
            k <= offsets@.len(),
            len == exe@.len(),
            signature@ == png_signature(),
            list == png_offsets(entry_models(entries@)),
            list == Seq::new(offsets@.len(), |i: int| offsets@[i] as int),
            base_from(exe@, list, 0, 0) == base_from(exe@, list, k as int, 0),
        decreases 8 - k,
    {
        let probe: u64 = offsets[k];
        assert(list[k as int] == probe);
        let mut at: usize = 0;
        let mut more: bool = true;
        while more
            invariant
                k < 8,
                k < offsets@.len(),
                at <= exe@.len() == len,
                list == png_offsets(entry_models(entries@)),
                signature@ == png_signature(),
                list == Seq::new(offsets@.len(), |i: int| offsets@[i] as int),
                probe == list[k as int],
                more ==> base_from(exe@, list, 0, 0) == base_from(exe@, list, k as int, at as int),
                !more ==> base_from(exe@, list, 0, 0) == base_from(exe@, list, k + 1, 0),
            decreases exe@.len() - at, (if more { 1int } else { 0int }),
        {
            match find(exe, signature.as_slice(), at) {
                Some(hit) => {
                    proof {
                        lemma_no_base_between(exe@, list, k as int, at as int, hit as int);
                    }
                    if hit as u64 >= probe {
                        let base: u64 = hit as u64 - probe;
                        if base_agrees(exe, offsets.as_slice(), base) {
                            return Some(base);
                        }
                    }
                    at = hit + 1;
                },
                None => {
                    proof {
                        lemma_no_base_between(exe@, list, k as int, at as int, exe@.len() as int);
                    }
                    more = false;
                },
            }
        }
        k = k + 1;
    }
    None
}

/// A base that was found leads nine of ten PNG entries to a PNG signature.
pub proof fn law_base_fits_the_entries(exe: Seq<u8>, offsets: Seq<int>, k: int, at: int)
    ensures
        match base_from(exe, offsets, k, at) {
            Some(base) => 0 <= base && agreed(exe, offsets, base),
            None => true,
        },
    decreases 8 - k, exe.len() - at,
{
    if !(k < 0 || k >= 8 || k >= offsets.len()) {
        if at < 0 || at >= exe.len() {
            law_base_fits_the_entries(exe, offsets, k + 1, 0);
        } else {
            law_base_fits_the_entries(exe, offsets, k, at + 1);
        }
    }
}

/// No file makes more entries than the most that are looked at.
pub proof fn law_entries_are_bounded(exe: Seq<u8>)
    ensures
        scanned(exe).len() <= MAX_ENTRIES,
{
}

} // verus!
