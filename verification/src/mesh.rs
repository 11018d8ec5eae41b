//! Minimal Wavefront `.obj` reader for the note meshes.
//!
//! Only positions and faces are needed. Faces with more than three corners become fans of
//! triangles. Negative indices count from the end.

use vstd::prelude::*;

use crate::error::Error;
use crate::number::{is_number, is_number_text, parse_i64, whole_number};
use crate::text::{
    char_views, chars_of, find_char, index_from, lemma_lines_bound, lines_of, part_of, same_chars,
    split_lines, split_words, text_of, trim, trimmed, words_of,
};

verus! {

/// A corner of the mesh: three numbers as the file writes them.
#[derive(Debug, Clone)]
pub struct Vertex {
    pub x: String,
    pub y: String,
    pub z: String,
}

/// A mesh: corners, and three of them for each triangle.
#[derive(Debug, Clone)]
pub struct Mesh {
    pub vertices: Vec<Vertex>,
    pub indices: Vec<u32>,
}

/// A mesh under way.
pub struct Model {
    pub positions: Seq<Seq<Seq<char>>>,
    pub indices: Seq<u32>,
}

/// The words of a list that write numbers.
pub open spec fn numbers_among(words: Seq<Seq<char>>) -> Seq<Seq<char>>
    decreases words.len(),
{
    if words.len() == 0 {
        Seq::empty()
    } else if is_number(words.last()) {
        numbers_among(words.drop_last()).push(words.last())
    } else {
        numbers_among(words.drop_last())
    }
}

/// The corner that a face refers to, among `count`: the number before the first slash, from 1
/// on, or from the end where it is negative.
pub open spec fn corner(word: Seq<char>, count: int) -> Option<int> {
    match whole_number(word.take(index_from(word, '/', 0))) {
        Some(i) => {
            let at = if i < 0 {
                count + i
            } else {
                i - 1
            };
            if 0 <= at < count {
                Some(at)
            } else {
                None
            }
        },
        None => None,
    }
}

/// The corners that some words refer to; none where one of them is bad.
pub open spec fn corners(words: Seq<Seq<char>>, count: int) -> Option<Seq<u32>>
    decreases words.len(),
{
    if words.len() == 0 {
        Some(Seq::empty())
    } else {
        match (corners(words.drop_last(), count), corner(words.last(), count)) {
            (Some(list), Some(at)) => Some(list.push(at as u32)),
            _ => None,
        }
    }
}

/// The triangles of a polygon: the first corner with every two that follow each other.
pub open spec fn fan(corners: Seq<u32>) -> Seq<u32> {
    Seq::new(
        (3 * (corners.len() - 2)) as nat,
        |i: int|
            if i % 3 == 0 {
                corners[0]
            } else {
                corners[i / 3 + i % 3]
            },
    )
}

/// What one line adds; none where it is malformed.
pub open spec fn with_line(m: Model, line: Seq<char>) -> Option<Model> {
    let words = words_of(trimmed(line));
    if words.len() > 0 && words[0] == "v"@ {
        let numbers = numbers_among(words.skip(1));
        if numbers.len() < 3 {
            None
        } else {
            Some(Model { positions: m.positions.push(numbers.take(3)), indices: m.indices })
        }
    } else if words.len() > 0 && words[0] == "f"@ {
        match corners(words.skip(1), m.positions.len() as int) {
            Some(list) => if list.len() < 3 {
                None
            } else {
                Some(Model { positions: m.positions, indices: m.indices + fan(list) })
            },
            None => None,
        }
    } else {
        Some(m)
    }
}

/// The mesh of the first `n` lines; none where one of them is malformed.
pub open spec fn model_after(lines: Seq<Seq<char>>, n: nat) -> Option<Model>
    decreases n,
{
    if n == 0 {
        Some(Model { positions: Seq::empty(), indices: Seq::empty() })
    } else {
        match model_after(lines, (n - 1) as nat) {
            Some(m) => with_line(m, lines[n - 1]),
            None => None,
        }
    }
}

/// The mesh of a file; none where a line is malformed, or corners or faces are missing.
pub open spec fn obj_model(src: Seq<char>) -> Option<Model> {
    let lines = lines_of(src);
    match model_after(lines, lines.len()) {
        Some(m) => if m.positions.len() == 0 || m.indices.len() == 0 {
            None
        } else {
            Some(m)
        },
        None => None,
    }
}

/// The numbers of a corner.
pub open spec fn vertex_texts(v: Vertex) -> Seq<Seq<char>> {
    seq![v.x@, v.y@, v.z@]
}

/// The numbers of some corners.
pub open spec fn positions_of(list: Seq<Vertex>) -> Seq<Seq<Seq<char>>> {
    Seq::new(list.len(), |i: int| vertex_texts(list[i]))
}

fn filter_numbers(words: &[Vec<char>], from: usize) -> (numbers: Vec<String>)
    requires
        from <= words@.len(),
    ensures
        Seq::new(numbers@.len(), |i: int| numbers@[i]@) == numbers_among(
            char_views(words@).skip(from as int),
        ),
{
    let ghost all = char_views(words@).skip(from as int);
    let mut numbers: Vec<String> = Vec::new();
    let mut i: usize = from;
    assert(Seq::new(numbers@.len(), |i: int| numbers@[i]@) =~= numbers_among(all.take(0)));
    while i < words.len()
        invariant
            from <= i <= words@.len(),
            all == char_views(words@).skip(from as int),
            Seq::new(numbers@.len(), |i: int| numbers@[i]@) == numbers_among(all.take(i - from)),
        decreases words@.len() - i,
    {
        let ghost before = Seq::new(numbers@.len(), |i: int| numbers@[i]@);
        assert(all.take(i - from + 1).drop_last() =~= all.take(i - from));
        assert(all.take(i - from + 1).last() == words@[i as int]@);
        if is_number_text(words[i].as_slice()) {
            numbers.push(text_of(words[i].as_slice()));
            assert(Seq::new(numbers@.len(), |i: int| numbers@[i]@) =~= before.push(
                words@[i as int]@,
            ));
        }
        i = i + 1;
    }
    assert(all.take(i - from) =~= all);
    numbers
}

fn resolve(word: &[char], count: usize) -> (at: Option<u32>)
    requires
        count <= u32::MAX,
    ensures
        match at {
            Some(v) => corner(word@, count as int) == Some(v as int),
            None => corner(word@, count as int) is None,
        },
{
    let slash: usize = find_char(word, '/', 0);
    let head: Vec<char> = part_of(word, 0, slash);
    assert(head@ =~= word@.take(slash as int));
    match parse_i64(head.as_slice()) {
        Some(i) => {
            let at: i128 = if i < 0 {
                count as i128 + i as i128
            } else {
                i as i128 - 1
            };
            if 0 <= at && at < count as i128 {
                Some(at as u32)
            } else {
                None
            }
        },
        None => None,
    }
}

fn resolve_all(words: &[Vec<char>], from: usize, count: usize) -> (list: Option<Vec<u32>>)
    requires
        from <= words@.len(),
        count <= u32::MAX,
    ensures
        match list {
            Some(v) => corners(char_views(words@).skip(from as int), count as int) == Some(v@),
            None => corners(char_views(words@).skip(from as int), count as int) is None,
        },
{
    let ghost all = char_views(words@).skip(from as int);
    let mut list: Vec<u32> = Vec::new();
    let mut i: usize = from;
    assert(list@ =~= Seq::empty());
    while i < words.len()
        invariant
            from <= i <= words@.len(),
            count <= u32::MAX,
            all == char_views(words@).skip(from as int),
            corners(all.take(i - from), count as int) == Some(list@),
        decreases words@.len() - i,
    {
        assert(all.take(i - from + 1).drop_last() =~= all.take(i - from));
        assert(all.take(i - from + 1).last() == words@[i as int]@);
        match resolve(words[i].as_slice(), count) {
            Some(at) => {
                list.push(at);
            },
            None => {
                proof {
                    lemma_bad_corner(all, i - from + 1, count as int);
                }
                return None;
            },
        }
        i = i + 1;
    }
    assert(all.take(i - from) =~= all);
    Some(list)
}

proof fn lemma_bad_corner(words: Seq<Seq<char>>, n: int, count: int)
    requires
        0 <= n <= words.len(),
        corners(words.take(n), count) is None,
    ensures
        corners(words, count) is None,
    decreases words.len() - n,
{
    if n < words.len() {
        assert(words.take(n + 1).drop_last() =~= words.take(n));
        lemma_bad_corner(words, n + 1, count);
    } else {
        assert(words.take(n) =~= words);
    }
}

fn push_fan(indices: &mut Vec<u32>, corners: &[u32])
    requires
        corners@.len() >= 3,
    ensures
        final(indices)@ == old(indices)@ + fan(corners@),
{
    let ghost start = indices@;
    let ghost all = fan(corners@);
    let n: usize = corners.len();
    let mut k: usize = 1;
    assert(indices@ =~= start + all.take(0));
    while k < n - 1
        invariant
            1 <= k <= n - 1,
            n == corners@.len(),
            n >= 3,
            all == fan(corners@),
            indices@ == start + all.take(3 * (k - 1)),
        decreases n - k,
    {
        indices.push(corners[0]);
        indices.push(corners[k]);
        indices.push(corners[k + 1]);
        proof {
            let b = 3 * (k - 1);
            assert(b % 3 == 0 && (b + 1) / 3 == k - 1 && (b + 1) % 3 == 1);
            assert((b + 2) / 3 == k - 1 && (b + 2) % 3 == 2);
            assert(all[b] == corners@[0] && all[b + 1] == corners@[k as int] && all[b + 2]
                == corners@[k + 1]);
            assert(indices@ =~= start + all.take(3 * k));
        }
        k = k + 1;
    }
    assert(all.take(3 * (k - 1)) =~= all);
}

proof fn lemma_model_stays_bad(lines: Seq<Seq<char>>, n: nat, m: nat)
    requires
        n <= m,
        model_after(lines, n) is None,
    ensures
        model_after(lines, m) is None,
    decreases m - n,
{
    if n < m {
        lemma_model_stays_bad(lines, n, (m - 1) as nat);
    }
}

impl Mesh {
    /// The mesh as plain texts and numbers.
    pub open spec fn model(&self) -> Model {
        Model { positions: positions_of(self.vertices@), indices: self.indices@ }
    }

    /// Reads a mesh file.
    pub fn from_obj_str(src: &str) -> (r: Result<Mesh, Error>)
        requires
            src@.len() <= u32::MAX,
        ensures
            match r {
                Ok(mesh) => obj_model(src@) == Some(mesh.model()),
                Err(e) => obj_model(src@) is None && e is BadObj,
            },
    {
        let chars: Vec<char> = chars_of(src);
        let lines: Vec<Vec<char>> = split_lines(chars.as_slice());
        let ghost all = lines_of(src@);
        proof {
            lemma_lines_bound(src@);
        }
        let v_word: Vec<char> = chars_of("v");
        let f_word: Vec<char> = chars_of("f");
        let mut vertices: Vec<Vertex> = Vec::new();
        let mut indices: Vec<u32> = Vec::new();
        let mut i: usize = 0;
        assert(positions_of(vertices@) =~= Seq::empty());
        while i < lines.len()
            invariant
                i <= lines@.len() <= u32::MAX,
                all == lines_of(src@),
                all == char_views(lines@),
                v_word@ == "v"@,
                f_word@ == "f"@,
                vertices@.len() <= i,
                model_after(all, i as nat) == Some(
                    (Model { positions: positions_of(vertices@), indices: indices@ }),
                ),
            decreases lines@.len() - i,
        {
            let line: Vec<char> = trim(lines[i].as_slice());
            let words: Vec<Vec<char>> = split_words(line.as_slice());
            let ghost ws = words_of(trimmed(all[i as int]));
            assert(ws == char_views(words@));
            if words.len() > 0 && same_chars(words[0].as_slice(), v_word.as_slice()) {
                let numbers: Vec<String> = filter_numbers(words.as_slice(), 1);
                let ghost ns = numbers_among(ws.skip(1));
                assert(ns.len() == numbers@.len());
                if numbers.len() < 3 {
                    proof {
                        lemma_model_stays_bad(all, (i + 1) as nat, all.len());
                    }
                    return Err(Error::BadObj);
                }
                let vertex: Vertex = Vertex {
                    x: numbers[0].clone(),
                    y: numbers[1].clone(),
                    z: numbers[2].clone(),
                };
                let ghost before = positions_of(vertices@);
                assert(vertex_texts(vertex) =~= ns.take(3)) by {
                    assert(ns[0] == numbers@[0]@ && ns[1] == numbers@[1]@ && ns[2] == numbers@[2]@);
                }
                vertices.push(vertex);
                assert(positions_of(vertices@) =~= before.push(ns.take(3)));
            } else if words.len() > 0 && same_chars(words[0].as_slice(), f_word.as_slice()) {
                match resolve_all(words.as_slice(), 1, vertices.len()) {
                    Some(list) => {
                        if list.len() < 3 {
                            proof {
                                lemma_model_stays_bad(all, (i + 1) as nat, all.len());
                            }
                            return Err(Error::BadObj);
                        }
                        push_fan(&mut indices, list.as_slice());
                    },
                    None => {
                        proof {
                            lemma_model_stays_bad(all, (i + 1) as nat, all.len());
                        }
                        return Err(Error::BadObj);
                    },
                }
            }
            i = i + 1;
        }
        if vertices.len() == 0 || indices.len() == 0 {
            return Err(Error::BadObj);
        }
        Ok(Mesh { vertices, indices })
    }

    /// A flat square from -1 to 1 in two triangles.
    pub fn quad() -> (m: Mesh)
        ensures
            m.indices@ == seq![0u32, 1u32, 2u32, 0u32, 2u32, 3u32],
            positions_of(m.vertices@) == seq![
                seq!["-1"@, "-1"@, "0"@],
                seq!["1"@, "-1"@, "0"@],
                seq!["1"@, "1"@, "0"@],
                seq!["-1"@, "1"@, "0"@],
            ],
    {
        let mut vertices: Vec<Vertex> = Vec::new();
        vertices.push(Vertex { x: "-1".to_owned(), y: "-1".to_owned(), z: "0".to_owned() });
        vertices.push(Vertex { x: "1".to_owned(), y: "-1".to_owned(), z: "0".to_owned() });
        vertices.push(Vertex { x: "1".to_owned(), y: "1".to_owned(), z: "0".to_owned() });
        vertices.push(Vertex { x: "-1".to_owned(), y: "1".to_owned(), z: "0".to_owned() });
        let mut indices: Vec<u32> = Vec::new();
        indices.push(0);
        indices.push(1);
        indices.push(2);
        indices.push(0);
        indices.push(2);
        indices.push(3);
        Mesh { vertices, indices }
    }
}

/// Whether every index is that of a corner and every triangle is complete.
pub open spec fn sound(m: Model) -> bool {
    &&& m.indices.len() % 3 == 0
    &&& forall|i: int| 0 <= i < m.indices.len() ==> #[trigger] m.indices[i] < m.positions.len()
}

/// A mesh that was read has complete triangles of corners that exist.
pub proof fn law_mesh_is_sound(lines: Seq<Seq<char>>, n: nat)
    requires
        n <= lines.len(),
        lines.len() <= u32::MAX,
    ensures
        match model_after(lines, n) {
            Some(m) => sound(m) && m.positions.len() <= n,
            None => true,
        },
    decreases n,
{
    if n > 0 {
        law_mesh_is_sound(lines, (n - 1) as nat);
        if let Some(m) = model_after(lines, (n - 1) as nat) {
            let words = words_of(trimmed(lines[n - 1]));
            if words.len() > 0 && words[0] != "v"@ && words[0] == "f"@ {
                lemma_corners_exist(words.skip(1), m.positions.len() as int);
                if let Some(list) = corners(words.skip(1), m.positions.len() as int) {
                    if list.len() >= 3 {
                        let all = m.indices + fan(list);
                        assert forall|i: int| 0 <= i < all.len() implies #[trigger] all[i]
                            < m.positions.len() by {
                            if i >= m.indices.len() {
                                let k = i - m.indices.len();
                                assert(0 <= k / 3 + k % 3 < list.len());
                            }
                        }
                    }
                }
            }
        }
    }
}

proof fn lemma_corners_exist(words: Seq<Seq<char>>, count: int)
    requires
        0 <= count <= u32::MAX,
    ensures
        match corners(words, count) {
            Some(list) => list.len() == words.len() && forall|i: int|
                0 <= i < list.len() ==> #[trigger] list[i] < count,
            None => true,
        },
    decreases words.len(),
{
    if words.len() > 0 {
        lemma_corners_exist(words.drop_last(), count);
    }
}

/// A face of any number of corners becomes triangles that all start at its first corner, each with
/// two neighbouring corners, the last of one being the second of the next.
pub proof fn law_faces_become_fans(corners: Seq<u32>, t: int)
    requires
        corners.len() >= 3,
        0 <= t < corners.len() - 2,
    ensures
        fan(corners).len() == 3 * (corners.len() - 2),
        fan(corners)[3 * t] == corners[0],
        fan(corners)[3 * t + 1] == corners[t + 1],
        fan(corners)[3 * t + 2] == corners[t + 2],
        corners.len() == 3 ==> fan(corners) =~= corners,
{
}

} // verus!
