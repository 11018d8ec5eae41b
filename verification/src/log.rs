//! The last words of an encoder.

use vstd::prelude::*;

use crate::count::{lemma_tally_same, tally};
use crate::mods::texts;
use crate::text::{begins, chars_of, starts_with, text_of, trim, trimmed};

verus! {

/// How many lines are kept.
pub const KEEP: usize = 40;

/// The last lines that an encoder wrote.
#[derive(Debug, Clone)]
pub struct FfmpegLog {
    /// Oldest first, at most `KEEP`, none blank.
    pub lines: Vec<String>,
}

/// Lines with one more: trimmed, left out where blank, and the oldest gone where there are too
/// many.
pub open spec fn noted(lines: Seq<Seq<char>>, line: Seq<char>) -> Seq<Seq<char>> {
    let l = trimmed(line);
    if l.len() == 0 {
        lines
    } else if lines.len() == KEEP {
        lines.drop_first().push(l)
    } else {
        lines.push(l)
    }
}

/// Whether a line is one of the regular progress lines.
pub open spec fn is_progress(line: Seq<char>) -> bool {
    begins(line, "frame="@) || begins(line, "size="@)
}

/// The last `n` lines that are not progress, oldest first.
pub open spec fn telling(lines: Seq<Seq<char>>, n: nat) -> Seq<Seq<char>>
    decreases lines.len(),
{
    if lines.len() == 0 || n == 0 {
        Seq::empty()
    } else if is_progress(lines.last()) {
        telling(lines.drop_last(), n)
    } else {
        telling(lines.drop_last(), (n - 1) as nat).push(lines.last())
    }
}

/// Lines behind one another.
pub open spec fn joined(lines: Seq<Seq<char>>) -> Seq<char>
    decreases lines.len(),
{
    if lines.len() == 0 {
        Seq::empty()
    } else if lines.len() == 1 {
        lines[0]
    } else {
        joined(lines.drop_last()) + " / "@ + lines.last()
    }
}

/// The last three telling lines, to go behind the words of an error.
pub open spec fn tail_of(lines: Seq<Seq<char>>) -> Seq<char> {
    let picked = telling(lines, 3);
    if picked.len() == 0 {
        Seq::empty()
    } else {
        " — "@ + joined(picked)
    }
}

fn shows_progress(line: &str) -> (r: bool)
    ensures
        r == is_progress(line@),
{
    let chars: Vec<char> = chars_of(line);
    starts_with(chars.as_slice(), "frame=") || starts_with(chars.as_slice(), "size=")
}

impl FfmpegLog {
    /// Whether the log is as it should be.
    pub open spec fn well_formed(&self) -> bool {
        &&& self.lines@.len() <= KEEP
        &&& forall|i: int| 0 <= i < self.lines@.len() ==> (#[trigger] self.lines@[i])@.len() > 0
    }

    /// No lines yet.
    pub fn new() -> (log: FfmpegLog)
        ensures
            log.well_formed(),
            texts(log.lines@) == Seq::<Seq<char>>::empty(),
    {
        let log: FfmpegLog = FfmpegLog { lines: Vec::new() };
        assert(texts(log.lines@) =~= Seq::empty());
        log
    }

    /// Takes a line.
    pub fn note(&mut self, line: &str)
        requires
            old(self).well_formed(),
        ensures
            final(self).well_formed(),
            texts(final(self).lines@) == noted(texts(old(self).lines@), line@),
    {
        let chars: Vec<char> = chars_of(line);
        let l: Vec<char> = trim(chars.as_slice());
        if l.len() == 0 {
            return;
        }
        if self.lines.len() == KEEP {
            let first: String = self.lines.remove(0);
            assert(texts(self.lines@) =~= texts(old(self).lines@).drop_first());
        }
        let ghost before = texts(self.lines@);
        let s: String = text_of(l.as_slice());
        self.lines.push(s);
        assert(texts(self.lines@) =~= before.push(l@));
    }

    /// The last telling lines, to go behind the words of an error; empty where there are none.
    pub fn tail(&self) -> (s: String)
        ensures
            s@ == tail_of(texts(self.lines@)),
    {
        let ghost all = texts(self.lines@);
        let mut picked: Vec<usize> = Vec::new();
        let mut i: usize = self.lines.len();
        let ghost mut done: Seq<Seq<char>> = Seq::empty();
        assert(all.take(i as int) =~= all);
        assert(telling(all, 3) =~= telling(all.take(i as int), 3) + done);
        while i > 0 && picked.len() < 3
            invariant
                i <= self.lines@.len(),
                all == texts(self.lines@),
                picked@.len() <= 3,
                done.len() == picked@.len(),
                telling(all, 3) == telling(all.take(i as int), (3 - picked@.len()) as nat) + done,
                forall|j: int|
                    0 <= j < picked@.len() ==> (#[trigger] picked@[j]) < self.lines@.len()
                        && done[done.len() - 1 - j] == self.lines@[picked@[j] as int]@,
            decreases i,
        {
            assert(all.take(i as int).drop_last() =~= all.take(i - 1));
            assert(all.take(i as int).last() == self.lines@[i - 1]@);
            let n: usize = 3 - picked.len();
            if !shows_progress(self.lines[i - 1].as_str()) {
                proof {
                    let rest = telling(all.take(i - 1), (n - 1) as nat);
                    let l = self.lines@[i - 1]@;
                    assert(rest.push(l) + done =~= rest + (seq![l] + done));
                    done = seq![l] + done;
                }
                picked.push(i - 1);
                assert forall|j: int| 0 <= j < picked@.len() implies (#[trigger] picked@[j])
                    < self.lines@.len() && done[done.len() - 1 - j]
                    == self.lines@[picked@[j] as int]@ by {}
            }
            i = i - 1;
        }
        assert(telling(all, 3) =~= done);
        let count: usize = picked.len();
        if count == 0 {
            return String::new();
        }
        let mut s: String = " — ".to_owned();
        let mut j: usize = count;
        assert(s@ =~= " — "@ + joined(done.take(0)));
        while j > 0
            invariant
                j <= count == picked@.len(),
                done.len() == count,
                s@ == " — "@ + joined(done.take(count - j)),
                forall|j: int|
                    0 <= j < picked@.len() ==> (#[trigger] picked@[j]) < self.lines@.len()
                        && done[done.len() - 1 - j] == self.lines@[picked@[j] as int]@,
            decreases j,
        {
            let ghost k = count - j;
            proof {
                assert(picked@[j - 1] < self.lines@.len());
                assert(done.take(k + 1).drop_last() =~= done.take(k));
                assert(done.take(k + 1).last() == done[k]);
            }
            if j < count {
                s.append(" / ");
            }
            s.append(self.lines[picked[j - 1]].as_str());
            assert(s@ =~= " — "@ + joined(done.take(k + 1)));
            j = j - 1;
        }
        assert(done.take(count as int) =~= done);
        s
    }
}

/// However many lines come, at most `KEEP` are held, and the last one that is not blank is the
/// newest.
pub proof fn law_log_is_bounded(lines: Seq<Seq<char>>, line: Seq<char>)
    requires
        lines.len() <= KEEP,
    ensures
        noted(lines, line).len() <= KEEP,
        trimmed(line).len() > 0 ==> noted(lines, line).last() == trimmed(line),
{
}

/// What is told of a failure are the last lines that are no progress, no more than asked for and in
/// their order, and all of them where there are no more.
pub proof fn law_the_last_lines_are_told(lines: Seq<Seq<char>>, n: nat)
    ensures
        telling(lines, n).len() <= n,
        telling(lines, n).len() <= tally(|i: int| !is_progress(lines[i]), lines.len()),
        telling(lines, n).len() == n || telling(lines, n).len() == tally(
            |i: int| !is_progress(lines[i]),
            lines.len(),
        ),
        forall|k: int| 0 <= k < telling(lines, n).len() ==> !is_progress(#[trigger] telling(lines, n)[k]),
        n > 0 && lines.len() > 0 && !is_progress(lines.last()) ==> telling(lines, n).len() > 0
            && telling(lines, n).last() == lines.last(),
    decreases lines.len(),
{
    if lines.len() > 0 && n > 0 {
        let rest = lines.drop_last();
        lemma_tally_same(
            |i: int| !is_progress(rest[i]),
            |i: int| !is_progress(lines[i]),
            rest.len(),
        );
        if is_progress(lines.last()) {
            law_the_last_lines_are_told(rest, n);
        } else {
            law_the_last_lines_are_told(rest, (n - 1) as nat);
            let before = telling(rest, (n - 1) as nat);
            assert forall|k: int| 0 <= k < telling(lines, n).len() implies !is_progress(
                #[trigger] telling(lines, n)[k],
            ) by {
                if k < before.len() {
                    assert(telling(lines, n)[k] == before[k]);
                }
            }
        }
    } else {
        assert(tally(|i: int| !is_progress(lines[i]), 0) == 0);
    }
}

} // verus!
