//! The forward-only sequence of parse results over the lines of a file.
use vstd::prelude::*;

use crate::errors::Error;
use crate::parse::{line_model, parse_line, strip_terminator, trim_start, LineModel};

verus! {

/// One result of the sequence: an entry, or the raw line that failed.
pub type Outcome = Result<(Seq<char>, Seq<char>), Seq<char>>;

/// The results that a run of lines yields, in order: one per assignment,
/// blanks and comments left out, ending with the first malformed line.
pub open spec fn outcomes(lines: Seq<Seq<char>>) -> Seq<Outcome>
    decreases lines.len(),
{
    if lines.len() == 0 {
        Seq::empty()
    } else {
        match line_model(lines[0]) {
            LineModel::Skip => outcomes(lines.drop_first()),
            LineModel::Entry(k, v) => seq![Ok((k, v))] + outcomes(lines.drop_first()),
            LineModel::Malformed => seq![Err(lines[0])],
        }
    }
}

pub open spec fn lines_view(lines: Seq<String>) -> Seq<Seq<char>> {
    lines.map_values(|s: String| s@)
}

/// A sequence of parse results over lines read from a definition file.
/// It cannot be restarted, and it ends after the first malformed line.
pub struct Iter {
    lines: Vec<String>,
    pos: usize,
    done: bool,
}

impl Iter {
    /// The results still to come.
    pub closed spec fn remaining(&self) -> Seq<Outcome> {
        if self.done || self.pos > self.lines@.len() {
            Seq::empty()
        } else {
            outcomes(lines_view(self.lines@.subrange(self.pos as int, self.lines@.len() as int)))
        }
    }

    /// Starts the sequence over `lines`, each one line of the file.
    pub fn new(lines: Vec<String>) -> (r: Iter)
        ensures
            r.remaining() == outcomes(lines_view(lines@)),
    {
        let r = Iter { lines, pos: 0, done: false };
        assert(r.lines@.subrange(0, r.lines@.len() as int) =~= r.lines@);
        r
    }

    /// Yields the next result, or `None` once the sequence is over.
    pub fn next(&mut self) -> (r: Option<Result<(String, String), Error>>)
        ensures
            old(self).remaining().len() == 0 ==> r is None && final(self).remaining().len() == 0,
            old(self).remaining().len() > 0 ==> {
                &&& final(self).remaining() == old(self).remaining().drop_first()
                &&& r is Some
                &&& match old(self).remaining()[0] {
                    Ok((k, v)) => r->Some_0 is Ok && r->Some_0->Ok_0.0@ == k && r->Some_0->Ok_0.1@
                        == v,
                    Err(l) => r->Some_0 is Err && r->Some_0->Err_0 is LineParse
                        && r->Some_0->Err_0->LineParse_0@ == l,
                }
            },
    {
        let n = self.lines.len();
        if self.done || self.pos > n {
            return None;
        }
        let ghost start = self.remaining();
        while self.pos < n
            invariant
                !self.done,
                n == self.lines@.len(),
                self.pos <= n,
                self.remaining() == start,
                start == old(self).remaining(),
            decreases n - self.pos,
        {
            let ghost rest = lines_view(self.lines@.subrange(self.pos as int, n as int));
            let ghost after = lines_view(self.lines@.subrange(self.pos + 1, n as int));
            assert(rest.drop_first() =~= after);
            assert(rest[0] == self.lines@[self.pos as int]@);
            let i = self.pos;
            let parsed = parse_line(self.lines[i].as_str());
            self.pos = self.pos + 1;
            assert(self.remaining() == outcomes(after));
            assert(start == outcomes(rest));
            match parsed {
                Ok(None) => {},
                Ok(Some(kv)) => {
                    assert(start =~= seq![Outcome::Ok((kv.0@, kv.1@))] + outcomes(after));
                    assert(start.len() >= 1);
                    assert(start.drop_first() =~= outcomes(after));
                    return Some(Ok(kv));
                },
                Err(e) => {
                    assert(start =~= seq![Outcome::Err(rest[0])]);
                    self.done = true;
                    return Some(Err(e));
                },
            }
        }
        assert(self.lines@.subrange(self.pos as int, n as int) =~= Seq::<String>::empty());
        assert(lines_view(Seq::<String>::empty()) =~= Seq::<Seq<char>>::empty());
        None
    }
}

/// Whether a run of lines parses without a malformed line.
pub open spec fn all_ok(outs: Seq<Outcome>) -> bool {
    forall|i: int| 0 <= i < outs.len() ==> #[trigger] outs[i] is Ok
}

/// Parses every line; the entries in file order, or the first malformed line.
pub fn parse_lines(lines: Vec<String>) -> (r: Result<Vec<(String, String)>, Error>)
    ensures
        r is Ok <==> all_ok(outcomes(lines_view(lines@))),
        r is Ok ==> {
            let outs = outcomes(lines_view(lines@));
            &&& r->Ok_0@.len() == outs.len()
            &&& forall|i: int|
                0 <= i < outs.len() ==> outs[i] == Outcome::Ok(
                    (#[trigger] r->Ok_0@[i].0@, r->Ok_0@[i].1@),
                )
        },
        r is Err ==> {
            let outs = outcomes(lines_view(lines@));
            &&& outs.len() > 0
            &&& outs.last() is Err
            &&& r->Err_0 is LineParse
            &&& r->Err_0->LineParse_0@ == outs.last()->Err_0
        },
{
    let ghost outs = outcomes(lines_view(lines@));
    let mut it = Iter::new(lines);
    let mut acc: Vec<(String, String)> = Vec::new();
    loop
        invariant
            outs == outcomes(lines_view(lines@)),
            acc@.len() <= outs.len(),
            it.remaining() == outs.subrange(acc@.len() as int, outs.len() as int),
            forall|i: int|
                0 <= i < acc@.len() ==> outs[i] == Outcome::Ok(
                    (#[trigger] acc@[i].0@, acc@[i].1@),
                ),
        decreases it.remaining().len(),
    {
        let ghost before = it.remaining();
        match it.next() {
            None => {
                assert(acc@.len() == outs.len());
                assert forall|i: int| 0 <= i < outs.len() implies #[trigger] outs[i] is Ok by {
                    assert(outs[i] == Outcome::Ok((acc@[i].0@, acc@[i].1@)));
                }
                return Ok(acc);
            },
            Some(Ok(kv)) => {
                assert(before.len() == outs.len() - acc@.len());
                assert(before[0] == outs[acc@.len() as int]);
                acc.push(kv);
                assert(it.remaining() =~= outs.subrange(acc@.len() as int, outs.len() as int));
            },
            Some(Err(e)) => {
                let ghost j = acc@.len() as int;
                assert(before.len() == outs.len() - j);
                assert(before[0] == outs[j]);
                assert(outs[j] is Err);
                proof {
                    lemma_failure_is_last(lines_view(lines@), j);
                }
                return Err(e);
            },
        }
    }
}

/// A failure can only stand last among the results.
proof fn lemma_failure_is_last(lines: Seq<Seq<char>>, j: int)
    requires
        0 <= j < outcomes(lines).len(),
        outcomes(lines)[j] is Err,
    ensures
        j == outcomes(lines).len() - 1,
    decreases lines.len(),
{
    if lines.len() > 0 {
        match line_model(lines[0]) {
            LineModel::Skip => lemma_failure_is_last(lines.drop_first(), j),
            LineModel::Entry(k, v) => {
                lemma_failure_is_last(lines.drop_first(), j - 1);
            },
            LineModel::Malformed => {},
        }
    }
}

/// A line that is empty once its terminator and leading whitespace are gone,
/// or whose first other character is `#`.
pub open spec fn blank_or_comment(line: Seq<char>) -> bool {
    let b = trim_start(strip_terminator(line));
    b.len() == 0 || b[0] == '#'
}

/// A file of nothing but blank lines and comments yields no result at all,
/// and so no failure.
pub proof fn lemma_blank_and_comments(lines: Seq<Seq<char>>)
    requires
        forall|i: int| 0 <= i < lines.len() ==> blank_or_comment(#[trigger] lines[i]),
    ensures
        outcomes(lines) == Seq::<Outcome>::empty(),
    decreases lines.len(),
{
    if lines.len() > 0 {
        assert(blank_or_comment(lines[0]));
        assert forall|i: int| 0 <= i < lines.drop_first().len() implies blank_or_comment(
            #[trigger] lines.drop_first()[i],
        ) by {
            assert(lines.drop_first()[i] == lines[i + 1]);
        }
        lemma_blank_and_comments(lines.drop_first());
    }
}

/// The first malformed line ends the results: they are those of the lines
/// before it, then the failure that carries that line, and nothing of the
/// lines after it.
pub proof fn lemma_stops_at_malformed(lines: Seq<Seq<char>>, i: int)
    requires
        0 <= i < lines.len(),
        line_model(lines[i]) is Malformed,
        forall|j: int| 0 <= j < i ==> !(line_model(#[trigger] lines[j]) is Malformed),
    ensures
        outcomes(lines) == outcomes(lines.subrange(0, i)) + seq![Outcome::Err(lines[i])],
    decreases i,
{
    if i == 0 {
        assert(outcomes(lines.subrange(0, 0)) == Seq::<Outcome>::empty());
        assert(outcomes(lines) =~= Seq::<Outcome>::empty() + seq![Outcome::Err(lines[0])]);
    } else {
        let t = lines.drop_first();
        assert forall|j: int| 0 <= j < i - 1 implies !(line_model(#[trigger] t[j]) is Malformed) by {
            assert(t[j] == lines[j + 1]);
        }
        assert(t[i - 1] == lines[i]);
        lemma_stops_at_malformed(t, i - 1);
        let pre = lines.subrange(0, i);
        assert(pre.drop_first() =~= t.subrange(0, i - 1));
        assert(pre[0] == lines[0]);
        assert(!(line_model(lines[0]) is Malformed));
        match line_model(lines[0]) {
            LineModel::Entry(k, v) => {
                assert(outcomes(lines) =~= outcomes(pre) + seq![Outcome::Err(lines[i])]);
            },
            _ => {},
        }
    }
}

} // verus!
