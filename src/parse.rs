//! The line grammar of a definition file and its parser.
use vstd::prelude::*;
use vstd::string::*;

use crate::errors::Error;

verus! {

/// Whitespace as the grammar sees it: space, tab, line feed, carriage return
/// and form feed.
pub open spec fn is_space(c: char) -> bool {
    c == ' ' || c == '\t' || c == '\n' || c == '\r' || c == '\x0C'
}

/// A character allowed in a key: an ASCII letter, an ASCII digit or `_`.
pub open spec fn is_key_char(c: char) -> bool {
    ('a' <= c && c <= 'z') || ('A' <= c && c <= 'Z') || ('0' <= c && c <= '9') || c == '_'
}

/// A key is a non-empty run of key characters.
pub open spec fn valid_key(k: Seq<char>) -> bool {
    k.len() > 0 && forall|i: int| 0 <= i < k.len() ==> is_key_char(#[trigger] k[i])
}

/// Number of whitespace characters at the front of `s`.
pub open spec fn lead(s: Seq<char>) -> int
    decreases s.len(),
{
    if s.len() > 0 && is_space(s[0]) {
        1 + lead(s.drop_first())
    } else {
        0
    }
}

/// Number of whitespace characters at the back of `s`.
pub open spec fn trail(s: Seq<char>) -> int
    decreases s.len(),
{
    if s.len() > 0 && is_space(s.last()) {
        1 + trail(s.drop_last())
    } else {
        0
    }
}

/// Index of the first `c` in `s`, or `s.len()` when there is none.
pub open spec fn find(s: Seq<char>, c: char) -> int
    decreases s.len(),
{
    if s.len() == 0 {
        0
    } else if s[0] == c {
        0
    } else {
        1 + find(s.drop_first(), c)
    }
}

pub open spec fn trim_start(s: Seq<char>) -> Seq<char> {
    s.subrange(lead(s), s.len() as int)
}

pub open spec fn trim_end(s: Seq<char>) -> Seq<char> {
    s.subrange(0, s.len() - trail(s))
}

pub open spec fn trim(s: Seq<char>) -> Seq<char> {
    trim_end(trim_start(s))
}

/// Removes one trailing `\n` or `\r\n`, if there is one.
pub open spec fn strip_terminator(s: Seq<char>) -> Seq<char> {
    if s.len() >= 2 && s[s.len() - 2] == '\r' && s[s.len() - 1] == '\n' {
        s.subrange(0, s.len() - 2)
    } else if s.len() >= 1 && s[s.len() - 1] == '\n' {
        s.subrange(0, s.len() - 1)
    } else {
        s
    }
}

pub open spec fn export_word() -> Seq<char> {
    seq!['e', 'x', 'p', 'o', 'r', 't']
}

/// Drops a leading `export` followed by whitespace, and the whitespace.
pub open spec fn strip_export(s: Seq<char>) -> Seq<char> {
    if s.len() > 6 && s.subrange(0, 6) == export_word() && is_space(s[6]) {
        trim_start(s.subrange(7, s.len() as int))
    } else {
        s
    }
}

/// The character that a backslash followed by `c` stands for inside double
/// quotes: `n`, `r` and `t` give line feed, carriage return and tab; any
/// other character (`"` and `\` among them) stands for itself.
pub open spec fn escaped(c: char) -> char {
    if c == 'n' {
        '\n'
    } else if c == 'r' {
        '\r'
    } else if c == 't' {
        '\t'
    } else {
        c
    }
}

/// Decodes the text after an opening double quote. The closing quote must be
/// the last character; an unterminated quote, a dangling backslash or text
/// after the closing quote gives `None`.
pub open spec fn unescape(s: Seq<char>) -> Option<Seq<char>>
    decreases s.len(),
{
    if s.len() == 0 {
        None
    } else if s[0] == '"' {
        if s.len() == 1 {
            Some(Seq::empty())
        } else {
            None
        }
    } else if s[0] == '\\' {
        if s.len() < 2 {
            None
        } else {
            match unescape(s.subrange(2, s.len() as int)) {
                Some(r) => Some(seq![escaped(s[1])] + r),
                None => None,
            }
        }
    } else {
        match unescape(s.drop_first()) {
            Some(r) => Some(seq![s[0]] + r),
            None => None,
        }
    }
}

/// Decodes a trimmed value: double quotes with escapes, single quotes taken
/// literally, anything else as it stands (a `#` in it is part of the value).
pub open spec fn decode_value(v: Seq<char>) -> Option<Seq<char>> {
    if v.len() > 0 && v[0] == '"' {
        unescape(v.drop_first())
    } else if v.len() > 0 && v[0] == '\'' {
        if v.len() >= 2 && v.last() == '\'' {
            Some(v.subrange(1, v.len() - 1))
        } else {
            None
        }
    } else {
        Some(v)
    }
}

/// What one line of a definition file means.
pub enum LineModel {
    /// A blank or comment line: no entry.
    Skip,
    /// An assignment of a value to a key.
    Entry(Seq<char>, Seq<char>),
    /// A line that is not a valid assignment.
    Malformed,
}

/// The meaning of an assignment, once any `export` is gone.
pub open spec fn assignment_model(a: Seq<char>) -> LineModel {
    let p = find(a, '=');
    if p >= a.len() {
        LineModel::Malformed
    } else {
        let key = trim(a.subrange(0, p));
        if !valid_key(key) {
            LineModel::Malformed
        } else {
            match decode_value(trim(a.subrange(p + 1, a.len() as int))) {
                Some(v) => LineModel::Entry(key, v),
                None => LineModel::Malformed,
            }
        }
    }
}

/// The meaning of one raw line.
pub open spec fn line_model(line: Seq<char>) -> LineModel {
    let body = trim_start(strip_terminator(line));
    if body.len() == 0 || body[0] == '#' {
        LineModel::Skip
    } else {
        assignment_model(strip_export(body))
    }
}

proof fn lemma_lead(s: Seq<char>, k: int)
    requires
        0 <= k <= s.len(),
        forall|j: int| 0 <= j < k ==> is_space(#[trigger] s[j]),
        k == s.len() || !is_space(s[k]),
    ensures
        lead(s) == k,
    decreases s.len(),
{
    if k > 0 {
        lemma_lead(s.drop_first(), k - 1);
    }
}

proof fn lemma_trail(s: Seq<char>, k: int)
    requires
        0 <= k <= s.len(),
        forall|j: int| s.len() - k <= j < s.len() ==> is_space(#[trigger] s[j]),
        k == s.len() || !is_space(s[s.len() - k - 1]),
    ensures
        trail(s) == k,
    decreases s.len(),
{
    if k > 0 {
        lemma_trail(s.drop_last(), k - 1);
    }
}

proof fn lemma_find(s: Seq<char>, c: char, k: int)
    requires
        0 <= k <= s.len(),
        forall|j: int| 0 <= j < k ==> #[trigger] s[j] != c,
        k == s.len() || s[k] == c,
    ensures
        find(s, c) == k,
    decreases s.len(),
{
    if k > 0 {
        lemma_find(s.drop_first(), c, k - 1);
    }
}

/// The characters of `s`, one by one.
fn chars_of(s: &str) -> (r: Vec<char>)
    ensures
        r@ == s@,
{
    let n = s.unicode_len();
    let mut r: Vec<char> = Vec::new();
    let mut i: usize = 0;
    while i < n
        invariant
            n == s@.len(),
            i <= n,
            r@ == s@.subrange(0, i as int),
        decreases n - i,
    {
        r.push(s.get_char(i));
        i = i + 1;
        assert(r@ =~= s@.subrange(0, i as int));
    }
    assert(r@ =~= s@);
    r
}

/// First index at or after `lo` that is not whitespace, or `hi`.
fn skip_lead(cs: &Vec<char>, lo: usize, hi: usize) -> (k: usize)
    requires
        lo <= hi <= cs@.len(),
    ensures
        lo <= k <= hi,
        k - lo == lead(cs@.subrange(lo as int, hi as int)),
{
    let mut k = lo;
    while k < hi && is_space_exec(cs[k])
        invariant
            lo <= k <= hi <= cs@.len(),
            forall|j: int| lo <= j < k ==> is_space(#[trigger] cs@[j]),
        decreases hi - k,
    {
        k = k + 1;
    }
    let ghost s = cs@.subrange(lo as int, hi as int);
    proof {
        assert forall|j: int| 0 <= j < k - lo implies is_space(#[trigger] s[j]) by {
            assert(s[j] == cs@[lo + j]);
        }
        lemma_lead(s, k - lo);
    }
    k
}

/// Index just past the last character in `[lo, hi)` that is not whitespace,
/// or `lo`.
fn skip_trail(cs: &Vec<char>, lo: usize, hi: usize) -> (k: usize)
    requires
        lo <= hi <= cs@.len(),
    ensures
        lo <= k <= hi,
        hi - k == trail(cs@.subrange(lo as int, hi as int)),
{
    let mut k = hi;
    while k > lo && is_space_exec(cs[k - 1])
        invariant
            lo <= k <= hi <= cs@.len(),
            forall|j: int| k <= j < hi ==> is_space(#[trigger] cs@[j]),
        decreases k - lo,
    {
        k = k - 1;
    }
    let ghost s = cs@.subrange(lo as int, hi as int);
    proof {
        assert forall|j: int| s.len() - (hi - k) <= j < s.len() implies is_space(
            #[trigger] s[j],
        ) by {
            assert(s[j] == cs@[lo + j]);
        }
        lemma_trail(s, hi - k);
    }
    k
}

/// Index of the first `c` in `[lo, hi)`, or `hi`.
fn find_char(cs: &Vec<char>, lo: usize, hi: usize, c: char) -> (k: usize)
    requires
        lo <= hi <= cs@.len(),
    ensures
        lo <= k <= hi,
        k - lo == find(cs@.subrange(lo as int, hi as int), c),
{
    let mut k = lo;
    while k < hi && cs[k] != c
        invariant
            lo <= k <= hi <= cs@.len(),
            forall|j: int| lo <= j < k ==> #[trigger] cs@[j] != c,
        decreases hi - k,
    {
        k = k + 1;
    }
    let ghost s = cs@.subrange(lo as int, hi as int);
    proof {
        assert forall|j: int| 0 <= j < k - lo implies #[trigger] s[j] != c by {
            assert(s[j] == cs@[lo + j]);
        }
        lemma_find(s, c, k - lo);
    }
    k
}

fn is_space_exec(c: char) -> (r: bool)
    ensures
        r == is_space(c),
{
    c == ' ' || c == '\t' || c == '\n' || c == '\r' || c == '\x0C'
}

fn is_key_char_exec(c: char) -> (r: bool)
    ensures
        r == is_key_char(c),
{
    ('a' <= c && c <= 'z') || ('A' <= c && c <= 'Z') || ('0' <= c && c <= '9') || c == '_'
}

/// Prefixes a decoded remainder with the text decoded so far.
pub open spec fn prepend(o: Seq<char>, r: Option<Seq<char>>) -> Option<Seq<char>> {
    match r {
        Some(t) => Some(o + t),
        None => None,
    }
}

/// Decodes the double-quoted text in `[lo, hi)` of `line`, which starts just
/// after the opening quote.
fn unescape_range(line: &str, cs: &Vec<char>, lo: usize, hi: usize) -> (r: Option<String>)
    requires
        cs@ == line@,
        lo <= hi <= cs@.len(),
    ensures
        match unescape(cs@.subrange(lo as int, hi as int)) {
            Some(t) => r is Some && r->Some_0@ == t,
            None => r is None,
        },
{
    let mut out = String::new();
    let mut i = lo;
    while i < hi
        invariant
            cs@ == line@,
            lo <= i <= hi <= cs@.len(),
            unescape(cs@.subrange(lo as int, hi as int)) == prepend(
                out@,
                unescape(cs@.subrange(i as int, hi as int)),
            ),
        decreases hi - i,
    {
        let ghost s = cs@.subrange(i as int, hi as int);
        let c = cs[i];
        if c == '"' {
            if i + 1 == hi {
                proof {
                    assert(out@ + Seq::<char>::empty() =~= out@);
                }
                return Some(out);
            } else {
                return None;
            }
        } else if c == '\\' {
            if i + 1 >= hi {
                return None;
            }
            let e = cs[i + 1];
            let ghost prev = out@;
            if e == 'n' {
                proof {
                    reveal_strlit("\n");
                }
                out.append("\n");
            } else if e == 'r' {
                proof {
                    reveal_strlit("\r");
                }
                out.append("\r");
            } else if e == 't' {
                proof {
                    reveal_strlit("\t");
                }
                out.append("\t");
            } else {
                out.append(line.substring_char(i + 1, i + 2));
                assert(line@.subrange(i + 1, i + 2) =~= seq![e]);
            }
            assert(out@ =~= prev + seq![escaped(e)]);
            proof {
                assert(s.subrange(2, s.len() as int) =~= cs@.subrange(i + 2, hi as int));
                match unescape(cs@.subrange(i + 2, hi as int)) {
                    Some(t) => {
                        assert(prev + (seq![escaped(e)] + t) =~= out@ + t);
                    },
                    None => {},
                }
            }
            i = i + 2;
        } else {
            let ghost prev = out@;
            out.append(line.substring_char(i, i + 1));
            assert(line@.subrange(i as int, i + 1) =~= seq![c]);
            proof {
                assert(s.drop_first() =~= cs@.subrange(i + 1, hi as int));
                match unescape(cs@.subrange(i + 1, hi as int)) {
                    Some(t) => {
                        assert(prev + (seq![c] + t) =~= out@ + t);
                    },
                    None => {},
                }
            }
            i = i + 1;
        }
    }
    proof {
        assert(cs@.subrange(i as int, hi as int) =~= Seq::<char>::empty());
    }
    None
}

/// Whether `[lo, hi)` holds only key characters.
fn all_key_chars(cs: &Vec<char>, lo: usize, hi: usize) -> (r: bool)
    requires
        lo <= hi <= cs@.len(),
    ensures
        r == forall|j: int| lo <= j < hi ==> is_key_char(#[trigger] cs@[j]),
{
    let mut k = lo;
    while k < hi
        invariant
            lo <= k <= hi <= cs@.len(),
            forall|j: int| lo <= j < k ==> is_key_char(#[trigger] cs@[j]),
        decreases hi - k,
    {
        if !is_key_char_exec(cs[k]) {
            return false;
        }
        k = k + 1;
    }
    true
}

/// Whether `cs` holds the word `export` at `b`.
fn export_at(cs: &Vec<char>, b: usize, end: usize) -> (r: bool)
    requires
        b + 6 < end <= cs@.len(),
    ensures
        r == (cs@.subrange(b as int, b + 6) == export_word()),
{
    let r = cs[b] == 'e' && cs[b + 1] == 'x' && cs[b + 2] == 'p' && cs[b + 3] == 'o' && cs[b + 4]
        == 'r' && cs[b + 5] == 't';
    proof {
        if r {
            assert(cs@.subrange(b as int, b + 6) =~= export_word());
        } else if cs@.subrange(b as int, b + 6) == export_word() {
            assert(cs@.subrange(b as int, b + 6)[0] == 'e');
            assert(cs@.subrange(b as int, b + 6)[1] == 'x');
            assert(cs@.subrange(b as int, b + 6)[2] == 'p');
            assert(cs@.subrange(b as int, b + 6)[3] == 'o');
            assert(cs@.subrange(b as int, b + 6)[4] == 'r');
            assert(cs@.subrange(b as int, b + 6)[5] == 't');
        }
    }
    r
}

/// Start of what follows a leading `export` and its whitespace in `[b, end)`,
/// or `b` where there is no such prefix.
fn skip_export(cs: &Vec<char>, b: usize, end: usize) -> (a: usize)
    requires
        b <= end <= cs@.len(),
    ensures
        b <= a <= end,
        cs@.subrange(a as int, end as int) == strip_export(cs@.subrange(b as int, end as int)),
{
    let ghost body = cs@.subrange(b as int, end as int);
    if end - b > 6 && export_at(cs, b, end) && is_space_exec(cs[b + 6]) {
        let a = skip_lead(cs, b + 7, end);
        assert(body.subrange(0, 6) =~= cs@.subrange(b as int, b + 6));
        assert(body.subrange(7, body.len() as int) =~= cs@.subrange(b + 7, end as int));
        assert(cs@.subrange(a as int, end as int) =~= strip_export(body));
        a
    } else {
        proof {
            if body.len() > 6 && body.subrange(0, 6) == export_word() {
                assert(body.subrange(0, 6) =~= cs@.subrange(b as int, b + 6));
            }
        }
        b
    }
}

/// Parses one line of a definition file.
///
/// A blank line or a comment gives `Ok(None)`; an assignment gives its key
/// and decoded value; any other line gives `Error::LineParse` with the line
/// as it was passed in.
pub fn parse_line(line: &str) -> (r: Result<Option<(String, String)>, Error>)
    ensures
        match line_model(line@) {
            LineModel::Skip => r is Ok && r->Ok_0 is None,
            LineModel::Entry(k, v) => r is Ok && r->Ok_0 is Some && r->Ok_0->Some_0.0@ == k
                && r->Ok_0->Some_0.1@ == v,
            LineModel::Malformed => r is Err && r->Err_0 is LineParse && r->Err_0->LineParse_0@
                == line@,
        },
{
    let cs = chars_of(line);
    let n = cs.len();
    let mut end = n;
    if n >= 2 && cs[n - 2] == '\r' && cs[n - 1] == '\n' {
        end = n - 2;
    } else if n >= 1 && cs[n - 1] == '\n' {
        end = n - 1;
    }
    let ghost stripped = strip_terminator(line@);
    assert(stripped =~= cs@.subrange(0, end as int));
    let b = skip_lead(&cs, 0, end);
    let ghost body = trim_start(stripped);
    assert(body =~= cs@.subrange(b as int, end as int));
    if b == end || cs[b] == '#' {
        return Ok(None);
    }
    let a = skip_export(&cs, b, end);
    match parse_assignment(line, &cs, a, end) {
        Some(kv) => Ok(Some(kv)),
        None => Err(Error::LineParse(String::from_str(line))),
    }
}

/// Parses the assignment in `[a, end)` of `line`; `None` where it is malformed.
fn parse_assignment(line: &str, cs: &Vec<char>, a: usize, end: usize) -> (r: Option<
    (String, String),
>)
    requires
        cs@ == line@,
        a <= end <= cs@.len(),
    ensures
        match assignment_model(cs@.subrange(a as int, end as int)) {
            LineModel::Entry(k, v) => r is Some && r->Some_0.0@ == k && r->Some_0.1@ == v,
            _ => r is None,
        },
{
    let ghost rest = cs@.subrange(a as int, end as int);
    let p = find_char(cs, a, end, '=');
    if p == end {
        return None;
    }
    assert(rest.subrange(0, p - a) =~= cs@.subrange(a as int, p as int));
    assert(rest.subrange(p - a + 1, rest.len() as int) =~= cs@.subrange(p + 1, end as int));
    let kl = skip_lead(cs, a, p);
    let kh = skip_trail(cs, kl, p);
    let ghost key = trim(rest.subrange(0, p - a));
    assert(trim_start(rest.subrange(0, p - a)) =~= cs@.subrange(kl as int, p as int));
    assert(key =~= cs@.subrange(kl as int, kh as int));
    let key_ok = kl < kh && all_key_chars(cs, kl, kh);
    proof {
        if key_ok {
            assert forall|i: int| 0 <= i < key.len() implies is_key_char(#[trigger] key[i]) by {
                assert(key[i] == cs@[kl + i]);
            }
        } else if kl < kh {
            let j = choose|j: int| kl <= j < kh && !is_key_char(#[trigger] cs@[j]);
            assert(key[j - kl] == cs@[j]);
        }
    }
    if !key_ok {
        return None;
    }
    let vl = skip_lead(cs, p + 1, end);
    let vh = skip_trail(cs, vl, end);
    let ghost val = trim(rest.subrange(p - a + 1, rest.len() as int));
    assert(trim_start(rest.subrange(p - a + 1, rest.len() as int)) =~= cs@.subrange(
        vl as int,
        end as int,
    ));
    assert(val =~= cs@.subrange(vl as int, vh as int));
    match decode_range(line, cs, vl, vh) {
        Some(value) => {
            let k = String::from_str(line.substring_char(kl, kh));
            Some((k, value))
        },
        None => None,
    }
}

/// Decodes the trimmed value in `[lo, hi)` of `line`.
fn decode_range(line: &str, cs: &Vec<char>, lo: usize, hi: usize) -> (r: Option<String>)
    requires
        cs@ == line@,
        lo <= hi <= cs@.len(),
    ensures
        match decode_value(cs@.subrange(lo as int, hi as int)) {
            Some(t) => r is Some && r->Some_0@ == t,
            None => r is None,
        },
{
    let ghost val = cs@.subrange(lo as int, hi as int);
    if lo < hi && cs[lo] == '"' {
        assert(val.drop_first() =~= cs@.subrange(lo + 1, hi as int));
        unescape_range(line, cs, lo + 1, hi)
    } else if lo < hi && cs[lo] == '\'' {
        if hi - lo >= 2 && cs[hi - 1] == '\'' {
            assert(val.subrange(1, val.len() - 1) =~= line@.subrange(lo + 1, hi - 1));
            Some(String::from_str(line.substring_char(lo + 1, hi - 1)))
        } else {
            None
        }
    } else {
        Some(String::from_str(line.substring_char(lo, hi)))
    }
}

/// Text that trimming leaves as it is.
pub open spec fn trimmed(s: Seq<char>) -> bool {
    s.len() == 0 || (!is_space(s[0]) && !is_space(s.last()))
}

proof fn lemma_trim_fixed(s: Seq<char>)
    requires
        trimmed(s),
    ensures
        trim(s) == s,
{
    lemma_lead(s, 0);
    assert(trim_start(s) =~= s);
    lemma_trail(s, 0);
    assert(trim_end(s) =~= s);
}

proof fn lemma_key_not_special(k: Seq<char>, i: int)
    requires
        valid_key(k),
        0 <= i < k.len(),
    ensures
        !is_space(k[i]),
        k[i] != '=',
        k[i] != '#',
{
    assert(is_key_char(k[i]));
}

/// A line `KEY=W`, with a valid key and a value region `W` that trimming
/// leaves alone, assigns the decoding of `W` to the key.
proof fn lemma_assignment(k: Seq<char>, w: Seq<char>)
    requires
        valid_key(k),
        trimmed(w),
    ensures
        line_model(k + seq!['='] + w) == match decode_value(w) {
            Some(v) => LineModel::Entry(k, v),
            None => LineModel::Malformed,
        },
{
    let line = k + seq!['='] + w;
    let n = k.len() as int;
    lemma_key_not_special(k, 0);
    if w.len() > 0 {
        assert(line.last() == w.last());
    }
    assert(strip_terminator(line) == line);
    lemma_lead(line, 0);
    assert(trim_start(line) =~= line);
    if line.len() > 6 && line.subrange(0, 6) == export_word() && is_space(line[6]) {
        if n > 6 {
            lemma_key_not_special(k, 6);
        } else if n < 6 {
            assert(line.subrange(0, 6)[n] == '=');
            assert forall|x: int| 0 <= x < 6 implies export_word()[x] != '=' by {
                if x == 0 {
                } else if x == 1 {
                } else if x == 2 {
                } else if x == 3 {
                } else if x == 4 {
                } else {
                }
            }
            assert(export_word()[n] != '=');
        }
    }
    assert(strip_export(line) == line);
    assert forall|j: int| 0 <= j < n implies #[trigger] line[j] != '=' by {
        lemma_key_not_special(k, j);
    }
    lemma_find(line, '=', n);
    assert(line.subrange(0, n) =~= k);
    lemma_key_not_special(k, n - 1);
    lemma_trim_fixed(k);
    assert(line.subrange(n + 1, line.len() as int) =~= w);
    lemma_trim_fixed(w);
}

/// Decoding `V"` gives `V` when `V` holds neither a double quote nor a
/// backslash.
proof fn lemma_unescape_plain(v: Seq<char>)
    requires
        forall|i: int| 0 <= i < v.len() ==> #[trigger] v[i] != '"' && v[i] != '\\',
    ensures
        unescape(v + seq!['"']) == Some(v),
    decreases v.len(),
{
    let s = v + seq!['"'];
    if v.len() > 0 {
        assert(s.drop_first() =~= v.drop_first() + seq!['"']);
        lemma_unescape_plain(v.drop_first());
        assert(seq![v[0]] + v.drop_first() =~= v);
    } else {
        assert(s =~= seq!['"']);
    }
}

/// An unquoted value with no surrounding whitespace that does not open with
/// a quote comes back unchanged from `KEY=VALUE`.
pub proof fn lemma_round_trip_plain(k: Seq<char>, v: Seq<char>)
    requires
        valid_key(k),
        trimmed(v),
        v.len() > 0 ==> v[0] != '"' && v[0] != '\'',
    ensures
        line_model(k + seq!['='] + v) == LineModel::Entry(k, v),
{
    lemma_assignment(k, v);
}

/// A value with no double quote and no backslash comes back unchanged from
/// `KEY="VALUE"`.
pub proof fn lemma_round_trip_double(k: Seq<char>, v: Seq<char>)
    requires
        valid_key(k),
        forall|i: int| 0 <= i < v.len() ==> #[trigger] v[i] != '"' && v[i] != '\\',
    ensures
        line_model(k + seq!['='] + (seq!['"'] + v + seq!['"'])) == LineModel::Entry(k, v),
{
    let w = seq!['"'] + v + seq!['"'];
    assert(w.drop_first() =~= v + seq!['"']);
    lemma_unescape_plain(v);
    lemma_assignment(k, w);
}

/// Any value comes back unchanged from `KEY='VALUE'`: nothing inside single
/// quotes is processed.
pub proof fn lemma_round_trip_single(k: Seq<char>, v: Seq<char>)
    requires
        valid_key(k),
    ensures
        line_model(k + seq!['='] + (seq!['\''] + v + seq!['\''])) == LineModel::Entry(k, v),
{
    let w = seq!['\''] + v + seq!['\''];
    assert(w.subrange(1, w.len() - 1) =~= v);
    lemma_assignment(k, w);
}

} // verus!
