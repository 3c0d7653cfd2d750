//! Reading a player's line as a command.

use crate::game::Command;
use vstd::prelude::*;

verus! {

/// The characters of a lowercased string.
pub uninterp spec fn lower_of(s: Seq<char>) -> Seq<char>;

/// Whether `c` has Unicode's White_Space property.
pub open spec fn space_char(c: char) -> bool {
    let u = c as u32;
    (0x09 <= u <= 0x0d) || u == 0x20 || u == 0x85 || u == 0xa0 || u == 0x1680 || (0x2000 <= u
        <= 0x200a) || u == 0x2028 || u == 0x2029 || u == 0x202f || u == 0x205f || u == 0x3000
}

/// Relies on str::to_lowercase, whose result depends on the characters alone.
#[verifier::external_body]
fn lowercase_chars(line: &str) -> (r: Vec<char>)
    ensures
        r@ == lower_of(line@),
{
    line.to_lowercase().chars().collect()
}

/// Whether `c` is white space.
fn is_space(c: char) -> (r: bool)
    ensures
        r == space_char(c),
{
    let u = c as u32;
    (0x09 <= u && u <= 0x0d) || u == 0x20 || u == 0x85 || u == 0xa0 || u == 0x1680 || (0x2000 <= u
        && u <= 0x200a) || u == 0x2028 || u == 0x2029 || u == 0x202f || u == 0x205f || u == 0x3000
}

/// The words of `s[0..n]` that ended before `n`, as spans, and where the
/// word under way at `n` began (`n` itself when none is).
pub open spec fn scan(s: Seq<char>, n: int) -> (Seq<(int, int)>, int)
    decreases n,
{
    if n <= 0 {
        (seq![], 0)
    } else {
        let (ws, st) = scan(s, n - 1);
        if space_char(s[n - 1]) {
            if st < n - 1 {
                (ws.push((st, n - 1)), n)
            } else {
                (ws, n)
            }
        } else {
            (ws, st)
        }
    }
}

/// The spans of the maximal runs of non-space characters of `s`, in order.
pub open spec fn word_spans(s: Seq<char>) -> Seq<(int, int)> {
    let (ws, st) = scan(s, s.len() as int);
    if st < s.len() {
        ws.push((st, s.len() as int))
    } else {
        ws
    }
}

/// The words of `s`: its maximal runs of non-space characters.
pub open spec fn words(s: Seq<char>) -> Seq<Seq<char>> {
    word_spans(s).map_values(|p: (int, int)| s.subrange(p.0, p.1))
}

pub open spec fn is_digit(c: char) -> bool {
    '0' <= c <= '9'
}

/// The number that a run of decimal digits writes.
pub open spec fn digits_value(t: Seq<char>) -> int
    decreases t.len(),
{
    if t.len() == 0 {
        0
    } else {
        digits_value(t.drop_last()) * 10 + (t.last() as int - '0' as int)
    }
}

/// `t` without a leading `+`.
pub open spec fn digits_part(t: Seq<char>) -> Seq<char> {
    if t.len() > 0 && t[0] == '+' {
        t.drop_first()
    } else {
        t
    }
}

/// `t` read as a `u8` the way `str::parse` reads one: an optional `+`, then
/// one or more decimal digits, worth at most 255.
pub open spec fn u8_of(t: Seq<char>) -> Option<u8> {
    let d = digits_part(t);
    if d.len() > 0 && (forall|i: int| 0 <= i < d.len() ==> is_digit(#[trigger] d[i])) && digits_value(d) <= 255 {
        Some(digits_value(d) as u8)
    } else {
        None
    }
}

/// A number was read, and it lies in `lo..=hi`.
pub open spec fn within(n: Option<u8>, lo: u8, hi: u8) -> bool {
    n is Some && lo <= n->0 <= hi
}

/// The command a line asks for, read case-insensitively.
pub open spec fn command_of(line: Seq<char>) -> Command {
    command_in(lower_of(line))
}

/// The command a lowercased line asks for: `quit`/`q`, `hint`/`h`,
/// `help`/`?`, `new` with an optional difficulty from 1 to 3 (2 otherwise),
/// or a cell `[a-i][1-9]` followed by a digit from 1 to 9.
pub open spec fn command_in(s: Seq<char>) -> Command {
    let w = words(s);
    if w == seq![seq!['q', 'u', 'i', 't']] || w == seq![seq!['q']] {
        Command::Quit
    } else if w == seq![seq!['h', 'i', 'n', 't']] || w == seq![seq!['h']] {
        Command::Hint
    } else if w == seq![seq!['h', 'e', 'l', 'p']] || w == seq![seq!['?']] {
        Command::Help
    } else if w.len() > 0 && w[0].len() >= 3 && w[0].subrange(0, 3) == seq!['n', 'e', 'w'] {
        if w.len() > 1 && within(u8_of(w[1]), 1, 3) {
            Command::New(u8_of(w[1])->0)
        } else {
            Command::New(2)
        }
    } else if w.len() == 2 && w[0].len() == 2 && 'a' <= w[0][0] <= 'i' && '1' <= w[0][1] <= '9'
        && within(u8_of(w[1]), 1, 9) {
        Command::Place(
            (w[0][0] as int - 'a' as int) as usize,
            (w[0][1] as int - '1' as int) as usize,
            u8_of(w[1])->0,
        )
    } else {
        Command::Unknown
    }
}

/// Spans in `usize` that are the spans `b`.
pub open spec fn same_spans(a: Seq<(usize, usize)>, b: Seq<(int, int)>) -> bool {
    &&& a.len() == b.len()
    &&& forall|i: int| 0 <= i < a.len() ==> (#[trigger] a[i]).0 == b[i].0 && a[i].1 == b[i].1
}

proof fn lemma_scan_bounds(s: Seq<char>, n: int)
    requires
        0 <= n <= s.len(),
    ensures
        0 <= scan(s, n).1 <= n,
        forall|i: int|
            0 <= i < scan(s, n).0.len() ==> 0 <= (#[trigger] scan(s, n).0[i]).0 < scan(s, n).0[i].1 <= n,
    decreases n,
{
    if n > 0 {
        lemma_scan_bounds(s, n - 1);
        let (ws, st) = scan(s, n - 1);
        if space_char(s[n - 1]) && st < n - 1 {
            assert(scan(s, n).0 == ws.push((st, n - 1)));
        } else {
            assert(scan(s, n).0 == ws);
        }
    }
}

/// The spans of the words of `s`.
fn split_words(s: &Vec<char>) -> (r: Vec<(usize, usize)>)
    ensures
        same_spans(r@, word_spans(s@)),
        forall|i: int| 0 <= i < r@.len() ==> (#[trigger] r@[i]).0 < r@[i].1 <= s@.len(),
{
    let mut out: Vec<(usize, usize)> = Vec::new();
    let mut start: usize = 0;
    let mut i: usize = 0;
    while i < s.len()
        invariant
            i <= s@.len(),
            same_spans(out@, scan(s@, i as int).0),
            start == scan(s@, i as int).1,
        decreases s@.len() - i,
    {
        proof {
            lemma_scan_bounds(s@, i as int);
        }
        if is_space(s[i]) {
            if start < i {
                out.push((start, i));
            }
            start = i + 1;
        }
        i += 1;
    }
    proof {
        lemma_scan_bounds(s@, s@.len() as int);
    }
    if start < s.len() {
        out.push((start, s.len()));
    }
    out
}

proof fn lemma_digits_nonneg(t: Seq<char>)
    requires
        forall|i: int| 0 <= i < t.len() ==> is_digit(#[trigger] t[i]),
    ensures
        digits_value(t) >= 0,
    decreases t.len(),
{
    if t.len() > 0 {
        lemma_digits_nonneg(t.drop_last());
    }
}

proof fn lemma_digits_prefix(t: Seq<char>, j: int)
    requires
        0 <= j <= t.len(),
        forall|i: int| 0 <= i < t.len() ==> is_digit(#[trigger] t[i]),
    ensures
        digits_value(t) >= digits_value(t.subrange(0, j)),
    decreases t.len(),
{
    if j == t.len() {
        assert(t.subrange(0, j) =~= t);
    } else {
        lemma_digits_nonneg(t.drop_last());
        lemma_digits_prefix(t.drop_last(), j);
        assert(t.drop_last().subrange(0, j) =~= t.subrange(0, j));
    }
}

/// `s[a..b]` read as a `u8`.
fn u8_in(s: &Vec<char>, a: usize, b: usize) -> (r: Option<u8>)
    requires
        a <= b <= s@.len(),
    ensures
        r == u8_of(s@.subrange(a as int, b as int)),
{
    let ghost t = s@.subrange(a as int, b as int);
    let mut i: usize = a;
    if i < b && s[i] == '+' {
        i += 1;
    }
    let d0 = i;
    let ghost d = s@.subrange(d0 as int, b as int);
    proof {
        assert(t.len() > 0 ==> t[0] == s@[a as int]);
        if t.len() > 0 && t[0] == '+' {
            assert(t.drop_first() =~= d);
        } else {
            assert(t =~= d);
        }
    }
    if i == b {
        proof {
            assert(d.len() == 0);
            assert(u8_of(t) is None);
        }
        return None;
    }
    let mut acc: u32 = 0;
    while i < b
        invariant
            a <= d0 < b <= s@.len(),
            d0 <= i <= b,
            d == s@.subrange(d0 as int, b as int),
            d == digits_part(t),
            t == s@.subrange(a as int, b as int),
            forall|k: int| d0 <= k < i ==> is_digit(#[trigger] s@[k]),
            acc == digits_value(s@.subrange(d0 as int, i as int)),
            acc <= 255,
        decreases b - i,
    {
        let c = s[i];
        if !(c >= '0' && c <= '9') {
            proof {
                assert(!is_digit(d[i - d0]));
            }
            return None;
        }
        proof {
            assert(s@.subrange(d0 as int, i + 1).drop_last() =~= s@.subrange(d0 as int, i as int));
        }
        acc = acc * 10 + (c as u32 - '0' as u32);
        if acc > 255 {
            proof {
                if forall|k: int| 0 <= k < d.len() ==> is_digit(#[trigger] d[k]) {
                    lemma_digits_prefix(d, i + 1 - d0);
                    assert(d.subrange(0, i + 1 - d0) =~= s@.subrange(d0 as int, i + 1));
                }
            }
            return None;
        }
        i += 1;
    }
    proof {
        assert(s@.subrange(d0 as int, i as int) =~= d);
    }
    Some(acc as u8)
}

/// Whether `s[a..b]` is `lit`.
fn span_is(s: &Vec<char>, a: usize, b: usize, lit: &Vec<char>) -> (r: bool)
    requires
        a <= b <= s@.len(),
    ensures
        r == (s@.subrange(a as int, b as int) == lit@),
{
    if b - a != lit.len() {
        return false;
    }
    let mut i: usize = 0;
    while i < lit.len()
        invariant
            a <= b <= s@.len(),
            b - a == lit@.len(),
            i <= lit@.len(),
            forall|k: int| 0 <= k < i ==> s@[a + k] == #[trigger] lit@[k],
        decreases lit@.len() - i,
    {
        if s[a + i] != lit[i] {
            proof {
                assert(s@.subrange(a as int, b as int)[i as int] != lit@[i as int]);
            }
            return false;
        }
        i += 1;
    }
    proof {
        assert(s@.subrange(a as int, b as int) =~= lit@);
    }
    true
}

proof fn lemma_single(w: Seq<Seq<char>>, x: Seq<char>)
    ensures
        (w == seq![x]) <==> (w.len() == 1 && w[0] == x),
{
    if w.len() == 1 && w[0] == x {
        assert(w =~= seq![x]);
    }
}

/// Reads a player's line, case-insensitively: `quit` or `q`, `hint` or `h`,
/// `help` or `?`, `new` with a difficulty from 1 to 3 (2 when it is missing
/// or out of range), or a move such as `a1 5`; anything else is `Unknown`.
pub fn parse_command(line: &str) -> (r: Command)
    ensures
        r == command_of(line@),
{
    let s = lowercase_chars(line);
    command_from_lowercase(&s)
}

/// Reads a line that is already lowercased; see `parse_command`.
pub fn command_from_lowercase(s: &Vec<char>) -> (r: Command)
    ensures
        r == command_in(s@),
{
    let w_quit: Vec<char> = vec!['q', 'u', 'i', 't'];
    let w_q: Vec<char> = vec!['q'];
    let w_hint: Vec<char> = vec!['h', 'i', 'n', 't'];
    let w_h: Vec<char> = vec!['h'];
    let w_help: Vec<char> = vec!['h', 'e', 'l', 'p'];
    let w_qm: Vec<char> = vec!['?'];
    let w_new: Vec<char> = vec!['n', 'e', 'w'];
    proof {
        assert(w_quit@ == seq!['q', 'u', 'i', 't']);
        assert(w_q@ == seq!['q']);
        assert(w_hint@ == seq!['h', 'i', 'n', 't']);
        assert(w_h@ == seq!['h']);
        assert(w_help@ == seq!['h', 'e', 'l', 'p']);
        assert(w_qm@ == seq!['?']);
        assert(w_new@ == seq!['n', 'e', 'w']);
    }
    let w = split_words(s);
    let ghost ws = words(s@);
    proof {
        assert(ws.len() == w@.len());
        assert forall|i: int| 0 <= i < w@.len() implies #[trigger] ws[i] == s@.subrange(w@[i].0 as int, w@[i].1 as int) by {}
    }
    let n = w.len();
    let single = n == 1;
    let quit = single && (span_is(s, w[0].0, w[0].1, &w_quit) || span_is(s, w[0].0, w[0].1, &w_q));
    proof {
        lemma_single(ws, seq!['q', 'u', 'i', 't']);
        lemma_single(ws, seq!['q']);
    }
    if quit {
        return Command::Quit;
    }
    let hint = single && (span_is(s, w[0].0, w[0].1, &w_hint) || span_is(s, w[0].0, w[0].1, &w_h));
    proof {
        lemma_single(ws, seq!['h', 'i', 'n', 't']);
        lemma_single(ws, seq!['h']);
    }
    if hint {
        return Command::Hint;
    }
    let help = single && (span_is(s, w[0].0, w[0].1, &w_help) || span_is(s, w[0].0, w[0].1, &w_qm));
    proof {
        lemma_single(ws, seq!['h', 'e', 'l', 'p']);
        lemma_single(ws, seq!['?']);
    }
    if help {
        return Command::Help;
    }
    if n > 0 && w[0].1 - w[0].0 >= 3 && span_is(s, w[0].0, w[0].0 + 3, &w_new) {
        proof {
            assert(ws[0].subrange(0, 3) =~= s@.subrange(w@[0].0 as int, w@[0].0 + 3));
        }
        if n > 1 {
            if let Some(d) = u8_in(s, w[1].0, w[1].1) {
                if d >= 1 && d <= 3 {
                    return Command::New(d);
                }
            }
        }
        return Command::New(2);
    }
    proof {
        if n > 0 && w@[0].1 - w@[0].0 >= 3 {
            assert(ws[0].subrange(0, 3) =~= s@.subrange(w@[0].0 as int, w@[0].0 + 3));
        }
    }
    if n == 2 && w[0].1 - w[0].0 == 2 {
        let rc = s[w[0].0];
        let cc = s[w[0].0 + 1];
        proof {
            assert(ws[0][0] == rc && ws[0][1] == cc);
        }
        if rc >= 'a' && rc <= 'i' && cc >= '1' && cc <= '9' {
            if let Some(v) = u8_in(s, w[1].0, w[1].1) {
                if v >= 1 && v <= 9 {
                    return Command::Place((rc as u32 - 'a' as u32) as usize, (cc as u32 - '1' as u32) as usize, v);
                }
            }
        }
    }
    Command::Unknown
}

} // verus!
