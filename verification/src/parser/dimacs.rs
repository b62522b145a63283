//! The DIMACS CNF text format.
//!
//! The text is read line by line (a line ends at a line feed; a last line
//! without one counts when it is not empty). Each line is split into words
//! at Unicode white space. A line without words is skipped; so is a line
//! whose first word starts with `c`. A line whose first word starts with
//! `%` ends the formula. A line whose first word starts with `p` is the
//! problem line `p cnf <vars> <clauses>`, allowed once. Every other line,
//! which must follow the problem line, holds literals as decimal integers;
//! `0` ends a clause.

use vstd::prelude::*;

use crate::cnf::{abs_i32, Cnf, Clause, Lit, Var};
use crate::parser::{ParseError, ParseErrorKind};
use crate::text::chars_of;

verus! {

/// Unicode white space (`char::is_whitespace`).
pub open spec fn is_space(c: char) -> bool {
    let x = c as u32;
    ||| x == 0x20
    ||| 0x09 <= x <= 0x0d
    ||| x == 0x85
    ||| x == 0xa0
    ||| x == 0x1680
    ||| 0x2000 <= x <= 0x200a
    ||| x == 0x2028
    ||| x == 0x2029
    ||| x == 0x202f
    ||| x == 0x205f
    ||| x == 0x3000
}

/// The lines finished so far, and the line being read, after reading `s`.
pub open spec fn split_lines(s: Seq<char>) -> (Seq<Seq<char>>, Seq<char>)
    decreases s.len(),
{
    if s.len() == 0 {
        (Seq::empty(), Seq::empty())
    } else {
        let (done, cur) = split_lines(s.drop_last());
        if s.last() == '\n' {
            (done.push(cur), Seq::empty())
        } else {
            (done, cur.push(s.last()))
        }
    }
}

/// The lines of `s`: split at line feeds, a last line without a line feed
/// kept when it is not empty.
pub open spec fn lines(s: Seq<char>) -> Seq<Seq<char>> {
    let (done, cur) = split_lines(s);
    if cur.len() > 0 {
        done.push(cur)
    } else {
        done
    }
}

/// The words finished so far, and the word being read, after reading `s`.
pub open spec fn split_words(s: Seq<char>) -> (Seq<Seq<char>>, Seq<char>)
    decreases s.len(),
{
    if s.len() == 0 {
        (Seq::empty(), Seq::empty())
    } else {
        let (done, cur) = split_words(s.drop_last());
        if is_space(s.last()) {
            if cur.len() > 0 {
                (done.push(cur), Seq::empty())
            } else {
                (done, Seq::empty())
            }
        } else {
            (done, cur.push(s.last()))
        }
    }
}

/// The maximal runs of non-white-space characters of `s`, in order.
pub open spec fn words(s: Seq<char>) -> Seq<Seq<char>> {
    let (done, cur) = split_words(s);
    if cur.len() > 0 {
        done.push(cur)
    } else {
        done
    }
}

/// An ASCII decimal digit.
pub open spec fn is_digit(c: char) -> bool {
    0x30 <= (c as u32) <= 0x39
}

/// The value of the decimal digits `s`.
pub open spec fn digits_value(s: Seq<char>) -> nat
    decreases s.len(),
{
    if s.len() == 0 {
        0
    } else {
        digits_value(s.drop_last()) * 10 + ((s.last() as u32) - 0x30) as nat
    }
}

/// `s` is a non-empty run of decimal digits.
pub open spec fn all_digits(s: Seq<char>) -> bool {
    s.len() > 0 && forall|i: int| 0 <= i < s.len() ==> is_digit(#[trigger] s[i])
}

/// The value of `tok` read as an unsigned decimal no greater than `max`
/// (an optional `+`, then digits), if it is one.
pub open spec fn parse_unsigned(tok: Seq<char>, max: nat) -> Option<nat> {
    let body = if tok.len() > 0 && tok[0] == '+' {
        tok.drop_first()
    } else {
        tok
    };
    if all_digits(body) && digits_value(body) <= max {
        Some(digits_value(body))
    } else {
        None
    }
}

/// The value of `tok` read as a 32-bit signed decimal (an optional `+` or
/// `-`, then digits), if it is one.
pub open spec fn parse_signed32(tok: Seq<char>) -> Option<int> {
    if tok.len() > 0 && tok[0] == '-' {
        let body = tok.drop_first();
        if all_digits(body) && digits_value(body) <= 0x8000_0000 {
            Some(-(digits_value(body) as int))
        } else {
            None
        }
    } else {
        match parse_unsigned(tok, 0x7fff_ffff) {
            Some(v) => Some(v as int),
            None => None,
        }
    }
}

/// The character views of a sequence of character vectors.
pub open spec fn char_rows(rows: Seq<Vec<char>>) -> Seq<Seq<char>> {
    rows.map_values(|r: Vec<char>| r@)
}

fn is_space_char(c: char) -> (r: bool)
    ensures
        r == is_space(c),
{
    let x = c as u32;
    x == 0x20 || (0x09 <= x && x <= 0x0d) || x == 0x85 || x == 0xa0 || x == 0x1680 || (0x2000 <= x && x
        <= 0x200a) || x == 0x2028 || x == 0x2029 || x == 0x202f || x == 0x205f || x == 0x3000
}

/// The lines of the characters `cs` (see `lines`).
fn split_into_lines(cs: &Vec<char>) -> (r: Vec<Vec<char>>)
    ensures
        char_rows(r@) == lines(cs@),
{
    let mut done: Vec<Vec<char>> = Vec::new();
    let mut cur: Vec<char> = Vec::new();
    let mut i: usize = 0;
    while i < cs.len()
        invariant
            i <= cs@.len(),
            (char_rows(done@), cur@) == split_lines(cs@.take(i as int)),
        decreases cs@.len() - i,
    {
        let c = cs[i];
        proof {
            assert(cs@.take(i + 1).drop_last() =~= cs@.take(i as int));
            assert(cs@.take(i + 1).last() == c);
        }
        if c == '\n' {
            let line = cur;
            cur = Vec::new();
            done.push(line);
            assert(char_rows(done@) =~= split_lines(cs@.take(i + 1)).0);
            assert(cur@ =~= split_lines(cs@.take(i + 1)).1);
        } else {
            cur.push(c);
        }
        i = i + 1;
    }
    assert(cs@.take(cs@.len() as int) =~= cs@);
    if cur.len() > 0 {
        done.push(cur);
        assert(char_rows(done@) =~= lines(cs@));
    }
    done
}

/// The words of the characters `cs` (see `words`).
fn split_into_words(cs: &Vec<char>) -> (r: Vec<Vec<char>>)
    ensures
        char_rows(r@) == words(cs@),
{
    let mut done: Vec<Vec<char>> = Vec::new();
    let mut cur: Vec<char> = Vec::new();
    let mut i: usize = 0;
    while i < cs.len()
        invariant
            i <= cs@.len(),
            (char_rows(done@), cur@) == split_words(cs@.take(i as int)),
        decreases cs@.len() - i,
    {
        let c = cs[i];
        proof {
            assert(cs@.take(i + 1).drop_last() =~= cs@.take(i as int));
            assert(cs@.take(i + 1).last() == c);
        }
        if is_space_char(c) {
            if cur.len() > 0 {
                let word = cur;
                cur = Vec::new();
                done.push(word);
                assert(char_rows(done@) =~= split_words(cs@.take(i + 1)).0);
            } else {
                cur = Vec::new();
            }
            assert(cur@ =~= split_words(cs@.take(i + 1)).1);
        } else {
            cur.push(c);
        }
        i = i + 1;
    }
    assert(cs@.take(cs@.len() as int) =~= cs@);
    if cur.len() > 0 {
        done.push(cur);
        assert(char_rows(done@) =~= words(cs@));
    }
    done
}

proof fn lemma_digits_prefix_le(s: Seq<char>, j: int)
    requires
        0 <= j <= s.len(),
    ensures
        digits_value(s.take(j)) <= digits_value(s),
    decreases s.len() - j,
{
    if j < s.len() {
        lemma_digits_prefix_le(s, j + 1);
        assert(s.take(j + 1).drop_last() =~= s.take(j));
    } else {
        assert(s.take(j) =~= s);
    }
}

/// The value of the digits `w[start..]`, if they are a non-empty run of
/// decimal digits of value at most `max`.
fn parse_digits(w: &Vec<char>, start: usize, max: u64) -> (r: Option<u64>)
    requires
        start <= w@.len(),
    ensures
        ({
            let body = w@.subrange(start as int, w@.len() as int);
            match r {
                Some(v) => all_digits(body) && digits_value(body) <= max && v == digits_value(body),
                None => !(all_digits(body) && digits_value(body) <= max),
            }
        }),
{
    let ghost body = w@.subrange(start as int, w@.len() as int);
    if start == w.len() {
        return None;
    }
    let mut value: u64 = 0;
    let mut i: usize = start;
    while i < w.len()
        invariant
            start <= i <= w@.len(),
            body == w@.subrange(start as int, w@.len() as int),
            forall|k: int| 0 <= k < i - start ==> is_digit(#[trigger] body[k]),
            value == digits_value(body.take(i - start)),
            value <= max,
        decreases w@.len() - i,
    {
        let c = w[i];
        let x = c as u32;
        proof {
            assert(body[i - start] == c);
        }
        if x < 0x30 || x > 0x39 {
            return None;
        }
        let d = (x - 0x30) as u64;
        proof {
            let t = body.take(i - start + 1);
            assert(t.drop_last() =~= body.take(i - start));
            assert(t.last() == c);
        }
        if d > max || value > (max - d) / 10 {
            proof {
                assert(value * 10 + d > max) by (nonlinear_arith)
                    requires d > max || value > (max - d) / 10, d <= 9, value >= 0;
                lemma_digits_prefix_le(body, i - start + 1);
            }
            return None;
        }
        proof {
            assert(value * 10 + d <= max) by (nonlinear_arith)
                requires value <= (max - d) / 10, d <= max;
        }
        value = value * 10 + d;
        i = i + 1;
    }
    assert(body.take(body.len() as int) =~= body);
    Some(value)
}

/// `w` read as an unsigned decimal of at most `max` (see `parse_unsigned`).
fn parse_unsigned_word(w: &Vec<char>, max: u64) -> (r: Option<u64>)
    ensures
        match parse_unsigned(w@, max as nat) {
            Some(v) => r == Some(v as u64),
            None => r is None,
        },
{
    let start: usize = if w.len() > 0 && w[0] == '+' { 1 } else { 0 };
    proof {
        if start == 1 {
            assert(w@.subrange(1, w@.len() as int) =~= w@.drop_first());
        } else {
            assert(w@.subrange(0, w@.len() as int) =~= w@);
        }
    }
    parse_digits(w, start, max)
}

/// `w` read as a 32-bit signed decimal (see `parse_signed32`).
fn parse_signed_word(w: &Vec<char>) -> (r: Option<i32>)
    ensures
        match parse_signed32(w@) {
            Some(v) => r == Some(v as i32),
            None => r is None,
        },
{
    if w.len() > 0 && w[0] == '-' {
        proof {
            assert(w@.subrange(1, w@.len() as int) =~= w@.drop_first());
        }
        match parse_digits(w, 1, 0x8000_0000) {
            Some(m) => {
                if m == 0x8000_0000 {
                    Some(i32::MIN)
                } else {
                    Some(-(m as i32))
                }
            },
            None => None,
        }
    } else {
        match parse_unsigned_word(w, 0x7fff_ffff) {
            Some(v) => Some(v as i32),
            None => None,
        }
    }
}

/// What has been read so far: the problem line's counts, the finished
/// clauses, and the literals of the clause being read.
pub struct DimacsState {
    pub header: Option<(u32, usize)>,
    pub clauses: Seq<Seq<Lit>>,
    pub current: Seq<Lit>,
}

/// Where reading stands: still reading, stopped by a `%` line, refused at a
/// line, or stuck at a literal `-2147483648`, whose variable number has no
/// `i32` absolute value, so that no literal can be formed from it.
pub enum Scan {
    Reading(DimacsState),
    Stopped(DimacsState),
    Refused(usize, ParseErrorKind),
    Stuck,
}

/// Reading one literal word of a clause line.
pub open spec fn word_step(w: Seq<char>, st: DimacsState, line_no: usize) -> Scan {
    match parse_signed32(w) {
        None => Scan::Refused(line_no, ParseErrorKind::InvalidLiteral),
        Some(v) => if v == 0 {
            Scan::Reading(DimacsState { header: st.header, clauses: st.clauses.push(st.current), current: Seq::empty() })
        } else if v == i32::MIN {
            Scan::Stuck
        } else {
            let magnitude = if v < 0 { -v } else { v };
            match st.header {
                Some((vars, _)) => if magnitude > vars {
                    Scan::Refused(line_no, ParseErrorKind::LiteralOutOfRange)
                } else {
                    Scan::Reading(DimacsState {
                        header: st.header,
                        clauses: st.clauses,
                        current: st.current.push(Lit { var: Var(magnitude as u32), neg: v < 0 }),
                    })
                },
                None => Scan::Refused(line_no, ParseErrorKind::MissingProblemLine),
            }
        },
    }
}

/// Reading the literal words `ws` of a clause line, stopping at the first
/// refusal.
pub open spec fn scan_words(ws: Seq<Seq<char>>, st: DimacsState, line_no: usize) -> Scan
    decreases ws.len(),
{
    if ws.len() == 0 {
        Scan::Reading(st)
    } else {
        match scan_words(ws.drop_last(), st, line_no) {
            Scan::Reading(s1) => word_step(ws.last(), s1, line_no),
            other => other,
        }
    }
}

/// Reading one line.
pub open spec fn line_step(line: Seq<char>, line_no: usize, st: DimacsState) -> Scan {
    let ws = words(line);
    if ws.len() == 0 {
        Scan::Reading(st)
    } else if ws[0][0] == 'c' {
        Scan::Reading(st)
    } else if ws[0][0] == '%' {
        Scan::Stopped(st)
    } else if ws[0][0] == 'p' {
        if st.header is Some {
            Scan::Refused(line_no, ParseErrorKind::DuplicateProblemLine)
        } else if ws.len() != 4 || ws[1] != "cnf"@ {
            Scan::Refused(line_no, ParseErrorKind::BadProblemLine)
        } else {
            match parse_unsigned(ws[2], u32::MAX as nat) {
                None => Scan::Refused(line_no, ParseErrorKind::InvalidVariableCount),
                Some(vars) => match parse_unsigned(ws[3], usize::MAX as nat) {
                    None => Scan::Refused(line_no, ParseErrorKind::InvalidClauseCount),
                    Some(count) => Scan::Reading(
                        DimacsState { header: Some((vars as u32, count as usize)), clauses: st.clauses, current: st.current },
                    ),
                },
            }
        }
    } else if st.header is None {
        Scan::Refused(line_no, ParseErrorKind::MissingProblemLine)
    } else {
        scan_words(ws, st, line_no)
    }
}

/// Nothing read yet.
pub open spec fn initial_state() -> DimacsState {
    DimacsState { header: None, clauses: Seq::empty(), current: Seq::empty() }
}

/// Reading the first `n` lines of `ls` (numbered from 1).
pub open spec fn scan_lines(ls: Seq<Seq<char>>, n: int) -> Scan
    decreases n,
{
    if n <= 0 {
        Scan::Reading(initial_state())
    } else {
        match scan_lines(ls, n - 1) {
            Scan::Reading(st) => line_step(ls[n - 1], n as usize, st),
            other => other,
        }
    }
}

/// What reading a DIMACS text gives.
pub enum DimacsResult {
    Parsed(u32, Seq<Seq<Lit>>),
    Refused(usize, ParseErrorKind),
    Stuck,
}

/// The checks after the last line: a problem line was read (else refused at
/// line 1), no clause lacks its closing 0, and the number of clauses is the
/// declared one (else refused at the last line, or line 1 for an empty
/// text).
pub open spec fn finish(st: DimacsState, last_line: usize) -> DimacsResult {
    match st.header {
        None => DimacsResult::Refused(1, ParseErrorKind::MissingProblemLine),
        Some((vars, count)) => if st.current.len() > 0 {
            DimacsResult::Refused(last_line, ParseErrorKind::MissingTrailingZero)
        } else if st.clauses.len() != count {
            DimacsResult::Refused(last_line, ParseErrorKind::ClauseCountMismatch)
        } else {
            DimacsResult::Parsed(vars, st.clauses)
        },
    }
}

/// The result of reading the text `s`.
pub open spec fn dimacs_result(s: Seq<char>) -> DimacsResult {
    let ls = lines(s);
    let last_line = if ls.len() == 0 { 1usize } else { ls.len() as usize };
    match scan_lines(ls, ls.len() as int) {
        Scan::Refused(l, k) => DimacsResult::Refused(l, k),
        Scan::Stuck => DimacsResult::Stuck,
        Scan::Reading(st) => finish(st, last_line),
        Scan::Stopped(st) => finish(st, last_line),
    }
} 

/// `line` is a problem line `p cnf <vars> <count>` declaring `vars`
/// variables and `count` clauses.
pub open spec fn declares(line: Seq<char>, vars: nat, count: nat) -> bool {
    let ws = words(line);
    &&& ws.len() == 4
    &&& ws[0][0] == 'p'
    &&& ws[1] == "cnf"@
    &&& parse_unsigned(ws[2], u32::MAX as nat) == Some(vars)
    &&& parse_unsigned(ws[3], usize::MAX as nat) == Some(count)
}

/// Reading the literals of a clause line never changes the problem line
/// read.
proof fn lemma_scan_words_keeps_header(ws: Seq<Seq<char>>, st: DimacsState, line_no: usize)
    ensures
        scan_words(ws, st, line_no) matches Scan::Reading(s1) ==> s1.header == st.header,
        !(scan_words(ws, st, line_no) is Stopped),
    decreases ws.len(),
{
    if ws.len() > 0 {
        lemma_scan_words_keeps_header(ws.drop_last(), st, line_no);
    }
}

/// The state reached, when reading goes on or stopped at a `%` line.
pub open spec fn state_of(sc: Scan) -> Option<DimacsState> {
    match sc {
        Scan::Reading(st) => Some(st),
        Scan::Stopped(st) => Some(st),
        _ => None,
    }
}

/// After `sc`, the problem line read is the one read before `st`, or,
/// when none was, one that `line` declares.
pub open spec fn header_kept_or_declared(line: Seq<char>, st: DimacsState, sc: Scan) -> bool {
    match state_of(sc) {
        Some(s1) => s1.header == st.header || (st.header is None && match s1.header {
            Some((v, c)) => declares(line, v as nat, c as nat),
            None => false,
        }),
        None => true,
    }
}

/// Reading one line keeps the problem line read, or takes the one this
/// line declares when none was read before.
proof fn lemma_line_step_header(line: Seq<char>, line_no: usize, st: DimacsState)
    ensures
        header_kept_or_declared(line, st, line_step(line, line_no, st)),
{
    let ws = words(line);
    let sc = line_step(line, line_no, st);
    if ws.len() == 0 {
        assert(sc == Scan::Reading(st));
    } else if ws[0][0] == 'c' {
        assert(sc == Scan::Reading(st));
    } else if ws[0][0] == '%' {
        assert(sc == Scan::Stopped(st));
    } else if ws[0][0] == 'p' {
        if st.header is None && ws.len() == 4 && ws[1] == "cnf"@ {
            if let Some(vars) = parse_unsigned(ws[2], u32::MAX as nat) {
                if let Some(count) = parse_unsigned(ws[3], usize::MAX as nat) {
                    let s1 = DimacsState { header: Some((vars as u32, count as usize)), clauses: st.clauses, current: st.current };
                    assert(sc == Scan::Reading(s1));
                    assert(declares(line, (vars as u32) as nat, (count as usize) as nat));
                } else {
                    assert(sc is Refused);
                }
            } else {
                assert(sc is Refused);
            }
        } else {
            assert(sc is Refused);
        }
    } else if st.header is Some {
        lemma_scan_words_keeps_header(ws, st, line_no);
        assert(sc == scan_words(ws, st, line_no));
    } else {
        assert(sc is Refused);
    }
}

/// Whatever problem line the reading of the first `n` lines has taken is
/// one of those lines, with the counts it declares.
proof fn lemma_scan_header(ls: Seq<Seq<char>>, n: int)
    ensures
        state_of(scan_lines(ls, n)) matches Some(st) ==> (st.header matches Some((v, c)) ==> exists|i: int|
            0 <= i < n && #[trigger] declares(ls[i], v as nat, c as nat)),
    decreases n,
{
    if n > 0 {
        lemma_scan_header(ls, n - 1);
        if let Scan::Reading(st) = scan_lines(ls, n - 1) {
            lemma_line_step_header(ls[n - 1], n as usize, st);
            if let Some(s1) = state_of(line_step(ls[n - 1], n as usize, st)) {
                if let Some((v, c)) = s1.header {
                    if s1.header == st.header {
                        let i = choose|i: int| 0 <= i < n - 1 && #[trigger] declares(ls[i], v as nat, c as nat);
                        assert(declares(ls[i], v as nat, c as nat));
                    } else {
                        assert(declares(ls[n - 1], v as nat, c as nat));
                    }
                }
            }
        }
    }
}

/// A formula read from a text has exactly the number of clauses, and of
/// variables, that a problem line of the text declares.
pub proof fn lemma_parsed_clause_count(s: Seq<char>)
    ensures
        dimacs_result(s) matches DimacsResult::Parsed(n, cls) ==> exists|i: int|
            0 <= i < lines(s).len() && #[trigger] declares(lines(s)[i], n as nat, cls.len()),
{
    let ls = lines(s);
    let last_line = if ls.len() == 0 { 1usize } else { ls.len() as usize };
    lemma_scan_header(ls, ls.len() as int);
    if let DimacsResult::Parsed(n, cls) = dimacs_result(s) {
        let st = state_of(scan_lines(ls, ls.len() as int))->0;
        assert(finish(st, last_line) == DimacsResult::Parsed(n, cls));
        lemma_finish_counts(st, last_line);
        let i = choose|i: int| 0 <= i < ls.len() && #[trigger] declares(ls[i], n as nat, (cls.len() as usize) as nat);
        assert(declares(lines(s)[i], n as nat, cls.len()));
    }
}

/// The final checks of reading: a formula comes out only with the declared
/// number of clauses, and a problem line read with every clause closed but
/// a different number of clauses (more or fewer) is refused with
/// `ClauseCountMismatch` at the last line.
pub proof fn lemma_finish_counts(st: DimacsState, last_line: usize)
    ensures
        finish(st, last_line) matches DimacsResult::Parsed(n, cls) ==> st.header == Some((n, cls.len() as usize))
            && cls == st.clauses,
        (st.header matches Some((v, c)) && st.current.len() == 0 && st.clauses.len() != c) ==> finish(st, last_line)
            == DimacsResult::Refused(last_line, ParseErrorKind::ClauseCountMismatch),
        (st.header is Some && st.current.len() > 0) ==> finish(st, last_line) == DimacsResult::Refused(
            last_line,
            ParseErrorKind::MissingTrailingZero,
        ),
        st.header is None ==> finish(st, last_line) == DimacsResult::Refused(1, ParseErrorKind::MissingProblemLine),
{
}

/// After a problem line declaring `vars` variables, a nonzero literal word
/// on a declared variable joins the clause being read as that literal, and
/// one on an undeclared variable is refused with `LiteralOutOfRange`.
pub proof fn lemma_literal_words(w: Seq<char>, st: DimacsState, line_no: usize, vars: u32, count: usize, v: int)
    requires
        st.header == Some((vars, count)),
        parse_signed32(w) == Some(v),
        v != 0,
        v != i32::MIN,
    ensures
        1 <= (if v < 0 { -v } else { v }) <= vars ==> word_step(w, st, line_no) == Scan::Reading(
            DimacsState {
                header: st.header,
                clauses: st.clauses,
                current: st.current.push(Lit { var: Var((if v < 0 { -v } else { v }) as u32), neg: v < 0 }),
            },
        ),
        (if v < 0 { -v } else { v }) > vars ==> word_step(w, st, line_no) == Scan::Refused(
            line_no,
            ParseErrorKind::LiteralOutOfRange,
        ),
{
}

/// Every word is non-empty.
proof fn lemma_words_nonempty(s: Seq<char>)
    ensures
        forall|k: int| 0 <= k < words(s).len() ==> (#[trigger] words(s)[k]).len() > 0,
        forall|k: int| 0 <= k < split_words(s).0.len() ==> (#[trigger] split_words(s).0[k]).len() > 0,
    decreases s.len(),
{
    if s.len() > 0 {
        lemma_words_nonempty(s.drop_last());
        let (done, cur) = split_words(s.drop_last());
        if is_space(s.last()) {
            if cur.len() > 0 {
                assert forall|k: int| 0 <= k < done.push(cur).len() implies (#[trigger] done.push(cur)[k]).len() > 0 by {
                    if k < done.len() {
                        assert(done.push(cur)[k] == done[k]);
                    }
                }
            }
        }
    }
    let (done, cur) = split_words(s);
    if cur.len() > 0 {
        assert forall|k: int| 0 <= k < done.push(cur).len() implies (#[trigger] done.push(cur)[k]).len() > 0 by {
            if k < done.len() {
                assert(done.push(cur)[k] == done[k]);
            }
        }
    }
}

/// Once reading the words of a line has stopped with a refusal, the rest of
/// the line changes nothing.
proof fn lemma_scan_words_settled(ws: Seq<Seq<char>>, st: DimacsState, line_no: usize, j: int, k: int)
    requires
        0 <= j <= k <= ws.len(),
        !(scan_words(ws.take(j), st, line_no) is Reading),
    ensures
        scan_words(ws.take(k), st, line_no) == scan_words(ws.take(j), st, line_no),
    decreases k - j,
{
    if k > j {
        lemma_scan_words_settled(ws, st, line_no, j, k - 1);
        assert(ws.take(k).drop_last() =~= ws.take(k - 1));
    }
}

/// The clause views of exec clauses.
pub open spec fn clause_views(cs: Seq<Clause>) -> Seq<Seq<Lit>> {
    cs.map_values(|c: Clause| c@)
}

/// Every literal in `st` names a variable in `1..=vars` of its header, and
/// nothing is read before the header.
pub open spec fn state_in_range(st: DimacsState) -> bool {
    match st.header {
        None => st.clauses.len() == 0 && st.current.len() == 0,
        Some((vars, _)) => (forall|k: int| 0 <= k < st.clauses.len() ==> crate::cnf::clause_in_range(#[trigger] st.clauses[k], vars))
            && crate::cnf::clause_in_range(st.current, vars),
    }
}

/// Reads the literal words of a clause line into `clauses` and `current`.
/// `Some(Err(..))` is a refusal, `None` the literal `-2147483648`.
fn read_clause_words(
    ws: &Vec<Vec<char>>,
    line_no: usize,
    vars: u32,
    count: usize,
    clauses: &mut Vec<Clause>,
    current: &mut Vec<Lit>,
) -> (r: Option<Result<(), ParseError>>)
    requires
        state_in_range(DimacsState { header: Some((vars, count)), clauses: clause_views(old(clauses)@), current: old(current)@ }),
    ensures
        ({
            let st0 = DimacsState { header: Some((vars, count)), clauses: clause_views(old(clauses)@), current: old(current)@ };
            let st1 = DimacsState { header: Some((vars, count)), clauses: clause_views(final(clauses)@), current: final(current)@ };
            match scan_words(char_rows(ws@), st0, line_no) {
                Scan::Reading(s) => r == Some(Ok::<(), ParseError>(())) && s == st1 && state_in_range(st1),
                Scan::Refused(l, k) => r == Some(Err::<(), ParseError>(ParseError { line: l, kind: k })),
                Scan::Stuck => r is None,
                Scan::Stopped(_) => false,
            }
        }),
{
    let ghost wsv = char_rows(ws@);
    let ghost st0 = DimacsState { header: Some((vars, count)), clauses: clause_views(clauses@), current: current@ };
    let mut j: usize = 0;
    while j < ws.len()
        invariant
            j <= ws@.len(),
            wsv == char_rows(ws@),
            st0 == (DimacsState { header: Some((vars, count)), clauses: clause_views(old(clauses)@), current: old(current)@ }),
            scan_words(wsv.take(j as int), st0, line_no) == Scan::Reading(
                DimacsState { header: Some((vars, count)), clauses: clause_views(clauses@), current: current@ },
            ),
            state_in_range(DimacsState { header: Some((vars, count)), clauses: clause_views(clauses@), current: current@ }),
        decreases ws@.len() - j,
    {
        let ghost before = DimacsState { header: Some((vars, count)), clauses: clause_views(clauses@), current: current@ };
        proof {
            assert(wsv.take(j + 1).drop_last() =~= wsv.take(j as int));
            assert(wsv.take(j + 1).last() == ws@[j as int]@);
        }
        match parse_signed_word(&ws[j]) {
            None => {
                proof {
                    lemma_scan_words_settled(wsv, st0, line_no, j + 1, wsv.len() as int);
                    assert(wsv.take(wsv.len() as int) =~= wsv);
                }
                return Some(Err(ParseError { line: line_no, kind: ParseErrorKind::InvalidLiteral }));
            },
            Some(v) => {
                if v == 0 {
                    let mut finished: Vec<Lit> = Vec::new();
                    std::mem::swap(&mut finished, current);
                    clauses.push(finished);
                    proof {
                        assert(clause_views(clauses@) =~= before.clauses.push(before.current));
                    }
                } else if v == i32::MIN {
                    proof {
                        lemma_scan_words_settled(wsv, st0, line_no, j + 1, wsv.len() as int);
                        assert(wsv.take(wsv.len() as int) =~= wsv);
                    }
                    return None;
                } else {
                    let lit = Lit::from_dimacs(v);
                    if lit.var.0 > vars {
                        proof {
                            lemma_scan_words_settled(wsv, st0, line_no, j + 1, wsv.len() as int);
                            assert(wsv.take(wsv.len() as int) =~= wsv);
                        }
                        return Some(Err(ParseError { line: line_no, kind: ParseErrorKind::LiteralOutOfRange }));
                    }
                    current.push(lit);
                    proof {
                        assert(clause_views(clauses@) == before.clauses);
                    }
                }
            },
        }
        j = j + 1;
    }
    proof {
        assert(wsv.take(ws@.len() as int) =~= wsv);
    }
    Some(Ok(()))
}

/// Once reading the lines has stopped, the lines after change nothing.
proof fn lemma_scan_lines_settled(ls: Seq<Seq<char>>, j: int, k: int)
    requires
        0 <= j <= k,
        !(scan_lines(ls, j) is Reading),
    ensures
        scan_lines(ls, k) == scan_lines(ls, j),
    decreases k - j,
{
    if k > j {
        lemma_scan_lines_settled(ls, j, k - 1);
    }
}

/// Whether `w` is the word `cnf`.
fn is_cnf_word(w: &Vec<char>) -> (r: bool)
    ensures
        r == (w@ == "cnf"@),
{
    proof {
        reveal_strlit("cnf");
    }
    let r = w.len() == 3 && w[0] == 'c' && w[1] == 'n' && w[2] == 'f';
    proof {
        if r {
            assert(w@ =~= "cnf"@);
        }
    }
    r
}

/// Reads a DIMACS text as `dimacs_result` says: `None` exactly when reading
/// gets stuck (a literal `-2147483648` reached before any refusal), else the
/// formula read or the refusal with its line. A formula read names only
/// declared variables.
pub fn try_parse_dimacs(input: &str) -> (r: Option<Result<Cnf, ParseError>>)
    ensures
        match dimacs_result(input@) {
            DimacsResult::Stuck => r is None,
            DimacsResult::Refused(l, k) => r == Some(Err::<Cnf, ParseError>(ParseError { line: l, kind: k })),
            DimacsResult::Parsed(n, cls) => r matches Some(Ok(cnf)) && cnf.num_vars == n && clause_views(cnf.clauses@)
                == cls && cnf.wf(),
        },
{
    let cs = chars_of(input);
    let ls = split_into_lines(&cs);
    let ghost lsv = char_rows(ls@);
    let mut header: Option<(u32, usize)> = None;
    let mut clauses: Vec<Clause> = Vec::new();
    let mut current: Vec<Lit> = Vec::new();
    let mut stopped = false;
    let mut i: usize = 0;
    assert(clause_views(clauses@) =~= Seq::<Seq<Lit>>::empty());
    assert(current@ =~= Seq::<Lit>::empty());
    while i < ls.len() && !stopped
        invariant
            lsv == lines(input@),
            lsv == char_rows(ls@),
            i <= ls@.len(),
            scan_lines(lsv, i as int) == if stopped {
                Scan::Stopped(DimacsState { header, clauses: clause_views(clauses@), current: current@ })
            } else {
                Scan::Reading(DimacsState { header, clauses: clause_views(clauses@), current: current@ })
            },
            state_in_range(DimacsState { header, clauses: clause_views(clauses@), current: current@ }),
        decreases ls@.len() - i + if stopped { 0int } else { 1int },
    {
        let ghost st = DimacsState { header, clauses: clause_views(clauses@), current: current@ };
        let line_no = i + 1;
        let ws = split_into_words(&ls[i]);
        proof {
            assert(lsv[i as int] == ls@[i as int]@);
            lemma_words_nonempty(ls@[i as int]@);
            assert(scan_lines(lsv, i + 1) == line_step(lsv[i as int], line_no, st));
        }
        if ws.len() > 0 {
            proof {
                assert(char_rows(ws@)[0] == ws@[0]@);
                assert(ws@[0]@.len() > 0);
            }
            let first = ws[0][0];
            if first == 'c' {
            } else if first == '%' {
                stopped = true;
            } else if first == 'p' {
                if header.is_some() {
                    proof {
                        lemma_scan_lines_settled(lsv, i + 1, lsv.len() as int);
                    }
                    return Some(Err(ParseError { line: line_no, kind: ParseErrorKind::DuplicateProblemLine }));
                }
                proof {
                    if ws@.len() > 1 {
                        assert(char_rows(ws@)[1] == ws@[1]@);
                    }
                }
                if ws.len() != 4 || !is_cnf_word(&ws[1]) {
                    proof {
                        lemma_scan_lines_settled(lsv, i + 1, lsv.len() as int);
                    }
                    return Some(Err(ParseError { line: line_no, kind: ParseErrorKind::BadProblemLine }));
                }
                proof {
                    assert(char_rows(ws@)[2] == ws@[2]@);
                    assert(char_rows(ws@)[3] == ws@[3]@);
                }
                let vars = match parse_unsigned_word(&ws[2], u32::MAX as u64) {
                    Some(v) => v,
                    None => {
                        proof {
                            lemma_scan_lines_settled(lsv, i + 1, lsv.len() as int);
                        }
                        return Some(Err(ParseError { line: line_no, kind: ParseErrorKind::InvalidVariableCount }));
                    },
                };
                let count = match parse_unsigned_word(&ws[3], usize::MAX as u64) {
                    Some(c) => c,
                    None => {
                        proof {
                            lemma_scan_lines_settled(lsv, i + 1, lsv.len() as int);
                        }
                        return Some(Err(ParseError { line: line_no, kind: ParseErrorKind::InvalidClauseCount }));
                    },
                };
                header = Some((vars as u32, count as usize));
            } else {
                match header {
                    None => {
                        proof {
                            lemma_scan_lines_settled(lsv, i + 1, lsv.len() as int);
                        }
                        return Some(Err(ParseError { line: line_no, kind: ParseErrorKind::MissingProblemLine }));
                    },
                    Some((vars, count)) => {
                        match read_clause_words(&ws, line_no, vars, count, &mut clauses, &mut current) {
                            None => {
                                proof {
                                    lemma_scan_lines_settled(lsv, i + 1, lsv.len() as int);
                                }
                                return None;
                            },
                            Some(Err(e)) => {
                                proof {
                                    lemma_scan_lines_settled(lsv, i + 1, lsv.len() as int);
                                }
                                return Some(Err(e));
                            },
                            Some(Ok(())) => {},
                        }
                    },
                }
            }
        }
        i = i + 1;
    }
    proof {
        if stopped {
            lemma_scan_lines_settled(lsv, i as int, lsv.len() as int);
        }
    }
    let last_line: usize = if ls.len() == 0 { 1 } else { ls.len() };
    match header {
        None => Some(Err(ParseError { line: 1, kind: ParseErrorKind::MissingProblemLine })),
        Some((vars, count)) => {
            if current.len() > 0 {
                Some(Err(ParseError { line: last_line, kind: ParseErrorKind::MissingTrailingZero }))
            } else if clauses.len() != count {
                Some(Err(ParseError { line: last_line, kind: ParseErrorKind::ClauseCountMismatch }))
            } else {
                let cnf = Cnf::new(vars, clauses);
                proof {
                    assert forall|k: int| 0 <= k < cnf.clauses@.len() implies crate::cnf::clause_in_range(
                        #[trigger] cnf.clause(k),
                        cnf.num_vars,
                    ) by {
                        assert(clause_views(cnf.clauses@)[k] == cnf.clause(k));
                    }
                }
                Some(Ok(cnf))
            }
        },
    }
}

/// Reads a DIMACS text: the formula, or the refusal with its line, as
/// `dimacs_result` says. The text must not reach a literal `-2147483648`
/// before any refusal (reading gets stuck there; `try_parse_dimacs` takes
/// every text). A formula read names only declared variables and has the
/// declared number of clauses.
pub fn parse_dimacs(input: &str) -> (r: Result<Cnf, ParseError>)
    requires
        !(dimacs_result(input@) is Stuck),
    ensures
        match dimacs_result(input@) {
            DimacsResult::Refused(l, k) => r == Err::<Cnf, ParseError>(ParseError { line: l, kind: k }),
            DimacsResult::Parsed(n, cls) => r matches Ok(cnf) && cnf.num_vars == n && clause_views(cnf.clauses@) == cls
                && cnf.wf(),
            DimacsResult::Stuck => false,
        },
{
    match try_parse_dimacs(input) {
        Some(r) => r,
        None => Err(ParseError { line: 0, kind: ParseErrorKind::InvalidLiteral }),
    }
}

} // verus!
