use vstd::prelude::*;

use crate::clause::Clause;
use crate::formula::Formula;
use crate::lit::{dimacs_lit, Lit};

verus! {

/// std's I/O error, carried unopened in `ParseError::Io` for readers that
/// fail before any text reaches the parser.
#[verifier::external_type_specification]
#[verifier::external_body]
pub struct ExIoError(std::io::Error);

/// Why a DIMACS text could not be read.
#[derive(Debug)]
pub enum ParseError {
    Io(std::io::Error),
    InvalidLine,
    InvalidToken,
}

/// ASCII whitespace: tab, line feed, vertical tab, form feed, carriage return, space.
pub open spec fn is_space(b: u8) -> bool {
    b == 32 || (9 <= b && b <= 13)
}

/// The length of the whitespace character (in the sense of Unicode's
/// White_Space property) that `s` starts with in UTF-8, or 0 if it starts with
/// none.
pub open spec fn space_len(s: Seq<u8>) -> nat {
    if s.len() >= 1 && is_space(s[0]) {
        1
    } else if s.len() >= 2 && s[0] == 0xC2 && (s[1] == 0x85 || s[1] == 0xA0) {
        // U+0085, U+00A0
        2
    } else if s.len() >= 3 && ((s[0] == 0xE1 && s[1] == 0x9A && s[2] == 0x80) || (s[0] == 0xE2
        && s[1] == 0x80 && ((0x80 <= s[2] && s[2] <= 0x8A) || s[2] == 0xA8 || s[2] == 0xA9 || s[2]
        == 0xAF)) || (s[0] == 0xE2 && s[1] == 0x81 && s[2] == 0x9F) || (s[0] == 0xE3 && s[1]
        == 0x80 && s[2] == 0x80)) {
        // U+1680, U+2000..U+200A, U+2028, U+2029, U+202F, U+205F, U+3000
        3
    } else {
        0
    }
}

/// The length of the separator that `s` starts with, or 0: a line feed when
/// `by_line`, whitespace otherwise.
pub open spec fn separator_len(s: Seq<u8>, by_line: bool) -> nat {
    if by_line {
        if s.len() >= 1 && s[0] == 10 {
            1
        } else {
            0
        }
    } else {
        space_len(s)
    }
}

/// `acc` with the piece `cur` appended, unless `cur` is empty.
pub open spec fn close_piece(cur: Seq<u8>, acc: Seq<Seq<u8>>) -> Seq<Seq<u8>> {
    if cur.len() > 0 {
        acc.push(cur)
    } else {
        acc
    }
}

/// The nonempty pieces of `s` between separators (line feeds when `by_line`,
/// whitespace otherwise), after the complete pieces `acc` and the partial
/// piece `cur` already read.
pub open spec fn pieces_from(s: Seq<u8>, by_line: bool, cur: Seq<u8>, acc: Seq<Seq<u8>>) -> Seq<
    Seq<u8>,
>
    decreases s.len(),
{
    if s.len() == 0 {
        close_piece(cur, acc)
    } else if separator_len(s, by_line) > 0 {
        pieces_from(
            s.skip(separator_len(s, by_line) as int),
            by_line,
            Seq::empty(),
            close_piece(cur, acc),
        )
    } else {
        pieces_from(s.drop_first(), by_line, cur.push(s[0]), acc)
    }
}

/// The nonempty lines of a text.
pub open spec fn lines_of(s: Seq<u8>) -> Seq<Seq<u8>> {
    pieces_from(s, true, Seq::empty(), Seq::empty())
}

/// The whitespace-separated tokens of a line.
pub open spec fn tokens_of(s: Seq<u8>) -> Seq<Seq<u8>> {
    pieces_from(s, false, Seq::empty(), Seq::empty())
}

/// The byte sequences held by a vector of byte vectors.
pub open spec fn views(v: Seq<Vec<u8>>) -> Seq<Seq<u8>> {
    v.map_values(|x: Vec<u8>| x@)
}

pub open spec fn is_digit(b: u8) -> bool {
    48 <= b && b <= 57
}

pub open spec fn all_digits(d: Seq<u8>) -> bool {
    d.len() > 0 && forall|i: int| 0 <= i < d.len() ==> is_digit(#[trigger] d[i])
}

/// The number that the decimal digits `d` spell.
pub open spec fn digits_value(d: Seq<u8>) -> nat
    decreases d.len(),
{
    if d.len() == 0 {
        0
    } else {
        digits_value(d.drop_last()) * 10 + (d.last() - 48) as nat
    }
}

/// A token with an optional leading `+` and then only digits, and its value.
pub open spec fn unsigned_value(t: Seq<u8>) -> Option<nat> {
    let d = if t.len() > 0 && t[0] == 43 {
        t.drop_first()
    } else {
        t
    };
    if all_digits(d) {
        Some(digits_value(d))
    } else {
        None
    }
}

/// The `u32` a token spells in decimal, if any.
pub open spec fn u32_token(t: Seq<u8>) -> Option<u32> {
    match unsigned_value(t) {
        Some(v) => if v <= u32::MAX {
            Some(v as u32)
        } else {
            None
        },
        None => None,
    }
}

/// The `i32` a token spells in decimal, with an optional `+` or `-` sign, if any.
pub open spec fn i32_token(t: Seq<u8>) -> Option<i32> {
    if t.len() > 0 && t[0] == 45 {
        let d = t.drop_first();
        if all_digits(d) && digits_value(d) <= 0x8000_0000 {
            Some((-(digits_value(d) as int)) as i32)
        } else {
            None
        }
    } else {
        match unsigned_value(t) {
            Some(v) => if v <= i32::MAX {
                Some(v as i32)
            } else {
                None
            },
            None => None,
        }
    }
}

/// The literals of a clause line's tokens (its final `0` removed), read after
/// `acc`, with `ended` once an inner `0` has been read. Every token must be an
/// integer, else the line is an error; an inner `0` ends the clause, and the
/// integers after it add no literal.
pub open spec fn lits_from(ts: Seq<Seq<u8>>, acc: Seq<Lit>, ended: bool) -> Result<
    Seq<Lit>,
    ParseError,
>
    decreases ts.len(),
{
    if ts.len() == 0 {
        Ok(acc)
    } else {
        match i32_token(ts[0]) {
            None => Err(ParseError::InvalidToken),
            Some(n) => if ended || n == 0 {
                lits_from(ts.drop_first(), acc, true)
            } else {
                lits_from(ts.drop_first(), acc.push(dimacs_lit(n)), false)
            },
        }
    }
}

/// A blank line or one that starts with `c`.
pub open spec fn is_comment(ts: Seq<Seq<u8>>) -> bool {
    ts.len() == 0 || (ts[0].len() > 0 && ts[0][0] == 99u8)
}

/// A line of four tokens that starts with `p cnf`.
pub open spec fn is_header(ts: Seq<Seq<u8>>) -> bool {
    ts.len() == 4 && ts[0] == seq![112u8] && ts[1] == seq![99u8, 110u8, 102u8]
}

/// What one line means: nothing (blank, comment `c ...`, header
/// `p cnf <vars> <clauses>`), a clause (`<lits> 0`), or an error.
pub open spec fn line_meaning(ts: Seq<Seq<u8>>) -> Result<Option<Seq<Lit>>, ParseError> {
    if is_comment(ts) {
        Ok(None)
    } else if is_header(ts) {
        if u32_token(ts[2]) is Some && u32_token(ts[3]) is Some {
            Ok(None)
        } else {
            Err(ParseError::InvalidToken)
        }
    } else if ts.last() == seq![48u8] {
        match lits_from(ts.drop_last(), Seq::empty(), false) {
            Ok(ls) => Ok(Some(ls)),
            Err(e) => Err(e),
        }
    } else {
        Err(ParseError::InvalidLine)
    }
}

/// The clauses of the lines `ls`, read after the clauses `acc`; the first bad
/// line decides the error.
pub open spec fn parse_from(ls: Seq<Seq<u8>>, acc: Seq<Seq<Lit>>) -> Result<
    Seq<Seq<Lit>>,
    ParseError,
>
    decreases ls.len(),
{
    if ls.len() == 0 {
        Ok(acc)
    } else {
        match line_meaning(tokens_of(ls[0])) {
            Err(e) => Err(e),
            Ok(None) => parse_from(ls.drop_first(), acc),
            Ok(Some(c)) => parse_from(ls.drop_first(), acc.push(c)),
        }
    }
}

/// The clauses of a DIMACS CNF text, in order, or the error of its first bad line.
pub open spec fn dimacs(text: Seq<u8>) -> Result<Seq<Seq<Lit>>, ParseError> {
    parse_from(lines_of(text), Seq::empty())
}

/// The length of the separator at position `i` of `s`, or 0.
fn separator_at(s: &[u8], i: usize, by_line: bool) -> (r: usize)
    requires
        i < s@.len(),
    ensures
        r == separator_len(s@.skip(i as int), by_line),
{
    let ghost t = s@.skip(i as int);
    let n = s.len() - i;
    let b0 = s[i];
    assert(t[0] == b0);
    if by_line {
        return if b0 == 10 {
            1
        } else {
            0
        };
    }
    if b0 == 32 || (9 <= b0 && b0 <= 13) {
        return 1;
    }
    if n >= 2 {
        let b1 = s[i + 1];
        assert(t[1] == b1);
        if b0 == 0xC2 && (b1 == 0x85 || b1 == 0xA0) {
            return 2;
        }
        if n >= 3 {
            let b2 = s[i + 2];
            assert(t[2] == b2);
            if (b0 == 0xE1 && b1 == 0x9A && b2 == 0x80) || (b0 == 0xE2 && b1 == 0x80 && ((0x80 <= b2
                && b2 <= 0x8A) || b2 == 0xA8 || b2 == 0xA9 || b2 == 0xAF)) || (b0 == 0xE2 && b1
                == 0x81 && b2 == 0x9F) || (b0 == 0xE3 && b1 == 0x80 && b2 == 0x80) {
                return 3;
            }
        }
    }
    0
}

/// Splits `s` into its nonempty pieces between separators.
fn split_pieces(s: &[u8], by_line: bool) -> (r: Vec<Vec<u8>>)
    ensures
        views(r@) == pieces_from(s@, by_line, Seq::empty(), Seq::empty()),
{
    let mut acc: Vec<Vec<u8>> = Vec::new();
    let mut cur: Vec<u8> = Vec::new();
    let mut i: usize = 0;
    assert(s@.skip(0) =~= s@);
    assert(cur@ =~= Seq::<u8>::empty());
    assert(views(acc@) =~= Seq::<Seq<u8>>::empty());
    while i < s.len()
        invariant
            i <= s@.len(),
            pieces_from(s@.skip(i as int), by_line, cur@, views(acc@)) == pieces_from(
                s@,
                by_line,
                Seq::empty(),
                Seq::empty(),
            ),
        decreases s@.len() - i,
    {
        let b = s[i];
        assert(s@.skip(i as int)[0] == b);
        assert(s@.skip(i as int).drop_first() =~= s@.skip(i + 1));
        let k = separator_at(s, i, by_line);
        if k > 0 {
            assert(s@.skip(i as int).skip(k as int) =~= s@.skip(i + k));
            if cur.len() > 0 {
                let ghost before = acc@;
                acc.push(cur);
                assert(views(acc@) =~= views(before).push(cur@));
                cur = Vec::new();
            } else {
                cur = Vec::new();
            }
            assert(cur@ =~= Seq::<u8>::empty());
            i = i + k;
        } else {
            cur.push(b);
            i = i + 1;
        }
    }
    assert(s@.skip(i as int) =~= Seq::<u8>::empty());
    if cur.len() > 0 {
        let ghost before = acc@;
        acc.push(cur);
        assert(views(acc@) =~= views(before).push(cur@));
    }
    acc
}

/// Digits past `k` can only make a number larger.
proof fn lemma_prefix_value(d: Seq<u8>, k: int)
    requires
        0 <= k <= d.len(),
    ensures
        digits_value(d.subrange(0, k)) <= digits_value(d),
    decreases d.len(),
{
    if k < d.len() {
        assert(d.drop_last().subrange(0, k) =~= d.subrange(0, k));
        lemma_prefix_value(d.drop_last(), k);
    } else {
        assert(d.subrange(0, k) =~= d);
    }
}

/// Reads the digits of `t` from `start` on: their value when all of `t[start..]`
/// are digits (at least one) and the value is at most 2^32.
fn read_digits(t: &[u8], start: usize) -> (r: Option<u64>)
    requires
        start <= t@.len(),
    ensures
        ({
            let d = t@.subrange(start as int, t@.len() as int);
            r == if all_digits(d) && digits_value(d) <= 0x1_0000_0000 {
                Some(digits_value(d) as u64)
            } else {
                None::<u64>
            }
        }),
{
    let ghost d = t@.subrange(start as int, t@.len() as int);
    if start == t.len() {
        return None;
    }
    let mut acc: u64 = 0;
    let mut i: usize = start;
    assert(t@.subrange(start as int, start as int) =~= Seq::<u8>::empty());
    while i < t.len()
        invariant
            start <= i <= t@.len(),
            d == t@.subrange(start as int, t@.len() as int),
            acc as nat == digits_value(t@.subrange(start as int, i as int)),
            acc <= 0x1_0000_0000,
            forall|k: int| start <= k < i ==> is_digit(#[trigger] t@[k]),
        decreases t@.len() - i,
    {
        let b = t[i];
        if !(48 <= b && b <= 57) {
            assert(!is_digit(d[i - start]));
            return None;
        }
        assert(t@.subrange(start as int, i + 1).drop_last() =~= t@.subrange(start as int, i as int));
        let next: u64 = acc * 10 + (b - 48) as u64;
        if next > 0x1_0000_0000 {
            proof {
                assert(t@.subrange(start as int, i + 1) =~= d.subrange(0, i + 1 - start));
                if all_digits(d) {
                    lemma_prefix_value(d, i + 1 - start);
                }
            }
            return None;
        }
        acc = next;
        i = i + 1;
    }
    assert(t@.subrange(start as int, i as int) == d);
    assert(all_digits(d)) by {
        assert forall|k: int| 0 <= k < d.len() implies is_digit(#[trigger] d[k]) by {
            assert(d[k] == t@[k + start]);
        }
    }
    Some(acc)
}

/// Reads a token as a `u32` in decimal, with an optional `+`.
fn parse_u32_token(t: &[u8]) -> (r: Option<u32>)
    ensures
        r == u32_token(t@),
{
    let start: usize = if t.len() > 0 && t[0] == 43 {
        1
    } else {
        0
    };
    assert(t@.subrange(start as int, t@.len() as int) =~= if t@.len() > 0 && t@[0] == 43 {
        t@.drop_first()
    } else {
        t@
    });
    match read_digits(t, start) {
        Some(v) => if v <= 0xffff_ffff {
            Some(v as u32)
        } else {
            None
        },
        None => None,
    }
}

/// Reads a token as an `i32` in decimal, with an optional `+` or `-`.
fn parse_i32_token(t: &[u8]) -> (r: Option<i32>)
    ensures
        r == i32_token(t@),
{
    if t.len() > 0 && t[0] == 45 {
        assert(t@.subrange(1, t@.len() as int) =~= t@.drop_first());
        match read_digits(t, 1) {
            Some(v) => if v <= 0x8000_0000 {
                Some((-(v as i64)) as i32)
            } else {
                None
            },
            None => None,
        }
    } else {
        let start: usize = if t.len() > 0 && t[0] == 43 {
            1
        } else {
            0
        };
        assert(t@.subrange(start as int, t@.len() as int) =~= if t@.len() > 0 && t@[0] == 43 {
            t@.drop_first()
        } else {
            t@
        });
        match read_digits(t, start) {
            Some(v) => if v <= 0x7fff_ffff {
                Some(v as i32)
            } else {
                None
            },
            None => None,
        }
    }
}

/// Reads the literals of the first `end` tokens of a clause line.
fn parse_clause(toks: &Vec<Vec<u8>>, end: usize) -> (r: Result<Clause, ParseError>)
    requires
        end <= toks@.len(),
    ensures
        match lits_from(views(toks@).take(end as int), Seq::empty(), false) {
            Ok(ls) => r matches Ok(c) && c@ == ls,
            Err(e) => r matches Err(x) && x == e,
        },
{
    let ghost ts = views(toks@).take(end as int);
    let mut clause = Clause::new();
    let mut ended = false;
    let mut k: usize = 0;
    assert(ts.skip(0) =~= ts);
    while k < end
        invariant
            k <= end <= toks@.len(),
            ts == views(toks@).take(end as int),
            lits_from(ts.skip(k as int), clause@, ended) == lits_from(ts, Seq::empty(), false),
        decreases end - k,
    {
        assert(ts.skip(k as int)[0] == toks@[k as int]@);
        assert(ts.skip(k as int).drop_first() =~= ts.skip(k + 1));
        match parse_i32_token(toks[k].as_slice()) {
            None => return Err(ParseError::InvalidToken),
            Some(n) => {
                if ended || n == 0 {
                    ended = true;
                } else {
                    clause.add_literal(Lit::from_dimacs(n));
                }
            },
        }
        k = k + 1;
    }
    assert(ts.skip(k as int) =~= Seq::<Seq<u8>>::empty());
    Ok(clause)
}

/// Reads one line, given as its tokens.
fn parse_line(toks: &Vec<Vec<u8>>) -> (r: Result<Option<Clause>, ParseError>)
    ensures
        match line_meaning(views(toks@)) {
            Ok(None) => r matches Ok(None),
            Ok(Some(ls)) => r matches Ok(Some(c)) && c@ == ls,
            Err(e) => r matches Err(x) && x == e,
        },
{
    let ghost ts = views(toks@);
    let n = toks.len();
    if n == 0 || (toks[0].len() > 0 && toks[0][0] == 99) {
        proof {
            if n > 0 {
                assert(ts[0] == toks@[0]@);
            }
        }
        return Ok(None);
    }
    assert(ts[0] == toks@[0]@);
    if n == 4 && toks[0].len() == 1 && toks[0][0] == 112 && toks[1].len() == 3 && toks[1][0] == 99
        && toks[1][1] == 110 && toks[1][2] == 102 {
        assert(ts[0] =~= seq![112u8]);
        assert(ts[1] =~= seq![99u8, 110u8, 102u8]);
        let vars = parse_u32_token(toks[2].as_slice());
        let count = parse_u32_token(toks[3].as_slice());
        if vars.is_some() && count.is_some() {
            return Ok(None);
        }
        return Err(ParseError::InvalidToken);
    }
    proof {
        if n == 4 {
            assert(ts[1] == toks@[1]@);
            if is_header(ts) {
                assert(ts[0][0] == 112u8);
                assert(ts[1][0] == 99u8 && ts[1][1] == 110u8 && ts[1][2] == 102u8);
            }
        }
    }
    let last = &toks[n - 1];
    if last.len() == 1 && last[0] == 48 {
        assert(ts.last() =~= seq![48u8]);
        assert(views(toks@).take(n - 1) =~= ts.drop_last());
        match parse_clause(toks, n - 1) {
            Ok(c) => Ok(Some(c)),
            Err(e) => Err(e),
        }
    } else {
        assert(ts.last() == last@);
        Err(ParseError::InvalidLine)
    }
}

/// Reads a DIMACS CNF text: comment lines start with `c`, the header
/// is `p cnf <vars> <clauses>` (counts are checked to be integers and otherwise
/// ignored), and every other nonblank line lists a clause's literals as signed
/// integers ending in `0`.
pub fn parse_dimacs_bytes(text: &[u8]) -> (r: Result<Formula, ParseError>)
    ensures
        match dimacs(text@) {
            Ok(cs) => r matches Ok(f) && f@ == cs,
            Err(e) => r matches Err(x) && x == e,
        },
{
    let lines = split_pieces(text, true);
    let ghost ls = views(lines@);
    let mut formula = Formula::new();
    let mut i: usize = 0;
    assert(ls.skip(0) =~= ls);
    assert(formula@ =~= Seq::<Seq<Lit>>::empty());
    while i < lines.len()
        invariant
            i <= lines@.len(),
            ls == views(lines@),
            ls == lines_of(text@),
            parse_from(ls.skip(i as int), formula@) == dimacs(text@),
        decreases lines@.len() - i,
    {
        assert(ls.skip(i as int)[0] == lines@[i as int]@);
        assert(ls.skip(i as int).drop_first() =~= ls.skip(i + 1));
        let toks = split_pieces(lines[i].as_slice(), false);
        match parse_line(&toks) {
            Err(e) => return Err(e),
            Ok(None) => {},
            Ok(Some(c)) => formula.add_clause(c),
        }
        i = i + 1;
    }
    assert(ls.skip(i as int) =~= Seq::<Seq<u8>>::empty());
    Ok(formula)
}

} // verus!
