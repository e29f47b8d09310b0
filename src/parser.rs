//! Recursive-descent parser for the query language.
//!
//! ```text
//! Query      := OrExpr
//! OrExpr     := AndExpr ("OR" AndExpr)*
//! AndExpr    := Primary ("AND" Primary)*
//! Primary    := "(" OrExpr ")" | Identifier "contains" Value | Identifier CompareOp Value
//! ```
use vstd::prelude::*;
use vstd::string::*;
use crate::ast::{CompareOp, Date, Expr, LitView, Number, Tree, Value, pow10};
use crate::eval::lemma_pow10_mono;
use crate::text::{
    all_digits, alnum, chars_of, digits_value, find_char, index_of, is_alnum, is_digit, is_space,
    lemma_index_of_bounds, parse_date_text, parse_uint, space, text_date, uint_text,
    unsigned_body,
};

verus! {

/// A parser over the characters of one query.
pub struct Parser {
    input: String,
    chars: Vec<char>,
    pos: usize,
}

/// Why a query was refused, and the byte offset where parsing stopped.
#[derive(Debug)]
pub struct ParseError {
    pub message: String,
    pub pos: usize,
}

/// The number of bytes that `c` takes in UTF-8.
pub open spec fn utf8_width(c: char) -> nat {
    if (c as u32) < 0x80 {
        1
    } else if (c as u32) < 0x800 {
        2
    } else if (c as u32) < 0x10000 {
        3
    } else {
        4
    }
}

/// The byte offset of character index `n` of `s`.
pub open spec fn byte_offset(s: Seq<char>, n: int) -> nat
    decreases n,
{
    if n <= 0 || n > s.len() {
        0
    } else {
        byte_offset(s, n - 1) + utf8_width(s[n - 1])
    }
}

/// The first index at or after `p` that is not white space.
pub open spec fn skip_ws(s: Seq<char>, p: int) -> int
    decreases s.len() - p,
{
    if 0 <= p < s.len() && space(s[p]) {
        skip_ws(s, p + 1)
    } else {
        p
    }
}

pub open spec fn ident_char(c: char) -> bool {
    alnum(c) || c == '_' || c == '-'
}

/// The end of the run of identifier characters that starts at `p`.
pub open spec fn ident_end(s: Seq<char>, p: int) -> int
    decreases s.len() - p,
{
    if 0 <= p < s.len() && ident_char(s[p]) {
        ident_end(s, p + 1)
    } else {
        p
    }
}

pub open spec fn number_char(c: char) -> bool {
    is_digit(c) || c == '.' || c == '-'
}

/// The end of the run of digits, dots and dashes that starts at `p`.
pub open spec fn number_end(s: Seq<char>, p: int) -> int
    decreases s.len() - p,
{
    if 0 <= p < s.len() && number_char(s[p]) {
        number_end(s, p + 1)
    } else {
        p
    }
}

/// Equality of characters up to ASCII case.
pub open spec fn eq_ignore_ascii_case(a: char, b: char) -> bool {
    a == b || ('A' <= a && a <= 'Z' && b as u32 == a as u32 + 32) || ('a' <= a && a <= 'z' && a
        as u32 == b as u32 + 32)
}

/// Keyword `kw` stands at `p`, in any ASCII case, and is not followed by a
/// letter, digit or underscore.
pub open spec fn keyword_at(s: Seq<char>, p: int, kw: Seq<char>) -> bool {
    &&& 0 <= p
    &&& p + kw.len() <= s.len()
    &&& forall|i: int| 0 <= i < kw.len() ==> eq_ignore_ascii_case(#[trigger] s[p + i], kw[i])
    &&& (p + kw.len() == s.len() || !(alnum(s[p + kw.len()]) || s[p + kw.len()] == '_'))
}

/// `t` stands at `p`.
pub open spec fn text_at(s: Seq<char>, p: int, t: Seq<char>) -> bool {
    0 <= p && p + t.len() <= s.len() && s.subrange(p, p + t.len()) == t
}

/// The operator at `p` and its length, longest match first.
pub open spec fn operator_at(s: Seq<char>, p: int) -> Option<(CompareOp, int)> {
    if text_at(s, p, seq!['>', '=']) {
        Some((CompareOp::Ge, 2))
    } else if text_at(s, p, seq!['<', '=']) {
        Some((CompareOp::Le, 2))
    } else if text_at(s, p, seq!['!', '=']) {
        Some((CompareOp::Ne, 2))
    } else if text_at(s, p, seq!['=']) {
        Some((CompareOp::Eq, 1))
    } else if text_at(s, p, seq!['>']) {
        Some((CompareOp::Gt, 1))
    } else if text_at(s, p, seq!['<']) {
        Some((CompareOp::Lt, 1))
    } else {
        None
    }
}

/// A date literal: `YYYY-MM-DD` with the month in 1..=12 and the day in 1..=31.
pub open spec fn date_literal(t: Seq<char>) -> Option<Date> {
    match text_date(t) {
        Some(d) => if 1 <= d.month <= 12 && 1 <= d.day <= 31 {
            Some(d)
        } else {
            None
        },
        None => None,
    }
}

/// The sign, integer digits and fraction digits of a number token.
pub open spec fn literal_parts(t: Seq<char>) -> (bool, Seq<char>, Seq<char>) {
    let neg = t.len() > 0 && t[0] == '-';
    let b = if neg { t.drop_first() } else { t };
    let k = index_of(b, '.', 0);
    let fp = if k < b.len() { b.subrange(k + 1, b.len() as int) } else { Seq::empty() };
    (neg, b.subrange(0, k), fp)
}

/// The number with sign `neg`, integer digits `ip` and fraction digits `fp`,
/// where all are digits, there is at least one integer digit, and a `Number`
/// can hold it.
pub open spec fn number_from_parts(neg: bool, ip: Seq<char>, fp: Seq<char>) -> Option<Number> {
    let v = digits_value(ip) * pow10(fp.len()) + digits_value(fp);
    if all_digits(ip) && all_digits(fp) && ip.len() > 0 && fp.len() <= 18 && v
        <= 0x7fff_ffff_ffff_ffff {
        Some(Number { mantissa: (if neg { -v } else { v as int }) as i64, scale: fp.len() as u32 })
    } else {
        None
    }
}

/// A number literal: an optional `-`, at least one digit, and an optional
/// `.` with more digits; held exactly where a `Number` can.
pub open spec fn number_literal(t: Seq<char>) -> Option<Number> {
    let (neg, ip, fp) = literal_parts(t);
    number_from_parts(neg, ip, fp)
}

/// Reads `s[lo..hi]`, all digits, as a number no larger than `max`; the empty
/// run reads as zero.
fn digits_or_zero(s: &Vec<char>, lo: usize, hi: usize, max: u64) -> (r: Option<u64>)
    requires
        lo <= hi <= s@.len(),
    ensures
        ({
            let t = s@.subrange(lo as int, hi as int);
            if all_digits(t) && digits_value(t) <= max {
                r == Some(digits_value(t) as u64)
            } else {
                r.is_none()
            }
        }),
{
    let ghost t = s@.subrange(lo as int, hi as int);
    if lo == hi {
        return Some(0);
    }
    if s[lo] == '+' {
        assert(!is_digit(t[0]));
        return None;
    }
    assert(unsigned_body(t) == t);
    match parse_uint(s, lo, hi, max) {
        Some(v) => Some(v),
        None => None,
    }
}

fn number_from_digits(s: &Vec<char>, neg: bool, b0: usize, k: usize, f0: usize, hi: usize) -> (r:
    Option<Number>)
    requires
        b0 <= k <= f0 <= hi <= s@.len(),
    ensures
        r == number_from_parts(
            neg,
            s@.subrange(b0 as int, k as int),
            s@.subrange(f0 as int, hi as int),
        ),
{
    let ghost ip = s@.subrange(b0 as int, k as int);
    let ghost fp = s@.subrange(f0 as int, hi as int);
    let ip_v = digits_or_zero(s, b0, k, 0x7fff_ffff_ffff_ffff);
    let fp_v = digits_or_zero(s, f0, hi, 0x7fff_ffff_ffff_ffff);
    let fl = hi - f0;
    if k == b0 || fl > 18 {
        return None;
    }
    proof {
        lemma_pow10_mono(0, fp.len());
        lemma_pow10_mono(fl as nat, 18);
        lemma_pow10_18();
    }
    match (ip_v, fp_v) {
        (Some(x), Some(y)) => {
            let p = crate::eval::pow10_exec(fl as u32);
            assert((x as int) * (p as int) <= 0x7fff_ffff_ffff_ffff * 1_000_000_000_000_000_000)
                by (nonlinear_arith)
                requires
                    x <= 0x7fff_ffff_ffff_ffff,
                    p <= 1_000_000_000_000_000_000;
            let total = (x as u128) * p + (y as u128);
            if total > 0x7fff_ffff_ffff_ffff {
                return None;
            }
            let m = total as i64;
            Some(Number { mantissa: if neg { -m } else { m }, scale: fl as u32 })
        },
        _ => {
            proof {
                if all_digits(ip) && all_digits(fp) {
                    assert(digits_value(ip) * pow10(fp.len()) >= digits_value(ip))
                        by (nonlinear_arith)
                        requires pow10(fp.len()) >= 1;
                }
            }
            None
        },
    }
}

proof fn lemma_pow10_18()
    ensures
        pow10(18) == 1_000_000_000_000_000_000,
{
    reveal_with_fuel(pow10, 19);
}

/// Reads `s[lo..hi]` as `number_literal` does.
fn parse_number_text(s: &Vec<char>, lo: usize, hi: usize) -> (r: Option<Number>)
    requires
        lo <= hi <= s@.len(),
    ensures
        r == number_literal(s@.subrange(lo as int, hi as int)),
{
    let ghost t = s@.subrange(lo as int, hi as int);
    let neg = lo < hi && s[lo] == '-';
    let b0 = if neg { lo + 1 } else { lo };
    let ghost b = if neg { t.drop_first() } else { t };
    assert(b =~= s@.subrange(b0 as int, hi as int));
    let k = find_char(s, '.', b0);
    proof {
        lemma_index_of_bounds(s@, '.', b0 as int);
        lemma_index_of_shift(s@, b0 as int, hi as int, 0);
    }
    let k = if k > hi { hi } else { k };
    assert(b.subrange(0, k - b0) =~= s@.subrange(b0 as int, k as int));
    let f0 = if k < hi { k + 1 } else { hi };
    assert((if k < hi { b.subrange(k - b0 + 1, b.len() as int) } else { Seq::<char>::empty() })
        =~= s@.subrange(f0 as int, hi as int));
    number_from_digits(s, neg, b0, k, f0, hi)
}

proof fn lemma_index_of_shift(s: Seq<char>, lo: int, hi: int, i: int)
    requires
        0 <= lo <= hi <= s.len(),
        0 <= i <= hi - lo,
    ensures
        ({
            let k = index_of(s, '.', lo + i);
            let kk = if k > hi { hi } else { k };
            index_of(s.subrange(lo, hi), '.', i) == kk - lo
        }),
    decreases hi - lo - i,
{
    lemma_index_of_bounds(s, '.', lo + i);
    if i < hi - lo {
        lemma_index_of_shift(s, lo, hi, i + 1);
    }
}

/// Reads a date literal as `date_literal` does.
fn try_parse_date(s: &str) -> (r: Option<Date>)
    ensures
        r == date_literal(s@),
{
    match parse_date_text(&chars_of(s)) {
        Some(d) => {
            if 1 <= d.month && d.month <= 12 && 1 <= d.day && d.day <= 31 {
                Some(d)
            } else {
                None
            }
        },
        None => None,
    }
}

pub proof fn lemma_skip_ws_bounds(s: Seq<char>, p: int)
    requires
        0 <= p <= s.len(),
    ensures
        p <= skip_ws(s, p) <= s.len(),
        skip_ws(s, p) < s.len() ==> !space(s[skip_ws(s, p)]),
        skip_ws(s, skip_ws(s, p)) == skip_ws(s, p),
    decreases s.len() - p,
{
    if p < s.len() && space(s[p]) {
        lemma_skip_ws_bounds(s, p + 1);
    }
}

pub proof fn lemma_ident_end_bounds(s: Seq<char>, p: int)
    requires
        0 <= p <= s.len(),
    ensures
        p <= ident_end(s, p) <= s.len(),
    decreases s.len() - p,
{
    if p < s.len() && ident_char(s[p]) {
        lemma_ident_end_bounds(s, p + 1);
    }
}

pub proof fn lemma_number_end_bounds(s: Seq<char>, p: int)
    requires
        0 <= p <= s.len(),
    ensures
        p <= number_end(s, p) <= s.len(),
    decreases s.len() - p,
{
    if p < s.len() && number_char(s[p]) {
        lemma_number_end_bounds(s, p + 1);
    }
}

/// What a parsing step gives: the result and the position after it, or an
/// error message and the character index where parsing stopped.
pub type Outcome<T> = Result<(T, int), (Seq<char>, int)>;

/// `r` is the error with message `m`, at the byte offset of character index `q`.
pub open spec fn error_is<T>(r: Result<T, ParseError>, s: Seq<char>, m: Seq<char>, q: int) -> bool {
    r matches Err(err) && err.message@ == m && err.pos == byte_offset(s, q)
}

/// An error of `r` stops within the text `s`.
pub open spec fn error_within<T>(r: Result<T, ParseError>, s: Seq<char>) -> bool {
    r matches Err(err) ==> err.pos <= byte_offset(s, s.len() as int)
}

/// A number or date token at `p`: the run of digits, dots and dashes, which
/// after an optional `-` must start with a digit.
pub open spec fn number_or_date_of(s: Seq<char>, p: int) -> Outcome<LitView> {
    let e = number_end(s, p);
    let t = s.subrange(p, e);
    let d = if p < s.len() && s[p] == '-' { p + 1 } else { p };
    if !(d < s.len() && is_digit(s[d])) {
        Err(("Expected number or date"@, e))
    } else {
        match date_literal(t) {
            Some(d) => Ok((LitView::Day(d), e)),
            None => match number_literal(t) {
                Some(n) => Ok((LitView::Num(n), e)),
                None => Err(("Invalid number"@, e)),
            },
        }
    }
}

/// The literal read at `p0` (after white space) and the position after it.
pub open spec fn value_of(s: Seq<char>, p0: int) -> Outcome<LitView> {
    let p = skip_ws(s, p0);
    if p < s.len() && s[p] == '"' {
        let e = index_of(s, '"', p + 1);
        if e < s.len() {
            Ok((LitView::Text(s.subrange(p + 1, e)), e + 1))
        } else {
            Err(("Unterminated string"@, s.len() as int))
        }
    } else if keyword_at(s, p, "true"@) {
        Ok((LitView::Flag(true), p + 4))
    } else if keyword_at(s, p, "false"@) {
        Ok((LitView::Flag(false), p + 5))
    } else {
        number_or_date_of(s, p)
    }
}

/// `Primary` read at `p`: a parenthesized `OrExpr`, a `contains` test or a
/// comparison, with the position after it.
pub open spec fn primary_of(s: Seq<char>, p: int) -> Outcome<Tree>
    decreases s.len() - p, 0int,
{
    let p1 = skip_ws(s, p);
    if !(0 <= p <= p1 <= s.len()) {
        Err(("Expected identifier"@, p))
    } else if p1 < s.len() && s[p1] == '(' {
        match or_of(s, p1 + 1) {
            Ok((t, q)) => {
                let q1 = skip_ws(s, q);
                if q1 < s.len() && s[q1] == ')' {
                    Ok((t, q1 + 1))
                } else {
                    Err(("Expected ')'"@, q1))
                }
            },
            Err(x) => Err(x),
        }
    } else {
        let e = ident_end(s, p1);
        if e <= p1 {
            Err(("Expected identifier"@, p1))
        } else {
            let field = s.subrange(p1, e);
            let k = skip_ws(s, e);
            if keyword_at(s, k, "contains"@) {
                match value_of(s, k + 8) {
                    Ok((v, q)) => Ok((Tree::Contains(field, v), q)),
                    Err(x) => Err(x),
                }
            } else {
                let o = skip_ws(s, k);
                match operator_at(s, o) {
                    Some((op, n)) => match value_of(s, o + n) {
                        Ok((v, q)) => Ok((Tree::Compare(field, op, v), q)),
                        Err(x) => Err(x),
                    },
                    None => Err(("Expected operator (=, !=, >, <, >=, <=)"@, o)),
                }
            }
        }
    }
}

/// `AndExpr` read at `p`.
pub open spec fn and_of(s: Seq<char>, p: int) -> Outcome<Tree>
    decreases s.len() - p, 1int,
{
    if !(0 <= p <= s.len()) {
        Err(("Expected identifier"@, p))
    } else {
        match primary_of(s, p) {
            Ok((t, q)) => if p < q <= s.len() {
                and_tail(s, t, q)
            } else {
                Err(("Expected identifier"@, q))
            },
            Err(x) => Err(x),
        }
    }
}

/// The rest of an `AndExpr` after `left`, from `q` on.
pub open spec fn and_tail(s: Seq<char>, left: Tree, q: int) -> Outcome<Tree>
    decreases s.len() - q, 0int,
{
    let q1 = skip_ws(s, q);
    if !(0 <= q <= q1 <= s.len()) {
        Err(("Expected identifier"@, q))
    } else if keyword_at(s, q1, "AND"@) && q1 + 3 <= s.len() {
        match primary_of(s, q1 + 3) {
            Ok((r, q2)) => if q1 + 3 < q2 <= s.len() {
                and_tail(s, Tree::And(Box::new(left), Box::new(r)), q2)
            } else {
                Err(("Expected identifier"@, q2))
            },
            Err(x) => Err(x),
        }
    } else {
        Ok((left, q1))
    }
}

/// `OrExpr` read at `p`.
pub open spec fn or_of(s: Seq<char>, p: int) -> Outcome<Tree>
    decreases s.len() - p, 2int,
{
    if !(0 <= p <= s.len()) {
        Err(("Expected identifier"@, p))
    } else {
        match and_of(s, p) {
            Ok((t, q)) => if p < q <= s.len() {
                or_tail(s, t, q)
            } else {
                Err(("Expected identifier"@, q))
            },
            Err(x) => Err(x),
        }
    }
}

/// The rest of an `OrExpr` after `left`, from `q` on.
pub open spec fn or_tail(s: Seq<char>, left: Tree, q: int) -> Outcome<Tree>
    decreases s.len() - q, 0int,
{
    let q1 = skip_ws(s, q);
    if !(0 <= q <= q1 <= s.len()) {
        Err(("Expected identifier"@, q))
    } else if keyword_at(s, q1, "OR"@) && q1 + 2 <= s.len() {
        match and_of(s, q1 + 2) {
            Ok((r, q2)) => if q1 + 2 < q2 <= s.len() {
                or_tail(s, Tree::Or(Box::new(left), Box::new(r)), q2)
            } else {
                Err(("Expected identifier"@, q2))
            },
            Err(x) => Err(x),
        }
    } else {
        Ok((left, q1))
    }
}

/// The outcome of parsing a whole query: an `OrExpr` followed by nothing but
/// white space, or an error message and the character index where parsing
/// stopped.
pub open spec fn query_outcome(s: Seq<char>) -> Result<Tree, (Seq<char>, int)> {
    match or_of(s, 0) {
        Ok((t, q)) => {
            let q1 = skip_ws(s, q);
            if q1 == s.len() {
                Ok(t)
            } else {
                Err(("Unexpected input after expression"@, q1))
            }
        },
        Err(x) => Err(x),
    }
}

/// What `parse` returns for the query `s`: the tree `query_outcome` gives, or
/// an error with its message and byte offset.
pub open spec fn parse_outcome(s: Seq<char>, r: Result<Expr, ParseError>) -> bool {
    &&& match query_outcome(s) {
        Ok(t) => r matches Ok(e) && e.tree() == t,
        Err((m, q)) => error_is(r, s, m, q),
    }
    &&& error_within(r, s)
}

proof fn lemma_byte_offset_mono(s: Seq<char>, n: int, m: int)
    requires
        0 <= n <= m <= s.len(),
    ensures
        byte_offset(s, n) <= byte_offset(s, m),
    decreases m - n,
{
    if n < m {
        lemma_byte_offset_mono(s, n, m - 1);
    }
}

proof fn lemma_number_end_starts(s: Seq<char>, p: int)
    requires
        0 <= p < s.len(),
        number_char(s[p]),
    ensures
        number_end(s, p) > p,
{
    lemma_number_end_bounds(s, p + 1);
}

fn is_ident_char(c: char) -> (r: bool)
    ensures
        r == ident_char(c),
{
    is_alnum(c) || c == '_' || c == '-'
}

fn is_number_char(c: char) -> (r: bool)
    ensures
        r == number_char(c),
{
    ('0' <= c && c <= '9') || c == '.' || c == '-'
}

fn eq_ignore_case(a: char, b: char) -> (r: bool)
    ensures
        r == eq_ignore_ascii_case(a, b),
{
    a == b || ('A' <= a && a <= 'Z' && (b as u32) == (a as u32) + 32) || ('a' <= a && a <= 'z'
        && (a as u32) == (b as u32) + 32)
}

/// The largest query, in characters, whose byte offsets fit a `usize`.
pub const MAX_QUERY_LEN: usize = 0x3fff_ffff;

impl Parser {
    /// The characters of the query and the current position are consistent.
    pub closed spec fn wf(self) -> bool {
        &&& self.input@ == self.chars@
        &&& self.pos <= self.chars@.len()
        &&& self.chars@.len() <= MAX_QUERY_LEN
    }

    /// The query being parsed.
    pub closed spec fn text(self) -> Seq<char> {
        self.chars@
    }

    /// The current position, in characters.
    pub closed spec fn at(self) -> int {
        self.pos as int
    }

    pub closed spec fn moved(self, old: Parser) -> bool {
        &&& self.input == old.input
        &&& self.chars == old.chars
        &&& self.wf()
        &&& old.pos <= self.pos
    }

    pub fn new(input: &str) -> (r: Self)
        requires
            input@.len() <= MAX_QUERY_LEN,
        ensures
            r.wf(),
            r.text() == input@,
            r.at() == 0,
    {
        Parser { input: String::from_str(input), chars: chars_of(input), pos: 0 }
    }

    fn current_char(&self) -> (r: char)
        requires
            self.wf(),
        ensures
            self.pos < self.chars@.len() ==> r == self.chars@[self.pos as int],
            self.pos >= self.chars@.len() ==> r == '\0',
    {
        if self.pos < self.chars.len() {
            self.chars[self.pos]
        } else {
            '\0'
        }
    }

    fn skip_whitespace(&mut self)
        requires
            old(self).wf(),
        ensures
            final(self).moved(*old(self)),
            final(self).pos == skip_ws(old(self).chars@, old(self).pos as int),
    {
        while self.pos < self.chars.len() && is_space(self.current_char())
            invariant
                self.wf(),
                self.input == old(self).input,
                self.chars == old(self).chars,
                old(self).pos <= self.pos,
                skip_ws(self.chars@, old(self).pos as int) == skip_ws(self.chars@, self.pos as int),
            decreases self.chars@.len() - self.pos,
        {
            self.pos = self.pos + 1;
        }
    }

    fn match_char(&mut self, c: char) -> (r: bool)
        requires
            old(self).wf(),
        ensures
            final(self).moved(*old(self)),
            r == (old(self).pos < old(self).chars@.len() && old(self).chars@[old(self).pos as int]
                == c),
            final(self).pos == old(self).pos + (if r { 1int } else { 0 }),
    {
        if self.pos < self.chars.len() && self.current_char() == c {
            self.pos = self.pos + 1;
            true
        } else {
            false
        }
    }

    fn match_str(&mut self, t: &str) -> (r: bool)
        requires
            old(self).wf(),
        ensures
            final(self).moved(*old(self)),
            r == text_at(old(self).chars@, old(self).pos as int, t@),
            final(self).pos == old(self).pos + (if r { t@.len() as int } else { 0 }),
    {
        let tc = chars_of(t);
        if tc.len() > self.chars.len() - self.pos {
            return false;
        }
        let mut i: usize = 0;
        while i < tc.len()
            invariant
                self.wf(),
                tc@ == t@,
                self.pos + tc@.len() <= self.chars@.len(),
                i <= tc@.len(),
                forall|j: int| 0 <= j < i ==> self.chars@[self.pos + j] == tc@[j],
            decreases tc@.len() - i,
        {
            if self.chars[self.pos + i] != tc[i] {
                assert(self.chars@.subrange(self.pos as int, self.pos + t@.len())[i as int]
                    != t@[i as int]);
                return false;
            }
            i = i + 1;
        }
        assert(self.chars@.subrange(self.pos as int, self.pos + t@.len()) =~= t@);
        self.pos = self.pos + tc.len();
        true
    }

    pub fn match_keyword(&mut self, kw: &str) -> (r: bool)
        requires
            old(self).wf(),
        ensures
            final(self).moved(*old(self)),
            r == keyword_at(old(self).text(), old(self).at(), kw@),
            final(self).at() == old(self).at() + (if r { kw@.len() as int } else { 0 }),
    {
        let kc = chars_of(kw);
        let n = kc.len();
        if n > self.chars.len() - self.pos {
            return false;
        }
        let mut i: usize = 0;
        while i < n
            invariant
                self.wf(),
                kc@ == kw@,
                n == kc@.len(),
                self.pos + n <= self.chars@.len(),
                i <= n,
                forall|j: int| 0 <= j < i ==> eq_ignore_ascii_case(#[trigger] self.chars@[self.pos + j], kw@[j]),
            decreases n - i,
        {
            if !eq_ignore_case(self.chars[self.pos + i], kc[i]) {
                assert(!eq_ignore_ascii_case(self.chars@[self.pos + i as int], kw@[i as int]));
                return false;
            }
            i = i + 1;
        }
        let end = self.pos + n;
        if end < self.chars.len() {
            let c = self.chars[end];
            if is_alnum(c) || c == '_' {
                return false;
            }
        }
        self.pos = end;
        true
    }


    fn parse_identifier(&mut self) -> (r: Result<String, ParseError>)
        requires
            old(self).wf(),
        ensures
            final(self).moved(*old(self)),
            ({
                let s = old(self).chars@;
                let p = skip_ws(s, old(self).pos as int);
                let e = ident_end(s, p);
                final(self).pos == e && match r {
                    Ok(id) => e > p && id@ == s.subrange(p, e),
                    Err(err) => e == p && err.message@ == "Expected identifier"@ && err.pos
                        == byte_offset(s, p),
                }
            }),
            error_within(r, old(self).chars@),
    {
        self.skip_whitespace();
        let start = self.pos;
        proof { lemma_skip_ws_bounds(self.chars@, old(self).pos as int); }
        while self.pos < self.chars.len() && is_ident_char(self.current_char())
            invariant
                self.wf(),
                self.input == old(self).input,
                self.chars == old(self).chars,
                start <= self.pos,
                ident_end(self.chars@, start as int) == ident_end(self.chars@, self.pos as int),
            decreases self.chars@.len() - self.pos,
        {
            self.pos = self.pos + 1;
        }
        if self.pos == start {
            return Err(self.error("Expected identifier"));
        }
        Ok(String::from_str(self.input.as_str().substring_char(start, self.pos)))
    }

    pub fn parse_operator(&mut self) -> (r: Result<CompareOp, ParseError>)
        requires
            old(self).wf(),
        ensures
            final(self).moved(*old(self)),
            ({
                let s = old(self).text();
                let p = skip_ws(s, old(self).at());
                match operator_at(s, p) {
                    Some((op, n)) => r == Ok::<CompareOp, ParseError>(op) && final(self).at() == p + n,
                    None => final(self).at() == p && error_is(
                        r,
                        s,
                        "Expected operator (=, !=, >, <, >=, <=)"@,
                        p,
                    ),
                }
            }),
            error_within(r, old(self).text()),
    {
        self.skip_whitespace();
        proof { reveal_strlit(">="); reveal_strlit("<="); reveal_strlit("!="); }
        assert(">="@ =~= seq!['>', '=']);
        assert("<="@ =~= seq!['<', '=']);
        assert("!="@ =~= seq!['!', '=']);
        if self.match_str(">=") {
            return Ok(CompareOp::Ge);
        }
        if self.match_str("<=") {
            return Ok(CompareOp::Le);
        }
        if self.match_str("!=") {
            return Ok(CompareOp::Ne);
        }
        let p = self.pos;
        if p < self.chars.len() {
            assert(self.chars@.subrange(p as int, p + 1) =~= seq![self.chars@[p as int]]);
        }
        if self.match_char('=') {
            assert(self.chars@.subrange(p as int, p + 1) =~= seq!['=']);
            return Ok(CompareOp::Eq);
        }
        assert(!text_at(self.chars@, p as int, seq!['='])) by {
            if p + 1 <= self.chars@.len() {
                assert(self.chars@.subrange(p as int, p + 1)[0] == self.chars@[p as int]);
            }
        }
        if self.match_char('>') {
            assert(self.chars@.subrange(p as int, p + 1) =~= seq!['>']);
            return Ok(CompareOp::Gt);
        }
        assert(!text_at(self.chars@, p as int, seq!['>'])) by {
            if p + 1 <= self.chars@.len() {
                assert(self.chars@.subrange(p as int, p + 1)[0] == self.chars@[p as int]);
            }
        }
        if self.match_char('<') {
            assert(self.chars@.subrange(p as int, p + 1) =~= seq!['<']);
            return Ok(CompareOp::Lt);
        }
        assert(!text_at(self.chars@, p as int, seq!['=']) && !text_at(self.chars@, p as int, seq!['>'])
            && !text_at(self.chars@, p as int, seq!['<'])) by {
            if p + 1 <= self.chars@.len() {
                assert(self.chars@.subrange(p as int, p + 1)[0] == self.chars@[p as int]);
            }
        }
        Err(self.error("Expected operator (=, !=, >, <, >=, <=)"))
    }

    fn parse_string(&mut self) -> (r: Result<Value, ParseError>)
        requires
            old(self).wf(),
        ensures
            final(self).moved(*old(self)),
            ({
                let s = old(self).chars@;
                let p = old(self).pos as int;
                let e = index_of(s, '"', p);
                if e < s.len() {
                    final(self).pos == e + 1 && (r matches Ok(Value::String(t)) && t@ == s.subrange(p, e))
                } else {
                    final(self).pos == s.len() && error_is(r, s, "Unterminated string"@, s.len() as int)
                }
            }),
            error_within(r, old(self).chars@),
    {
        let start = self.pos;
        let e = find_char(&self.chars, '"', start);
        proof { lemma_index_of_bounds(self.chars@, '"', start as int); }
        self.pos = e;
        let text = String::from_str(self.input.as_str().substring_char(start, e));
        if !self.match_char('"') {
            return Err(self.error("Unterminated string"));
        }
        Ok(Value::String(text))
    }

    fn parse_number_or_date(&mut self) -> (r: Result<Value, ParseError>)
        requires
            old(self).wf(),
        ensures
            final(self).moved(*old(self)),
            match number_or_date_of(old(self).chars@, old(self).pos as int) {
                Ok((v, q)) => (r matches Ok(val) && val.lit() == v) && final(self).pos == q,
                Err((m, q)) => error_is(r, old(self).chars@, m, q) && final(self).pos == q,
            },
            r is Ok ==> final(self).pos > old(self).pos,
            error_within(r, old(self).chars@),
    {
        let ghost s = self.chars@;
        let start = self.pos;
        proof { lemma_number_end_bounds(s, start as int); }
        let negative = self.match_char('-');
        assert(negative ==> number_end(s, start as int) == number_end(s, self.pos as int));
        let d = self.pos;
        let leads = d < self.chars.len() && '0' <= self.chars[d] && self.chars[d] <= '9';
        proof {
            if leads {
                lemma_number_end_starts(s, d as int);
            }
        }
        while self.pos < self.chars.len() && is_number_char(self.current_char())
            invariant
                self.wf(),
                self.input == old(self).input,
                self.chars == old(self).chars,
                s == self.chars@,
                start <= d <= self.pos,
                d <= start + 1,
                negative ==> d == start + 1,
                !negative ==> d == start,
                leads ==> number_end(s, d as int) > d,
                number_end(s, start as int) == number_end(s, self.pos as int),
                number_end(s, start as int) == number_end(s, d as int),
            decreases self.chars@.len() - self.pos,
        {
            self.pos = self.pos + 1;
        }
        if !leads {
            return Err(self.error("Expected number or date"));
        }
        let text = self.input.as_str().substring_char(start, self.pos);
        if let Some(date) = try_parse_date(text) {
            return Ok(Value::Date(date));
        }
        match parse_number_text(&self.chars, start, self.pos) {
            Some(n) => Ok(Value::Number(n)),
            None => Err(self.error("Invalid number")),
        }
    }

    fn parse_value(&mut self) -> (r: Result<Value, ParseError>)
        requires
            old(self).wf(),
        ensures
            final(self).moved(*old(self)),
            match value_of(old(self).chars@, old(self).pos as int) {
                Ok((v, q)) => (r matches Ok(val) && val.lit() == v) && final(self).pos == q,
                Err((m, q)) => error_is(r, old(self).chars@, m, q),
            },
            r is Ok ==> final(self).pos > old(self).pos,
            error_within(r, old(self).chars@),
    {
        proof {
            reveal_strlit("true");
            reveal_strlit("false");
        }
        self.skip_whitespace();
        proof { lemma_skip_ws_bounds(self.chars@, old(self).pos as int); }
        if self.match_char('"') {
            return self.parse_string();
        }
        if self.match_keyword("true") {
            return Ok(Value::Bool(true));
        }
        if self.match_keyword("false") {
            return Ok(Value::Bool(false));
        }
        self.parse_number_or_date()
    }


    /// Parses the whole query; it must be consumed to its end.
    pub fn parse(self) -> (r: Result<Expr, ParseError>)
        requires
            self.wf(),
        ensures
            r matches Ok(e) ==> e.wf(),
            self.at() == 0 ==> parse_outcome(self.text(), r),
            error_within(r, self.text()),
    {
        let mut p = self;
        let expr = match p.parse_or() {
            Ok(e) => e,
            Err(err) => return Err(err),
        };
        p.skip_whitespace();
        if p.pos < p.chars.len() {
            return Err(p.error("Unexpected input after expression"));
        }
        Ok(expr)
    }

    fn parse_or(&mut self) -> (r: Result<Expr, ParseError>)
        requires
            old(self).wf(),
        ensures
            final(self).moved(*old(self)),
            r matches Ok(e) ==> e.wf(),
            match or_of(old(self).chars@, old(self).pos as int) {
                Ok((t, q)) => (r matches Ok(e) && e.tree() == t) && final(self).pos == q,
                Err((m, q)) => error_is(r, old(self).chars@, m, q),
            },
            error_within(r, old(self).chars@),
            r is Ok ==> final(self).pos > old(self).pos,
        decreases old(self).chars@.len() - old(self).pos, 2nat,
    {
        let ghost s = self.chars@;
        let ghost p0 = self.pos as int;
        let mut left = match self.parse_and() {
            Ok(e) => e,
            Err(err) => return Err(err),
        };
        loop
            invariant
                self.moved(*old(self)),
                s == self.chars@,
                p0 == old(self).pos,
                self.pos > p0,
                left.wf(),
                or_of(s, p0) == or_tail(s, left.tree(), self.pos as int),
            ensures
                self.moved(*old(self)),
                self.pos > p0,
                left.wf(),
                or_of(s, p0) == Ok::<(Tree, int), (Seq<char>, int)>((left.tree(), self.pos as int)),
            decreases self.chars@.len() - self.pos,
        {
            let ghost q = self.pos as int;
            self.skip_whitespace();
            proof {
                lemma_skip_ws_bounds(s, q);
                reveal_strlit("OR");
            }
            if !self.match_keyword("OR") {
                break;
            }
            let right = match self.parse_and() {
                Ok(e) => e,
                Err(err) => return Err(err),
            };
            left = Expr::Or(Box::new(left), Box::new(right));
        }
        Ok(left)
    }

    fn parse_and(&mut self) -> (r: Result<Expr, ParseError>)
        requires
            old(self).wf(),
        ensures
            final(self).moved(*old(self)),
            r matches Ok(e) ==> e.wf(),
            match and_of(old(self).chars@, old(self).pos as int) {
                Ok((t, q)) => (r matches Ok(e) && e.tree() == t) && final(self).pos == q,
                Err((m, q)) => error_is(r, old(self).chars@, m, q),
            },
            error_within(r, old(self).chars@),
            r is Ok ==> final(self).pos > old(self).pos,
        decreases old(self).chars@.len() - old(self).pos, 1nat,
    {
        let ghost s = self.chars@;
        let ghost p0 = self.pos as int;
        let mut left = match self.parse_primary() {
            Ok(e) => e,
            Err(err) => return Err(err),
        };
        loop
            invariant
                self.moved(*old(self)),
                s == self.chars@,
                p0 == old(self).pos,
                self.pos > p0,
                left.wf(),
                and_of(s, p0) == and_tail(s, left.tree(), self.pos as int),
            ensures
                self.moved(*old(self)),
                self.pos > p0,
                left.wf(),
                and_of(s, p0) == Ok::<(Tree, int), (Seq<char>, int)>((left.tree(), self.pos as int)),
            decreases self.chars@.len() - self.pos,
        {
            let ghost q = self.pos as int;
            self.skip_whitespace();
            proof {
                lemma_skip_ws_bounds(s, q);
                reveal_strlit("AND");
            }
            if !self.match_keyword("AND") {
                break;
            }
            let right = match self.parse_primary() {
                Ok(e) => e,
                Err(err) => return Err(err),
            };
            left = Expr::And(Box::new(left), Box::new(right));
        }
        Ok(left)
    }

    fn parse_primary(&mut self) -> (r: Result<Expr, ParseError>)
        requires
            old(self).wf(),
        ensures
            final(self).moved(*old(self)),
            r matches Ok(e) ==> e.wf(),
            match primary_of(old(self).chars@, old(self).pos as int) {
                Ok((t, q)) => (r matches Ok(e) && e.tree() == t) && final(self).pos == q,
                Err((m, q)) => error_is(r, old(self).chars@, m, q),
            },
            error_within(r, old(self).chars@),
            r is Ok ==> final(self).pos > old(self).pos,
        decreases old(self).chars@.len() - old(self).pos, 0nat,
    {
        proof {
            lemma_skip_ws_bounds(self.chars@, self.pos as int);
            reveal_strlit("contains");
        }
        self.skip_whitespace();
        if self.match_char('(') {
            let expr = match self.parse_or() {
                Ok(e) => e,
                Err(err) => return Err(err),
            };
            self.skip_whitespace();
            if !self.match_char(')') {
                return Err(self.error("Expected ')'"));
            }
            return Ok(expr);
        }
        let field = match self.parse_identifier() {
            Ok(f) => f,
            Err(err) => return Err(err),
        };
        self.skip_whitespace();
        if self.match_keyword("contains") {
            proof { lemma_skip_ws_bounds(self.chars@, self.pos as int); }
            self.skip_whitespace();
            let value = match self.parse_value() {
                Ok(v) => v,
                Err(err) => return Err(err),
            };
            return Ok(Expr::Contains { field, value });
        }
        let op = match self.parse_operator() {
            Ok(o) => o,
            Err(err) => return Err(err),
        };
        proof { lemma_skip_ws_bounds(self.chars@, self.pos as int); }
        self.skip_whitespace();
        let value = match self.parse_value() {
            Ok(v) => v,
            Err(err) => return Err(err),
        };
        Ok(Expr::Compare { field, op, value })
    }

    fn byte_pos(&self) -> (r: usize)
        requires
            self.wf(),
        ensures
            r == byte_offset(self.chars@, self.pos as int),
    {
        let mut i: usize = 0;
        let mut b: usize = 0;
        while i < self.pos
            invariant
                self.wf(),
                i <= self.pos,
                b == byte_offset(self.chars@, i as int),
                b <= 4 * i,
            decreases self.pos - i,
        {
            let c = self.chars[i];
            let w: usize = if (c as u32) < 0x80 {
                1
            } else if (c as u32) < 0x800 {
                2
            } else if (c as u32) < 0x10000 {
                3
            } else {
                4
            };
            b = b + w;
            i = i + 1;
        }
        b
    }

    fn error(&self, message: &str) -> (r: ParseError)
        requires
            self.wf(),
        ensures
            r.message@ == message@,
            r.pos == byte_offset(self.chars@, self.pos as int),
            r.pos <= byte_offset(self.chars@, self.chars@.len() as int),
    {
        proof {
            lemma_byte_offset_mono(self.chars@, self.pos as int, self.chars@.len() as int);
        }
        ParseError { message: String::from_str(message), pos: self.byte_pos() }
    }
}

/// Parsing is deterministic: two parses of one query both succeed with
/// structurally equal trees, or both fail with the same message at the same
/// offset.
pub proof fn lemma_parse_deterministic(
    s: Seq<char>,
    r1: Result<Expr, ParseError>,
    r2: Result<Expr, ParseError>,
)
    requires
        parse_outcome(s, r1),
        parse_outcome(s, r2),
    ensures
        (r1 matches Ok(e1) && r2 matches Ok(e2) && e1.tree() == e2.tree()) || (r1 matches Err(x)
            && r2 matches Err(y) && x.message@ == y.message@ && x.pos == y.pos),
{
}

/// Longest match wins: where `>=`, `<=` or `!=` stands, the operator read is
/// the two-character one, never `>`, `<` or `=` with a character left over.
pub proof fn lemma_longest_operator(s: Seq<char>, p: int)
    ensures
        text_at(s, p, seq!['>', '=']) ==> operator_at(s, p) == Some((CompareOp::Ge, 2int)),
        text_at(s, p, seq!['<', '=']) ==> operator_at(s, p) == Some((CompareOp::Le, 2int)),
        text_at(s, p, seq!['!', '=']) ==> operator_at(s, p) == Some((CompareOp::Ne, 2int)),
{
    if text_at(s, p, seq!['<', '=']) {
        assert(s.subrange(p, p + 2)[0] == '<');
    }
    if text_at(s, p, seq!['!', '=']) {
        assert(s.subrange(p, p + 2)[0] == '!');
    }
}

/// A keyword needs a word boundary: where a letter, digit or underscore
/// follows the keyword's letters, no keyword stands there (so `android` is
/// an identifier, not `and` followed by `roid`).
pub proof fn lemma_keyword_boundary(s: Seq<char>, p: int, kw: Seq<char>)
    requires
        0 <= p,
        p + kw.len() < s.len(),
        alnum(s[p + kw.len()]) || s[p + kw.len()] == '_',
    ensures
        !keyword_at(s, p, kw),
{
}

/// Reads decimal text (an optional `-`, digits, an optional `.` and digits)
/// as an exact `Number`, where one can hold it.
pub fn parse_number(text: &str) -> (r: Option<Number>)
    ensures
        r == number_literal(text@),
        r matches Some(n) ==> n.wf(),
{
    let chars = chars_of(text);
    let r = parse_number_text(&chars, 0, chars.len());
    assert(chars@.subrange(0, chars@.len() as int) =~= text@);
    r
}

/// Parses a query.
pub fn parse(input: &str) -> (r: Result<Expr, ParseError>)
    requires
        input@.len() <= MAX_QUERY_LEN,
    ensures
        r matches Ok(e) ==> e.wf(),
        parse_outcome(input@, r),
{
    Parser::new(input).parse()
}

} // verus!
