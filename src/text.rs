//! Character classes, case folding and small text utilities used by the
//! parser and the evaluator.
use vstd::prelude::*;
use vstd::string::*;

verus! {

/// Whether `c` is alphanumeric in the Unicode sense (`char::is_alphanumeric`).
pub uninterp spec fn alnum(c: char) -> bool;


/// The Unicode lowercase mapping of a string (`str::to_lowercase`).
pub uninterp spec fn lower_of(s: Seq<char>) -> Seq<char>;

pub open spec fn ascii_alnum(c: char) -> bool {
    ('a' <= c && c <= 'z') || ('A' <= c && c <= 'Z') || ('0' <= c && c <= '9')
}

/// White space: the 25 code points of Unicode's `White_Space` property,
/// which is what `char::is_whitespace` tests.
pub open spec fn space(c: char) -> bool {
    let u = c as u32;
    (0x9 <= u && u <= 0xD) || u == 0x20 || u == 0x85 || u == 0xA0 || u == 0x1680 || (0x2000 <= u
        && u <= 0x200A) || u == 0x2028 || u == 0x2029 || u == 0x202F || u == 0x205F || u == 0x3000
}

pub open spec fn is_digit(c: char) -> bool {
    '0' <= c && c <= '9'
}

/// Relies on `char::is_alphanumeric`; on ASCII it agrees with the ASCII classes.
#[verifier::external_body]
pub(crate) fn is_alnum(c: char) -> (r: bool)
    ensures
        r == alnum(c),
        (c as u32) < 128 ==> (r == ascii_alnum(c)),
{
    c.is_alphanumeric()
}

/// Whether `c` is white space.
pub fn is_space(c: char) -> (r: bool)
    ensures
        r == space(c),
{
    let u = c as u32;
    (0x9 <= u && u <= 0xD) || u == 0x20 || u == 0x85 || u == 0xA0 || u == 0x1680 || (0x2000 <= u
        && u <= 0x200A) || u == 0x2028 || u == 0x2029 || u == 0x202F || u == 0x205F || u == 0x3000
}

/// Relies on `str::to_lowercase`: the result depends on the characters alone,
/// and the empty string stays empty.
#[verifier::external_body]
pub(crate) fn lowercase(s: &str) -> (r: String)
    ensures
        r@ == lower_of(s@),
        s@.len() == 0 ==> r@.len() == 0,
{
    s.to_lowercase()
}

/// The characters of `s`, one per element.
pub fn chars_of(s: &str) -> (r: Vec<char>)
    ensures
        r@ == s@,
{
    let n = s.unicode_len();
    let mut r: Vec<char> = Vec::new();
    let mut i: usize = 0;
    while i < n
        invariant
            n == s@.len(),
            i <= n,
            r@ == s@.subrange(0, i as int),
        decreases n - i,
    {
        r.push(s.get_char(i));
        i = i + 1;
        assert(r@ =~= s@.subrange(0, i as int));
    }
    assert(r@ =~= s@);
    r
}

/// The value of a string of decimal digits.
pub open spec fn digits_value(s: Seq<char>) -> nat
    decreases s.len(),
{
    if s.len() == 0 {
        0
    } else {
        10 * digits_value(s.drop_last()) + ((s.last() as u32 - '0' as u32) as nat)
    }
}

pub open spec fn all_digits(s: Seq<char>) -> bool {
    forall|i: int| 0 <= i < s.len() ==> is_digit(#[trigger] s[i])
}

/// The first index at or after `from` where `c` stands in `s`, or `s.len()`.
pub open spec fn index_of(s: Seq<char>, c: char, from: int) -> int
    decreases s.len() - from,
{
    if from >= s.len() {
        s.len() as int
    } else if s[from] == c {
        from
    } else {
        index_of(s, c, from + 1)
    }
}

pub proof fn lemma_index_of_bounds(s: Seq<char>, c: char, from: int)
    requires
        0 <= from,
    ensures
        from <= index_of(s, c, from) || from > s.len(),
        index_of(s, c, from) <= s.len(),
        index_of(s, c, from) < s.len() ==> s[index_of(s, c, from)] == c,
        forall|k: int| from <= k < index_of(s, c, from) ==> s[k] != c,
    decreases s.len() - from,
{
    if from < s.len() && s[from] != c {
        lemma_index_of_bounds(s, c, from + 1);
    }
}

/// Finds `c` in `s` from index `from` on.
pub fn find_char(s: &Vec<char>, c: char, from: usize) -> (r: usize)
    requires
        from <= s@.len(),
    ensures
        r as int == index_of(s@, c, from as int),
{
    let mut i = from;
    while i < s.len()
        invariant
            from <= i <= s@.len(),
            index_of(s@, c, from as int) == index_of(s@, c, i as int),
        decreases s@.len() - i,
    {
        if s[i] == c {
            return i;
        }
        i = i + 1;
    }
    i
}

/// How Rust reads an unsigned integer: an optional `+`, then at least one
/// digit, with a value no larger than `max`.
pub open spec fn unsigned_body(s: Seq<char>) -> Seq<char> {
    if s.len() > 0 && s[0] == '+' { s.drop_first() } else { s }
}

pub open spec fn uint_text(s: Seq<char>, max: nat) -> Option<nat> {
    let body = unsigned_body(s);
    if body.len() > 0 && all_digits(body) && digits_value(body) <= max {
        Some(digits_value(body))
    } else {
        None
    }
}

proof fn lemma_digits_value_push(s: Seq<char>, c: char)
    ensures
        digits_value(s.push(c)) == 10 * digits_value(s) + ((c as u32 - '0' as u32) as nat),
{
    assert(s.push(c).drop_last() =~= s);
}

proof fn lemma_digits_value_grows(s: Seq<char>, k: int)
    requires
        0 <= k <= s.len(),
        all_digits(s),
    ensures
        digits_value(s.subrange(0, k)) <= digits_value(s),
    decreases s.len() - k,
{
    if k < s.len() {
        lemma_digits_value_grows(s, k + 1);
        let t = s.subrange(0, k + 1);
        assert(t.drop_last() =~= s.subrange(0, k));
        assert(is_digit(s[k]));
    } else {
        assert(s.subrange(0, k) =~= s);
    }
}

/// Reads `s[lo..hi]` as `uint_text` does.
pub fn parse_uint(s: &Vec<char>, lo: usize, hi: usize, max: u64) -> (r: Option<u64>)
    requires
        lo <= hi <= s@.len(),
    ensures
        match uint_text(s@.subrange(lo as int, hi as int), max as nat) {
            Some(v) => r == Some(v as u64),
            None => r.is_none(),
        },
{
    let ghost t = s@.subrange(lo as int, hi as int);
    let mut i = lo;
    if i < hi && s[i] == '+' {
        i = i + 1;
    }
    let ghost body = s@.subrange(i as int, hi as int);
    assert(body =~= unsigned_body(t));
    if i == hi {
        return None;
    }
    let start = i;
    let mut v: u64 = 0;
    while i < hi
        invariant
            lo <= start <= i <= hi <= s@.len(),
            body == s@.subrange(start as int, hi as int),
            body == unsigned_body(s@.subrange(lo as int, hi as int)),
            all_digits(s@.subrange(start as int, i as int)),
            v as nat == digits_value(s@.subrange(start as int, i as int)),
            v <= max,
        decreases hi - i,
    {
        let c = s[i];
        proof {
            assert(s@.subrange(start as int, i as int + 1) =~= s@.subrange(start as int, i as int).push(c));
            lemma_digits_value_push(s@.subrange(start as int, i as int), c);
        }
        if !('0' <= c && c <= '9') {
            assert(body[i - start] == c);
            assert(!is_digit(body[i - start]));
            return None;
        }
        let d = (c as u32 - '0' as u32) as u64;
        if d > max || v > (max - d) / 10 {
            proof {
                assert(v * 10 + d > max) by (nonlinear_arith)
                    requires d > max || v > (max - d) / 10;
                let p = s@.subrange(start as int, i as int + 1);
                if all_digits(body) {
                    assert(p =~= body.subrange(0, i - start + 1));
                    lemma_digits_value_grows(body, i - start + 1);
                    assert(digits_value(body) > max);
                }
            }
            return None;
        }
        v = v * 10 + d;
        i = i + 1;
    }
    assert(s@.subrange(start as int, i as int) =~= body);
    Some(v)
}

} // verus!

verus! {

/// `[[inner]]` becomes `inner`; any other string is kept.
pub open spec fn strip_link(s: Seq<char>) -> Seq<char> {
    if s.len() >= 4 && s[0] == '[' && s[1] == '[' && s[s.len() - 2] == ']' && s[s.len() - 1]
        == ']' {
        s.subrange(2, s.len() - 2)
    } else {
        s
    }
}

/// The form in which strings are compared: link brackets stripped, then lowercased.
pub open spec fn normalized(s: Seq<char>) -> Seq<char> {
    lower_of(strip_link(s))
}

/// Lexicographic comparison by code point: negative, zero or positive.
pub open spec fn chars_cmp(a: Seq<char>, b: Seq<char>) -> int
    decreases a.len(),
{
    if a.len() == 0 {
        if b.len() == 0 { 0 } else { -1 }
    } else if b.len() == 0 {
        1
    } else if a[0] < b[0] {
        -1
    } else if a[0] > b[0] {
        1
    } else {
        chars_cmp(a.drop_first(), b.drop_first())
    }
}

/// Whether `needle` occurs in `hay` as a contiguous run.
pub open spec fn is_substring(needle: Seq<char>, hay: Seq<char>) -> bool {
    exists|i: int|
        0 <= i && i + needle.len() <= hay.len() && #[trigger] hay.subrange(i, i + needle.len())
            == needle
}

pub proof fn lemma_chars_cmp_equal(a: Seq<char>, b: Seq<char>)
    ensures
        (chars_cmp(a, b) == 0) == (a == b),
    decreases a.len(),
{
    if a.len() == 0 || b.len() == 0 {
        if a.len() != b.len() {
            assert(a.len() != b.len());
        } else {
            assert(a =~= b);
        }
    } else if a[0] == b[0] {
        lemma_chars_cmp_equal(a.drop_first(), b.drop_first());
        if a.drop_first() == b.drop_first() {
            assert(a =~= seq![a[0]] + a.drop_first());
            assert(b =~= seq![b[0]] + b.drop_first());
        }
        if a == b {
            assert(a.drop_first() =~= b.drop_first());
        }
    } else {
        assert(a[0] != b[0]);
    }
}

/// Strips a link wrapper `[[...]]` from `s`.
pub fn strip_obsidian_link(s: &str) -> (r: &str)
    ensures
        r@ == strip_link(s@),
{
    let n = s.unicode_len();
    if n >= 4 && s.get_char(0) == '[' && s.get_char(1) == '[' && s.get_char(n - 2) == ']'
        && s.get_char(n - 1) == ']' {
        s.substring_char(2, n - 2)
    } else {
        s
    }
}

/// The normalized form of `s`: link wrapper stripped, then lowercased.
pub fn normalize_for_compare(s: &str) -> (r: String)
    ensures
        r@ == normalized(s@),
{
    lowercase(strip_obsidian_link(s))
}

/// Compares `a` and `b` by code point.
pub fn compare_chars(a: &Vec<char>, b: &Vec<char>) -> (r: i8)
    ensures
        r as int == chars_cmp(a@, b@),
{
    let mut i: usize = 0;
    assert(a@.subrange(0, a@.len() as int) =~= a@);
    assert(b@.subrange(0, b@.len() as int) =~= b@);
    while i < a.len() && i < b.len()
        invariant
            i <= a@.len(),
            i <= b@.len(),
            chars_cmp(a@, b@) == chars_cmp(
                a@.subrange(i as int, a@.len() as int),
                b@.subrange(i as int, b@.len() as int),
            ),
        decreases a@.len() - i,
    {
        proof {
            assert(a@.subrange(i as int, a@.len() as int).drop_first() =~= a@.subrange(
                i as int + 1,
                a@.len() as int,
            ));
            assert(b@.subrange(i as int, b@.len() as int).drop_first() =~= b@.subrange(
                i as int + 1,
                b@.len() as int,
            ));
        }
        if a[i] < b[i] {
            return -1;
        }
        if a[i] > b[i] {
            return 1;
        }
        i = i + 1;
    }
    if i < a.len() {
        1
    } else if i < b.len() {
        -1
    } else {
        0
    }
}

pub(crate) fn matches_at(hay: &Vec<char>, needle: &Vec<char>, i: usize) -> (r: bool)
    requires
        i + needle@.len() <= hay@.len(),
    ensures
        r == (hay@.subrange(i as int, i + needle@.len()) == needle@),
{
    let n = needle.len();
    let h = hay.len();
    let mut j: usize = 0;
    while j < n
        invariant
            n == needle@.len(),
            h == hay@.len(),
            i + n <= hay@.len(),
            j <= n,
            forall|t: int| 0 <= t < j ==> hay@[i + t] == needle@[t],
        decreases n - j,
    {
        if hay[i + j] != needle[j] {
            assert(hay@.subrange(i as int, i + n)[j as int] != needle@[j as int]);
            return false;
        }
        j = j + 1;
    }
    assert(hay@.subrange(i as int, i + n) =~= needle@);
    true
}

/// Whether `needle` occurs in `hay`.
pub fn contains_chars(hay: &Vec<char>, needle: &Vec<char>) -> (r: bool)
    ensures
        r == is_substring(needle@, hay@),
{
    let n = needle.len();
    if n > hay.len() {
        return false;
    }
    if n == 0 {
        let ghost z: int = 0;
        assert(hay@.subrange(z, z + needle@.len()) =~= needle@);
        return true;
    }
    let mut i: usize = 0;
    while i <= hay.len() - n
        invariant
            n == needle@.len(),
            0 < n <= hay@.len(),
            i <= hay@.len() - n + 1,
            forall|k: int| 0 <= k < i ==> #[trigger] hay@.subrange(k, k + n) != needle@,
        decreases hay@.len() + 1 - i - n,
    {
        if matches_at(hay, needle, i) {
            return true;
        }
        i = i + 1;
    }
    proof {
        assert forall|k: int| 0 <= k && k + n <= hay@.len() implies #[trigger] hay@.subrange(
            k,
            k + n,
        ) != needle@ by {
            assert(k < i);
        }
    }
    false
}

/// The three dash-separated parts of `s`, where there are exactly three.
pub open spec fn dash_parts(s: Seq<char>) -> Option<(Seq<char>, Seq<char>, Seq<char>)> {
    let i = index_of(s, '-', 0);
    let j = index_of(s, '-', i + 1);
    if i < s.len() && j < s.len() && index_of(s, '-', j + 1) == s.len() {
        Some((s.subrange(0, i), s.subrange(i + 1, j), s.subrange(j + 1, s.len() as int)))
    } else {
        None
    }
}

/// `YYYY-MM-DD` read as Rust reads an `i32`, a `u8` and a `u8`, with no range check.
pub open spec fn text_date(s: Seq<char>) -> Option<crate::ast::Date> {
    match dash_parts(s) {
        Some((a, b, c)) => match (uint_text(a, 0x7fff_ffff), uint_text(b, 255), uint_text(c, 255)) {
            (Some(y), Some(m), Some(d)) => Some(
                crate::ast::Date { year: y as i32, month: m as u8, day: d as u8 },
            ),
            _ => None,
        },
        None => None,
    }
}

/// Reads a date as `text_date` does.
pub fn parse_date_text(s: &Vec<char>) -> (r: Option<crate::ast::Date>)
    ensures
        r == text_date(s@),
{
    let n = s.len();
    let i = find_char(s, '-', 0);
    proof { lemma_index_of_bounds(s@, '-', 0); }
    if i >= n {
        return None;
    }
    let j = find_char(s, '-', i + 1);
    proof { lemma_index_of_bounds(s@, '-', i + 1); }
    if j >= n {
        return None;
    }
    let k = find_char(s, '-', j + 1);
    proof { lemma_index_of_bounds(s@, '-', j + 1); }
    if k != n {
        return None;
    }
    let y = parse_uint(s, 0, i, 0x7fff_ffff);
    let m = parse_uint(s, i + 1, j, 255);
    let d = parse_uint(s, j + 1, n, 255);
    match (y, m, d) {
        (Some(y), Some(m), Some(d)) => Some(crate::ast::Date::new(y as i32, m as u8, d as u8)),
        _ => None,
    }
}

/// Stripping a link wrapper gives back what was wrapped, so `[[x]]` and `x`
/// normalize alike (where `x` is not itself a link).
pub proof fn lemma_link_normalizes_like_plain(s: Seq<char>)
    requires
        strip_link(s) == s,
    ensures
        strip_link(seq!['[', '['] + s + seq![']', ']']) == s,
        normalized(seq!['[', '['] + s + seq![']', ']']) == normalized(s),
{
    let w = seq!['[', '['] + s + seq![']', ']'];
    assert(w.subrange(2, w.len() - 2) =~= s);
}

} // verus!
