//! Evaluation of a query tree against one document's metadata.
//!
//! Evaluation never fails: a missing field or a value of the wrong kind makes
//! a comparison false.
use vstd::prelude::*;
use vstd::string::*;
use crate::ast::{
    date_cmp, number_holds, op_holds, CompareOp, Date, Expr, Number, Value, MAX_SCALE, pow10,
};
use crate::meta::{Meta, MetaNumber};
use crate::text::{
    lemma_chars_cmp_equal, strip_link, chars_cmp, chars_of, compare_chars, contains_chars, is_substring, lower_of, lowercase,
    normalize_for_compare, normalized, parse_date_text, text_date,
};

verus! {

/// Whether mapping key `k` is a string whose lowercase form is `fl`.
pub open spec fn key_matches(k: Meta, fl: Seq<char>) -> bool {
    match k {
        Meta::Text(s) => lower_of(s@) == fl,
        _ => false,
    }
}

/// The value of the first entry whose key matches `fl`.
pub open spec fn find_entry(es: Seq<(Meta, Meta)>, fl: Seq<char>) -> Option<Meta>
    decreases es.len(),
{
    if es.len() == 0 {
        None
    } else if key_matches(es[0].0, fl) {
        Some(es[0].1)
    } else {
        find_entry(es.drop_first(), fl)
    }
}

/// Case-insensitive field lookup; only a mapping has fields.
pub open spec fn field_of(fm: Meta, field: Seq<char>) -> Option<Meta> {
    match fm {
        Meta::Mapping(es) => find_entry(es@, lower_of(field)),
        _ => None,
    }
}

/// The text of a scalar: a string as it is, a number as rendered, a boolean
/// as `true` or `false`.
pub open spec fn meta_text(m: Meta) -> Option<Seq<char>> {
    match m {
        Meta::Text(s) => Some(s@),
        Meta::Number(n) => Some(n.text@),
        Meta::Bool(b) => Some(if b { "true"@ } else { "false"@ }),
        _ => None,
    }
}

/// The value of a native number.
pub open spec fn meta_number(m: Meta) -> Option<Number> {
    match m {
        Meta::Number(n) => n.value,
        _ => None,
    }
}

/// A date written as a string `YYYY-MM-DD`.
pub open spec fn meta_date(m: Meta) -> Option<Date> {
    match m {
        Meta::Text(s) => text_date(s@),
        _ => None,
    }
}

/// `x op v` for a document value `x` and a query literal `v`.
pub open spec fn value_holds(x: Meta, op: CompareOp, v: Value) -> bool {
    match v {
        Value::String(s) => match meta_text(x) {
            Some(t) => op_holds(op, chars_cmp(normalized(t), normalized(s@))),
            None => false,
        },
        Value::Number(n) => match meta_number(x) {
            Some(m) => m.wf() && n.wf() && number_holds(op, m, n),
            None => false,
        },
        Value::Bool(b) => match x {
            Meta::Bool(a) => match op {
                CompareOp::Eq => a == b,
                CompareOp::Ne => a != b,
                _ => false,
            },
            _ => false,
        },
        Value::Date(d) => match meta_date(x) {
            Some(a) => op_holds(op, date_cmp(a, d)),
            None => false,
        },
    }
}

/// `field op v` against the metadata `fm`.
pub open spec fn compare_holds(fm: Meta, field: Seq<char>, op: CompareOp, v: Value) -> bool {
    match field_of(fm, field) {
        Some(x) => value_holds(x, op, v),
        None => false,
    }
}

/// A list item equals the normalized needle `nd` once normalized itself.
pub open spec fn item_matches(m: Meta, nd: Seq<char>) -> bool {
    match meta_text(m) {
        Some(t) => normalized(t) == nd,
        None => false,
    }
}

/// `field contains v`: on a list, some item equals the needle; on a scalar,
/// the needle is a substring; all compared normalized.
pub open spec fn contains_holds(fm: Meta, field: Seq<char>, v: Value) -> bool {
    match (field_of(fm, field), v) {
        (Some(x), Value::String(s)) => match x {
            Meta::List(items) => exists|i: int|
                0 <= i < items.len() && item_matches(#[trigger] items@[i], normalized(s@)),
            _ => match meta_text(x) {
                Some(t) => is_substring(normalized(s@), normalized(t)),
                None => false,
            },
        },
        _ => false,
    }
}

/// Whether the metadata `fm` satisfies `e`.
pub open spec fn satisfies(e: Expr, fm: Meta) -> bool
    decreases e,
{
    match e {
        Expr::Compare { field, op, value } => compare_holds(fm, field@, op, value),
        Expr::Contains { field, value } => contains_holds(fm, field@, value),
        Expr::And(l, r) => satisfies(*l, fm) && satisfies(*r, fm),
        Expr::Or(l, r) => satisfies(*l, fm) || satisfies(*r, fm),
    }
}

/// Evaluates `expr` against one document's metadata.
pub fn evaluate(expr: &Expr, frontmatter: &Meta) -> (r: bool)
    ensures
        r == satisfies(*expr, *frontmatter),
    decreases expr,
{
    match expr {
        Expr::Compare { field, op, value } => eval_compare(frontmatter, field.as_str(), *op, value),
        Expr::Contains { field, value } => eval_contains(frontmatter, field.as_str(), value),
        Expr::And(left, right) => evaluate(left, frontmatter) && evaluate(right, frontmatter),
        Expr::Or(left, right) => evaluate(left, frontmatter) || evaluate(right, frontmatter),
    }
}

/// Finds `field` among the keys of a mapping, ignoring case.
pub fn get_field_case_insensitive<'a>(fm: &'a Meta, field: &str) -> (r: Option<&'a Meta>)
    ensures
        match r {
            Some(v) => field_of(*fm, field@) == Some(*v),
            None => field_of(*fm, field@).is_none(),
        },
{
    match fm {
        Meta::Mapping(entries) => {
            let field_lower = lowercase(field);
            let mut i: usize = 0;
            assert(entries@.subrange(0, entries@.len() as int) =~= entries@);
            while i < entries.len()
                invariant
                    i <= entries@.len(),
                    *fm == Meta::Mapping(*entries),
                    field_lower@ == lower_of(field@),
                    find_entry(entries@, lower_of(field@)) == find_entry(
                        entries@.subrange(i as int, entries@.len() as int),
                        lower_of(field@),
                    ),
                decreases entries@.len() - i,
            {
                assert(entries@.subrange(i as int, entries@.len() as int).drop_first()
                    =~= entries@.subrange(i as int + 1, entries@.len() as int));
                let entry = &entries[i];
                if let Meta::Text(key) = &entry.0 {
                    let key_lower = lowercase(key.as_str());
                    if key_lower == field_lower {
                        assert(entries@.subrange(i as int, entries@.len() as int)[0]
                            == entries@[i as int]);

                        return Some(&entry.1);
                    }
                }
                i = i + 1;
            }
            None
        },
        _ => None,
    }
}

/// The text of a scalar, as `meta_text` gives it.
pub fn meta_to_string(v: &Meta) -> (r: Option<String>)
    ensures
        match meta_text(*v) {
            Some(t) => r.is_some() && r.unwrap()@ == t,
            None => r.is_none(),
        },
{
    match v {
        Meta::Text(s) => Some(s.clone()),
        Meta::Number(n) => Some(n.text.clone()),
        Meta::Bool(b) => {
            if *b {
                Some(String::from_str("true"))
            } else {
                Some(String::from_str("false"))
            }
        },
        _ => None,
    }
}

/// The date held by a string scalar `YYYY-MM-DD`.
pub fn meta_to_date(v: &Meta) -> (r: Option<Date>)
    ensures
        r == meta_date(*v),
{
    match v {
        Meta::Text(s) => parse_date_text(&chars_of(s.as_str())),
        _ => None,
    }
}

/// Applies `op` to an ordering result `c` (negative, zero or positive).
pub fn compare_ord(c: i8, op: CompareOp) -> (r: bool)
    ensures
        r == op_holds(op, c as int),
{
    match op {
        CompareOp::Eq => c == 0,
        CompareOp::Ne => c != 0,
        CompareOp::Gt => c > 0,
        CompareOp::Lt => c < 0,
        CompareOp::Ge => c >= 0,
        CompareOp::Le => c <= 0,
    }
}

/// Compares two strings after normalizing both.
pub fn compare_str(a: &str, b: &str, op: CompareOp) -> (r: bool)
    ensures
        r == op_holds(op, chars_cmp(normalized(a@), normalized(b@))),
{
    let a_norm = normalize_for_compare(a);
    let b_norm = normalize_for_compare(b);
    let c = compare_chars(&chars_of(a_norm.as_str()), &chars_of(b_norm.as_str()));
    compare_ord(c, op)
}

/// Compares two dates.
pub fn compare_dates(a: &Date, b: &Date) -> (r: i8)
    ensures
        r as int == date_cmp(*a, *b),
{
    if a.year != b.year {
        if a.year < b.year { -1 } else { 1 }
    } else if a.month != b.month {
        if a.month < b.month { -1 } else { 1 }
    } else if a.day != b.day {
        if a.day < b.day { -1 } else { 1 }
    } else {
        0
    }
}

pub proof fn lemma_pow10_mono(a: nat, b: nat)
    requires
        a <= b,
    ensures
        1 <= pow10(a) <= pow10(b),
    decreases b,
{
    if a < b {
        lemma_pow10_mono(a, (b - 1) as nat);
    } else if a > 0 {
        lemma_pow10_mono((a - 1) as nat, (a - 1) as nat);
    }
}

pub(crate) fn pow10_exec(n: u32) -> (r: u128)
    requires
        n <= 36,
    ensures
        r == pow10(n as nat),
        r <= 1_000_000_000_000_000_000_000_000_000_000_000_000,
{
    proof {
        reveal_with_fuel(pow10, 37);
        lemma_pow10_mono(n as nat, 36);
    }
    let mut r: u128 = 1;
    let mut i: u32 = 0;
    while i < n
        invariant
            i <= n <= 36,
            r == pow10(i as nat),
            pow10(n as nat) <= 1_000_000_000_000_000_000_000_000_000_000_000_000,
        decreases n - i,
    {
        proof { lemma_pow10_mono((i + 1) as nat, n as nat); }
        r = r * 10;
        i = i + 1;
    }
    r
}

/// Compares two numbers: equality within `2^-52`, order exact.
pub fn compare_number(a: Number, b: Number, op: CompareOp) -> (r: bool)
    requires
        a.wf(),
        b.wf(),
    ensures
        r == number_holds(op, a, b),
{
    let pa = pow10_exec(a.scale);
    let pb = pow10_exec(b.scale);
    proof {
        lemma_pow10_mono(a.scale as nat, 18);
        lemma_pow10_mono(b.scale as nat, 18);
        reveal_with_fuel(pow10, 19);
    }
    assert(-0x8000_0000_0000_0000 * 1_000_000_000_000_000_000 <= (a.mantissa as int) * (pb as int)
        <= 0x8000_0000_0000_0000 * 1_000_000_000_000_000_000) by (nonlinear_arith)
        requires
            pb <= 1_000_000_000_000_000_000,
            -0x8000_0000_0000_0000 <= a.mantissa <= 0x8000_0000_0000_0000;
    assert(-0x8000_0000_0000_0000 * 1_000_000_000_000_000_000 <= (b.mantissa as int) * (pa as int)
        <= 0x8000_0000_0000_0000 * 1_000_000_000_000_000_000) by (nonlinear_arith)
        requires
            pa <= 1_000_000_000_000_000_000,
            -0x8000_0000_0000_0000 <= b.mantissa <= 0x8000_0000_0000_0000;
    let x = (a.mantissa as i128) * (pb as i128);
    let y = (b.mantissa as i128) * (pa as i128);
    assert(-0x8000_0000_0000_0000 * 1_000_000_000_000_000_000 <= x
        <= 0x8000_0000_0000_0000 * 1_000_000_000_000_000_000) by (nonlinear_arith)
        requires
            x == (a.mantissa as int) * (pb as int),
            pb <= 1_000_000_000_000_000_000,
            -0x8000_0000_0000_0000 <= a.mantissa <= 0x8000_0000_0000_0000;
    assert(-0x8000_0000_0000_0000 * 1_000_000_000_000_000_000 <= y
        <= 0x8000_0000_0000_0000 * 1_000_000_000_000_000_000) by (nonlinear_arith)
        requires
            y == (b.mantissa as int) * (pa as int),
            pa <= 1_000_000_000_000_000_000,
            -0x8000_0000_0000_0000 <= b.mantissa <= 0x8000_0000_0000_0000;
    let d = x - y;
    let m: u128 = if d < 0 { (-d) as u128 } else { d as u128 };
    let t = pow10_exec(a.scale + b.scale);
    let near = if m >= 0x1_0000_0000_0000_0000_0 {
        assert(m * 0x10_0000_0000_0000 >= t) by (nonlinear_arith)
            requires
                m >= 0x1_0000_0000_0000_0000_0,
                t <= 1_000_000_000_000_000_000_000_000_000_000_000_000;
        false
    } else {
        assert(m * 0x10_0000_0000_0000 < 0x1_0000_0000_0000_0000_0 * 0x10_0000_0000_0000)
            by (nonlinear_arith)
            requires
                m < 0x1_0000_0000_0000_0000_0;
        m * 0x10_0000_0000_0000 < t
    };
    match op {
        CompareOp::Eq => near,
        CompareOp::Ne => !near,
        _ => compare_ord(if d < 0 { -1 } else if d > 0 { 1 } else { 0 }, op),
    }
}

/// `x op v` for a document value and a query literal.
fn compare_value(x: &Meta, op: CompareOp, value: &Value) -> (r: bool)
    ensures
        r == value_holds(*x, op, *value),
{
    match value {
        Value::String(s) => match meta_to_string(x) {
            Some(t) => compare_str(t.as_str(), s.as_str(), op),
            None => false,
        },
        Value::Number(n) => match x {
            Meta::Number(MetaNumber { value: Some(m), .. }) => {
                if m.scale <= MAX_SCALE && n.scale <= MAX_SCALE {
                    compare_number(*m, *n, op)
                } else {
                    false
                }
            },
            _ => false,
        },
        Value::Bool(b) => match x {
            Meta::Bool(a) => match op {
                CompareOp::Eq => *a == *b,
                CompareOp::Ne => *a != *b,
                _ => false,
            },
            _ => false,
        },
        Value::Date(d) => match meta_to_date(x) {
            Some(a) => compare_ord(compare_dates(&a, d), op),
            None => false,
        },
    }
}

/// `field op value` against the metadata `fm`; false where the field is missing.
pub fn eval_compare(fm: &Meta, field: &str, op: CompareOp, value: &Value) -> (r: bool)
    ensures
        r == compare_holds(*fm, field@, op, *value),
{
    match get_field_case_insensitive(fm, field) {
        Some(x) => compare_value(x, op, value),
        None => false,
    }
}

/// `field contains value` against the metadata `fm`.
pub fn eval_contains(fm: &Meta, field: &str, value: &Value) -> (r: bool)
    ensures
        r == contains_holds(*fm, field@, *value),
{
    let fm_value = match get_field_case_insensitive(fm, field) {
        Some(x) => x,
        None => return false,
    };
    let needle = match value {
        Value::String(s) => s,
        _ => return false,
    };
    let needle_normalized = normalize_for_compare(needle.as_str());
    if let Meta::List(items) = fm_value {
        let mut i: usize = 0;
        while i < items.len()
            invariant
                i <= items@.len(),
                field_of(*fm, field@) == Some(*fm_value),
                *value == Value::String(*needle),
                *fm_value == Meta::List(*items),
                needle_normalized@ == normalized(needle@),
                forall|k: int| 0 <= k < i ==> !item_matches(#[trigger] items@[k], normalized(needle@)),
            decreases items@.len() - i,
        {
            if let Some(s) = meta_to_string(&items[i]) {
                let sn = normalize_for_compare(s.as_str());
                if sn == needle_normalized {
                    assert(item_matches(items@[i as int], normalized(needle@)));
                    assert(exists|k: int|
                        0 <= k < items@.len() && item_matches(
                            #[trigger] items@[k],
                            normalized(needle@),
                        ));
                    assert((*fm_value)->List_0 == *items);
                    return true;
                }
            }
            i = i + 1;
        }
        return false;
    }
    match meta_to_string(fm_value) {
        Some(s) => {
            let sn = normalize_for_compare(s.as_str());
            contains_chars(&chars_of(sn.as_str()), &chars_of(needle_normalized.as_str()))
        },
        None => false,
    }
}

/// Field names and string values are compared without regard to case: where
/// the first key of `fm` that lowercases like `f` holds the string `v2`, and
/// `v2` lowercases like `v` (neither wrapped as a link), `f = "v"` holds.
pub proof fn lemma_case_insensitive_match(fm: Meta, f: String, v: String, v2: String)
    requires
        field_of(fm, f@) == Some(Meta::Text(v2)),
        lower_of(v2@) == lower_of(v@),
        strip_link(v@) == v@,
        strip_link(v2@) == v2@,
    ensures
        compare_holds(fm, f@, CompareOp::Eq, Value::String(v)),
{
    lemma_chars_cmp_equal(normalized(v2@), normalized(v@));
}

/// A boolean literal admits only `=` and `!=`: under an ordering operator the
/// comparison is false whatever the document holds.
pub proof fn lemma_bool_ordering_false(fm: Meta, field: Seq<char>, op: CompareOp, b: bool)
    requires
        op != CompareOp::Eq,
        op != CompareOp::Ne,
    ensures
        !compare_holds(fm, field, op, Value::Bool(b)),
{
}

proof fn lemma_find_entry_none(es: Seq<(Meta, Meta)>, fl: Seq<char>)
    requires
        forall|i: int| 0 <= i < es.len() ==> !key_matches(#[trigger] es[i].0, fl),
    ensures
        find_entry(es, fl).is_none(),
    decreases es.len(),
{
    if es.len() > 0 {
        assert(!key_matches(es[0].0, fl));
        assert forall|i: int| 0 <= i < es.drop_first().len() implies !key_matches(
            #[trigger] es.drop_first()[i].0,
            fl,
        ) by {
            assert(es.drop_first()[i] == es[i + 1]);
        }
        lemma_find_entry_none(es.drop_first(), fl);
    }
}

/// A document with no key matching `field` (ignoring case) satisfies no
/// comparison and no `contains` on that field.
pub proof fn lemma_absent_field_false(fm: Meta, field: Seq<char>, op: CompareOp, v: Value)
    requires
        fm matches Meta::Mapping(es) ==> forall|i: int|
            0 <= i < es@.len() ==> !key_matches(#[trigger] es@[i].0, lower_of(field)),
    ensures
        !compare_holds(fm, field, op, v),
        !contains_holds(fm, field, v),
{
    if let Meta::Mapping(es) = fm {
        lemma_find_entry_none(es@, lower_of(field));
    }
}

} // verus!
