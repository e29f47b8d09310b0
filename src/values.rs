//! Listing the distinct values of one field across documents, with how often
//! each occurs.
use vstd::prelude::*;
use vstd::string::*;
use crate::meta::Meta;
use crate::text::{chars_cmp, chars_of, compare_chars, lemma_chars_cmp_equal};

verus! {

/// The value of the first entry whose key is exactly `prop`.
pub open spec fn exact_entry(es: Seq<(Meta, Meta)>, prop: Seq<char>) -> Option<Meta>
    decreases es.len(),
{
    if es.len() == 0 {
        None
    } else if es[0].0 matches Meta::Text(k) && k@ == prop {
        Some(es[0].1)
    } else {
        exact_entry(es.drop_first(), prop)
    }
}

/// Exact (case-sensitive) field lookup.
pub open spec fn exact_field(fm: Meta, prop: Seq<char>) -> Option<Meta> {
    match fm {
        Meta::Mapping(es) => exact_entry(es@, prop),
        _ => None,
    }
}

/// The text a scalar is listed under; empty strings are not listed.
pub open spec fn listed_text(m: Meta) -> Option<Seq<char>> {
    match m {
        Meta::Text(s) => if s@.len() > 0 { Some(s@) } else { None },
        Meta::Number(n) => Some(n.text@),
        Meta::Bool(b) => Some(if b { "true"@ } else { "false"@ }),
        _ => None,
    }
}

/// The listed texts of the items of a list, in order.
pub open spec fn listed_items(items: Seq<Meta>) -> Seq<Seq<char>>
    decreases items.len(),
{
    if items.len() == 0 {
        Seq::empty()
    } else {
        let rest = listed_items(items.drop_last());
        match listed_text(items.last()) {
            Some(t) => rest.push(t),
            None => rest,
        }
    }
}

/// What one document contributes: each listed item of a list field, or the
/// field itself where it is a scalar.
pub open spec fn doc_values(fm: Meta, prop: Seq<char>) -> Seq<Seq<char>> {
    match exact_field(fm, prop) {
        Some(Meta::List(items)) => listed_items(items@),
        Some(x) => match listed_text(x) {
            Some(t) => seq![t],
            None => Seq::empty(),
        },
        None => Seq::empty(),
    }
}

/// Everything all documents contribute, in order.
pub open spec fn all_values(docs: Seq<(String, Meta)>, prop: Seq<char>) -> Seq<Seq<char>>
    decreases docs.len(),
{
    if docs.len() == 0 {
        Seq::empty()
    } else {
        all_values(docs.drop_last(), prop) + doc_values(docs.last().1, prop)
    }
}

/// How often `v` occurs in `vs`.
pub open spec fn occurrences(vs: Seq<Seq<char>>, v: Seq<char>) -> nat
    decreases vs.len(),
{
    if vs.len() == 0 {
        0
    } else {
        occurrences(vs.drop_last(), v) + (if vs.last() == v { 1nat } else { 0 })
    }
}

/// `counts` holds each distinct value of `vs` once, with how often it occurs.
pub open spec fn tallies(counts: Seq<(String, usize)>, vs: Seq<Seq<char>>) -> bool {
    &&& forall|i: int, j: int|
        0 <= i < counts.len() && 0 <= j < counts.len() && i != j ==> counts[i].0@ != counts[j].0@
    &&& forall|i: int|
        0 <= i < counts.len() ==> (#[trigger] counts[i]).1 == occurrences(vs, counts[i].0@)
            && counts[i].1 > 0
    &&& forall|v: Seq<char>|
        occurrences(vs, v) > 0 ==> exists|i: int| 0 <= i < counts.len() && #[trigger] counts[i].0@ == v
}

pub proof fn lemma_occurrences_le(vs: Seq<Seq<char>>, v: Seq<char>)
    ensures
        occurrences(vs, v) <= vs.len(),
    decreases vs.len(),
{
    if vs.len() > 0 {
        lemma_occurrences_le(vs.drop_last(), v);
    }
}

proof fn lemma_push_drop(vs: Seq<Seq<char>>, v: Seq<char>)
    ensures
        vs.push(v).drop_last() == vs,
        vs.push(v).last() == v,
{
    assert(vs.push(v).drop_last() =~= vs);
}

/// Counts one more occurrence of `v`.
fn add_one(counts: &mut Vec<(String, usize)>, v: String, Ghost(vs): Ghost<Seq<Seq<char>>>)
    requires
        tallies(old(counts)@, vs),
        vs.len() < usize::MAX,
    ensures
        tallies(final(counts)@, vs.push(v@)),
{
    proof {
        lemma_push_drop(vs, v@);
        lemma_occurrences_le(vs, v@);
    }
    let ghost ws = vs.push(v@);
    let mut i: usize = 0;
    while i < counts.len()
        invariant
            counts@ == old(counts)@,
            tallies(counts@, vs),
            ws == vs.push(v@),
            vs.len() < usize::MAX,
            i <= counts@.len(),
            forall|k: int| 0 <= k < i ==> counts@[k].0@ != v@,
        decreases counts@.len() - i,
    {
        if counts[i].0 == v {
            let key = counts[i].0.clone();
            let c = counts[i].1;
            proof {
                assert(counts@[i as int].1 == occurrences(vs, counts@[i as int].0@));
                lemma_occurrences_le(vs, v@);
                lemma_push_drop(vs, v@);
            }
            counts.set(i, (key, c + 1));
            proof {
                assert forall|w: Seq<char>| occurrences(ws, w) > 0 implies exists|j: int|
                    0 <= j < counts@.len() && #[trigger] counts@[j].0@ == w by {
                    if w == v@ {
                        assert(counts@[i as int].0@ == w);
                    } else {
                        assert(occurrences(vs, w) > 0);
                        let j = choose|j: int| 0 <= j < old(counts)@.len() && #[trigger] old(counts)@[j].0@ == w;
                        assert(counts@[j].0@ == w);
                    }
                }
            }
            return;
        }
        i = i + 1;
    }
    proof {
        lemma_push_drop(vs, v@);
        if occurrences(vs, v@) > 0 {
            let j = choose|j: int| 0 <= j < counts@.len() && #[trigger] counts@[j].0@ == v@;
            assert(false);
        }
    }
    counts.push((v, 1));
    proof {
        assert forall|w: Seq<char>| occurrences(ws, w) > 0 implies exists|j: int|
            0 <= j < counts@.len() && #[trigger] counts@[j].0@ == w by {
            if w == v@ {
                assert(counts@[counts@.len() - 1].0@ == w);
            } else {
                assert(occurrences(vs, w) > 0);
                let j = choose|j: int| 0 <= j < old(counts)@.len() && #[trigger] old(counts)@[j].0@ == w;
                assert(counts@[j].0@ == w);
            }
        }
    }
}

/// Exact (case-sensitive) lookup of `prop` among the keys of a mapping.
fn exact_lookup<'a>(fm: &'a Meta, prop: &str) -> (r: Option<&'a Meta>)
    ensures
        match r {
            Some(v) => exact_field(*fm, prop@) == Some(*v),
            None => exact_field(*fm, prop@).is_none(),
        },
{
    match fm {
        Meta::Mapping(entries) => {
            let wanted = String::from_str(prop);
            let mut i: usize = 0;
            assert(entries@.subrange(0, entries@.len() as int) =~= entries@);
            while i < entries.len()
                invariant
                    i <= entries@.len(),
                    *fm == Meta::Mapping(*entries),
                    wanted@ == prop@,
                    exact_entry(entries@, prop@) == exact_entry(
                        entries@.subrange(i as int, entries@.len() as int),
                        prop@,
                    ),
                decreases entries@.len() - i,
            {
                assert(entries@.subrange(i as int, entries@.len() as int).drop_first()
                    =~= entries@.subrange(i as int + 1, entries@.len() as int));
                assert(entries@.subrange(i as int, entries@.len() as int)[0] == entries@[i as int]);
                let entry = &entries[i];
                if let Meta::Text(key) = &entry.0 {
                    if *key == wanted {
                        return Some(&entry.1);
                    }
                }
                i = i + 1;
            }
            None
        },
        _ => None,
    }
}

/// The text a scalar is listed under, as `listed_text` gives it.
pub fn value_to_string(v: &Meta) -> (r: Option<String>)
    ensures
        match listed_text(*v) {
            Some(t) => r.is_some() && r.unwrap()@ == t,
            None => r.is_none(),
        },
{
    match v {
        Meta::Text(s) => {
            if s.as_str().unicode_len() > 0 {
                Some(s.clone())
            } else {
                None
            }
        },
        Meta::Number(n) => Some(n.text.clone()),
        Meta::Bool(b) => {
            if *b {
                Some(String::from_str("true"))
            } else {
                Some(String::from_str("false"))
            }
        },
        _ => None,
    }
}

proof fn lemma_all_values_prefix(docs: Seq<(String, Meta)>, prop: Seq<char>, d: int)
    requires
        0 <= d <= docs.len(),
    ensures
        all_values(docs.subrange(0, d), prop).len() <= all_values(docs, prop).len(),
    decreases docs.len() - d,
{
    if d < docs.len() {
        lemma_all_values_prefix(docs, prop, d + 1);
        assert(docs.subrange(0, d + 1).drop_last() =~= docs.subrange(0, d));
    } else {
        assert(docs.subrange(0, d) =~= docs);
    }
}

proof fn lemma_listed_items_prefix(items: Seq<Meta>, j: int)
    requires
        0 <= j <= items.len(),
    ensures
        listed_items(items.subrange(0, j)).len() <= listed_items(items).len(),
    decreases items.len() - j,
{
    if j < items.len() {
        lemma_listed_items_prefix(items, j + 1);
        assert(items.subrange(0, j + 1).drop_last() =~= items.subrange(0, j));
    } else {
        assert(items.subrange(0, j) =~= items);
    }
}

/// Counts, across all documents, how often each value of field `property`
/// occurs: each listed item of a list field counts once, a scalar field
/// counts once; the field name is matched exactly.
pub fn collect_values(frontmatters: &Vec<(String, Meta)>, property: &str) -> (r: Vec<(String, usize)>)
    requires
        all_values(frontmatters@, property@).len() < usize::MAX,
    ensures
        tallies(r@, all_values(frontmatters@, property@)),
{
    let ghost docs = frontmatters@;
    let ghost prop = property@;
    let mut counts: Vec<(String, usize)> = Vec::new();
    let mut d: usize = 0;
    assert(docs.subrange(0, 0) =~= Seq::<(String, Meta)>::empty());
    while d < frontmatters.len()
        invariant
            docs == frontmatters@,
            prop == property@,
            d <= docs.len(),
            all_values(docs, prop).len() < usize::MAX,
            tallies(counts@, all_values(docs.subrange(0, d as int), prop)),
        decreases docs.len() - d,
    {
        let ghost before = all_values(docs.subrange(0, d as int), prop);
        let fm = &frontmatters[d].1;
        proof {
            assert(docs.subrange(0, d + 1).drop_last() =~= docs.subrange(0, d as int));
            lemma_all_values_prefix(docs, prop, d + 1);
        }
        let ghost after = all_values(docs.subrange(0, d + 1), prop);
        assert(after == before + doc_values(*fm, prop));
        match exact_lookup(fm, property) {
            Some(Meta::List(items)) => {
                let mut j: usize = 0;
                assert(items@.subrange(0, 0) =~= Seq::<Meta>::empty());
                assert(before + listed_items(items@.subrange(0, 0)) =~= before);
                while j < items.len()
                    invariant
                        j <= items@.len(),
                        doc_values(*fm, prop) == listed_items(items@),
                        after == before + listed_items(items@),
                        after.len() < usize::MAX,
                        tallies(counts@, before + listed_items(items@.subrange(0, j as int))),
                    decreases items@.len() - j,
                {
                    let ghost cur = before + listed_items(items@.subrange(0, j as int));
                    proof {
                        assert(items@.subrange(0, j + 1).drop_last() =~= items@.subrange(0, j as int));
                        lemma_listed_items_prefix(items@, j + 1);
                    }
                    match value_to_string(&items[j]) {
                        Some(t) => {
                            assert(cur.len() < usize::MAX);
                            add_one(&mut counts, t, Ghost(cur));
                            assert(cur.push(t@) =~= before + listed_items(items@.subrange(0, j + 1)));
                        },
                        None => {},
                    }
                    j = j + 1;
                }
                assert(items@.subrange(0, items@.len() as int) =~= items@);
            },
            Some(x) => {
                match value_to_string(x) {
                    Some(t) => {
                        add_one(&mut counts, t, Ghost(before));
                        assert(before.push(t@) =~= after);
                    },
                    None => {
                        assert(before =~= after);
                    },
                }
            },
            None => {
                assert(before =~= after);
            },
        }
        d = d + 1;
    }
    assert(docs.subrange(0, docs.len() as int) =~= docs);
    counts
}

/// Whether `a` is listed strictly before `b`: by count, larger first, then by
/// name where counts are shown; by name alone otherwise.
pub open spec fn goes_before(a: (String, usize), b: (String, usize), show_count: bool) -> bool {
    if show_count {
        a.1 > b.1 || (a.1 == b.1 && chars_cmp(a.0@, b.0@) < 0)
    } else {
        chars_cmp(a.0@, b.0@) < 0
    }
}

pub open spec fn distinct_keys(c: Seq<(String, usize)>) -> bool {
    forall|i: int, j: int| 0 <= i < c.len() && 0 <= j < c.len() && i != j ==> c[i].0@ != c[j].0@
}

/// `s` holds the items of `counts` in listing order.
pub open spec fn is_listing(s: Seq<(String, usize)>, counts: Seq<(String, usize)>, show_count: bool) -> bool {
    &&& s.len() == counts.len()
    &&& forall|i: int, j: int| 0 <= i < j < s.len() ==> !goes_before(s[j], s[i], show_count)
    &&& forall|i: int| 0 <= i < counts.len() ==> appears(s, #[trigger] counts[i])
}

/// `x` is one of the items of `s`.
pub open spec fn appears(s: Seq<(String, usize)>, x: (String, usize)) -> bool {
    exists|j: int| 0 <= j < s.len() && s[j] == x
}

/// The decimal digits of `n`.
pub open spec fn decimal(n: nat) -> Seq<char>
    decreases n,
{
    if n < 10 {
        seq![seq!['0', '1', '2', '3', '4', '5', '6', '7', '8', '9'][n as int]]
    } else {
        decimal(n / 10).push(seq!['0', '1', '2', '3', '4', '5', '6', '7', '8', '9'][(n % 10) as int])
    }
}

/// The line printed for one item.
pub open spec fn line_of(item: (String, usize), show_count: bool) -> Seq<char> {
    if show_count {
        item.0@ + ": "@ + decimal(item.1 as nat)
    } else {
        item.0@
    }
}

/// The one-character text of decimal digit `d`.
fn digit_str(d: usize) -> (r: &'static str)
    requires
        d < 10,
    ensures
        r@ == seq![seq!['0', '1', '2', '3', '4', '5', '6', '7', '8', '9'][d as int]],
{
    proof {
        reveal_strlit("0");
        reveal_strlit("1");
        reveal_strlit("2");
        reveal_strlit("3");
        reveal_strlit("4");
        reveal_strlit("5");
        reveal_strlit("6");
        reveal_strlit("7");
        reveal_strlit("8");
        reveal_strlit("9");
    }
    let r = if d == 0 {
        "0"
    } else if d == 1 {
        "1"
    } else if d == 2 {
        "2"
    } else if d == 3 {
        "3"
    } else if d == 4 {
        "4"
    } else if d == 5 {
        "5"
    } else if d == 6 {
        "6"
    } else if d == 7 {
        "7"
    } else if d == 8 {
        "8"
    } else {
        "9"
    };
    assert(r@ =~= seq![seq!['0', '1', '2', '3', '4', '5', '6', '7', '8', '9'][d as int]]);
    r
}

/// `n` written in decimal.
fn decimal_string(n: usize) -> (r: String)
    ensures
        r@ == decimal(n as nat),
    decreases n,
{
    if n < 10 {
        String::from_str(digit_str(n))
    } else {
        let mut r = decimal_string(n / 10);
        r.append(digit_str(n % 10));
        r
    }
}

/// The line `name: count`.
fn count_line(name: &String, count: usize) -> (r: String)
    ensures
        r@ == name@ + ": "@ + decimal(count as nat),
{
    let mut r = name.clone();
    r.append(": ");
    let d = decimal_string(count);
    r.append(d.as_str());
    r
}

proof fn lemma_chars_cmp_trans(a: Seq<char>, b: Seq<char>, c: Seq<char>)
    requires
        chars_cmp(a, b) < 0,
        chars_cmp(b, c) < 0,
    ensures
        chars_cmp(a, c) < 0,
    decreases a.len(),
{
    if a.len() > 0 && b.len() > 0 && c.len() > 0 && a[0] == b[0] && b[0] == c[0] {
        lemma_chars_cmp_trans(a.drop_first(), b.drop_first(), c.drop_first());
    }
}

proof fn lemma_goes_before_trans(a: (String, usize), b: (String, usize), c: (String, usize), show: bool)
    requires
        goes_before(a, b, show),
        goes_before(b, c, show),
    ensures
        goes_before(a, c, show),
{
    if show {
        if a.1 == b.1 && b.1 == c.1 {
            lemma_chars_cmp_trans(a.0@, b.0@, c.0@);
        }
    } else {
        lemma_chars_cmp_trans(a.0@, b.0@, c.0@);
    }
}

proof fn lemma_goes_before_irreflexive(a: (String, usize), show: bool)
    ensures
        !goes_before(a, a, show),
{
    lemma_chars_cmp_equal(a.0@, a.0@);
}

fn item_goes_before(a: &(String, usize), b: &(String, usize), show_count: bool) -> (r: bool)
    ensures
        r == goes_before(*a, *b, show_count),
{
    let c = compare_chars(&chars_of(a.0.as_str()), &chars_of(b.0.as_str()));
    if show_count {
        a.1 > b.1 || (a.1 == b.1 && c < 0)
    } else {
        c < 0
    }
}

/// Puts the items in listing order.
fn sort_counts(counts: &Vec<(String, usize)>, show_count: bool) -> (r: Vec<(String, usize)>)
    ensures
        is_listing(r@, counts@, show_count),
{
    let mut out: Vec<(String, usize)> = Vec::new();
    let mut n: usize = 0;
    while n < counts.len()
        invariant
            n <= counts@.len(),
            out@.len() == n,
            forall|i: int, j: int| 0 <= i < j < out@.len() ==> !goes_before(out@[j], out@[i], show_count),
            forall|i: int| 0 <= i < n ==> appears(out@, #[trigger] counts@[i]),
        decreases counts@.len() - n,
    {
        let x = (counts[n].0.clone(), counts[n].1);
        assert(x == counts@[n as int]);
        let mut k: usize = 0;
        while k < out.len() && !item_goes_before(&x, &out[k], show_count)
            invariant
                k <= out@.len(),
                forall|i: int| 0 <= i < k ==> !goes_before(x, #[trigger] out@[i], show_count),
            decreases out@.len() - k,
        {
            k = k + 1;
        }
        let ghost old_out = out@;
        out.insert(k, x);
        proof {
            assert forall|i: int, j: int| 0 <= i < j < out@.len() implies !goes_before(out@[j], out@[i], show_count) by {
                if i < k && j == k {
                } else if i == k && j > k {
                    let y = old_out[j - 1];
                    if goes_before(y, x, show_count) {
                        lemma_goes_before_trans(y, x, old_out[k as int], show_count);
                        if j - 1 == k {
                            lemma_goes_before_irreflexive(y, show_count);
                        }
                    }
                }
            }
            assert forall|i: int| 0 <= i < n + 1 implies appears(out@, #[trigger] counts@[i]) by {
                if i == n {
                    assert(out@[k as int] == counts@[i]);
                } else {
                    assert(appears(old_out, counts@[i]));
                    let j = choose|j: int| 0 <= j < old_out.len() && old_out[j] == counts@[i];
                    if j < k {
                        assert(out@[j] == counts@[i]);
                    } else {
                        assert(out@[j + 1] == counts@[i]);
                    }
                }
            }
        }
        n = n + 1;
    }
    assert(out@.len() == counts@.len());
    assert(forall|i: int, j: int| 0 <= i < j < out@.len() ==> !goes_before(out@[j], out@[i], show_count));
    assert(n == counts@.len());
    out
}

/// The listing of `counts`: names in order, or `name: count` lines ordered by
/// count (larger first) and then by name.
pub fn format_values(counts: Vec<(String, usize)>, show_count: bool) -> (r: Vec<String>)
    ensures
        exists|s: Seq<(String, usize)>|
            is_listing(s, counts@, show_count) && r@.len() == s.len() && forall|i: int|
                0 <= i < s.len() ==> (#[trigger] r@[i])@ == line_of(s[i], show_count),
{
    let items = sort_counts(&counts, show_count);
    let mut lines: Vec<String> = Vec::new();
    let mut i: usize = 0;
    while i < items.len()
        invariant
            i <= items@.len(),
            lines@.len() == i,
            forall|k: int| 0 <= k < i ==> (#[trigger] lines@[k])@ == line_of(items@[k], show_count),
        decreases items@.len() - i,
    {
        let line = if show_count {
            count_line(&items[i].0, items[i].1)
        } else {
            items[i].0.clone()
        };
        lines.push(line);
        i = i + 1;
    }
    assert(is_listing(items@, counts@, show_count));
    lines
}

} // verus!
