//! Locating a document's metadata block: the text between a leading `---`
//! line and the next line that starts with `---`.
use vstd::prelude::*;
use vstd::string::*;
use crate::parser::{lemma_skip_ws_bounds, skip_ws};
use crate::text::{chars_of, is_space, matches_at};

verus! {

/// The first index at or after `from` where `needle` starts in `hay`, or
/// `hay.len()` where it does not occur there.
pub open spec fn text_index(hay: Seq<char>, needle: Seq<char>, from: int) -> int
    decreases hay.len() + 1 - from,
{
    if from < 0 || from + needle.len() > hay.len() {
        hay.len() as int
    } else if hay.subrange(from, from + needle.len()) == needle {
        from
    } else {
        text_index(hay, needle, from + 1)
    }
}

/// The metadata block of a document: after leading white space the text must
/// start with `---`; the block runs from there to the next `\n---`.
pub open spec fn metadata_block(s: Seq<char>) -> Option<Seq<char>> {
    let t = s.subrange(skip_ws(s, 0), s.len() as int);
    if t.len() >= 3 && t.subrange(0, 3) == seq!['-', '-', '-'] {
        let rest = t.subrange(3, t.len() as int);
        let i = text_index(rest, seq!['\n', '-', '-', '-'], 0);
        if i < rest.len() {
            Some(rest.subrange(0, i))
        } else {
            None
        }
    } else {
        None
    }
}

proof fn lemma_text_index_shift(s: Seq<char>, base: int, needle: Seq<char>, i: int)
    requires
        0 <= base <= s.len(),
        0 <= i <= s.len() - base,
        needle.len() > 0,
    ensures
        text_index(s.subrange(base, s.len() as int), needle, i) == text_index(s, needle, base + i)
            - base,
    decreases s.len() - base - i,
{
    let rest = s.subrange(base, s.len() as int);
    if i + needle.len() <= rest.len() {
        assert(rest.subrange(i, i + needle.len()) =~= s.subrange(base + i, base + i
            + needle.len()));
        lemma_text_index_shift(s, base, needle, i + 1);
    }
}

/// The text of the metadata block of `content`, where it has one.
pub fn extract_block(content: &str) -> (r: Option<String>)
    ensures
        match metadata_block(content@) {
            Some(b) => r.is_some() && r.unwrap()@ == b,
            None => r.is_none(),
        },
{
    let s = chars_of(content);
    let n = s.len();
    let mut p: usize = 0;
    while p < n && is_space(s[p])
        invariant
            n == s@.len(),
            s@ == content@,
            p <= n,
            skip_ws(s@, 0) == skip_ws(s@, p as int),
        decreases n - p,
    {
        p = p + 1;
    }
    proof {
        lemma_skip_ws_bounds(s@, 0);
    }
    let ghost t = s@.subrange(p as int, n as int);
    if n - p < 3 || s[p] != '-' || s[p + 1] != '-' || s[p + 2] != '-' {
        proof {
            if t.len() >= 3 && t.subrange(0, 3) == seq!['-', '-', '-'] {
                assert(t.subrange(0, 3)[0] == t[0]);
                assert(t.subrange(0, 3)[1] == t[1]);
                assert(t.subrange(0, 3)[2] == t[2]);
            }
        }
        return None;
    }
    assert(t.subrange(0, 3) =~= seq!['-', '-', '-']);
    let base = p + 3;
    let ghost rest = t.subrange(3, t.len() as int);
    assert(rest =~= s@.subrange(base as int, n as int));
    let needle = chars_of("\n---");
    proof {
        reveal_strlit("\n---");
    }
    assert(needle@ =~= seq!['\n', '-', '-', '-']);
    let mut i = base;
    proof {
        lemma_text_index_shift(s@, base as int, needle@, 0);
    }
    assert(metadata_block(content@) == (if text_index(rest, needle@, 0) < rest.len() {
        Some(rest.subrange(0, text_index(rest, needle@, 0)))
    } else {
        None
    }));
    while n >= 4 && i <= n - 4
        invariant
            n == s@.len(),
            i <= n,
            s@ == content@,
            base <= i,
            base <= n,
            rest == s@.subrange(base as int, n as int),
            metadata_block(content@) == (if text_index(rest, needle@, 0) < rest.len() {
                Some(rest.subrange(0, text_index(rest, needle@, 0)))
            } else {
                None
            }),
            needle@ == seq!['\n', '-', '-', '-'],
            text_index(s@, needle@, base as int) == text_index(s@, needle@, i as int),
        decreases n - i,
    {
        if matches_at(&s, &needle, i) {
            proof {
                lemma_text_index_shift(s@, base as int, needle@, 0);
                assert(text_index(s@, needle@, i as int) == i);
                assert(rest.subrange(0, i - base) =~= s@.subrange(base as int, i as int));
            }
            return Some(String::from_str(content.substring_char(base, i)));
        }
        i = i + 1;
    }
    proof {
        lemma_text_index_shift(s@, base as int, needle@, 0);
        assert(text_index(s@, needle@, i as int) == n);
    }
    None
}

} // verus!
