//! Names: what counts as whitespace, and trimming.

use vstd::prelude::*;

verus! {

/// Whether `c` is whitespace, as `char::is_whitespace` tells it.
pub uninterp spec fn is_whitespace(c: char) -> bool;

/// Calls `char::is_whitespace`.
///
/// Trusted: the answer depends on the character alone. Which characters are
/// whitespace is left to the standard library.
#[verifier::external_body]
pub(crate) fn char_is_whitespace(c: char) -> (r: bool)
    ensures
        r == is_whitespace(c),
{
    c.is_whitespace()
}

/// `s` without the whitespace at its two ends.
pub open spec fn trimmed(s: Seq<char>) -> Seq<char>
    decreases s.len(),
{
    if s.len() == 0 {
        s
    } else if is_whitespace(s.first()) {
        trimmed(s.drop_first())
    } else if is_whitespace(s.last()) {
        trimmed(s.drop_last())
    } else {
        s
    }
}

/// Whether `s` is empty or holds nothing but whitespace.
pub open spec fn is_blank(s: Seq<char>) -> bool {
    trimmed(s).len() == 0
}

/// The part of `s` between `from` and `to` is what trimming leaves, where
/// all before `from` and all from `to` on is whitespace and the part itself
/// neither starts nor ends with whitespace.
proof fn lemma_trimmed_is_subrange(s: Seq<char>, from: int, to: int)
    requires
        0 <= from <= to <= s.len(),
        forall|i: int| 0 <= i < from ==> is_whitespace(#[trigger] s[i]),
        forall|i: int| to <= i < s.len() ==> is_whitespace(#[trigger] s[i]),
        from < to ==> !is_whitespace(s[from]) && !is_whitespace(s[to - 1]),
    ensures
        trimmed(s) == s.subrange(from, to),
    decreases s.len(),
{
    if s.len() == 0 {
        assert(s.subrange(from, to) =~= s);
    } else if is_whitespace(s.first()) {
        let rest = s.drop_first();
        if from == 0 {
            assert(to == 0);
            lemma_trimmed_is_subrange(rest, 0, 0);
            assert(rest.subrange(0, 0) =~= s.subrange(from, to));
        } else {
            assert forall|i: int| 0 <= i < from - 1 implies is_whitespace(#[trigger] rest[i]) by {
                assert(rest[i] == s[i + 1]);
            }
            assert forall|i: int| to - 1 <= i < rest.len() implies is_whitespace(
                #[trigger] rest[i],
            ) by {
                assert(rest[i] == s[i + 1]);
            }
            lemma_trimmed_is_subrange(rest, from - 1, to - 1);
            assert(rest.subrange(from - 1, to - 1) =~= s.subrange(from, to));
        }
    } else if is_whitespace(s.last()) {
        let rest = s.drop_last();
        assert(from == 0);
        assert(to < s.len());
        lemma_trimmed_is_subrange(rest, from, to);
        assert(rest.subrange(from, to) =~= s.subrange(from, to));
    } else {
        assert(from == 0);
        assert(to == s.len());
        assert(s.subrange(from, to) =~= s);
    }
}

/// What trimming leaves has no whitespace at its ends, so that trimming it
/// again changes nothing.
pub proof fn lemma_trimmed_twice(s: Seq<char>)
    ensures
        trimmed(trimmed(s)) == trimmed(s),
        is_blank(trimmed(s)) == is_blank(s),
    decreases s.len(),
{
    if s.len() == 0 {
    } else if is_whitespace(s.first()) {
        lemma_trimmed_twice(s.drop_first());
    } else if is_whitespace(s.last()) {
        lemma_trimmed_twice(s.drop_last());
    } else {
    }
}

/// The name `s` without the whitespace at its two ends.
pub fn trim(s: &str) -> (r: String)
    ensures
        r@ == trimmed(s@),
{
    let len = s.unicode_len();
    let mut from: usize = 0;
    while from < len && char_is_whitespace(s.get_char(from))
        invariant
            len == s@.len(),
            from <= len,
            forall|i: int| 0 <= i < from ==> is_whitespace(#[trigger] s@[i]),
        decreases len - from,
    {
        from = from + 1;
    }
    let mut to: usize = len;
    while from < to && char_is_whitespace(s.get_char(to - 1))
        invariant
            len == s@.len(),
            from <= to <= len,
            forall|i: int| to <= i < len ==> is_whitespace(#[trigger] s@[i]),
        decreases to,
    {
        to = to - 1;
    }
    proof {
        lemma_trimmed_is_subrange(s@, from as int, to as int);
    }
    s.substring_char(from, to).to_owned()
}

/// Whether the name `s` is empty or holds nothing but whitespace.
pub fn blank(s: &str) -> (r: bool)
    ensures
        r == is_blank(s@),
{
    trim(s).as_str().is_empty()
}

} // verus!
