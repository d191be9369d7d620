//! Character-level helpers on strings: conversion between `str` and
//! character vectors, prefixes, substrings, trimming and capitalisation.

use vstd::prelude::*;
use vstd::string::{StrSliceExecFns, StringExecFns, StringSliceAdditionalSpecFns};

verus! {

/// The characters of `s`, in order.
pub fn chars_of(s: &str) -> (r: Vec<char>)
    ensures
        r@ == s@,
{
    let mut r: Vec<char> = Vec::new();
    for c in it: s.chars()
        invariant
            r@ == it.seq().take(it.index() as int),
    {
        r.push(c);
    }
    r
}

/// Appends one character to a string (`String::push`).
///
/// Trusted: the contract claims that `String::push` adds `c` at the end
/// and leaves the characters before it unchanged, as its documentation says.
#[verifier::external_body]
pub fn push_char(s: &mut String, c: char)
    ensures
        final(s)@ == old(s)@.push(c),
{
    s.push(c);
}

/// The string made of the characters of `v`, in order.
pub fn string_of(v: &[char]) -> (r: String)
    ensures
        r@ == v@,
{
    let mut r = String::new();
    let mut i: usize = 0;
    while i < v.len()
        invariant
            i <= v@.len(),
            r@ == v@.take(i as int),
        decreases v@.len() - i,
    {
        push_char(&mut r, v[i]);
        assert(v@.take(i as int).push(v@[i as int]) =~= v@.take(i + 1));
        i = i + 1;
    }
    assert(v@.take(v@.len() as int) =~= v@);
    r
}

/// Appends every character of `v` to `s`.
pub fn push_chars(s: &mut String, v: &[char])
    ensures
        final(s)@ == old(s)@ + v@,
{
    let mut i: usize = 0;
    while i < v.len()
        invariant
            i <= v@.len(),
            s@ == old(s)@ + v@.take(i as int),
        decreases v@.len() - i,
    {
        push_char(s, v[i]);
        assert(v@.take(i as int).push(v@[i as int]) =~= v@.take(i + 1));
        i = i + 1;
    }
    assert(v@.take(v@.len() as int) =~= v@);
}

/// `p` is a prefix of `s`.
pub open spec fn has_prefix(s: Seq<char>, p: Seq<char>) -> bool {
    p.len() <= s.len() && s.take(p.len() as int) == p
}

/// `p` is a suffix of `s`.
pub open spec fn has_suffix(s: Seq<char>, p: Seq<char>) -> bool {
    p.len() <= s.len() && s.skip(s.len() - p.len()) == p
}

/// `p` occurs in `s` as a contiguous run of characters.
pub open spec fn occurs_in(s: Seq<char>, p: Seq<char>) -> bool {
    exists|i: int| 0 <= i <= s.len() - p.len() && #[trigger] s.subrange(i, i + p.len()) == p
}

/// Whether `p` is a prefix of `s`.
pub fn starts_with_chars(s: &[char], p: &[char]) -> (r: bool)
    ensures
        r == has_prefix(s@, p@),
{
    if p.len() > s.len() {
        return false;
    }
    let mut i: usize = 0;
    while i < p.len()
        invariant
            p@.len() <= s@.len(),
            i <= p@.len(),
            forall|k: int| 0 <= k < i ==> s@[k] == p@[k],
        decreases p@.len() - i,
    {
        if s[i] != p[i] {
            assert(s@.take(p@.len() as int)[i as int] != p@[i as int]);
            return false;
        }
        i = i + 1;
    }
    assert(s@.take(p@.len() as int) =~= p@);
    true
}

/// Whether `p` is a suffix of `s`.
pub fn ends_with_chars(s: &[char], p: &[char]) -> (r: bool)
    ensures
        r == has_suffix(s@, p@),
{
    if p.len() > s.len() {
        return false;
    }
    let n: usize = s.len();
    let off: usize = n - p.len();
    let mut i: usize = 0;
    while i < p.len()
        invariant
            n == s@.len(),
            off + p@.len() == s@.len(),
            i <= p@.len(),
            forall|k: int| 0 <= k < i ==> s@[off + k] == p@[k],
        decreases p@.len() - i,
    {
        if s[off + i] != p[i] {
            assert(s@.skip(off as int)[i as int] != p@[i as int]);
            return false;
        }
        i = i + 1;
    }
    assert(s@.skip(off as int) =~= p@);
    true
}

/// Whether `p` matches `s` at position `at`.
fn matches_at(s: &[char], p: &[char], at: usize) -> (r: bool)
    requires
        at + p@.len() <= s@.len(),
    ensures
        r == (s@.subrange(at as int, at + p@.len()) == p@),
{
    let n: usize = s.len();
    let mut i: usize = 0;
    while i < p.len()
        invariant
            n == s@.len(),
            at + p@.len() <= s@.len(),
            i <= p@.len(),
            forall|k: int| 0 <= k < i ==> s@[at + k] == p@[k],
        decreases p@.len() - i,
    {
        if s[at + i] != p[i] {
            assert(s@.subrange(at as int, at + p@.len())[i as int] != p@[i as int]);
            return false;
        }
        i = i + 1;
    }
    assert(s@.subrange(at as int, at + p@.len()) =~= p@);
    true
}

/// Whether `p` occurs anywhere in `s` (`str::contains` with a string pattern).
pub fn contains_chars(s: &[char], p: &[char]) -> (r: bool)
    ensures
        r == occurs_in(s@, p@),
{
    if p.len() > s.len() {
        return false;
    }
    let last: usize = s.len() - p.len();
    let mut at: usize = 0;
    while at <= last
        invariant
            last + p@.len() == s@.len(),
            at <= last + 1,
            forall|k: int| 0 <= k < at ==> #[trigger] s@.subrange(k, k + p@.len()) != p@,
        decreases last + 1 - at,
    {
        if matches_at(s, p, at) {
            return true;
        }
        if at == last {
            return false;
        }
        at = at + 1;
    }
    false
}

} // verus!

verus! {

/// Characters with the Unicode `White_Space` property.
pub open spec fn is_white_space(c: char) -> bool {
    let u = c as u32;
    ||| 0x09 <= u <= 0x0d
    ||| u == 0x20
    ||| u == 0x85
    ||| u == 0xa0
    ||| u == 0x1680
    ||| 0x2000 <= u <= 0x200a
    ||| u == 0x2028
    ||| u == 0x2029
    ||| u == 0x202f
    ||| u == 0x205f
    ||| u == 0x3000
}

/// Whether `c` has the Unicode `White_Space` property, as
/// `char::is_whitespace` decides.
pub fn char_is_whitespace(c: char) -> (r: bool)
    ensures
        r == is_white_space(c),
{
    let u = c as u32;
    (0x09 <= u && u <= 0x0d) || u == 0x20 || u == 0x85 || u == 0xa0 || u == 0x1680 || (0x2000 <= u
        && u <= 0x200a) || u == 0x2028 || u == 0x2029 || u == 0x202f || u == 0x205f || u == 0x3000
}

/// `s` without its trailing white space.
pub open spec fn trim_end_spec(s: Seq<char>) -> Seq<char>
    decreases s.len(),
{
    if s.len() > 0 && is_white_space(s.last()) {
        trim_end_spec(s.drop_last())
    } else {
        s
    }
}

/// `s` without its leading white space.
pub open spec fn trim_start_spec(s: Seq<char>) -> Seq<char>
    decreases s.len(),
{
    if s.len() > 0 && is_white_space(s[0]) {
        trim_start_spec(s.drop_first())
    } else {
        s
    }
}

/// `s` without its leading and trailing white space.
pub open spec fn trim_spec(s: Seq<char>) -> Seq<char> {
    trim_start_spec(trim_end_spec(s))
}

/// Cutting `s` at `e`, where only white space follows `e` and none ends
/// `s.take(e)`, is trimming its end.
pub proof fn lemma_trim_end_at(s: Seq<char>, e: int)
    requires
        0 <= e <= s.len(),
        forall|k: int| e <= k < s.len() ==> is_white_space(#[trigger] s[k]),
        e == 0 || !is_white_space(s[e - 1]),
    ensures
        trim_end_spec(s) == s.take(e),
    decreases s.len() - e,
{
    if e < s.len() {
        assert(is_white_space(s[s.len() - 1]));
        let t = s.drop_last();
        assert forall|k: int| e <= k < t.len() implies is_white_space(#[trigger] t[k]) by {
            assert(t[k] == s[k]);
        }
        if e > 0 {
            assert(t[e - 1] == s[e - 1]);
        }
        lemma_trim_end_at(t, e);
        assert(t.take(e) =~= s.take(e));
    } else {
        assert(s.take(e) =~= s);
    }
}

/// Starting `s` at `b`, where only white space precedes `b` and none begins
/// `s.skip(b)`, is trimming its start.
pub proof fn lemma_trim_start_at(s: Seq<char>, b: int)
    requires
        0 <= b <= s.len(),
        forall|k: int| 0 <= k < b ==> is_white_space(#[trigger] s[k]),
        b == s.len() || !is_white_space(s[b]),
    ensures
        trim_start_spec(s) == s.skip(b),
    decreases b,
{
    if b > 0 {
        let t = s.drop_first();
        assert forall|k: int| 0 <= k < b - 1 implies is_white_space(#[trigger] t[k]) by {
            assert(t[k] == s[k + 1]);
        }
        if b < s.len() {
            assert(t[b - 1] == s[b]);
        }
        lemma_trim_start_at(t, b - 1);
        assert(t.skip(b - 1) =~= s.skip(b));
    } else {
        assert(s.skip(0) =~= s);
    }
}

/// The characters of `v` without trailing white space (`str::trim_end`).
pub fn trim_end_chars(v: &[char]) -> (r: Vec<char>)
    ensures
        r@ == trim_end_spec(v@),
{
    let mut e: usize = v.len();
    while e > 0 && char_is_whitespace(v[e - 1])
        invariant
            e <= v@.len(),
            forall|k: int| e <= k < v@.len() ==> is_white_space(#[trigger] v@[k]),
        decreases e,
    {
        e = e - 1;
    }
    proof {
        lemma_trim_end_at(v@, e as int);
    }
    let mut r: Vec<char> = Vec::new();
    let mut i: usize = 0;
    while i < e
        invariant
            e <= v@.len(),
            i <= e,
            r@ == v@.take(i as int),
        decreases e - i,
    {
        r.push(v[i]);
        assert(v@.take(i as int).push(v@[i as int]) =~= v@.take(i + 1));
        i = i + 1;
    }
    r
}

/// The characters of `v` without leading and trailing white space (`str::trim`).
pub fn trim_chars(v: &[char]) -> (r: Vec<char>)
    ensures
        r@ == trim_spec(v@),
{
    let t = trim_end_chars(v);
    let n: usize = t.len();
    let mut b: usize = 0;
    while b < n && char_is_whitespace(t[b])
        invariant
            n == t@.len(),
            b <= n,
            forall|k: int| 0 <= k < b ==> is_white_space(#[trigger] t@[k]),
        decreases n - b,
    {
        b = b + 1;
    }
    proof {
        lemma_trim_start_at(t@, b as int);
    }
    let mut r: Vec<char> = Vec::new();
    let mut i: usize = b;
    while i < n
        invariant
            n == t@.len(),
            b <= i <= n,
            r@ == t@.subrange(b as int, i as int),
        decreases n - i,
    {
        r.push(t[i]);
        assert(t@.subrange(b as int, i as int).push(t@[i as int]) =~= t@.subrange(b as int, i + 1));
        i = i + 1;
    }
    assert(t@.subrange(b as int, n as int) =~= t@.skip(b as int));
    r
}

} // verus!

verus! {

/// The characters that `char::to_uppercase` yields for `c`: its Unicode
/// uppercase mapping.
pub uninterp spec fn upper_case_of(c: char) -> Seq<char>;

/// The uppercase mapping of `c` (`char::to_uppercase`), as a string.
///
/// Trusted: the contract claims that the characters yielded by
/// `char::to_uppercase` depend on `c` alone (they are named
/// `upper_case_of(c)`) and, as its documentation says, that there is at
/// least one of them; for an ASCII `c` it states the mapping of the Unicode
/// data that the documentation refers to: `a` to `z` become `A` to `Z`,
/// every other ASCII character maps to itself. Which characters the other
/// mappings yield is left unsaid.
#[verifier::external_body]
fn char_to_uppercase(c: char) -> (r: String)
    ensures
        r@ == upper_case_of(c),
        r@.len() >= 1,
        'a' <= c <= 'z' ==> r@ == seq![((c as u32) - 32) as char],
        (c as u32) < 128 && !('a' <= c <= 'z') ==> r@ == seq![c],
{
    c.to_uppercase().collect()
}

/// `s` with its first character replaced by the characters of `first`;
/// the empty string when `s` is empty.
pub fn replace_first_char(s: &str, first: &str) -> (r: String)
    ensures
        s@.len() == 0 ==> r@ == Seq::<char>::empty(),
        s@.len() > 0 ==> r@ == first@ + s@.drop_first(),
{
    let v = chars_of(s);
    if v.len() == 0 {
        return String::new();
    }
    let mut r = String::from_str(first);
    let mut i: usize = 1;
    while i < v.len()
        invariant
            1 <= i <= v@.len(),
            r@ == first@ + v@.subrange(1, i as int),
        decreases v@.len() - i,
    {
        push_char(&mut r, v[i]);
        assert(v@.subrange(1, i as int).push(v@[i as int]) =~= v@.subrange(1, i + 1));
        i = i + 1;
    }
    assert(v@.subrange(1, v@.len() as int) =~= v@.drop_first());
    r
}

/// `s` with its first character replaced by its uppercase mapping.
pub open spec fn capitalized(s: Seq<char>) -> Seq<char> {
    if s.len() == 0 {
        s
    } else {
        upper_case_of(s[0]) + s.drop_first()
    }
}

/// `s` with its first character in upper case: the uppercase mapping of
/// that character followed by the rest of `s`. Empty when `s` is empty.
pub fn capitalize(s: &str) -> (r: String)
    ensures
        r@ == capitalized(s@),
        s@.len() > 0 && 'a' <= s@[0] <= 'z' ==> r@ == seq![((s@[0] as u32) - 32) as char] + s@.drop_first(),
        s@.len() > 0 && (s@[0] as u32) < 128 && !('a' <= s@[0] <= 'z') ==> r@ == s@,
{
    if s.is_empty() {
        return String::new();
    }
    let first = s.get_char(0);
    let upper = char_to_uppercase(first);
    let r = replace_first_char(s, upper.as_str());
    proof {
        if (first as u32) < 128 && !('a' <= first <= 'z') {
            assert(r@ =~= s@);
        }
    }
    r
}

/// Number of bytes kept of a commit hash of `n` bytes: at most seven.
pub open spec fn short_len(n: nat) -> nat {
    if n < 7 {
        n
    } else {
        7
    }
}

/// The characters of the first `short_len` bytes of the UTF-8 encoding of `c`.
pub open spec fn commit_prefix(c: Seq<char>) -> Seq<char> {
    let b = vstd::utf8::encode_utf8(c);
    vstd::utf8::decode_utf8(b.take(short_len(b.len()) as int))
}

/// The first seven bytes of a commit hash (all of it when shorter).
/// The cut must fall on a character boundary, as slicing `&commit[..7]`
/// requires.
pub fn short_commit(commit: &str) -> (r: &str)
    requires
        vstd::utf8::is_char_boundary(commit.spec_bytes(), short_len(commit.spec_bytes().len()) as int),
    ensures
        r.spec_bytes() == commit.spec_bytes().take(short_len(commit.spec_bytes().len()) as int),
        r@ == commit_prefix(commit@),
{
    let n: usize = commit.as_bytes().len();
    let k: usize = if n < 7 {
        n
    } else {
        7
    };
    let (head, _) = commit.split_at(k);
    proof {
        vstd::utf8::encode_utf8_decode_utf8(head@);
    }
    head
}

} // verus!

verus! {

/// Every character of `w` is white space.
pub open spec fn all_white(w: Seq<char>) -> bool {
    forall|k: int| 0 <= k < w.len() ==> is_white_space(#[trigger] w[k])
}

/// `trim_end_spec(s)` is a prefix of `s` followed only by white space, and
/// does not itself end with white space.
pub proof fn lemma_trim_end_shape(s: Seq<char>)
    ensures
        trim_end_spec(s).len() <= s.len(),
        trim_end_spec(s) == s.take(trim_end_spec(s).len() as int),
        all_white(s.skip(trim_end_spec(s).len() as int)),
        trim_end_spec(s).len() == 0 || !is_white_space(trim_end_spec(s).last()),
    decreases s.len(),
{
    if s.len() > 0 && is_white_space(s.last()) {
        let t = s.drop_last();
        lemma_trim_end_shape(t);
        let n = trim_end_spec(s).len() as int;
        assert(t.take(n) =~= s.take(n));
        assert forall|k: int| 0 <= k < s.skip(n).len() implies is_white_space(#[trigger] s.skip(n)[k]) by {
            if n + k < s.len() - 1 {
                assert(s.skip(n)[k] == t.skip(n)[k]);
            }
        }
    } else {
        assert(s.take(s.len() as int) =~= s);
        assert(s.skip(s.len() as int).len() == 0);
    }
}

/// White space added at the end does not change `trim_end_spec`.
pub proof fn lemma_trim_end_white_tail(x: Seq<char>, w: Seq<char>)
    requires
        all_white(w),
    ensures
        trim_end_spec(x + w) == trim_end_spec(x),
    decreases w.len(),
{
    if w.len() == 0 {
        assert(x + w =~= x);
    } else {
        let w2 = w.drop_last();
        assert(all_white(w2)) by {
            assert forall|k: int| 0 <= k < w2.len() implies is_white_space(#[trigger] w2[k]) by {
                assert(w2[k] == w[k]);
            }
        }
        assert((x + w).last() == w.last());
        assert((x + w).drop_last() =~= x + w2);
        lemma_trim_end_white_tail(x, w2);
    }
}

} // verus!

verus! {

/// `trim_start_spec(s)` is a suffix of `s` and does not begin with white space.
pub proof fn lemma_trim_start_shape(s: Seq<char>)
    ensures
        trim_start_spec(s).len() <= s.len(),
        trim_start_spec(s) == s.skip(s.len() - trim_start_spec(s).len()),
        trim_start_spec(s).len() == 0 || !is_white_space(trim_start_spec(s)[0]),
        all_white(s.take(s.len() - trim_start_spec(s).len())),
    decreases s.len(),
{
    if s.len() > 0 && is_white_space(s[0]) {
        let t = s.drop_first();
        lemma_trim_start_shape(t);
        let n = trim_start_spec(s).len() as int;
        assert(t.skip(t.len() - n) =~= s.skip(s.len() - n));
        assert forall|k: int| 0 <= k < s.take(s.len() - n).len() implies is_white_space(
            #[trigger] s.take(s.len() - n)[k],
        ) by {
            if k > 0 {
                assert(s.take(s.len() - n)[k] == t.take(t.len() - n)[k - 1]);
            }
        }
    } else {
        assert(s.skip(0) =~= s);
    }
}

/// Trimmed text is left alone by trimming.
pub proof fn lemma_trim_idempotent(s: Seq<char>)
    ensures
        trim_spec(trim_spec(s)) == trim_spec(s),
{
    let z = trim_end_spec(s);
    lemma_trim_end_shape(s);
    lemma_trim_start_shape(z);
    let y = trim_start_spec(z);
    if y.len() > 0 {
        assert(y.last() == z.last());
        assert(!is_white_space(y.last()));
    }
    assert(trim_end_spec(y) == y);
    assert(trim_start_spec(y) == y);
}

} // verus!
