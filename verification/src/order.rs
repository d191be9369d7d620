//! The order of strings: lexicographic by Unicode scalar value, which is
//! also the byte order of their UTF-8 encodings (the order of `String`).

use vstd::prelude::*;

verus! {

/// `a` comes strictly before `b`.
pub open spec fn chars_before(a: Seq<char>, b: Seq<char>) -> bool
    decreases a.len(),
{
    if a.len() == 0 {
        b.len() > 0
    } else if b.len() == 0 {
        false
    } else if a[0] != b[0] {
        (a[0] as int) < (b[0] as int)
    } else {
        chars_before(a.drop_first(), b.drop_first())
    }
}

/// Nothing comes before itself.
pub proof fn lemma_before_irreflexive(a: Seq<char>)
    ensures
        !chars_before(a, a),
    decreases a.len(),
{
    if a.len() > 0 {
        lemma_before_irreflexive(a.drop_first());
    }
}

/// Of two different strings, one comes before the other, and not both.
pub proof fn lemma_before_total(a: Seq<char>, b: Seq<char>)
    ensures
        a != b ==> (chars_before(a, b) || chars_before(b, a)),
        !(chars_before(a, b) && chars_before(b, a)),
    decreases a.len(),
{
    if a.len() > 0 && b.len() > 0 && a[0] == b[0] {
        lemma_before_total(a.drop_first(), b.drop_first());
        if a != b {
            assert(a =~= seq![a[0]] + a.drop_first());
            assert(b =~= seq![b[0]] + b.drop_first());
        }
    } else if a.len() == 0 && b.len() == 0 {
        assert(a =~= b);
    } else if a.len() > 0 && b.len() > 0 {
        assert(a[0] != b[0]);
        assert((a[0] as int) != (b[0] as int));
    }
}

/// The order is transitive.
pub proof fn lemma_before_transitive(a: Seq<char>, b: Seq<char>, c: Seq<char>)
    requires
        chars_before(a, b),
        chars_before(b, c),
    ensures
        chars_before(a, c),
    decreases a.len(),
{
    if a.len() > 0 && b.len() > 0 && c.len() > 0 {
        if a[0] == b[0] && b[0] == c[0] {
            lemma_before_transitive(a.drop_first(), b.drop_first(), c.drop_first());
        }
    }
}

/// Cutting a common prefix off both strings keeps their order.
pub proof fn lemma_before_skip(a: Seq<char>, b: Seq<char>, i: int)
    requires
        0 <= i <= a.len(),
        i <= b.len(),
        a.take(i) == b.take(i),
    ensures
        chars_before(a, b) == chars_before(a.skip(i), b.skip(i)),
    decreases i,
{
    if i > 0 {
        assert(a[0] == a.take(i)[0]);
        assert(b[0] == b.take(i)[0]);
        assert(a.drop_first().take(i - 1) =~= a.take(i).drop_first());
        assert(b.drop_first().take(i - 1) =~= b.take(i).drop_first());
        lemma_before_skip(a.drop_first(), b.drop_first(), i - 1);
        assert(a.drop_first().skip(i - 1) =~= a.skip(i));
        assert(b.drop_first().skip(i - 1) =~= b.skip(i));
    } else {
        assert(a.skip(0) =~= a);
        assert(b.skip(0) =~= b);
    }
}

/// Whether `a` comes strictly before `b` (`a < b` on strings).
pub fn before(a: &[char], b: &[char]) -> (r: bool)
    ensures
        r == chars_before(a@, b@),
{
    let n: usize = a.len();
    let m: usize = b.len();
    let mut i: usize = 0;
    while i < n && i < m && a[i] == b[i]
        invariant
            n == a@.len(),
            m == b@.len(),
            i <= n,
            i <= m,
            a@.take(i as int) == b@.take(i as int),
        decreases n - i,
    {
        assert(a@.take(i + 1) =~= a@.take(i as int).push(a@[i as int]));
        assert(b@.take(i + 1) =~= b@.take(i as int).push(b@[i as int]));
        i = i + 1;
    }
    proof {
        lemma_before_skip(a@, b@, i as int);
    }
    if i == n {
        proof {
            assert(a@.skip(i as int).len() == 0);
        }
        i < m
    } else if i == m {
        false
    } else {
        proof {
            assert(a@.skip(i as int)[0] == a@[i as int]);
            assert(b@.skip(i as int)[0] == b@[i as int]);
        }
        a[i] < b[i]
    }
}

} // verus!

verus! {

/// Law: `a` comes before `b` exactly when, after their longest common
/// prefix, `a` ends while `b` goes on, or `a`'s next character has the
/// smaller Unicode scalar value (the order of `str::cmp`).
pub proof fn law_chars_before_lexicographic(a: Seq<char>, b: Seq<char>)
    ensures
        chars_before(a, b) <==> exists|i: int|
            0 <= i <= a.len() && i <= b.len() && #[trigger] a.take(i) == b.take(i) && ((i == a.len() && i < b.len())
                || (i < a.len() && i < b.len() && (a[i] as int) < (b[i] as int))),
    decreases a.len(),
{
    if a.len() == 0 || b.len() == 0 {
        assert(a.take(0) =~= b.take(0));
        if exists|i: int|
            0 <= i <= a.len() && i <= b.len() && #[trigger] a.take(i) == b.take(i) && ((i == a.len() && i < b.len())
                || (i < a.len() && i < b.len() && (a[i] as int) < (b[i] as int))) {
            let i = choose|i: int|
                0 <= i <= a.len() && i <= b.len() && #[trigger] a.take(i) == b.take(i) && ((i == a.len() && i
                    < b.len()) || (i < a.len() && i < b.len() && (a[i] as int) < (b[i] as int)));
            assert(i == 0);
        }
    } else if a[0] != b[0] {
        assert(a.take(0) =~= b.take(0));
        if exists|i: int|
            0 <= i <= a.len() && i <= b.len() && #[trigger] a.take(i) == b.take(i) && ((i == a.len() && i < b.len())
                || (i < a.len() && i < b.len() && (a[i] as int) < (b[i] as int))) {
            let i = choose|i: int|
                0 <= i <= a.len() && i <= b.len() && #[trigger] a.take(i) == b.take(i) && ((i == a.len() && i
                    < b.len()) || (i < a.len() && i < b.len() && (a[i] as int) < (b[i] as int)));
            if i > 0 {
                assert(a.take(i)[0] == b.take(i)[0]);
            }
        }
    } else {
        let a2 = a.drop_first();
        let b2 = b.drop_first();
        law_chars_before_lexicographic(a2, b2);
        if chars_before(a, b) {
            let i = choose|i: int|
                0 <= i <= a2.len() && i <= b2.len() && #[trigger] a2.take(i) == b2.take(i) && ((i == a2.len() && i
                    < b2.len()) || (i < a2.len() && i < b2.len() && (a2[i] as int) < (b2[i] as int)));
            assert(a.take(i + 1) =~= seq![a[0]] + a2.take(i));
            assert(b.take(i + 1) =~= seq![b[0]] + b2.take(i));
            assert(a.take(i + 1) == b.take(i + 1));
            if i < a2.len() {
                assert(a[i + 1] == a2[i]);
                assert(b[i + 1] == b2[i]);
            }
        }
        if exists|i: int|
            0 <= i <= a.len() && i <= b.len() && #[trigger] a.take(i) == b.take(i) && ((i == a.len() && i < b.len())
                || (i < a.len() && i < b.len() && (a[i] as int) < (b[i] as int))) {
            let i = choose|i: int|
                0 <= i <= a.len() && i <= b.len() && #[trigger] a.take(i) == b.take(i) && ((i == a.len() && i
                    < b.len()) || (i < a.len() && i < b.len() && (a[i] as int) < (b[i] as int)));
            assert(i > 0);
            assert(a2.take(i - 1) =~= a.take(i).drop_first());
            assert(b2.take(i - 1) =~= b.take(i).drop_first());
            if i < a.len() {
                assert(a[i] == a2[i - 1]);
            }
            if i < b.len() {
                assert(b[i] == b2[i - 1]);
            }
            assert(a2.take(i - 1) == b2.take(i - 1));
        }
    }
}

} // verus!
