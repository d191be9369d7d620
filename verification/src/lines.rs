//! Splitting text into lines, as `str::lines` does: lines end at `\n`
//! or at `\r\n`, the final line ending is optional, and a `\r` that is
//! not followed by `\n` stays in its line.

use vstd::prelude::*;

verus! {

/// Number of characters before the first `\n` of `s` (all of `s` if it has none).
pub open spec fn line_end(s: Seq<char>) -> nat
    decreases s.len(),
{
    if s.len() == 0 {
        0
    } else if s[0] == '\n' {
        0
    } else {
        1 + line_end(s.drop_first())
    }
}

/// `l` ends with `\r`.
pub open spec fn ends_with_cr(l: Seq<char>) -> bool {
    l.len() > 0 && l.last() == '\r'
}

/// `l` without one trailing `\r`, if it has one.
pub open spec fn strip_cr(l: Seq<char>) -> Seq<char> {
    if ends_with_cr(l) {
        l.drop_last()
    } else {
        l
    }
}

/// The lines of `s`.
pub open spec fn lines_of(s: Seq<char>) -> Seq<Seq<char>>
    decreases s.len(),
{
    if s.len() == 0 {
        seq![]
    } else {
        let k = line_end(s);
        if k < s.len() {
            seq![strip_cr(s.take(k as int))] + lines_of(s.skip(k + 1 as int))
        } else {
            seq![s]
        }
    }
}

/// Every line followed by a `\n`, all concatenated.
pub open spec fn join_lines(ls: Seq<Seq<char>>) -> Seq<char>
    decreases ls.len(),
{
    if ls.len() == 0 {
        seq![]
    } else {
        ls[0] + seq!['\n'] + join_lines(ls.drop_first())
    }
}

/// The character sequences held by a vector of lines.
pub open spec fn views(v: Seq<Vec<char>>) -> Seq<Seq<char>> {
    Seq::new(v.len(), |i: int| v[i]@)
}

/// `line_end` is the index of the first `\n`, or the length when there is none.
pub proof fn lemma_line_end(s: Seq<char>, j: int)
    requires
        0 <= j <= s.len(),
        forall|k: int| 0 <= k < j ==> s[k] != '\n',
        j == s.len() || s[j] == '\n',
    ensures
        line_end(s) == j,
    decreases j,
{
    if j > 0 {
        lemma_line_end(s.drop_first(), j - 1);
    }
}

/// The lines of `s`, in order (`str::lines`).
pub fn split_lines(s: &[char]) -> (r: Vec<Vec<char>>)
    ensures
        views(r@) == lines_of(s@),
{
    let n: usize = s.len();
    let mut r: Vec<Vec<char>> = Vec::new();
    let mut i: usize = 0;
    assert(s@.skip(0) =~= s@);
    assert(views(r@) + lines_of(s@) =~= lines_of(s@));
    while i < n
        invariant
            n == s@.len(),
            i <= n,
            lines_of(s@) == views(r@) + lines_of(s@.skip(i as int)),
        decreases n - i,
    {
        let ghost rest = s@.skip(i as int);
        let mut j: usize = i;
        let mut line: Vec<char> = Vec::new();
        while j < n && s[j] != '\n'
            invariant
                n == s@.len(),
                i <= j <= n,
                line@ == s@.subrange(i as int, j as int),
                forall|k: int| i <= k < j ==> s@[k] != '\n',
            decreases n - j,
        {
            line.push(s[j]);
            assert(s@.subrange(i as int, j as int).push(s@[j as int]) =~= s@.subrange(
                i as int,
                j + 1,
            ));
            j = j + 1;
        }
        proof {
            assert forall|k: int| 0 <= k < j - i implies rest[k] != '\n' by {
                assert(rest[k] == s@[i + k]);
            }
            lemma_line_end(rest, j - i);
            assert(rest.take(j - i) =~= line@);
        }
        let ghost old_r = views(r@);
        if j < n {
            let l = line.len();
            if l > 0 && line[l - 1] == '\r' {
                line.pop();
            }
            assert(line@ == strip_cr(rest.take(j - i)));
            r.push(line);
            assert(rest.skip(j - i + 1) =~= s@.skip(j + 1));
            assert(views(r@) =~= old_r.push(line@));
            assert(old_r.push(line@) + lines_of(s@.skip(j + 1)) =~= old_r + (seq![line@]
                + lines_of(s@.skip(j + 1))));
            i = j + 1;
        } else {
            assert(rest =~= line@);
            r.push(line);
            assert(views(r@) =~= old_r.push(line@));
            assert(s@.skip(n as int) =~= Seq::<char>::empty());
            assert(old_r.push(line@) =~= old_r + seq![line@]);
            i = n;
        }
    }
    assert(s@.skip(n as int) =~= Seq::<char>::empty());
    assert(views(r@) + Seq::<Seq<char>>::empty() =~= views(r@));
    r
}

} // verus!

verus! {

/// `s` holds no `\n`.
pub open spec fn no_newline(s: Seq<char>) -> bool {
    forall|k: int| 0 <= k < s.len() ==> s[k] != '\n'
}

/// The characters before `line_end(s)` are not `\n`, and the one at it is,
/// when there is one.
pub proof fn lemma_line_end_bounds(s: Seq<char>)
    ensures
        line_end(s) <= s.len(),
        forall|k: int| 0 <= k < line_end(s) ==> s[k] != '\n',
        line_end(s) < s.len() ==> s[line_end(s) as int] == '\n',
    decreases s.len(),
{
    if s.len() > 0 && s[0] != '\n' {
        lemma_line_end_bounds(s.drop_first());
        assert forall|k: int| 0 <= k < line_end(s) implies s[k] != '\n' by {
            if k > 0 {
                assert(s[k] == s.drop_first()[k - 1]);
            }
        }
    }
}

/// No line of `s` holds a `\n`.
pub proof fn lemma_lines_no_newline(s: Seq<char>)
    ensures
        forall|i: int| 0 <= i < lines_of(s).len() ==> no_newline(#[trigger] lines_of(s)[i]),
    decreases s.len(),
{
    if s.len() > 0 {
        lemma_line_end_bounds(s);
        let k = line_end(s);
        if k < s.len() {
            lemma_lines_no_newline(s.skip(k + 1 as int));
            let first = strip_cr(s.take(k as int));
            assert(no_newline(first));
            assert forall|i: int| 0 <= i < lines_of(s).len() implies no_newline(
                #[trigger] lines_of(s)[i],
            ) by {
                if i > 0 {
                    assert(lines_of(s)[i] == lines_of(s.skip(k + 1 as int))[i - 1]);
                }
            }
        }
    }
}

/// Splitting joined lines gives back the lines, each without one trailing `\r`.
pub proof fn lemma_lines_of_join(ls: Seq<Seq<char>>)
    requires
        forall|i: int| 0 <= i < ls.len() ==> no_newline(#[trigger] ls[i]),
    ensures
        lines_of(join_lines(ls)) == ls.map_values(|l: Seq<char>| strip_cr(l)),
    decreases ls.len(),
{
    if ls.len() > 0 {
        let s = join_lines(ls);
        let l = ls[0];
        let rest = join_lines(ls.drop_first());
        assert(s == l + seq!['\n'] + rest);
        assert(forall|i: int| 0 <= i < ls.drop_first().len() ==> no_newline(
            #[trigger] ls.drop_first()[i],
        )) by {
            assert forall|i: int| 0 <= i < ls.drop_first().len() implies no_newline(
                #[trigger] ls.drop_first()[i],
            ) by {
                assert(ls.drop_first()[i] == ls[i + 1]);
            }
        }
        lemma_lines_of_join(ls.drop_first());
        assert(no_newline(ls[0]));
        lemma_line_end(s, l.len() as int);
        assert(s.take(l.len() as int) =~= l);
        assert(s.skip(l.len() + 1 as int) =~= rest);
        assert(lines_of(s) =~= seq![strip_cr(l)] + lines_of(rest));
        assert(ls.map_values(|l: Seq<char>| strip_cr(l)) =~= seq![strip_cr(l)] + ls.drop_first().map_values(
            |l: Seq<char>| strip_cr(l),
        ));
    } else {
        assert(join_lines(ls) =~= Seq::<char>::empty());
        assert(ls.map_values(|l: Seq<char>| strip_cr(l)) =~= Seq::<Seq<char>>::empty());
    }
}

} // verus!

verus! {

/// A text that is empty or ends with `\n`: a whole number of lines.
pub open spec fn ends_at_line_break(s: Seq<char>) -> bool {
    s.len() == 0 || s.last() == '\n'
}

/// The lines of a text made of whole lines followed by more text are the
/// lines of each part.
pub proof fn lemma_lines_of_concat(a: Seq<char>, b: Seq<char>)
    requires
        ends_at_line_break(a),
    ensures
        lines_of(a + b) == lines_of(a) + lines_of(b),
    decreases a.len(),
{
    if a.len() == 0 {
        assert(a + b =~= b);
        assert(lines_of(a) + lines_of(b) =~= lines_of(b));
    } else {
        let s = a + b;
        lemma_line_end_bounds(a);
        let k = line_end(a);
        if k == a.len() {
            assert(a[a.len() - 1] == '\n');
        }
        assert(k < a.len());
        assert forall|j: int| 0 <= j < k implies s[j] != '\n' by {
            assert(s[j] == a[j]);
        }
        lemma_line_end(s, k as int);
        assert(s.take(k as int) =~= a.take(k as int));
        let a2 = a.skip(k + 1 as int);
        assert(s.skip(k + 1 as int) =~= a2 + b);
        if a2.len() > 0 {
            assert(a2.last() == a.last());
        }
        lemma_lines_of_concat(a2, b);
        assert(lines_of(s) == seq![strip_cr(a.take(k as int))] + lines_of(a2 + b));
        assert(lines_of(a) == seq![strip_cr(a.take(k as int))] + lines_of(a2));
        assert(lines_of(s) =~= lines_of(a) + lines_of(b));
    }
}

/// `s` with every `\r\n` turned into `\n`.
pub open spec fn lf_endings(s: Seq<char>) -> Seq<char>
    decreases s.len(),
{
    if s.len() == 0 {
        s
    } else if s.len() >= 2 && s[0] == '\r' && s[1] == '\n' {
        seq!['\n'] + lf_endings(s.skip(2))
    } else {
        seq![s[0]] + lf_endings(s.drop_first())
    }
}

/// One line and its `\n`, then more text: the line loses a final `\r`.
pub proof fn lemma_lf_endings_line(x: Seq<char>, r: Seq<char>)
    requires
        no_newline(x),
    ensures
        lf_endings(x + seq!['\n'] + r) == strip_cr(x) + seq!['\n'] + lf_endings(r),
    decreases x.len(),
{
    let s = x + seq!['\n'] + r;
    if x.len() == 0 {
        assert(s[0] == '\n');
        assert(s.drop_first() =~= r);
        assert(strip_cr(x) + seq!['\n'] + lf_endings(r) =~= seq!['\n'] + lf_endings(r));
    } else {
        let x2 = x.drop_first();
        assert(no_newline(x2)) by {
            assert forall|k: int| 0 <= k < x2.len() implies x2[k] != '\n' by {
                assert(x2[k] == x[k + 1]);
            }
        }
        if x[0] == '\r' && x.len() == 1 {
            assert(s[1] == '\n');
            assert(s.skip(2) =~= r);
            assert(strip_cr(x) =~= Seq::<char>::empty());
            assert(strip_cr(x) + seq!['\n'] + lf_endings(r) =~= seq!['\n'] + lf_endings(r));
        } else {
            if x.len() > 1 {
                assert(s[1] == x[1]);
                assert(x[1] != '\n');
            } else {
                assert(x[0] != '\r');
            }
            assert(s.drop_first() =~= x2 + seq!['\n'] + r);
            lemma_lf_endings_line(x2, r);
            if x.len() > 1 {
                assert(strip_cr(x) =~= seq![x[0]] + strip_cr(x2)) by {
                    assert(x.last() == x2.last());
                }
            } else {
                assert(strip_cr(x) =~= seq![x[0]] + strip_cr(x2));
            }
            assert(lf_endings(s) =~= strip_cr(x) + seq!['\n'] + lf_endings(r));
        }
    }
}

/// Splitting whole lines and joining them again turns `\r\n` into `\n`.
pub proof fn lemma_join_lines_of(a: Seq<char>)
    requires
        ends_at_line_break(a),
    ensures
        join_lines(lines_of(a)) == lf_endings(a),
    decreases a.len(),
{
    if a.len() > 0 {
        lemma_line_end_bounds(a);
        let k = line_end(a);
        if k == a.len() {
            assert(a[a.len() - 1] == '\n');
        }
        let x = a.take(k as int);
        let r = a.skip(k + 1 as int);
        assert(no_newline(x));
        assert(a =~= x + seq!['\n'] + r);
        if r.len() > 0 {
            assert(r.last() == a.last());
        }
        lemma_join_lines_of(r);
        lemma_lf_endings_line(x, r);
        let ls = lines_of(a);
        assert(ls == seq![strip_cr(x)] + lines_of(r));
        assert(ls[0] == strip_cr(x));
        assert(ls.drop_first() =~= lines_of(r));
    }
}

/// `lf_endings` works piece by piece when the first piece does not end
/// with `\r`.
pub proof fn lemma_lf_endings_concat(a: Seq<char>, b: Seq<char>)
    requires
        a.len() == 0 || a.last() != '\r',
    ensures
        lf_endings(a + b) == lf_endings(a) + lf_endings(b),
    decreases a.len(),
{
    if a.len() == 0 {
        assert(a + b =~= b);
        assert(lf_endings(a) + lf_endings(b) =~= lf_endings(b));
    } else if a.len() >= 2 && a[0] == '\r' && a[1] == '\n' {
        let a2 = a.skip(2);
        assert((a + b).skip(2) =~= a2 + b);
        if a2.len() > 0 {
            assert(a2.last() == a.last());
        }
        lemma_lf_endings_concat(a2, b);
        assert((a + b)[0] == '\r' && (a + b)[1] == '\n');
        assert(lf_endings(a + b) =~= lf_endings(a) + lf_endings(b));
    } else {
        let a2 = a.drop_first();
        assert((a + b).drop_first() =~= a2 + b);
        if a2.len() > 0 {
            assert(a2.last() == a.last());
        }
        lemma_lf_endings_concat(a2, b);
        if a.len() == 1 {
            assert(a[0] != '\r');
        } else {
            assert((a + b)[1] == a[1]);
        }
        assert(lf_endings(a + b) =~= lf_endings(a) + lf_endings(b));
    }
}

/// The text of two lists of lines is the text of the first then of the second.
pub proof fn lemma_join_lines_concat(a: Seq<Seq<char>>, b: Seq<Seq<char>>)
    ensures
        join_lines(a + b) == join_lines(a) + join_lines(b),
    decreases a.len(),
{
    if a.len() == 0 {
        assert(a + b =~= b);
        assert(join_lines(a) + join_lines(b) =~= join_lines(b));
    } else {
        lemma_join_lines_concat(a.drop_first(), b);
        assert((a + b).drop_first() =~= a.drop_first() + b);
        assert((a + b)[0] == a[0]);
        assert(join_lines(a + b) =~= join_lines(a) + join_lines(b));
    }
}

/// Line start: `o` is the start of `s` or follows a `\n`.
pub open spec fn at_line_start(s: Seq<char>, o: int) -> bool {
    o == 0 || s[o - 1] == '\n'
}

/// Every line of `s` occurs in `s`, at the start of a line.
pub proof fn lemma_line_occurs(s: Seq<char>, i: int)
    requires
        0 <= i < lines_of(s).len(),
    ensures
        exists|o: int|
            0 <= o && o + lines_of(s)[i].len() <= s.len() && at_line_start(s, o) && #[trigger] s.subrange(
                o,
                o + lines_of(s)[i].len(),
            ) == lines_of(s)[i],
    decreases s.len(),
{
    lemma_line_end_bounds(s);
    let k = line_end(s);
    if k < s.len() {
        let r = s.skip(k + 1 as int);
        if i == 0 {
            let l = strip_cr(s.take(k as int));
            assert(lines_of(s)[i] == l);
            assert(s.subrange(0int, 0int + lines_of(s)[i].len()) =~= lines_of(s)[i]);
        } else {
            assert(lines_of(s)[i] == lines_of(r)[i - 1]);
            lemma_line_occurs(r, i - 1);
            let l = lines_of(r)[i - 1];
            let o = choose|o: int|
                0 <= o && o + l.len() <= r.len() && at_line_start(r, o) && #[trigger] r.subrange(o, o + l.len()) == l;
            let w = k + 1 + o;
            if o > 0 {
                assert(s[w - 1] == r[o - 1]);
            }
            assert(at_line_start(s, w));
            assert(s.subrange(w, w + lines_of(s)[i].len()) =~= r.subrange(o, o + l.len()));
            assert(s.subrange(w, w + lines_of(s)[i].len()) == lines_of(s)[i]);
        }
    } else {
        assert(lines_of(s)[i] == s);
        assert(s.subrange(0int, 0int + lines_of(s)[i].len()) =~= lines_of(s)[i]);
    }
}

/// Appending a line to a list of lines appends it, with its `\n`, to their text.
pub proof fn lemma_join_lines_push(ls: Seq<Seq<char>>, l: Seq<char>)
    ensures
        join_lines(ls.push(l)) == join_lines(ls) + l + seq!['\n'],
    decreases ls.len(),
{
    if ls.len() == 0 {
        assert(ls.push(l).drop_first() =~= Seq::<Seq<char>>::empty());
        assert(ls.push(l)[0] == l);
        assert(join_lines(ls.push(l).drop_first()) =~= Seq::<char>::empty());
        assert(join_lines(ls) =~= Seq::<char>::empty());
        assert(join_lines(ls.push(l)) =~= join_lines(ls) + l + seq!['\n']);
    } else {
        lemma_join_lines_push(ls.drop_first(), l);
        assert(ls.push(l).drop_first() =~= ls.drop_first().push(l));
        assert(ls.push(l)[0] == ls[0]);
        assert(join_lines(ls.push(l)) == ls[0] + seq!['\n'] + join_lines(ls.drop_first().push(l)));
        assert(join_lines(ls.push(l)) =~= join_lines(ls) + l + seq!['\n']);
    }
}

/// A line start of the text of `ks` begins one of the lines of `ks`, which
/// is followed there by its `\n`.
pub proof fn lemma_join_line_start(ks: Seq<Seq<char>>, q: int)
    requires
        forall|i: int| 0 <= i < ks.len() ==> no_newline(#[trigger] ks[i]),
        0 <= q < join_lines(ks).len(),
        at_line_start(join_lines(ks), q),
    ensures
        exists|i: int|
            0 <= i < ks.len() && q + ks[i].len() < join_lines(ks).len() && join_lines(ks)[q + ks[i].len()] == '\n'
                && #[trigger] join_lines(ks).subrange(q, q + ks[i].len()) == ks[i],
    decreases ks.len(),
{
    let j = join_lines(ks);
    if ks.len() == 0 {
        assert(j.len() == 0);
    } else {
        let l = ks[0];
        let rest = ks.drop_first();
        let jr = join_lines(rest);
        assert(j == l + seq!['\n'] + jr);
        assert(no_newline(l));
        if q == 0 {
            assert(j.subrange(0int, 0int + ks[0].len()) =~= ks[0]);
            assert(j[l.len() as int] == '\n');
        } else {
            assert(j[q - 1] == '\n');
            if q - 1 < l.len() {
                assert(j[q - 1] == l[q - 1]);
            }
            let q2 = q - l.len() - 1;
            assert(q2 >= 0);
            if q2 > 0 {
                assert(jr[q2 - 1] == j[q - 1]);
            }
            assert forall|i: int| 0 <= i < rest.len() implies no_newline(#[trigger] rest[i]) by {
                assert(rest[i] == ks[i + 1]);
            }
            lemma_join_line_start(rest, q2);
            let i2 = choose|i: int|
                0 <= i < rest.len() && q2 + rest[i].len() < jr.len() && jr[q2 + rest[i].len()] == '\n'
                    && #[trigger] jr.subrange(q2, q2 + rest[i].len()) == rest[i];
            assert(rest[i2] == ks[i2 + 1]);
            assert(j.subrange(q, q + ks[i2 + 1].len()) =~= jr.subrange(q2, q2 + rest[i2].len()));
            assert(j[q + ks[i2 + 1].len()] == jr[q2 + rest[i2].len()]);
        }
    }
}

/// The line that holds position `b` of `s` starts at some `q <= b`.
pub proof fn lemma_line_start_before(s: Seq<char>, b: int)
    requires
        0 <= b <= s.len(),
    ensures
        exists|q: int|
            0 <= q <= b && #[trigger] at_line_start(s, q) && forall|k: int| q <= k < b ==> s[k] != '\n',
    decreases b,
{
    if b == 0 || s[b - 1] == '\n' {
        assert(at_line_start(s, b));
    } else {
        lemma_line_start_before(s, b - 1);
        let q = choose|q: int|
            0 <= q <= b - 1 && #[trigger] at_line_start(s, q) && forall|k: int| q <= k < b - 1 ==> s[k] != '\n';
        assert(at_line_start(s, q));
    }
}

/// `s` holds no `\r`.
pub open spec fn no_cr(s: Seq<char>) -> bool {
    forall|k: int| 0 <= k < s.len() ==> s[k] != '\r'
}

/// Text without `\r` keeps its line endings.
pub proof fn lemma_lf_endings_plain(s: Seq<char>)
    requires
        no_cr(s),
    ensures
        lf_endings(s) == s,
    decreases s.len(),
{
    if s.len() > 0 {
        let t = s.drop_first();
        assert(no_cr(t)) by {
            assert forall|k: int| 0 <= k < t.len() implies t[k] != '\r' by {
                assert(t[k] == s[k + 1]);
            }
        }
        lemma_lf_endings_plain(t);
        assert(s[0] != '\r');
        assert(seq![s[0]] + t =~= s);
    }
}

/// The lines of a text without `\r` hold none, and neither does their text.
pub proof fn lemma_no_cr_lines(s: Seq<char>)
    requires
        no_cr(s),
    ensures
        forall|i: int| 0 <= i < lines_of(s).len() ==> no_cr(#[trigger] lines_of(s)[i]),
{
    assert forall|i: int| 0 <= i < lines_of(s).len() implies no_cr(#[trigger] lines_of(s)[i]) by {
        lemma_line_occurs(s, i);
        let l = lines_of(s)[i];
        let o = choose|o: int|
            0 <= o && o + l.len() <= s.len() && at_line_start(s, o) && #[trigger] s.subrange(o, o + l.len()) == l;
        assert forall|k: int| 0 <= k < l.len() implies l[k] != '\r' by {
            assert(l[k] == s[o + k]);
        }
    }
}

/// The text of lines without `\r` holds none.
pub proof fn lemma_no_cr_join(ks: Seq<Seq<char>>)
    requires
        forall|i: int| 0 <= i < ks.len() ==> no_cr(#[trigger] ks[i]),
    ensures
        no_cr(join_lines(ks)),
    decreases ks.len(),
{
    if ks.len() > 0 {
        let rest = ks.drop_first();
        assert forall|i: int| 0 <= i < rest.len() implies no_cr(#[trigger] rest[i]) by {
            assert(rest[i] == ks[i + 1]);
        }
        lemma_no_cr_join(rest);
        assert(no_cr(ks[0]));
        let j = join_lines(ks);
        assert(j == ks[0] + seq!['\n'] + join_lines(rest));
        assert forall|k: int| 0 <= k < j.len() implies j[k] != '\r' by {
            if k < ks[0].len() {
                assert(j[k] == ks[0][k]);
            } else if k > ks[0].len() {
                assert(j[k] == join_lines(rest)[k - ks[0].len() - 1]);
            }
        }
    }
}

} // verus!
