//! Removing a `## ` section from a markdown document.

use vstd::prelude::*;
use crate::lines::{ends_with_cr, join_lines, lines_of, split_lines, strip_cr, views};
use crate::text::{chars_of, has_prefix, push_chars, push_char, starts_with_chars};

verus! {

/// The prefix `"## "` that opens a second-level markdown heading.
pub open spec fn heading_marker() -> Seq<char> {
    seq!['#', '#', ' ']
}

/// The lines of `ls` that stay when every line starting with `header`,
/// and every line after it up to the next line starting with `"## "`,
/// is dropped. `skipping` says whether a section is being dropped when
/// `ls` begins.
pub open spec fn kept_lines(ls: Seq<Seq<char>>, header: Seq<char>, skipping: bool) -> Seq<Seq<char>>
    decreases ls.len(),
{
    if ls.len() == 0 {
        seq![]
    } else {
        let l = ls[0];
        if has_prefix(l, header) {
            kept_lines(ls.drop_first(), header, true)
        } else if skipping && !has_prefix(l, heading_marker()) {
            kept_lines(ls.drop_first(), header, true)
        } else {
            seq![l] + kept_lines(ls.drop_first(), header, false)
        }
    }
}

/// The text that `remove_section` returns: the kept lines of `content`,
/// each followed by `\n`.
pub open spec fn section_removed(content: Seq<char>, header: Seq<char>) -> Seq<char> {
    join_lines(kept_lines(lines_of(content), header, false))
}

/// Removes from `content` every line that starts with `header` together
/// with the lines after it, up to (not including) the next line that
/// starts with `"## "`. The remaining lines are returned, each ended by `\n`.
pub fn remove_section(content: &str, header: &str) -> (r: String)
    ensures
        r@ == section_removed(content@, header@),
{
    let c = chars_of(content);
    let h = chars_of(header);
    let marker: Vec<char> = vec!['#', '#', ' '];
    assert(marker@ =~= heading_marker());
    let ls = split_lines(c.as_slice());
    let ghost all = views(ls@);
    let mut result = String::new();
    let mut skipping = false;
    let mut i: usize = 0;
    assert(all.skip(0) =~= all);
    assert(result@ + join_lines(kept_lines(all, h@, false)) =~= join_lines(kept_lines(all, h@, false)));
    while i < ls.len()
        invariant
            all == views(ls@),
            i <= ls@.len(),
            marker@ == heading_marker(),
            join_lines(kept_lines(all, h@, false)) == result@ + join_lines(
                kept_lines(all.skip(i as int), h@, skipping),
            ),
        decreases ls@.len() - i,
    {
        let line = &ls[i];
        let ghost rest = all.skip(i as int);
        assert(rest[0] == line@);
        assert(rest.drop_first() =~= all.skip(i + 1));
        if starts_with_chars(line.as_slice(), h.as_slice()) {
            skipping = true;
        } else {
            if skipping && !starts_with_chars(line.as_slice(), marker.as_slice()) {
            } else {
                skipping = false;
                let ghost before = result@;
                let ghost tail = kept_lines(all.skip(i + 1), h@, false);
                push_chars(&mut result, line.as_slice());
                push_char(&mut result, '\n');
                assert((seq![line@] + tail)[0] == line@);
                assert((seq![line@] + tail).drop_first() =~= tail);
                assert(result@ + join_lines(tail) =~= before + join_lines(seq![line@] + tail));
            }
        }
        i = i + 1;
    }
    assert(all.skip(ls@.len() as int) =~= Seq::<Seq<char>>::empty());
    assert(result@ + Seq::<char>::empty() =~= result@);
    result
}

} // verus!

verus! {

/// Every kept line is one of the lines given, and none starts with `header`.
pub proof fn lemma_kept_lines_from(ls: Seq<Seq<char>>, header: Seq<char>, skipping: bool)
    ensures
        forall|j: int|
            0 <= j < kept_lines(ls, header, skipping).len() ==> {
                &&& !has_prefix(#[trigger] kept_lines(ls, header, skipping)[j], header)
                &&& exists|k: int|
                    0 <= k < ls.len() && ls[k] == kept_lines(ls, header, skipping)[j]
            },
    decreases ls.len(),
{
    if ls.len() > 0 {
        let rest = ls.drop_first();
        lemma_kept_lines_from(rest, header, true);
        lemma_kept_lines_from(rest, header, false);
        let res = kept_lines(ls, header, skipping);
        assert forall|j: int| 0 <= j < res.len() implies {
            &&& !has_prefix(#[trigger] res[j], header)
            &&& exists|k: int| 0 <= k < ls.len() && ls[k] == res[j]
        } by {
            let l = ls[0];
            if has_prefix(l, header) || (skipping && !has_prefix(l, heading_marker())) {
                assert(res == kept_lines(rest, header, true));
                assert(!has_prefix(kept_lines(rest, header, true)[j], header));
                let k = choose|k: int| 0 <= k < rest.len() && rest[k] == res[j];
                assert(ls[k + 1] == res[j]);
            } else {
                let tail = kept_lines(rest, header, false);
                if j == 0 {
                    assert(res[0] == l);
                    assert(ls[0] == res[j]);
                } else {
                    assert(res[j] == tail[j - 1]);
                    assert(!has_prefix(kept_lines(rest, header, false)[j - 1], header));
                    let k = choose|k: int| 0 <= k < rest.len() && rest[k] == tail[j - 1];
                    assert(ls[k + 1] == res[j]);
                }
            }
        }
    }
}

/// When no line starts with `header`, every line is kept.
pub proof fn lemma_kept_lines_all(ls: Seq<Seq<char>>, header: Seq<char>)
    requires
        forall|k: int| 0 <= k < ls.len() ==> !has_prefix(#[trigger] ls[k], header),
    ensures
        kept_lines(ls, header, false) == ls,
    decreases ls.len(),
{
    if ls.len() > 0 {
        let rest = ls.drop_first();
        assert(forall|k: int| 0 <= k < rest.len() ==> !has_prefix(#[trigger] rest[k], header)) by {
            assert forall|k: int| 0 <= k < rest.len() implies !has_prefix(#[trigger] rest[k], header) by {
                assert(rest[k] == ls[k + 1]);
            }
        }
        lemma_kept_lines_all(rest, header);
        assert(!has_prefix(ls[0], header));
        assert(seq![ls[0]] + rest =~= ls);
    }
}

/// Dropping a trailing `\r` cannot make a line start with `p`.
pub proof fn lemma_strip_cr_prefix(l: Seq<char>, p: Seq<char>)
    requires
        !has_prefix(l, p),
    ensures
        !has_prefix(strip_cr(l), p),
{
    let m = strip_cr(l);
    if has_prefix(m, p) {
        assert(l.take(p.len() as int) =~= m.take(p.len() as int));
    }
}

/// Law: after `remove_section`, no line of the result starts with `header`.
pub proof fn law_removed_header_absent(content: Seq<char>, header: Seq<char>)
    ensures
        forall|i: int|
            0 <= i < lines_of(section_removed(content, header)).len() ==> !has_prefix(
                #[trigger] lines_of(section_removed(content, header))[i],
                header,
            ),
{
    let ls = lines_of(content);
    let kept = kept_lines(ls, header, false);
    crate::lines::lemma_lines_no_newline(content);
    lemma_kept_lines_from(ls, header, false);
    assert forall|j: int| 0 <= j < kept.len() implies crate::lines::no_newline(#[trigger] kept[j]) by {
        let k = choose|k: int| 0 <= k < ls.len() && ls[k] == kept[j];
        assert(crate::lines::no_newline(ls[k]));
    }
    crate::lines::lemma_lines_of_join(kept);
    let out = lines_of(section_removed(content, header));
    assert forall|i: int| 0 <= i < out.len() implies !has_prefix(#[trigger] out[i], header) by {
        assert(out[i] == strip_cr(kept[i]));
        lemma_strip_cr_prefix(kept[i], header);
    }
}

/// Law: when no line of `content` starts with `header`, `remove_section`
/// removes nothing: it returns the lines of `content`, each ended by `\n`.
pub proof fn law_remove_absent_section(content: Seq<char>, header: Seq<char>)
    requires
        forall|k: int|
            0 <= k < lines_of(content).len() ==> !has_prefix(#[trigger] lines_of(content)[k], header),
    ensures
        section_removed(content, header) == join_lines(lines_of(content)),
{
    lemma_kept_lines_all(lines_of(content), header);
}

/// Law: removing the same section twice is removing it once, when no kept
/// line ends with `\r` (a kept line `"a\r"` comes back from the first pass
/// as `"a\r\n"`, which the second pass reads as the line `"a"`).
pub proof fn law_remove_section_idempotent(content: Seq<char>, header: Seq<char>)
    requires
        forall|j: int|
            0 <= j < kept_lines(lines_of(content), header, false).len() ==> !ends_with_cr(
                #[trigger] kept_lines(lines_of(content), header, false)[j],
            ),
    ensures
        section_removed(section_removed(content, header), header) == section_removed(content, header),
{
    let ls = lines_of(content);
    let kept = kept_lines(ls, header, false);
    crate::lines::lemma_lines_no_newline(content);
    lemma_kept_lines_from(ls, header, false);
    assert forall|j: int| 0 <= j < kept.len() implies crate::lines::no_newline(#[trigger] kept[j]) by {
        let k = choose|k: int| 0 <= k < ls.len() && ls[k] == kept[j];
        assert(crate::lines::no_newline(ls[k]));
    }
    crate::lines::lemma_lines_of_join(kept);
    assert(kept.map_values(|l: Seq<char>| strip_cr(l)) =~= kept);
    lemma_kept_lines_all(kept, header);
}

} // verus!

verus! {

/// Lines that do not start with `header` are kept, whatever follows them.
pub proof fn lemma_kept_lines_concat(a: Seq<Seq<char>>, b: Seq<Seq<char>>, header: Seq<char>)
    requires
        forall|k: int| 0 <= k < a.len() ==> !has_prefix(#[trigger] a[k], header),
    ensures
        kept_lines(a + b, header, false) == a + kept_lines(b, header, false),
    decreases a.len(),
{
    if a.len() == 0 {
        assert(a + b =~= b);
        assert(a + kept_lines(b, header, false) =~= kept_lines(b, header, false));
    } else {
        let a2 = a.drop_first();
        assert forall|k: int| 0 <= k < a2.len() implies !has_prefix(#[trigger] a2[k], header) by {
            assert(a2[k] == a[k + 1]);
        }
        lemma_kept_lines_concat(a2, b, header);
        assert((a + b).drop_first() =~= a2 + b);
        assert((a + b)[0] == a[0]);
        assert(!has_prefix(a[0], header));
        assert(kept_lines(a + b, header, false) =~= a + kept_lines(b, header, false));
    }
}

/// Once a section is being dropped, lines none of which opens a new `## `
/// section are all dropped.
pub proof fn lemma_kept_lines_skip_all(b: Seq<Seq<char>>, header: Seq<char>)
    requires
        forall|k: int| 0 <= k < b.len() ==> !has_prefix(#[trigger] b[k], heading_marker()),
    ensures
        kept_lines(b, header, true) == Seq::<Seq<char>>::empty(),
    decreases b.len(),
{
    if b.len() > 0 {
        let b2 = b.drop_first();
        assert forall|k: int| 0 <= k < b2.len() implies !has_prefix(#[trigger] b2[k], heading_marker()) by {
            assert(b2[k] == b[k + 1]);
        }
        lemma_kept_lines_skip_all(b2, header);
        assert(!has_prefix(b[0], heading_marker()));
    }
}

} // verus!

verus! {

/// Line `k` of `ls` ends a dropped section: it opens a `## ` section and
/// does not start with `header`.
pub open spec fn ends_section(ls: Seq<Seq<char>>, header: Seq<char>, k: int) -> bool {
    has_prefix(ls[k], heading_marker()) && !has_prefix(ls[k], header)
}

/// When line `i` is reached a section is being dropped: an earlier line
/// starts with `header` and no line between ends the section.
pub open spec fn dropping_at(ls: Seq<Seq<char>>, header: Seq<char>, i: int) -> bool {
    exists|j: int|
        0 <= j < i && has_prefix(#[trigger] ls[j], header) && forall|k: int|
            j < k < i ==> !ends_section(ls, header, k)
}

/// Line `i` of `ls` is kept: it does not start with `header`, and either it
/// opens a `## ` section or no section is being dropped when it is reached.
pub open spec fn line_kept(ls: Seq<Seq<char>>, header: Seq<char>, i: int) -> bool {
    !has_prefix(ls[i], header) && (has_prefix(ls[i], heading_marker()) || !dropping_at(ls, header, i))
}

/// The kept lines among the first `n` lines of `ls`, in order.
pub open spec fn kept_among(ls: Seq<Seq<char>>, header: Seq<char>, n: int) -> Seq<Seq<char>>
    decreases n,
{
    if n <= 0 {
        seq![]
    } else {
        kept_among(ls, header, n - 1) + if line_kept(ls, header, n - 1) {
            seq![ls[n - 1]]
        } else {
            seq![]
        }
    }
}

proof fn lemma_kept_lines_step(ls: Seq<Seq<char>>, header: Seq<char>, i: int)
    requires
        0 <= i <= ls.len(),
    ensures
        kept_lines(ls, header, false) == kept_among(ls, header, i) + kept_lines(
            ls.skip(i),
            header,
            dropping_at(ls, header, i),
        ),
    decreases i,
{
    if i == 0 {
        assert(ls.skip(0) =~= ls);
        assert(!dropping_at(ls, header, 0));
        assert(kept_among(ls, header, 0) + kept_lines(ls, header, false) =~= kept_lines(ls, header, false));
    } else {
        let p = i - 1;
        lemma_kept_lines_step(ls, header, p);
        let l = ls[p];
        let s = dropping_at(ls, header, p);
        let rest = ls.skip(i);
        assert(ls.skip(p)[0] == l);
        assert(ls.skip(p).drop_first() =~= rest);
        if has_prefix(l, header) {
            assert(dropping_at(ls, header, i)) by {
                assert(has_prefix(ls[p], header));
                assert(forall|k: int| p < k < i ==> !ends_section(ls, header, k));
            }
            assert(!line_kept(ls, header, p));
            assert(kept_among(ls, header, i) =~= kept_among(ls, header, p));
        } else if s && !has_prefix(l, heading_marker()) {
            assert(dropping_at(ls, header, i)) by {
                let j = choose|j: int|
                    0 <= j < p && has_prefix(#[trigger] ls[j], header) && forall|k: int|
                        j < k < p ==> !ends_section(ls, header, k);
                assert(has_prefix(ls[j], header));
                assert forall|k: int| j < k < i implies !ends_section(ls, header, k) by {
                    if k == p {
                        assert(!has_prefix(ls[p], heading_marker()));
                    }
                }
            }
            assert(!line_kept(ls, header, p));
            assert(kept_among(ls, header, i) =~= kept_among(ls, header, p));
        } else {
            assert(line_kept(ls, header, p));
            assert(!dropping_at(ls, header, i)) by {
                if dropping_at(ls, header, i) {
                    let j = choose|j: int|
                        0 <= j < i && has_prefix(#[trigger] ls[j], header) && forall|k: int|
                            j < k < i ==> !ends_section(ls, header, k);
                    if j == p {
                        assert(has_prefix(ls[p], header));
                    } else if s {
                        assert(has_prefix(l, heading_marker()));
                        assert(ends_section(ls, header, p));
                    } else {
                        assert(has_prefix(ls[j], header));
                        assert(forall|k: int| j < k < p ==> !ends_section(ls, header, k));
                        assert(dropping_at(ls, header, p));
                    }
                }
            }
            assert(kept_among(ls, header, i) =~= kept_among(ls, header, p).push(l));
            assert(kept_among(ls, header, p) + (seq![l] + kept_lines(rest, header, false)) =~= kept_among(
                ls,
                header,
                i,
            ) + kept_lines(rest, header, false));
        }
    }
}

/// Law: `remove_section` keeps exactly the lines `line_kept` describes, in
/// their order: line `i` stays when it does not start with `header` and
/// either opens a `## ` section or is not inside a section being dropped,
/// that is, every earlier line starting with `header` is followed, before
/// line `i`, by a line that opens a `## ` section and does not start with
/// `header`.
pub proof fn law_kept_lines_pointwise(content: Seq<char>, header: Seq<char>)
    ensures
        section_removed(content, header) == join_lines(
            kept_among(lines_of(content), header, lines_of(content).len() as int),
        ),
{
    let ls = lines_of(content);
    lemma_kept_lines_step(ls, header, ls.len() as int);
    assert(ls.skip(ls.len() as int) =~= Seq::<Seq<char>>::empty());
    assert(kept_among(ls, header, ls.len() as int) + Seq::<Seq<char>>::empty() =~= kept_among(
        ls,
        header,
        ls.len() as int,
    ));
}

/// Law: the lines before the first line that starts with `header` are all
/// kept, and come first.
pub proof fn law_kept_prefix(content: Seq<char>, header: Seq<char>, f: int)
    requires
        0 <= f <= lines_of(content).len(),
        forall|j: int| 0 <= j < f ==> !has_prefix(#[trigger] lines_of(content)[j], header),
    ensures
        kept_lines(lines_of(content), header, false) == lines_of(content).take(f) + kept_lines(
            lines_of(content).skip(f),
            header,
            false,
        ),
{
    let ls = lines_of(content);
    assert forall|j: int| 0 <= j < ls.take(f).len() implies !has_prefix(#[trigger] ls.take(f)[j], header) by {
        assert(ls.take(f)[j] == ls[j]);
    }
    lemma_kept_lines_concat(ls.take(f), ls.skip(f), header);
    assert(ls.take(f) + ls.skip(f) =~= ls);
}

} // verus!
