//! Deciding what `cw status` and `cw projects` report: which files
//! changed since the last compiled commit, which articles went stale, and
//! how a project's compile state is shown.

use vstd::prelude::*;
use vstd::string::{StringExecFns, StringSliceAdditionalSpecFns};
use crate::lines::{lines_of, split_lines, views};
use crate::text::{chars_of, commit_prefix, short_commit, short_len, string_of};

verus! {

/// The test "is not empty".
pub open spec fn non_empty() -> spec_fn(Seq<char>) -> bool {
    |l: Seq<char>| l.len() > 0
}

/// The texts held by a sequence of strings.
pub open spec fn string_views(s: Seq<String>) -> Seq<Seq<char>> {
    Seq::new(s.len(), |i: int| s[i]@)
}

/// The file names listed by `git diff --name-only`: its non-empty lines.
pub open spec fn changed_file_names(diff_output: Seq<char>) -> Seq<Seq<char>> {
    lines_of(diff_output).filter(non_empty())
}

/// The files that a `git diff --name-only` output lists, in order.
pub fn changed_files(diff_output: &str) -> (r: Vec<String>)
    ensures
        string_views(r@) == changed_file_names(diff_output@),
{
    let c = chars_of(diff_output);
    let ls = split_lines(c.as_slice());
    let ghost all = views(ls@);
    let mut r: Vec<String> = Vec::new();
    let mut i: usize = 0;
    proof {
        assert(string_views(r@) =~= all.take(0).filter(non_empty()));
    }
    while i < ls.len()
        invariant
            all == views(ls@),
            all == lines_of(diff_output@),
            i <= ls@.len(),
            string_views(r@) == all.take(i as int).filter(non_empty()),
        decreases ls@.len() - i,
    {
        let ghost before = string_views(r@);
        proof {
            assert(all.take(i + 1) =~= all.take(i as int).push(all[i as int]));
            all.take(i as int).lemma_filter_push(all[i as int], non_empty());
        }
        if ls[i].len() > 0 {
            let s = string_of(ls[i].as_slice());
            r.push(s);
            assert(string_views(r@) =~= before.push(all[i as int]));
        } else {
            assert(string_views(r@) =~= before);
        }
        i = i + 1;
    }
    proof {
        assert(all.take(ls@.len() as int) =~= all);
    }
    r
}

/// Some source file of an article is among the changed files.
pub open spec fn mentions_changed(sources: Seq<Seq<char>>, changed: Seq<Seq<char>>) -> bool {
    exists|i: int, j: int| 0 <= i < sources.len() && 0 <= j < changed.len() && #[trigger] sources[i] == #[trigger] changed[j]
}

/// Whether an article with these source files is stale: one of them is
/// among the changed files.
pub fn is_stale(sources: &Vec<String>, changed: &Vec<String>) -> (r: bool)
    ensures
        r == mentions_changed(string_views(sources@), string_views(changed@)),
{
    let ghost sv = string_views(sources@);
    let ghost cv = string_views(changed@);
    let mut i: usize = 0;
    while i < sources.len()
        invariant
            sv == string_views(sources@),
            cv == string_views(changed@),
            i <= sources@.len(),
            forall|a: int, b: int| 0 <= a < i && 0 <= b < cv.len() ==> #[trigger] sv[a] != #[trigger] cv[b],
        decreases sources@.len() - i,
    {
        let mut j: usize = 0;
        while j < changed.len()
            invariant
                sv == string_views(sources@),
                cv == string_views(changed@),
                i < sources@.len(),
                j <= changed@.len(),
                forall|a: int, b: int| 0 <= a < i && 0 <= b < cv.len() ==> #[trigger] sv[a] != #[trigger] cv[b],
                forall|b: int| 0 <= b < j ==> sv[i as int] != #[trigger] cv[b],
            decreases changed@.len() - j,
        {
            if sources[i] == changed[j] {
                assert(sv[i as int] == cv[j as int]);
                return true;
            }
            j = j + 1;
        }
        i = i + 1;
    }
    false
}

/// How `cw projects` shows the compile state of a wiki.
pub open spec fn compile_state_text(last_commit: Option<Seq<char>>) -> Seq<char> {
    match last_commit {
        Some(c) => "compiled ("@ + commit_prefix(c) + ")"@,
        None => "not compiled"@,
    }
}

/// The compile state of a wiki: `compiled (<first seven bytes of the
/// commit>)`, or `not compiled` when it has no compiled commit. The cut
/// after seven bytes must fall on a character boundary.
pub fn compile_state(last_commit: Option<&str>) -> (r: String)
    requires
        last_commit matches Some(c) ==> vstd::utf8::is_char_boundary(
            c.spec_bytes(),
            short_len(c.spec_bytes().len()) as int,
        ),
    ensures
        r@ == compile_state_text(
            match last_commit {
                Some(c) => Some(c@),
                None => None,
            },
        ),
{
    match last_commit {
        Some(c) => {
            let mut r = String::from_str("compiled (");
            r.append(short_commit(c));
            r.append(")");
            r
        },
        None => String::from_str("not compiled"),
    }
}

} // verus!

verus! {

/// Law: an article is stale exactly when one of its source files, any of
/// them, is among the changed files.
pub proof fn law_stale_iff_source_changed(sources: Seq<Seq<char>>, changed: Seq<Seq<char>>)
    ensures
        mentions_changed(sources, changed) <==> exists|i: int| 0 <= i < sources.len() && #[trigger] changed.contains(
            sources[i],
        ),
{
    if mentions_changed(sources, changed) {
        let (i, j) = choose|i: int, j: int|
            0 <= i < sources.len() && 0 <= j < changed.len() && #[trigger] sources[i] == #[trigger] changed[j];
        assert(changed.contains(sources[i]));
    }
    if exists|i: int| 0 <= i < sources.len() && #[trigger] changed.contains(sources[i]) {
        let i = choose|i: int| 0 <= i < sources.len() && #[trigger] changed.contains(sources[i]);
        let j = choose|j: int| 0 <= j < changed.len() && changed[j] == sources[i];
        assert(sources[i] == changed[j]);
    }
}

/// Law: the changed files, read line by line. No output lists nothing; a
/// line ended by `\n` (or by `\r\n`) is listed first when it is not empty,
/// followed by the files of the rest; a last line without line break is
/// listed when it is not empty.
pub proof fn law_changed_files_by_line(x: Seq<char>, rest: Seq<char>)
    ensures
        changed_file_names(seq![]) == Seq::<Seq<char>>::empty(),
        crate::lines::no_newline(x) && (x.len() == 0 || x.last() != '\r') ==> changed_file_names(
            x + seq!['\n'] + rest,
        ) == (if x.len() > 0 {
            seq![x]
        } else {
            Seq::<Seq<char>>::empty()
        }) + changed_file_names(rest),
        crate::lines::no_newline(x) ==> changed_file_names(x + seq!['\r', '\n'] + rest) == (if x.len() > 0 {
            seq![x]
        } else {
            Seq::<Seq<char>>::empty()
        }) + changed_file_names(rest),
        crate::lines::no_newline(x) && x.len() > 0 ==> changed_file_names(x) == seq![x],
{
    assert(lines_of(seq![]) =~= Seq::<Seq<char>>::empty());
    assert(Seq::<Seq<char>>::empty().filter(non_empty()) =~= Seq::<Seq<char>>::empty()) by {
        Seq::<Seq<char>>::empty().lemma_filter_len(non_empty());
    }
    if crate::lines::no_newline(x) {
        // a line ended by `\n`
        let s = x + seq!['\n'] + rest;
        crate::lines::lemma_line_end(s, x.len() as int);
        assert(s.take(x.len() as int) =~= x);
        assert(s.skip(x.len() + 1 as int) =~= rest);
        assert(lines_of(s) == seq![crate::lines::strip_cr(x)] + lines_of(rest));
        lines_of(rest).lemma_filter_prepend(crate::lines::strip_cr(x), non_empty());
        if x.len() > 0 && x.last() != '\r' {
            assert(crate::lines::strip_cr(x) == x);
        }
        if x.len() == 0 {
            assert(Seq::<Seq<char>>::empty() + changed_file_names(rest) =~= changed_file_names(rest));
        }
        // a line ended by `\r\n`
        let xr = x.push('\r');
        let s2 = x + seq!['\r', '\n'] + rest;
        assert(s2 =~= xr + seq!['\n'] + rest);
        assert forall|k: int| 0 <= k < xr.len() implies xr[k] != '\n' by {
            if k < x.len() {
                assert(xr[k] == x[k]);
            }
        }
        crate::lines::lemma_line_end(s2, xr.len() as int);
        assert(s2.take(xr.len() as int) =~= xr);
        assert(s2.skip(xr.len() + 1 as int) =~= rest);
        assert(crate::lines::strip_cr(xr) =~= x);
        assert(lines_of(s2) == seq![x] + lines_of(rest));
        lines_of(rest).lemma_filter_prepend(x, non_empty());
        // a last line
        if x.len() > 0 {
            crate::lines::lemma_line_end(x, x.len() as int);
            assert(lines_of(x) == seq![x]);
            Seq::<Seq<char>>::empty().lemma_filter_prepend(x, non_empty());
            assert(seq![x] + Seq::<Seq<char>>::empty() =~= seq![x]);
            assert(seq![x] =~= seq![x] + Seq::<Seq<char>>::empty());
        }
    }
}

} // verus!
