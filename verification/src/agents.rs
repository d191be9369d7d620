//! The CodeWiki instructions in Codex's `AGENTS.md`: adding the section,
//! removing it again, and the laws that tie the two together.

use vstd::prelude::*;
use vstd::string::StringExecFns;
use crate::lines::{join_lines, lines_of, no_newline, ends_with_cr};
use crate::section::{heading_marker, remove_section, section_removed};
use crate::text::{
    chars_of, contains_chars, has_prefix, occurs_in, push_char, push_chars, trim_chars,
    trim_end_chars, trim_end_spec, trim_spec,
};

verus! {

/// The heading text that marks the CodeWiki section: `"## CodeWiki"`.
pub open spec fn codewiki_marker() -> Seq<char> {
    seq!['#', '#', ' ', 'C', 'o', 'd', 'e', 'W', 'i', 'k', 'i']
}

/// The lines of the CodeWiki section, as string literals.
pub open spec fn codex_section_strs() -> Seq<&'static str> {
    seq![
        "",
        "",
        "## CodeWiki — Codebase Knowledge",
        "",
        "You have a compiled wiki of this codebase at `~/.codewiki/`. Use it.",
        "",
        "### Session start — MANDATORY",
        "",
        "Before doing any work, check the wiki state:",
        "",
        "```bash",
        "cw status",
        "```",
        "",
        "If the wiki is stale or uncompiled, update it:",
        "- Read changed source files",
        "- Update the corresponding wiki articles in `~/.codewiki/<project>/`",
        "- Run `cw index` then `cw meta update`",
        "",
        "If no wiki exists, run `cw init` and compile from scratch.",
        "",
        "### During work",
        "",
        "When you need to understand how a module works, read the wiki article first:",
        "```bash",
        "cat ~/.codewiki/<project>/modules/<name>.md",
        "```",
        "",
        "### Session end — MANDATORY",
        "",
        "Before finishing any task that involved code changes:",
        "",
        "1. If you fixed a bug, create `~/.codewiki/<project>/learnings/<slug>.md`",
        "2. If you made a design decision, create `~/.codewiki/<project>/decisions/<slug>.md`",
        "3. Update any wiki articles affected by your code changes",
        "4. Run `cw index` then `cw meta update`",
        "",
        "### Article format",
        "",
        "All wiki articles use YAML frontmatter:",
        "",
        "```yaml",
        "---",
        "title: Module Name",
        "type: module",
        "source_files:",
        "  - path/to/file",
        "tags: [relevant, tags]",
        "---",
        "```",
        "",
        "### Rules",
        "",
        "- Check wiki before working. Update wiki before finishing. No exceptions.",
        "- Write for a future agent with zero context.",
        "- Include `source_files` in frontmatter so `cw status` can detect staleness."
    ]
}

/// The lines of the CodeWiki section.
pub open spec fn codex_section_lines() -> Seq<Seq<char>> {
    codex_section_strs().map_values(|s: &'static str| s@)
}

/// The CodeWiki section appended to `AGENTS.md`: two empty lines, the
/// `## CodeWiki` heading, and the instructions, each line ended by `\n`.
pub open spec fn codex_section_text() -> Seq<char> {
    join_lines(codex_section_lines())
}

/// The text of the CodeWiki section.
pub fn codex_section() -> (r: String)
    ensures
        r@ == codex_section_text(),
{
    let v: Vec<&'static str> = vec![
        "",
        "",
        "## CodeWiki — Codebase Knowledge",
        "",
        "You have a compiled wiki of this codebase at `~/.codewiki/`. Use it.",
        "",
        "### Session start — MANDATORY",
        "",
        "Before doing any work, check the wiki state:",
        "",
        "```bash",
        "cw status",
        "```",
        "",
        "If the wiki is stale or uncompiled, update it:",
        "- Read changed source files",
        "- Update the corresponding wiki articles in `~/.codewiki/<project>/`",
        "- Run `cw index` then `cw meta update`",
        "",
        "If no wiki exists, run `cw init` and compile from scratch.",
        "",
        "### During work",
        "",
        "When you need to understand how a module works, read the wiki article first:",
        "```bash",
        "cat ~/.codewiki/<project>/modules/<name>.md",
        "```",
        "",
        "### Session end — MANDATORY",
        "",
        "Before finishing any task that involved code changes:",
        "",
        "1. If you fixed a bug, create `~/.codewiki/<project>/learnings/<slug>.md`",
        "2. If you made a design decision, create `~/.codewiki/<project>/decisions/<slug>.md`",
        "3. Update any wiki articles affected by your code changes",
        "4. Run `cw index` then `cw meta update`",
        "",
        "### Article format",
        "",
        "All wiki articles use YAML frontmatter:",
        "",
        "```yaml",
        "---",
        "title: Module Name",
        "type: module",
        "source_files:",
        "  - path/to/file",
        "tags: [relevant, tags]",
        "---",
        "```",
        "",
        "### Rules",
        "",
        "- Check wiki before working. Update wiki before finishing. No exceptions.",
        "- Write for a future agent with zero context.",
        "- Include `source_files` in frontmatter so `cw status` can detect staleness."
    ];
    assert(v@ == codex_section_strs());
    let mut r = String::new();
    let mut i: usize = 0;
    assert(codex_section_lines().take(0) =~= Seq::<Seq<char>>::empty());
    while i < v.len()
        invariant
            v@ == codex_section_strs(),
            i <= v@.len(),
            r@ == join_lines(codex_section_lines().take(i as int)),
        decreases v@.len() - i,
    {
        r.append(v[i]);
        push_char(&mut r, '\n');
        proof {
            crate::lines::lemma_join_lines_push(codex_section_lines().take(i as int), v@[i as int]@);
            assert(codex_section_lines().take(i as int).push(v@[i as int]@) =~= codex_section_lines().take(
                i + 1,
            ));
        }
        i = i + 1;
    }
    assert(codex_section_lines().take(v@.len() as int) =~= codex_section_lines());
    r
}

/// `l` holds no `\n` and does not end with `\r`.
pub open spec fn plain_line(l: Seq<char>) -> bool {
    no_newline(l) && !ends_with_cr(l)
}

/// The shape of the CodeWiki section: two empty lines, the heading, then
/// lines none of which opens a `## ` section.
pub proof fn lemma_codex_section_shape()
    ensures
        codex_section_lines().len() == 56,
        codex_section_lines()[0].len() == 0,
        codex_section_lines()[1].len() == 0,
        has_prefix(codex_section_lines()[2], codewiki_marker()),
        forall|k: int| 0 <= k < codex_section_lines().len() ==> plain_line(#[trigger] codex_section_lines()[k]),
        forall|k: int|
            3 <= k < codex_section_lines().len() ==> !has_prefix(#[trigger] codex_section_lines()[k], heading_marker()),
{
    assert forall|k: int| 0 <= k < codex_section_lines().len() implies {
        &&& plain_line(#[trigger] codex_section_lines()[k])
        &&& (k >= 3 ==> !has_prefix(codex_section_lines()[k], heading_marker()))
        &&& (k < 2 ==> codex_section_lines()[k].len() == 0)
        &&& (k == 2 ==> has_prefix(codex_section_lines()[k], codewiki_marker()))
    } by {
        line_facts(k);
    }
    line_facts(0);
    line_facts(1);
    line_facts(2);
}

/// The facts of `lemma_codex_section_shape` for line `k`.
proof fn line_facts(k: int)
    requires
        0 <= k < 56,
    ensures
        codex_section_lines().len() == 56,
        plain_line(codex_section_lines()[k]),
        k >= 3 ==> !has_prefix(codex_section_lines()[k], heading_marker()),
        k < 2 ==> codex_section_lines()[k].len() == 0,
        k == 2 ==> has_prefix(codex_section_lines()[k], codewiki_marker()),
{
    let s = codex_section_strs();
    assert(codex_section_lines()[k] == s[k]@);
    if k == 0 {
        reveal_strlit("");
    } else if k == 1 {
        reveal_strlit("");
    } else if k == 2 {
        reveal_strlit("## CodeWiki — Codebase Knowledge");
    } else if k == 3 {
        reveal_strlit("");
    } else if k == 4 {
        reveal_strlit("You have a compiled wiki of this codebase at `~/.codewiki/`. Use it.");
    } else if k == 5 {
        reveal_strlit("");
    } else if k == 6 {
        reveal_strlit("### Session start — MANDATORY");
    } else if k == 7 {
        reveal_strlit("");
    } else if k == 8 {
        reveal_strlit("Before doing any work, check the wiki state:");
    } else if k == 9 {
        reveal_strlit("");
    } else if k == 10 {
        reveal_strlit("```bash");
    } else if k == 11 {
        reveal_strlit("cw status");
    } else if k == 12 {
        reveal_strlit("```");
    } else if k == 13 {
        reveal_strlit("");
    } else if k == 14 {
        reveal_strlit("If the wiki is stale or uncompiled, update it:");
    } else if k == 15 {
        reveal_strlit("- Read changed source files");
    } else if k == 16 {
        reveal_strlit("- Update the corresponding wiki articles in `~/.codewiki/<project>/`");
    } else if k == 17 {
        reveal_strlit("- Run `cw index` then `cw meta update`");
    } else if k == 18 {
        reveal_strlit("");
    } else if k == 19 {
        reveal_strlit("If no wiki exists, run `cw init` and compile from scratch.");
    } else if k == 20 {
        reveal_strlit("");
    } else if k == 21 {
        reveal_strlit("### During work");
    } else if k == 22 {
        reveal_strlit("");
    } else if k == 23 {
        reveal_strlit("When you need to understand how a module works, read the wiki article first:");
    } else if k == 24 {
        reveal_strlit("```bash");
    } else if k == 25 {
        reveal_strlit("cat ~/.codewiki/<project>/modules/<name>.md");
    } else if k == 26 {
        reveal_strlit("```");
    } else if k == 27 {
        reveal_strlit("");
    } else if k == 28 {
        reveal_strlit("### Session end — MANDATORY");
    } else if k == 29 {
        reveal_strlit("");
    } else if k == 30 {
        reveal_strlit("Before finishing any task that involved code changes:");
    } else if k == 31 {
        reveal_strlit("");
    } else if k == 32 {
        reveal_strlit("1. If you fixed a bug, create `~/.codewiki/<project>/learnings/<slug>.md`");
    } else if k == 33 {
        reveal_strlit("2. If you made a design decision, create `~/.codewiki/<project>/decisions/<slug>.md`");
    } else if k == 34 {
        reveal_strlit("3. Update any wiki articles affected by your code changes");
    } else if k == 35 {
        reveal_strlit("4. Run `cw index` then `cw meta update`");
    } else if k == 36 {
        reveal_strlit("");
    } else if k == 37 {
        reveal_strlit("### Article format");
    } else if k == 38 {
        reveal_strlit("");
    } else if k == 39 {
        reveal_strlit("All wiki articles use YAML frontmatter:");
    } else if k == 40 {
        reveal_strlit("");
    } else if k == 41 {
        reveal_strlit("```yaml");
    } else if k == 42 {
        reveal_strlit("---");
    } else if k == 43 {
        reveal_strlit("title: Module Name");
    } else if k == 44 {
        reveal_strlit("type: module");
    } else if k == 45 {
        reveal_strlit("source_files:");
    } else if k == 46 {
        reveal_strlit("  - path/to/file");
    } else if k == 47 {
        reveal_strlit("tags: [relevant, tags]");
    } else if k == 48 {
        reveal_strlit("---");
    } else if k == 49 {
        reveal_strlit("```");
    } else if k == 50 {
        reveal_strlit("");
    } else if k == 51 {
        reveal_strlit("### Rules");
    } else if k == 52 {
        reveal_strlit("");
    } else if k == 53 {
        reveal_strlit("- Check wiki before working. Update wiki before finishing. No exceptions.");
    } else if k == 54 {
        reveal_strlit("- Write for a future agent with zero context.");
    } else if k == 55 {
        reveal_strlit("- Include `source_files` in frontmatter so `cw status` can detect staleness.");
    }
    if k == 2 {
        assert(s[k]@.take(11) =~= codewiki_marker());
    }
}

/// The characters of `"## CodeWiki"`.
fn marker_chars() -> (r: Vec<char>)
    ensures
        r@ == codewiki_marker(),
{
    let r: Vec<char> = vec!['#', '#', ' ', 'C', 'o', 'd', 'e', 'W', 'i', 'k', 'i'];
    assert(r@ =~= codewiki_marker());
    r
}

/// `AGENTS.md` with the CodeWiki section installed: its text without
/// trailing white space, a `\n`, then the section.
pub open spec fn with_codex_section(existing: Seq<char>) -> Seq<char> {
    trim_end_spec(existing) + seq!['\n'] + codex_section_text()
}

/// The new text of Codex's `AGENTS.md` when installing the CodeWiki
/// instructions into `existing`; `None` when it already mentions
/// `"## CodeWiki"` (they are installed already).
pub fn codex_agents_with_section(existing: &str) -> (r: Option<String>)
    ensures
        r is None <==> occurs_in(existing@, codewiki_marker()),
        r matches Some(t) ==> t@ == with_codex_section(existing@),
{
    let e = chars_of(existing);
    let m = marker_chars();
    if contains_chars(e.as_slice(), m.as_slice()) {
        return None;
    }
    let kept = trim_end_chars(e.as_slice());
    let mut r = String::new();
    push_chars(&mut r, kept.as_slice());
    push_char(&mut r, '\n');
    let section = codex_section();
    r.append(section.as_str());
    Some(r)
}

/// `AGENTS.md` with the CodeWiki section removed: the text left by
/// `remove_section`, trimmed, and ended by one `\n`.
pub open spec fn without_codex_section(content: Seq<char>) -> Seq<char> {
    trim_spec(section_removed(content, codewiki_marker())) + seq!['\n']
}

/// The new text of Codex's `AGENTS.md` when removing the CodeWiki
/// instructions from `content`; `None` when it does not mention
/// `"## CodeWiki"` (there is nothing to remove).
pub fn codex_agents_without_section(content: &str) -> (r: Option<String>)
    ensures
        r is None <==> !occurs_in(content@, codewiki_marker()),
        r matches Some(t) ==> t@ == without_codex_section(content@),
{
    let c = chars_of(content);
    let m = marker_chars();
    if !contains_chars(c.as_slice(), m.as_slice()) {
        return None;
    }
    let header = crate::text::string_of(m.as_slice());
    let cleaned = remove_section(content, header.as_str());
    let cv = chars_of(cleaned.as_str());
    let trimmed = trim_chars(cv.as_slice());
    let mut r = String::new();
    push_chars(&mut r, trimmed.as_slice());
    push_char(&mut r, '\n');
    Some(r)
}

} // verus!

verus! {

/// The text of the CodeWiki section, its first three lines spelled out.
proof fn lemma_section_text_start()
    ensures
        codex_section_text() == seq!['\n', '\n'] + codex_section_lines()[2] + seq!['\n'] + join_lines(
            codex_section_lines().skip(3),
        ),
{
    lemma_codex_section_shape();
    let l = codex_section_lines();
    assert(l.drop_first() =~= l.skip(1));
    assert(l.skip(1).drop_first() =~= l.skip(2));
    assert(l.skip(2).drop_first() =~= l.skip(3));
    assert(l.skip(1)[0] == l[1]);
    assert(l.skip(2)[0] == l[2]);
    assert(join_lines(l.skip(2)) == l[2] + seq!['\n'] + join_lines(l.skip(3)));
    assert(join_lines(l.skip(1)) == l[1] + seq!['\n'] + join_lines(l.skip(2)));
    assert(join_lines(l) == l[0] + seq!['\n'] + join_lines(l.skip(1)));
    assert(l[0] =~= Seq::<char>::empty());
    assert(l[1] =~= Seq::<char>::empty());
    assert(codex_section_text() =~= seq!['\n', '\n'] + l[2] + seq!['\n'] + join_lines(l.skip(3)));
}

/// Law: once the CodeWiki section is installed, `AGENTS.md` mentions
/// `"## CodeWiki"`, so installing again changes nothing.
pub proof fn law_codex_setup_idempotent(existing: Seq<char>)
    ensures
        occurs_in(with_codex_section(existing), codewiki_marker()),
{
    lemma_codex_section_shape();
    lemma_section_text_start();
    let t = trim_end_spec(existing);
    let l2 = codex_section_lines()[2];
    let s = with_codex_section(existing);
    let p: int = t.len() as int + 3;
    assert(s =~= (t + seq!['\n', '\n', '\n']) + l2 + seq!['\n'] + join_lines(codex_section_lines().skip(3)));
    assert(s.subrange(p, p + 11) =~= l2.take(11));
    assert(l2.take(11) == codewiki_marker());
}

/// `lf_endings` keeps a run of white space white.
proof fn lemma_lf_endings_white(w: Seq<char>)
    requires
        crate::text::all_white(w),
    ensures
        crate::text::all_white(crate::lines::lf_endings(w)),
    decreases w.len(),
{
    if w.len() > 0 {
        if w.len() >= 2 && w[0] == '\r' && w[1] == '\n' {
            assert(crate::text::all_white(w.skip(2))) by {
                assert forall|k: int| 0 <= k < w.skip(2).len() implies crate::text::is_white_space(
                    #[trigger] w.skip(2)[k],
                ) by {
                    assert(w.skip(2)[k] == w[k + 2]);
                }
            }
            lemma_lf_endings_white(w.skip(2));
        } else {
            assert(crate::text::all_white(w.drop_first())) by {
                assert forall|k: int| 0 <= k < w.drop_first().len() implies crate::text::is_white_space(
                    #[trigger] w.drop_first()[k],
                ) by {
                    assert(w.drop_first()[k] == w[k + 1]);
                }
            }
            lemma_lf_endings_white(w.drop_first());
            assert(crate::text::is_white_space(w[0]));
        }
        let r = crate::lines::lf_endings(w);
        assert forall|k: int| 0 <= k < r.len() implies crate::text::is_white_space(#[trigger] r[k]) by {
            if k > 0 {
                if w.len() >= 2 && w[0] == '\r' && w[1] == '\n' {
                    assert(r[k] == crate::lines::lf_endings(w.skip(2))[k - 1]);
                } else {
                    assert(r[k] == crate::lines::lf_endings(w.drop_first())[k - 1]);
                }
            }
        }
    }
}

/// Trimming after turning `\r\n` into `\n` does not depend on trailing
/// white space.
proof fn lemma_trim_lf_trim_end(e: Seq<char>)
    ensures
        trim_spec(crate::lines::lf_endings(trim_end_spec(e))) == trim_spec(crate::lines::lf_endings(e)),
{
    crate::text::lemma_trim_end_shape(e);
    let t = trim_end_spec(e);
    let w = e.skip(t.len() as int);
    assert(e =~= t + w);
    if t.len() > 0 {
        assert(crate::text::is_white_space('\r'));
    }
    crate::lines::lemma_lf_endings_concat(t, w);
    lemma_lf_endings_white(w);
    crate::text::lemma_trim_end_white_tail(crate::lines::lf_endings(t), crate::lines::lf_endings(w));
}

/// Law: removing the CodeWiki section from an `AGENTS.md` into which it
/// was installed gives back the original text, trimmed, with `\r\n`
/// line endings turned into `\n`, and ended by one `\n`.
pub proof fn law_codex_round_trip(existing: Seq<char>)
    requires
        !occurs_in(existing, codewiki_marker()),
    ensures
        without_codex_section(with_codex_section(existing)) == trim_spec(
            crate::lines::lf_endings(existing),
        ) + seq!['\n'],
{
    lemma_trim_lf_trim_end(existing);
    let m = codewiki_marker();
    let t = trim_end_spec(existing);
    let a = t + seq!['\n'];
    let l = codex_section_lines();
    let s = with_codex_section(existing);
    lemma_codex_section_shape();
    crate::text::lemma_trim_end_shape(existing);
    // The lines of the installed text: those of `existing`, then the section's.
    assert(s =~= a + join_lines(l));
    crate::lines::lemma_lines_of_concat(a, join_lines(l));
    crate::lines::lemma_lines_of_join(l);
    assert(l.map_values(|x: Seq<char>| crate::lines::strip_cr(x)) =~= l);
    let la = lines_of(a);
    assert(lines_of(s) == la + l);
    // No line of `existing` starts with the marker.
    assert forall|i: int| 0 <= i < la.len() implies !has_prefix(#[trigger] la[i], m) by {
        if has_prefix(la[i], m) {
            crate::lines::lemma_line_occurs(a, i);
            let li = la[i];
            let o = choose|o: int| 0 <= o && o + li.len() <= a.len() && #[trigger] a.subrange(o, o + li.len()) == li;
            assert(a.subrange(o, o + m.len()) =~= li.take(11));
            if o + m.len() <= t.len() {
                assert(existing.subrange(o, o + m.len()) =~= a.subrange(o, o + m.len()));
                assert(!occurs_in(existing, m));
                assert(existing.subrange(o, o + m.len()) != m);
            } else {
                assert(a[a.len() - 1] == a.subrange(o, o + m.len())[10]);
            }
        }
    }
    crate::section::lemma_kept_lines_concat(la, l, m);
    // In the section, the two empty lines stay and the rest goes.
    assert(l.drop_first() =~= l.skip(1));
    assert(l.skip(1).drop_first() =~= l.skip(2));
    assert(l.skip(2).drop_first() =~= l.skip(3));
    assert(l.skip(1)[0] == l[1]);
    assert(l.skip(2)[0] == l[2]);
    assert forall|k: int| 0 <= k < l.skip(3).len() implies !has_prefix(#[trigger] l.skip(3)[k], heading_marker()) by {
        assert(l.skip(3)[k] == l[k + 3]);
    }
    crate::section::lemma_kept_lines_skip_all(l.skip(3), m);
    assert(crate::section::kept_lines(l.skip(2), m, false) == Seq::<Seq<char>>::empty());
    assert(crate::section::kept_lines(l.skip(1), m, false) == seq![l[1]]);
    assert(crate::section::kept_lines(l, m, false) =~= seq![l[0], l[1]]);
    let kept = la + seq![l[0], l[1]];
    assert(crate::section::kept_lines(lines_of(s), m, false) == kept);
    // Their text.
    crate::lines::lemma_join_lines_concat(la, seq![l[0], l[1]]);
    assert(seq![l[0], l[1]].drop_first() =~= seq![l[1]]);
    assert(seq![l[1]].drop_first() =~= Seq::<Seq<char>>::empty());
    let two = seq![l[0], l[1]];
    assert(two[0] == l[0] && two[1] == l[1]);
    assert(join_lines(seq![l[1]]) == l[1] + seq!['\n'] + join_lines(Seq::<Seq<char>>::empty()));
    assert(join_lines(two) == l[0] + seq!['\n'] + join_lines(seq![l[1]]));
    assert(l[0] =~= Seq::<char>::empty());
    assert(l[1] =~= Seq::<char>::empty());
    assert(join_lines(two) =~= seq!['\n', '\n']);
    crate::lines::lemma_join_lines_of(a);
    if t.len() > 0 {
        assert(crate::text::is_white_space('\r'));
    }
    crate::lines::lemma_lf_endings_concat(t, seq!['\n']);
    assert(crate::lines::lf_endings(seq!['\n']) =~= seq!['\n']) by {
        assert(seq!['\n'].drop_first() =~= Seq::<char>::empty());
        assert(crate::lines::lf_endings(Seq::<char>::empty()) =~= Seq::<char>::empty());
        assert(crate::lines::lf_endings(seq!['\n']) == seq![seq!['\n'][0]] + crate::lines::lf_endings(
            seq!['\n'].drop_first(),
        ));
    }
    let lt = crate::lines::lf_endings(t);
    assert(section_removed(s, m) =~= lt + seq!['\n', '\n', '\n']);
    // Trimming drops the three line breaks.
    assert(crate::text::all_white(seq!['\n', '\n', '\n']));
    crate::text::lemma_trim_end_white_tail(lt, seq!['\n', '\n', '\n']);
}

} // verus!

verus! {

/// Law: removing the CodeWiki section a second time leaves `AGENTS.md` as
/// the first removal left it: either it no longer mentions `"## CodeWiki"`
/// (nothing to remove), or the second removal gives the same text. This
/// needs, when it still mentions `"## CodeWiki"`, that none of its lines
/// starts with it (a line such as `"  ## CodeWiki"` loses its indentation
/// to the trim of the first removal and is removed by the second) and that
/// it has no `\r\n` (which the second removal turns into `\n`).
pub proof fn law_codex_uninstall_twice(content: Seq<char>)
    requires
        occurs_in(without_codex_section(content), codewiki_marker()) ==> {
            &&& forall|k: int|
                0 <= k < lines_of(without_codex_section(content)).len() ==> !has_prefix(
                    #[trigger] lines_of(without_codex_section(content))[k],
                    codewiki_marker(),
                )
            &&& crate::lines::lf_endings(without_codex_section(content)) == without_codex_section(content)
        },
    ensures
        !occurs_in(without_codex_section(content), codewiki_marker()) || without_codex_section(
            without_codex_section(content),
        ) == without_codex_section(content),
{
    let m = codewiki_marker();
    let t1 = without_codex_section(content);
    if occurs_in(t1, m) {
        let y = trim_spec(section_removed(content, m));
        assert(t1 == y + seq!['\n']);
        crate::section::lemma_kept_lines_all(lines_of(t1), m);
        crate::lines::lemma_join_lines_of(t1);
        assert(section_removed(t1, m) == t1);
        assert(crate::text::all_white(seq!['\n']));
        crate::text::lemma_trim_end_white_tail(y, seq!['\n']);
        crate::text::lemma_trim_idempotent(section_removed(content, m));
        assert(trim_spec(t1) == trim_spec(y));
    }
}

} // verus!

verus! {

/// Lines holding no `\n` none of which starts with `"## CodeWiki"`, even
/// after its leading white space.
pub open spec fn marker_free(ks: Seq<Seq<char>>) -> bool {
    forall|i: int|
        0 <= i < ks.len() ==> no_newline(#[trigger] ks[i]) && !has_prefix(ks[i], codewiki_marker()) && !has_prefix(
            crate::text::trim_start_spec(ks[i]),
            codewiki_marker(),
        )
}

/// In the text of marker-free lines, the marker does not occur at a line start.
proof fn lemma_no_marker_at_line_start(ks: Seq<Seq<char>>, q: int)
    requires
        marker_free(ks),
        0 <= q,
        q + 11 <= join_lines(ks).len(),
        crate::lines::at_line_start(join_lines(ks), q),
    ensures
        join_lines(ks).subrange(q, q + 11) != codewiki_marker(),
{
    let m = codewiki_marker();
    let j = join_lines(ks);
    if j.subrange(q, q + 11) == m {
        crate::lines::lemma_join_line_start(ks, q);
        let i = choose|i: int|
            0 <= i < ks.len() && q + ks[i].len() < j.len() && j[q + ks[i].len()] == '\n' && #[trigger] j.subrange(
                q,
                q + ks[i].len(),
            ) == ks[i];
        if ks[i].len() < 11 {
            assert(j[q + ks[i].len()] == j.subrange(q, q + 11)[ks[i].len() as int]);
        }
        assert(ks[i].take(11) =~= m) by {
            assert forall|x: int| 0 <= x < 11 implies ks[i][x] == m[x] by {
                assert(j.subrange(q, q + ks[i].len())[x] == j[q + x]);
                assert(j.subrange(q, q + 11)[x] == j[q + x]);
            }
        }
    }
}

/// In the text of marker-free lines, the marker does not follow leading
/// white space.
proof fn lemma_no_marker_after_white(ks: Seq<Seq<char>>, b: int)
    requires
        marker_free(ks),
        0 <= b,
        b + 11 <= join_lines(ks).len(),
        crate::text::all_white(join_lines(ks).take(b)),
    ensures
        join_lines(ks).subrange(b, b + 11) != codewiki_marker(),
{
    let m = codewiki_marker();
    let j = join_lines(ks);
    if j.subrange(b, b + 11) == m {
        crate::lines::lemma_line_start_before(j, b);
        let q = choose|q: int|
            0 <= q <= b && #[trigger] crate::lines::at_line_start(j, q) && forall|x: int| q <= x < b ==> j[x] != '\n';
        crate::lines::lemma_join_line_start(ks, q);
        let i = choose|i: int|
            0 <= i < ks.len() && q + ks[i].len() < j.len() && j[q + ks[i].len()] == '\n' && #[trigger] j.subrange(
                q,
                q + ks[i].len(),
            ) == ks[i];
        let l = ks[i];
        let w = b - q;
        if q + l.len() < b + 11 {
            let p = q + l.len();
            if p >= b {
                assert(j[p] == j.subrange(b, b + 11)[p - b]);
            }
        }
        assert forall|x: int| 0 <= x < w implies crate::text::is_white_space(#[trigger] l[x]) by {
            assert(l[x] == j.subrange(q, q + l.len())[x]);
            assert(j[q + x] == j.take(b)[q + x]);
        }
        assert(l[w] == j.subrange(b, b + 11)[0]);
        crate::text::lemma_trim_start_at(l, w);
        assert(crate::text::trim_start_spec(l).take(11) =~= m) by {
            assert forall|x: int| 0 <= x < 11 implies crate::text::trim_start_spec(l)[x] == m[x] by {
                assert(l[w + x] == j.subrange(q, q + l.len())[w + x]);
                assert(j[b + x] == j.subrange(b, b + 11)[x]);
            }
        }
    }
}

/// The trimmed text of marker-free lines, ended by `\n`, has no line that
/// starts with the marker.
proof fn lemma_trimmed_marker_free(ks: Seq<Seq<char>>)
    requires
        marker_free(ks),
    ensures
        forall|k: int|
            0 <= k < lines_of(trim_spec(join_lines(ks)) + seq!['\n']).len() ==> !has_prefix(
                #[trigger] lines_of(trim_spec(join_lines(ks)) + seq!['\n'])[k],
                codewiki_marker(),
            ),
{
    let m = codewiki_marker();
    let j = join_lines(ks);
    let tt = trim_spec(j);
    let t1 = tt + seq!['\n'];
    crate::text::lemma_trim_end_shape(j);
    let z = trim_end_spec(j);
    let e = z.len() as int;
    crate::text::lemma_trim_start_shape(z);
    let b = e - tt.len();
    assert(tt =~= j.subrange(b, e));
    assert forall|k: int| 0 <= k < lines_of(t1).len() implies !has_prefix(#[trigger] lines_of(t1)[k], m) by {
        if has_prefix(lines_of(t1)[k], m) {
            let l = lines_of(t1)[k];
            crate::lines::lemma_line_occurs(t1, k);
            let o = choose|o: int|
                0 <= o && o + l.len() <= t1.len() && crate::lines::at_line_start(t1, o) && #[trigger] t1.subrange(
                    o,
                    o + l.len(),
                ) == l;
            assert forall|x: int| 0 <= x < 11 implies t1[o + x] == m[x] by {
                assert(t1[o + x] == t1.subrange(o, o + l.len())[x]);
                assert(l[x] == l.take(11)[x]);
            }
            if o + 11 > tt.len() {
                assert(t1[tt.len() as int] == '\n');
                assert(t1[o + (tt.len() - o)] == m[tt.len() - o]);
            }
            assert(j.subrange(b + o, b + o + 11) =~= m) by {
                assert forall|x: int| 0 <= x < 11 implies j.subrange(b + o, b + o + 11)[x] == m[x] by {
                    assert(t1[o + x] == tt[o + x]);
                }
            }
            if o > 0 {
                assert(t1[o - 1] == tt[o - 1]);
                lemma_no_marker_at_line_start(ks, b + o);
            } else {
                assert(crate::text::all_white(j.take(b))) by {
                    assert forall|x: int| 0 <= x < b implies crate::text::is_white_space(#[trigger] j.take(b)[x]) by {
                        assert(j.take(b)[x] == z.take(b)[x]);
                    }
                }
                lemma_no_marker_after_white(ks, b);
            }
        }
    }
}

/// Law: for an `AGENTS.md` without `\r` whose kept lines do not start with
/// `"## CodeWiki"` even after their leading white space, removing the
/// CodeWiki section a second time changes nothing: the first removal leaves
/// text that no longer mentions `"## CodeWiki"`, or that the second removal
/// gives back unchanged.
pub proof fn law_codex_uninstall_twice_plain(content: Seq<char>)
    requires
        crate::lines::no_cr(content),
        forall|j: int|
            0 <= j < crate::section::kept_lines(lines_of(content), codewiki_marker(), false).len() ==> !has_prefix(
                crate::text::trim_start_spec(
                    #[trigger] crate::section::kept_lines(lines_of(content), codewiki_marker(), false)[j],
                ),
                codewiki_marker(),
            ),
    ensures
        !occurs_in(without_codex_section(content), codewiki_marker()) || without_codex_section(
            without_codex_section(content),
        ) == without_codex_section(content),
{
    let m = codewiki_marker();
    let ls = lines_of(content);
    let ks = crate::section::kept_lines(ls, m, false);
    let j = join_lines(ks);
    let tt = trim_spec(j);
    let t1 = without_codex_section(content);
    assert(t1 == tt + seq!['\n']);
    crate::lines::lemma_lines_no_newline(content);
    crate::lines::lemma_no_cr_lines(content);
    crate::section::lemma_kept_lines_from(ls, m, false);
    assert forall|i: int| 0 <= i < ks.len() implies no_newline(#[trigger] ks[i]) && crate::lines::no_cr(ks[i])
        && !has_prefix(ks[i], m) by {
        let k = choose|k: int| 0 <= k < ls.len() && ls[k] == ks[i];
        assert(no_newline(ls[k]));
        assert(crate::lines::no_cr(ls[k]));
    }
    assert(marker_free(ks));
    crate::lines::lemma_no_cr_join(ks);
    crate::text::lemma_trim_end_shape(j);
    let z = trim_end_spec(j);
    crate::text::lemma_trim_start_shape(z);
    let b = z.len() - tt.len();
    assert(tt =~= j.subrange(b, z.len() as int));
    assert(crate::lines::no_cr(t1)) by {
        assert forall|k: int| 0 <= k < t1.len() implies t1[k] != '\r' by {
            if k < tt.len() {
                assert(t1[k] == j[b + k]);
            }
        }
    }
    crate::lines::lemma_lf_endings_plain(t1);
    lemma_trimmed_marker_free(ks);
    law_codex_uninstall_twice(content);
}

} // verus!
