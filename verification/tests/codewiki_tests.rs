use codewiki::frontmatter::front_matter_block;
use codewiki::agents::{codex_agents_with_section, codex_agents_without_section, codex_section};
use codewiki::qmd::{collection_add_outcome, CollectionAdd};
use codewiki::status::{changed_files, compile_state, is_stale};
use codewiki::text::{short_commit, trim_chars, trim_end_chars};
use codewiki::wiki_index::{build_index, index_entry, link_target, render_index, sort_entries, IndexEntry};
use codewiki::{capitalize, remove_section};

const SECTION: &str = r#"

## CodeWiki — Codebase Knowledge

You have a compiled wiki of this codebase at `~/.codewiki/`. Use it.

### Session start — MANDATORY

Before doing any work, check the wiki state:

```bash
cw status
```

If the wiki is stale or uncompiled, update it:
- Read changed source files
- Update the corresponding wiki articles in `~/.codewiki/<project>/`
- Run `cw index` then `cw meta update`

If no wiki exists, run `cw init` and compile from scratch.

### During work

When you need to understand how a module works, read the wiki article first:
```bash
cat ~/.codewiki/<project>/modules/<name>.md
```

### Session end — MANDATORY

Before finishing any task that involved code changes:

1. If you fixed a bug, create `~/.codewiki/<project>/learnings/<slug>.md`
2. If you made a design decision, create `~/.codewiki/<project>/decisions/<slug>.md`
3. Update any wiki articles affected by your code changes
4. Run `cw index` then `cw meta update`

### Article format

All wiki articles use YAML frontmatter:

```yaml
---
title: Module Name
type: module
source_files:
  - path/to/file
tags: [relevant, tags]
---
```

### Rules

- Check wiki before working. Update wiki before finishing. No exceptions.
- Write for a future agent with zero context.
- Include `source_files` in frontmatter so `cw status` can detect staleness.
"#;

fn entry(t: &str, p: &str, title: &str) -> IndexEntry {
    IndexEntry { article_type: t.to_string(), path: p.to_string(), title: title.to_string() }
}

fn key(e: &IndexEntry) -> (String, String, String) {
    (e.article_type.clone(), e.path.clone(), e.title.clone())
}

fn trimmed(s: &str) -> String {
    let v: Vec<char> = s.chars().collect();
    trim_chars(&v).into_iter().collect()
}

#[test]
fn remove_section_drops_until_next_heading() {
    let text = "# Agents\nintro\n## CodeWiki\nwiki rules\n### Sub\nmore\n## Other\nkeep\n";
    assert_eq!(remove_section(text, "## CodeWiki"), "# Agents\nintro\n## Other\nkeep\n");
}

#[test]
fn remove_section_to_end_of_text() {
    let text = "a\n## CodeWiki — x\nb\nc";
    assert_eq!(remove_section(text, "## CodeWiki"), "a\n");
}

#[test]
fn remove_section_normalises_line_endings() {
    assert_eq!(remove_section("a\r\nb", "## CodeWiki"), "a\nb\n");
    assert_eq!(remove_section("", "## CodeWiki"), "");
    assert_eq!(remove_section("x\n\n", "## CodeWiki"), "x\n\n");
}

#[test]
fn remove_section_keeps_text_without_header() {
    let text = "one\n## Two\nthree\n";
    assert_eq!(remove_section(text, "## CodeWiki"), text);
}

#[test]
fn remove_section_twice_is_once() {
    let text = "a\n## CodeWiki\nb\n## Keep\n## CodeWiki again\nc\n";
    let once = remove_section(text, "## CodeWiki");
    assert_eq!(once, "a\n## Keep\n");
    assert_eq!(remove_section(&once, "## CodeWiki"), once);
}

#[test]
fn remove_section_second_pass_reads_trailing_cr() {
    let once = remove_section("a\r", "## CodeWiki");
    assert_eq!(once, "a\r\n");
    assert_eq!(remove_section(&once, "## CodeWiki"), "a\n");
}

#[test]
fn remove_section_several_sections() {
    let text = "## CodeWiki\nx\n## A\n## CodeWiki\ny\n";
    assert_eq!(remove_section(text, "## CodeWiki"), "## A\n");
}

#[test]
fn remove_section_empty_header_removes_everything() {
    assert_eq!(remove_section("a\nb\n", ""), "");
}

#[test]
fn capitalize_examples() {
    assert_eq!(capitalize("module"), "Module");
    assert_eq!(capitalize(""), "");
    assert_eq!(capitalize("Concept"), "Concept");
    assert_eq!(capitalize("ßa"), "SSa");
    assert_eq!(capitalize("éclair"), "Éclair");
    assert_eq!(capitalize("1st"), "1st");
}

#[test]
fn short_commit_examples() {
    assert_eq!(short_commit("0123456789abcdef"), "0123456");
    assert_eq!(short_commit("abc"), "abc");
    assert_eq!(short_commit(""), "");
}

#[test]
fn compile_state_examples() {
    assert_eq!(compile_state(Some("deadbeefcafe")), "compiled (deadbee)");
    assert_eq!(compile_state(Some("ab")), "compiled (ab)");
    assert_eq!(compile_state(None), "not compiled");
}

#[test]
fn changed_files_skips_empty_lines() {
    let files = changed_files("src/a.rs\n\nsrc/b.rs\r\nREADME.md");
    assert_eq!(files, vec!["src/a.rs".to_string(), "src/b.rs".to_string(), "README.md".to_string()]);
    assert!(changed_files("").is_empty());
    assert!(changed_files("\n\n").is_empty());
}

#[test]
fn stale_when_a_source_changed() {
    let changed = vec!["src/a.rs".to_string(), "src/b.rs".to_string()];
    assert!(is_stale(&vec!["src/x.rs".to_string(), "src/b.rs".to_string()], &changed));
    assert!(!is_stale(&vec!["src/x.rs".to_string()], &changed));
    assert!(!is_stale(&vec![], &changed));
    assert!(!is_stale(&vec!["src/a.rs".to_string()], &vec![]));
}

#[test]
fn index_entry_defaults_and_skips() {
    assert!(index_entry("_index.md", Some("Index".to_string()), None).is_none());
    let e = index_entry("_architecture.md", Some("Architecture".to_string()), Some("overview".to_string())).unwrap();
    assert_eq!(key(&e), ("overview".to_string(), "_architecture.md".to_string(), "Architecture".to_string()));
    assert!(index_entry("_patterns.md", None, None).is_some());
    assert!(index_entry("modules/_index.md", None, None).is_some());
    let e = index_entry("modules/auth.md", None, None).unwrap();
    assert_eq!(key(&e), ("unknown".to_string(), "modules/auth.md".to_string(), "modules/auth.md".to_string()));
    let e = index_entry("modules/db.md", Some("Database".to_string()), Some("module".to_string())).unwrap();
    assert_eq!(key(&e), ("module".to_string(), "modules/db.md".to_string(), "Database".to_string()));
}

#[test]
fn link_target_strips_md() {
    assert_eq!(link_target("modules/auth.md"), "modules/auth");
    assert_eq!(link_target("notes.md.md"), "notes");
    assert_eq!(link_target("notes.mdx"), "notes.mdx");
    assert_eq!(link_target(".md"), "");
}

#[test]
fn sort_entries_by_type_then_title_stably() {
    let entries = vec![
        entry("module", "b.md", "Beta"),
        entry("concept", "z.md", "Zeta"),
        entry("module", "a1.md", "Alpha"),
        entry("module", "a2.md", "Alpha"),
        entry("concept", "c.md", "Alpha"),
    ];
    let sorted: Vec<_> = sort_entries(entries).iter().map(key).collect();
    let expect: Vec<_> = vec![
        entry("concept", "c.md", "Alpha"),
        entry("concept", "z.md", "Zeta"),
        entry("module", "a1.md", "Alpha"),
        entry("module", "a2.md", "Alpha"),
        entry("module", "b.md", "Beta"),
    ].iter().map(key).collect();
    assert_eq!(sorted, expect);
}

#[test]
fn sort_entries_orders_by_code_point() {
    let entries = vec![entry("b", "1", "x"), entry("B", "2", "x"), entry("é", "3", "x"), entry("a", "4", "x")];
    let sorted: Vec<_> = sort_entries(entries).iter().map(|e| e.path.clone()).collect();
    assert_eq!(sorted, vec!["2", "4", "1", "3"]);
}

#[test]
fn render_index_groups_by_type() {
    let entries = sort_entries(vec![
        entry("module", "modules/auth.md", "Auth"),
        entry("concept", "concepts/flow.md", "Data Flow"),
        entry("module", "modules/db.md", "Database"),
    ]);
    let text = render_index(&entries);
    assert_eq!(
        text,
        "# Wiki Index\n\n## Concept\n\n- [[concepts/flow|Data Flow]]\n## Module\n\n- [[modules/auth|Auth]]\n- [[modules/db|Database]]\n"
    );
}

#[test]
fn render_index_empty() {
    assert_eq!(render_index(&vec![]), "# Wiki Index\n\n_No articles yet. Wiki needs compilation._\n");
}

#[test]
fn render_index_empty_type_has_no_heading() {
    let text = render_index(&vec![entry("", "x.md", "X")]);
    assert_eq!(text, "# Wiki Index\n\n- [[x|X]]\n");
}

#[test]
fn codex_section_text_is_the_instructions() {
    assert_eq!(codex_section(), SECTION);
}

#[test]
fn codex_install_appends_section() {
    let out = codex_agents_with_section("# My agents\n\n  ").unwrap();
    assert_eq!(out, format!("{}\n{}", "# My agents", SECTION));
    let out = codex_agents_with_section("").unwrap();
    assert_eq!(out, format!("\n{}", SECTION));
}

#[test]
fn codex_install_twice_is_refused() {
    let once = codex_agents_with_section("notes").unwrap();
    assert!(codex_agents_with_section(&once).is_none());
    assert!(codex_agents_with_section("x ## CodeWiki y").is_none());
}

#[test]
fn codex_uninstall_without_section() {
    assert!(codex_agents_without_section("# Agents\nnothing here\n").is_none());
}

#[test]
fn codex_uninstall_removes_section() {
    let text = "# Agents\n\n## CodeWiki — old\nstuff\n## Other\nkeep\n";
    assert_eq!(codex_agents_without_section(text).unwrap(), "# Agents\n\n## Other\nkeep\n");
}

#[test]
fn codex_round_trip_restores_text() {
    for original in ["# Agents\n\nBe nice.\n", "", "  padded  \n\n", "a\r\nb\r\n"] {
        let installed = codex_agents_with_section(original).unwrap();
        let removed = codex_agents_without_section(&installed).unwrap();
        let expect = format!("{}\n", trimmed(&original.replace("\r\n", "\n")));
        assert_eq!(removed, expect);
    }
}

#[test]
fn trim_uses_unicode_white_space() {
    assert_eq!(trimmed("\u{3000}\t x y \u{a0}\u{2029}"), "x y");
    assert_eq!(trimmed("\u{200b}x"), "\u{200b}x");
    let v: Vec<char> = "ab \n ".chars().collect();
    assert_eq!(trim_end_chars(&v), vec!['a', 'b']);
}

#[test]
fn qmd_outcomes() {
    assert_eq!(collection_add_outcome(true, "collection already exists"), CollectionAdd::Added);
    assert_eq!(collection_add_outcome(false, "Error: collection 'codewiki' already exists"), CollectionAdd::AlreadyExists);
    assert_eq!(collection_add_outcome(false, "permission denied"), CollectionAdd::Failed);
    assert_eq!(collection_add_outcome(false, ""), CollectionAdd::Failed);
}

#[test]
fn front_matter_between_fences() {
    let article = "---\ntitle: Auth\ntype: module\n---\n\n## Overview\n";
    assert_eq!(front_matter_block(article), Some("title: Auth\ntype: module\n".to_string()));
    assert_eq!(front_matter_block("---\r\na: 1\r\n---\r\nbody"), Some("a: 1\n".to_string()));
    assert_eq!(front_matter_block("---\n---\n"), Some(String::new()));
    assert_eq!(front_matter_block("title: x\n---\n"), None);
    assert_eq!(front_matter_block("---\ntitle: x\n"), None);
    assert_eq!(front_matter_block(""), None);
}

#[test]
fn build_index_sorts_then_renders() {
    let text = build_index(vec![
        entry("module", "modules/db.md", "Database"),
        entry("overview", "_architecture.md", "Architecture"),
        entry("module", "modules/auth.md", "Auth"),
    ]);
    assert_eq!(
        text,
        "# Wiki Index\n\n## Module\n\n- [[modules/auth|Auth]]\n- [[modules/db|Database]]\n## Overview\n\n- [[_architecture|Architecture]]\n"
    );
    assert_eq!(build_index(vec![]), "# Wiki Index\n\n_No articles yet. Wiki needs compilation._\n");
}

#[test]
fn codex_uninstall_twice_changes_nothing_more() {
    let text = "# Agents\n\nsee ## CodeWiki below\n## CodeWiki\nx\n## Keep\ny\n";
    let once = codex_agents_without_section(text).unwrap();
    assert_eq!(once, "# Agents\n\nsee ## CodeWiki below\n## Keep\ny\n");
    assert_eq!(codex_agents_without_section(&once).unwrap(), once);
    let plain = codex_agents_without_section("a\n## CodeWiki\nb\n").unwrap();
    assert!(codex_agents_without_section(&plain).is_none());
}

#[test]
fn codex_uninstall_twice_indented_heading() {
    let once = codex_agents_without_section("  ## CodeWiki indented\n## CodeWiki\nx\n").unwrap();
    assert_eq!(once, "## CodeWiki indented\n");
    assert_eq!(codex_agents_without_section(&once).unwrap(), "\n");
}

#[test]
fn remove_section_line_by_line() {
    let text = "h\n## CodeWiki\na\n## CodeWiki 2\nb\n### sub\n## Next\nc\n## CodeWiki\n## Last\n";
    assert_eq!(remove_section(text, "## CodeWiki"), "h\n## Next\nc\n## Last\n");
}

#[test]
fn index_twice_is_the_same() {
    let a = vec![
        entry("module", "modules/db.md", "Database"),
        entry("overview", "_architecture.md", "Architecture"),
        entry("module", "modules/auth.md", "Auth"),
    ];
    let b = vec![
        entry("module", "modules/auth.md", "Auth"),
        entry("module", "modules/db.md", "Database"),
        entry("overview", "_architecture.md", "Architecture"),
    ];
    let first = build_index(a);
    assert_eq!(first, build_index(b));
    assert_eq!(front_matter_block(&first), None);
    assert!(index_entry("_index.md", None, None).is_none());
}

#[test]
fn codex_uninstall_twice_plain_text() {
    for text in ["a\n## CodeWiki\nb\n## Other\nc\n", "x\n\n  indented\n## CodeWiki — y\n", "## CodeWiki\n"] {
        let once = codex_agents_without_section(text).unwrap();
        match codex_agents_without_section(&once) {
            None => {}
            Some(twice) => assert_eq!(twice, once),
        }
    }
}
