# codewiki

`cw` keeps a wiki of a code base as markdown under `~/.codewiki/<project>/`:
module and concept articles with YAML front matter, an `_index.md`, and a
`_meta.yaml` that records the last compiled commit. A coding agent writes
the articles; `cw` scaffolds the wiki, reports what changed, rebuilds the
index and installs the agent instructions.

Layout:

- `src/` is the library, verified with Verus:
  - `lines.rs`: lines of a text as `str::lines` gives them, and their laws;
  - `text.rs`: characters of strings, prefixes, substrings, trimming,
    capitalisation, short commit hashes;
  - `order.rs`: the order of strings;
  - `section.rs`: removing a `## ` section from a markdown document;
  - `agents.rs`: adding and removing the instructions in Codex's
    `AGENTS.md`, with the law that removing them after adding them gives
    back the original text, trimmed, with `\r\n` turned into `\n` and one
    final `\n`;
  - `wiki_index.rs`: which articles `_index.md` lists, in which order, and
    its text;
  - `status.rs`: changed files, stale articles, compile state;
  - `frontmatter.rs`: finding an article's front matter;
  - `qmd.rs`: reading the answer of `qmd collection add`.
- `app/` is the `cw` program: command line, files, git, clock and YAML.
- `tests/` runs the library on examples.
