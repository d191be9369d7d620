//! The text logic of `cw`, a tool that keeps a wiki of a code base in
//! markdown under `~/.codewiki/<project>/`: splitting lines, removing a
//! markdown section, installing and removing the agent instructions, the
//! wiki index, and what `cw status` and `cw projects` report.

pub mod agents;
pub mod frontmatter;
pub mod lines;
pub mod order;
pub mod qmd;
pub mod section;
pub mod status;
pub mod text;
pub mod wiki_index;

pub use section::remove_section;
pub use text::capitalize;
