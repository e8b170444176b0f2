//! Extract fenced code blocks from a Markdown document and stitch their lines
//! into per-target files, following each block's JSON metadata: append at the
//! end, insert at a line, or replace a line range, plus auxiliary removals.

pub mod codechunk;
pub mod codefile;
pub mod codegrab;
pub mod error;
pub mod json;
