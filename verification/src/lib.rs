//! Text-editing core: byte scanning, line lexing, incremental token caches,
//! render caches, Git status parsing and remote file-system descriptions.

pub mod buffer;
pub mod git;
pub mod incremental_lexer;
pub mod lexer;
pub mod remote_fs;
pub mod render_prep;
pub mod simd_utils;
pub mod ssh;
pub mod text;
