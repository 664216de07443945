//! Finds dependencies that a Python project declares in its `pyproject.toml`
//! but never imports in its source code.
//!
//! The crate has four verified parts:
//!
//! * a permissive scanner that extracts `import` / `from .. import ..`
//!   statements from source text while skipping comments and triple-quoted
//!   blocks ([`parser`]);
//! * an alias deriver that maps a declared dependency name to the import
//!   names that could confirm its use ([`aliases`]);
//! * an ordered resolution table from alias to declared names, drained as
//!   matches are confirmed ([`table`]);
//! * a resolver that feeds extracted imports through the tables and reports
//!   the names that were never confirmed ([`resolver`]).
//!
//! Reading the manifest itself goes through a thin trusted layer over the
//! `toml` crate ([`manifest`]).  The fixed install-name overrides live in
//! [`name_map`], the ignore-list handling in [`ignore_list`], and the shared
//! character and string helpers in [`text`].

pub mod aliases;
pub mod ignore_list;
pub mod manifest;
pub mod name_map;
pub mod parser;
pub mod resolver;
pub mod table;
pub mod text;
