//! A scoped ignore-rule engine for searching directory trees: ignore-file
//! lines are compiled into glob rules, rules are layered by the directory
//! they were loaded from, and the files that survive are searched line by
//! line.

pub mod matcher;
pub mod paths;
pub mod resolver;
pub mod rule;
pub mod scope;
pub mod search;
pub mod text;
pub mod tree;
pub mod walker;
