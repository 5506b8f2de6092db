//! A static advisor for programs in a language with move semantics and scoped
//! destruction. From the walk over a parsed program it keeps a tree of scopes with
//! the bindings of each, and proposes where an owned value could be released before
//! its scope ends, and which parameters taken by reference could take ownership.
//!
//! The walk reports what it meets to a [`symbol_table::SymbolTable`]; expressions are
//! classified by [`resolve::resolve_expr`]; the finished table is analyzed by
//! `SymbolTable::start_analyze`. Each operation is specified over the model in
//! [`model`], and [`laws`] states what holds of the advice.

pub mod analyzer;
pub mod assoc;
pub mod builtin;
pub mod error;
pub mod laws;
pub mod model;
pub mod path;
pub mod pre_record;
pub mod resolve;
pub mod symbol_table;
pub mod syntax_tree;
pub mod visitor;
