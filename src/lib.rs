//! Parser for the brace-delimited key/value text of game saves.
//!
//! A document is read into a tree of [`Value`]s. The executable parser in
//! [`parser`] is proved to give exactly what the grammar rules in
//! [`grammar`] gives, and repeated keys are folded by the rule of [`folding`].
//! [`laws`] states and proves properties of the grammar.

pub mod value;
pub mod grammar;
pub mod folding;
pub mod lexer;
pub mod parser;
pub mod save;
pub mod laws;

pub use parser::{parse_file, parse_map_key_value_pair, parse_map_kv_list, parse_value};
pub use save::{parse_save, ParsedSaveFile, SaveFile};
pub use value::{Failure, Value};
