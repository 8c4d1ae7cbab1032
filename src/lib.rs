//! A small formula language: parsing, evaluation against a value table,
//! dependency extraction and aggregate functions over a document tree.

pub mod ast;
pub mod document;
pub mod eval;
pub mod expression;
pub mod laws;
pub mod parser;
pub mod value;

pub use value::{BinOp, ExpValue, ValueTable};
pub use parser::{parse, Calculator, ParamItem, Pair, Pairs, ParseError};
pub use ast::{CompareOperator, Function, FunctionPart, Identifier};
pub use expression::{Expression, ExpressionPart};
pub use eval::eval;
pub use document::Document;
pub use laws::{dedup_keeps_each_once, dependencies_are_unique, error_poisons, unbound_identifier_gives_error, evaluation_is_repeatable, regrouping_keeps_value, reordered_sum_keeps_value, parsed_tree_builds};
