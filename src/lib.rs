pub mod ast;
pub mod combinator;
pub mod compile;
pub mod driver;
pub mod lambda;
pub mod parse;
pub mod program;
pub mod reduce;
pub mod rewrite;
pub mod show;

pub use ast::{BinaryOp, Constant, Constructor, Data, Expression, Import, UnaryOp};
pub use combinator::{builtin, foreign, Combinator, Nil, I};
pub use compile::{CompilerError, Golang, Target};
pub use driver::{
    compile_ast, compile_source, compile_stripped, main_warnings, source_warnings, term_of_source,
    CompileFailure,
};
pub use lambda::Lambda;
pub use parse::{
    parse_ast, parse_constant_declaration, parse_constructor_declaration, parse_data_declaration,
    parse_expression, parse_function_declaration, parse_import, parse_type_declaration, ParseError,
    ParseErrorKind, Source,
};
pub use program::{Function, AST};
pub use reduce::{Reduce, ReductionError};
