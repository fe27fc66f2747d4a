//! Core of a symbolic-algebra engine: a canonical recursive expression
//! representation with a total order, substitution and traversal algebra,
//! and a small language front end (lexer, operator-precedence parser and a
//! rewrite-rule/definition interpreter) that turns textual statements into
//! normalized expression trees.

pub mod base;
pub mod lang;

pub use crate::base::{Constant, Dom, Expr, Form, Number, Symbol};
pub use crate::base::{AOp, Algebra, BOp, Function, UOp};
pub use crate::base::ord::Rel;
pub use crate::base::sq::{Sequence, SqOp};
pub use crate::lang::parse::Parser;
pub use crate::lang::token::{Lexer, Token, TokenKeyword, TokenKind};
pub use crate::lang::{Ast, Interpreter, LangError, Span};
