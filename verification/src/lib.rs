//! Infix expressions over numbers, booleans and named variables, compiled
//! once to postfix form and evaluated as often as wanted.
//!
//! [`tokenizer`] splits a text into tokens, [`parser`] brings the tokens into
//! postfix form by the shunting-yard algorithm, [`emitter`] binds numbers to
//! the variables and runs the postfix form on a stack, and [`expression`]
//! puts the three together. Numbers are IEEE-754 singles, held as bit
//! patterns: see [`single`].
//!
//! What is proved of the whole stands in [`infix`], [`typing`], [`tree`] and
//! [`reading`]: every infix expression has a postfix form, which is the
//! postorder of the one tree that precedence, association to the left and
//! parentheses give it; evaluating that form gives the value of the tree;
//! and whether an evaluation is defined, and of which type its value is, is
//! decided by the expression alone.

pub mod emitter;
pub mod expression;
pub mod infix;
pub mod parser;
pub mod reading;
pub mod single;
pub mod text;
pub mod tokenizer;
pub mod tree;
pub mod typing;

pub use emitter::{BindVariablesError, EmitResult, EvalError, VariableMap};
pub use expression::Expression;
pub use parser::ParserError;
pub use tokenizer::TokenizerError;
