//! An expression: text compiled once to postfix form, to be bound and
//! evaluated as often as wanted.

use crate::emitter::BindVariablesError;
use crate::emitter::EmitResult;
use crate::emitter::Emitter;
use crate::emitter::EvalError;
use crate::emitter::VariableMap;
use crate::emitter::evaluation;
use crate::emitter::first_unbound;
use crate::emitter::has_variable;
use crate::emitter::substituted;
use crate::infix::is_infix;
use crate::infix::lemma_infix_gives_balanced_postfix;
use crate::parser::ParserError;
use crate::parser::ValueView;
use crate::parser::to_postfix;
use crate::parser::tokens_to_rpn;
use crate::reading::lemma_infix_has_a_tree;
use crate::reading::tree_of;
use crate::tokenizer::TokenView;
use crate::tokenizer::Tokenizer;
use crate::tokenizer::TokenizerError;
use crate::tokenizer::lex;
use crate::tokenizer::lexical_forms;
use crate::tokenizer::spells;
use crate::tree::lemma_evaluation_is_tree_value;
use crate::tree::lemma_postfix_is_postorder;
use crate::typing::Kind;
use crate::typing::lemma_evaluation_follows_types;
use crate::typing::lemma_shape_follows_height;
use crate::typing::predicted;
use crate::typing::well_typed;
use vstd::prelude::*;
use vstd::std_specs::convert::FromSpecImpl;

verus! {

/// An expression: its text, and the postfix form that the text was
/// compiled to.
#[derive(Debug)]
pub struct Expression {
    pub str_expr: String,
    emitter: Emitter,
}

impl Clone for Expression {
    fn clone(&self) -> (copy: Self)
        ensures
            copy.text() == self.text(),
            copy.postfix() == self.postfix(),
            copy.resolved() == self.resolved(),
    {
        Expression { str_expr: self.str_expr.clone(), emitter: self.emitter.clone() }
    }
}

/// Why a text is no expression.
#[derive(Debug, PartialEq, Eq, Clone)]
pub enum ExpressionCreationError {
    TokenizerError(TokenizerError),
    ParserError(ParserError),
}

impl From<TokenizerError> for ExpressionCreationError {
    fn from(value: TokenizerError) -> (error: Self) {
        ExpressionCreationError::TokenizerError(value)
    }
}

impl FromSpecImpl<TokenizerError> for ExpressionCreationError {
    open spec fn obeys_from_spec() -> bool {
        true
    }

    open spec fn from_spec(value: TokenizerError) -> Self {
        ExpressionCreationError::TokenizerError(value)
    }
}

impl From<ParserError> for ExpressionCreationError {
    fn from(value: ParserError) -> (error: Self) {
        ExpressionCreationError::ParserError(value)
    }
}

impl FromSpecImpl<ParserError> for ExpressionCreationError {
    open spec fn obeys_from_spec() -> bool {
        true
    }

    open spec fn from_spec(value: ParserError) -> Self {
        ExpressionCreationError::ParserError(value)
    }
}

impl Expression {
    /// The text that the expression was compiled from.
    pub closed spec fn text(&self) -> Seq<char> {
        self.str_expr@
    }

    /// The postfix form of the text, variables included.
    pub closed spec fn postfix(&self) -> Seq<ValueView> {
        self.emitter.postfix()
    }

    /// The postfix form with numbers in place of its variables, once there
    /// is one.
    pub closed spec fn resolved(&self) -> Option<Seq<ValueView>> {
        self.emitter.resolved()
    }

    /// Compiles a text in infix notation: it is split into tokens, and the
    /// tokens are brought into postfix form. A text without variables is
    /// ready to be evaluated. The error is that of the step that failed.
    pub fn new(expr: &str) -> (result: Result<Expression, ExpressionCreationError>)
        ensures
            match result {
                Ok(expression) => {
                    &&& expression.text() == expr@
                    &&& lex(lexical_forms(), expr@) matches Ok(tokens)
                    &&& spells(expr@, tokens)
                    &&& to_postfix(tokens) matches Ok(postfix)
                    &&& expression.postfix() == postfix
                    &&& expression.resolved() == if has_variable(postfix) {
                        None
                    } else {
                        Some(postfix)
                    }
                },
                Err(ExpressionCreationError::TokenizerError(TokenizerError::NoTokenMatched(rest))) => {
                    &&& lex(lexical_forms(), expr@) == Err::<Seq<TokenView>, Seq<char>>(rest@)
                    &&& rest@.len() > 0
                    &&& rest@.is_suffix_of(expr@)
                },
                Err(ExpressionCreationError::ParserError(error)) => {
                    &&& lex(lexical_forms(), expr@) matches Ok(tokens)
                    &&& to_postfix(tokens) == Err::<Seq<ValueView>, ParserError>(error)
                },
            },
    {
        let tokenizer = Tokenizer::new();
        let tokens = match tokenizer.tokenize(expr) {
            Ok(tokens) => tokens,
            Err(error) => {
                return Err(ExpressionCreationError::TokenizerError(error));
            },
        };
        let rpn = match tokens_to_rpn(tokens) {
            Ok(rpn) => rpn,
            Err(error) => {
                return Err(ExpressionCreationError::ParserError(error));
            },
        };
        let emitter = Emitter::new(rpn);
        Ok(Expression { str_expr: expr.to_owned(), emitter })
    }

    /// Gives the variables their numbers: the postfix form is resolved anew
    /// from the map, whatever was bound before. Not needed for an expression
    /// without variables. Where a variable is missing from the map, the error
    /// names the first such, and what was resolved before stays.
    pub fn bind_variables(&mut self, var_map: &VariableMap) -> (result: Result<
        (),
        BindVariablesError,
    >)
        ensures
            final(self).postfix() == old(self).postfix(),
            final(self).text() == old(self).text(),
            match result {
                Ok(_) => first_unbound(old(self).postfix(), var_map@) is None
                    && final(self).resolved() == Some(
                    substituted(old(self).postfix(), var_map@),
                ),
                Err(BindVariablesError::UnknownVariable(name)) => first_unbound(
                    old(self).postfix(),
                    var_map@,
                ) == Some(name@) && final(self).resolved() == old(self).resolved(),
            },
    {
        self.emitter.bind_variables(var_map)
    }

    /// What evaluation will give, as far as the types tell before any number
    /// is bound: nothing, where an operator does not find operands of the types
    /// it takes or the expression is empty; else an error, or the type of the
    /// value.
    pub fn result_type(&self) -> (result: Option<Result<Kind, EvalError>>)
        ensures
            result == predicted(self.postfix()),
    {
        self.emitter.result_type()
    }

    /// Evaluates the expression, wherever evaluation is defined, and says
    /// where it is not.
    pub fn checked_eval(&self) -> (result: Option<Result<EmitResult, EvalError>>)
        ensures
            result == evaluation(self.resolved()),
    {
        self.emitter.checked_eval()
    }

    /// Evaluates the expression with the numbers that were bound last. The
    /// expression must be one in which every operator finds operands of the
    /// types it takes, and which is not empty.
    pub fn eval(&self) -> (result: Result<EmitResult, EvalError>)
        requires
            self.resolved() is Some ==> predicted(self.postfix()) is Some,
        ensures
            evaluation(self.resolved()) == Some(result),
    {
        self.emitter.eval()
    }
}

/// An infix expression in which every operator finds operands of the types
/// it takes has a value, whatever numbers are bound to its variables: its
/// postfix form exists, and evaluating that with the numbers in place gives
/// neither an error nor nothing.
pub proof fn lemma_infix_expression_has_a_value(tokens: Seq<TokenView>, map: Map<Seq<char>, u32>)
    requires
        is_infix(tokens),
        to_postfix(tokens) matches Ok(program) ==> well_typed(program),
    ensures
        to_postfix(tokens) is Ok,
        evaluation(Some(substituted(to_postfix(tokens)->Ok_0, map))) matches Some(Ok(_)),
{
    lemma_infix_gives_balanced_postfix(tokens);
    let program = to_postfix(tokens)->Ok_0;
    lemma_shape_follows_height(program, Seq::empty());
    lemma_evaluation_follows_types(program, map);
}

/// Evaluating twice gives the same: what an evaluation gives is decided by
/// what is resolved, and evaluating changes nothing of it.
pub proof fn lemma_evaluation_is_repeatable(
    expression: Expression,
    first: Result<EmitResult, EvalError>,
    second: Result<EmitResult, EvalError>,
)
    requires
        evaluation(expression.resolved()) == Some(first),
        evaluation(expression.resolved()) == Some(second),
    ensures
        first == second,
{
}

/// What an evaluation gives is decided by the postfix form and the numbers
/// bound last: it is the same for an expression that was bound before and
/// for one that is bound for the first time.
pub proof fn lemma_value_depends_on_last_binding(
    earlier: Expression,
    fresh: Expression,
    map: Map<Seq<char>, u32>,
)
    requires
        earlier.postfix() == fresh.postfix(),
        earlier.resolved() == Some(substituted(earlier.postfix(), map)),
        fresh.resolved() == Some(substituted(fresh.postfix(), map)),
    ensures
        evaluation(earlier.resolved()) == evaluation(fresh.resolved()),
{
}

/// An expression means its tree. Every infix expression has a postfix form,
/// which is the postorder of the tree that precedence, association to the
/// left and parentheses give it; and evaluating that form with numbers for
/// the variables gives the value of the tree, or nothing where an operator
/// in the tree does not take the types of its operands.
pub proof fn lemma_infix_expression_means_its_tree(
    tokens: Seq<TokenView>,
    map: Map<Seq<char>, u32>,
)
    requires
        is_infix(tokens),
    ensures
        tree_of(tokens).respects_precedence(),
        tree_of(tokens).tokens() == tokens,
        to_postfix(tokens) == Ok::<Seq<ValueView>, ParserError>(tree_of(tokens).postorder()),
        evaluation(Some(substituted(tree_of(tokens).postorder(), map))) == match tree_of(
            tokens,
        ).value(map) {
            Some(value) => Some(Ok::<EmitResult, EvalError>(value)),
            None => None,
        },
{
    lemma_infix_has_a_tree(tokens);
    lemma_postfix_is_postorder(tree_of(tokens));
    lemma_evaluation_is_tree_value(tree_of(tokens), map);
}

} // verus!
