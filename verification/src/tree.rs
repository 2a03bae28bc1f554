//! What an expression means: the tree that precedence, associativity and
//! parentheses give it, and the proof that the postfix form is that tree's
//! postorder, so that evaluation gives the tree's value.

use crate::emitter::EmitResult;
use crate::emitter::EvalError;
use crate::emitter::Outcome;
use crate::emitter::applied;
use crate::emitter::bound;
use crate::emitter::evaluation;
use crate::emitter::execute;
use crate::emitter::substituted;
use crate::infix::Phase;
use crate::infix::is_infix;
use crate::infix::is_operand;
use crate::infix::is_operator;
use crate::parser::OperatorType;
use crate::parser::ParserError;
use crate::parser::Shunt;
use crate::parser::ValueView;
use crate::parser::operand_of;
use crate::parser::operator_of;
use crate::parser::to_postfix;
use crate::tokenizer::TokenType;
use crate::tokenizer::TokenView;
use crate::tokenizer::well_formed;
use crate::typing::Kind;
use crate::typing::kind_of;
use crate::typing::lemma_evaluation_follows_types;
use crate::typing::predicted;
use vstd::prelude::*;

verus! {

/// An expression as a tree.
pub enum Tree {
    /// A number, a boolean or a variable.
    Operand(TokenView),
    /// An expression in parentheses.
    Group(Box<Tree>),
    /// An operator between two expressions.
    Binary(Box<Tree>, TokenView, Box<Tree>),
}

/// The token `(`.
pub open spec fn opening() -> TokenView {
    TokenView { token_type: TokenType::Parenthesis, value: seq!['('] }
}

/// The token `)`.
pub open spec fn closing() -> TokenView {
    TokenView { token_type: TokenType::Parenthesis, value: seq![')'] }
}

impl Tree {
    /// The tokens of the expression as it is written, from left to right.
    pub open spec fn tokens(self) -> Seq<TokenView>
        decreases self,
    {
        match self {
            Tree::Operand(token) => seq![token],
            Tree::Group(inner) => seq![opening()] + inner.tokens() + seq![closing()],
            Tree::Binary(left, operator, right) => left.tokens() + seq![operator] + right.tokens(),
        }
    }

    /// The postorder of the tree: each operator after its two operands.
    pub open spec fn postorder(self) -> Seq<ValueView>
        decreases self,
    {
        match self {
            Tree::Operand(token) => seq![operand_of(token)],
            Tree::Group(inner) => inner.postorder(),
            Tree::Binary(left, operator, right) => left.postorder() + right.postorder() + seq![
                ValueView::Operator(operator_of(operator.value)->0),
            ],
        }
    }

    /// The rank of the operator at the root, where the root is an operator.
    pub open spec fn root_priority(self) -> Option<nat> {
        match self {
            Tree::Binary(_, operator, _) => Some(operator_of(operator.value)->0.priority()),
            _ => None,
        }
    }

    /// Whether the tree is the one that its tokens are read as. Outside
    /// parentheses, the left operand of an operator holds no operator at its
    /// root that binds more loosely, and the right operand none that binds
    /// more loosely or equally: operators of one rank group to the left.
    pub open spec fn respects_precedence(self) -> bool
        decreases self,
    {
        match self {
            Tree::Operand(token) => is_operand(token),
            Tree::Group(inner) => inner.respects_precedence(),
            Tree::Binary(left, operator, right) => {
                let rank = operator_of(operator.value)->0.priority();
                &&& is_operator(operator)
                &&& left.respects_precedence()
                &&& right.respects_precedence()
                &&& left.root_priority() matches Some(below) ==> below >= rank
                &&& right.root_priority() matches Some(below) ==> below > rank
            },
        }
    }

    /// The value of the tree with the numbers of the map for its variables,
    /// where every operator in it finds operands of the types it takes.
    pub open spec fn value(self, map: Map<Seq<char>, u32>) -> Option<EmitResult>
        decreases self,
    {
        match self {
            Tree::Operand(token) => match bound(operand_of(token), map) {
                ValueView::Number(bits) => Some(EmitResult::Number(bits)),
                ValueView::Boolean(value) => Some(EmitResult::Boolean(value)),
                _ => None,
            },
            Tree::Group(inner) => inner.value(map),
            Tree::Binary(left, operator, right) => match (left.value(map), right.value(map)) {
                (Some(first), Some(second)) => applied(
                    operator_of(operator.value)->0,
                    first,
                    second,
                ),
                _ => None,
            },
        }
    }

    /// The operators of the tree that still wait on the stack when its last
    /// token has been read: those on its right edge, the root first.
    pub open spec fn pending(self) -> Seq<OperatorType>
        decreases self,
    {
        match self {
            Tree::Binary(_, operator, right) => seq![operator_of(operator.value)->0]
                + right.pending(),
            _ => Seq::empty(),
        }
    }

    /// The output that the tree has made when its last token has been read.
    pub open spec fn emitted(self) -> Seq<ValueView>
        decreases self,
    {
        match self {
            Tree::Operand(token) => seq![operand_of(token)],
            Tree::Group(inner) => inner.postorder(),
            Tree::Binary(left, _, right) => left.postorder() + right.emitted(),
        }
    }
}

/// The operators of a stack as they go to the output, the top one first.
pub open spec fn flushed(stack: Seq<OperatorType>) -> Seq<ValueView>
    decreases stack.len(),
{
    if stack.len() == 0 {
        Seq::empty()
    } else {
        seq![ValueView::Operator(stack.last())] + flushed(stack.drop_last())
    }
}

/// Whether the operators are operators indeed, each of at least the given
/// rank.
pub open spec fn tight(stack: Seq<OperatorType>, rank: nat) -> bool {
    forall|i: int|
        0 <= i < stack.len() ==> !(#[trigger] stack[i] is LeftParenthesis) && stack[i].priority()
            >= rank
}

/// Whether nothing on the stack goes to the output for an operator of the
/// given rank: the stack is empty, or a parenthesis is on top, or an operator
/// that binds more loosely.
pub open spec fn holds_below(stack: Seq<OperatorType>, rank: nat) -> bool {
    stack.len() == 0 || stack.last() is LeftParenthesis || stack.last().priority() < rank
}

/// The operator at the bottom of a stack goes to the output last.
proof fn lemma_flushed_bottom(bottom: OperatorType, stack: Seq<OperatorType>)
    ensures
        flushed(seq![bottom] + stack) == flushed(stack) + seq![ValueView::Operator(bottom)],
    decreases stack.len(),
{
    let whole = seq![bottom] + stack;
    if stack.len() == 0 {
        assert(whole.drop_last() =~= Seq::empty());
        assert(flushed(whole.drop_last()) =~= Seq::empty());
        assert(flushed(whole) =~= seq![ValueView::Operator(bottom)]);
        assert(flushed(stack) + seq![ValueView::Operator(bottom)] =~= seq![
            ValueView::Operator(bottom),
        ]);
    } else {
        assert(whole.drop_last() =~= seq![bottom] + stack.drop_last());
        assert(whole.last() == stack.last());
        lemma_flushed_bottom(bottom, stack.drop_last());
        assert(flushed(whole) =~= flushed(stack) + seq![ValueView::Operator(bottom)]);
    }
}

/// The postorder of a tree is what it has put out when its last token is
/// read, followed by the operators that still wait.
proof fn lemma_postorder_splits(tree: Tree)
    ensures
        tree.postorder() == tree.emitted() + flushed(tree.pending()),
    decreases tree,
{
    match tree {
        Tree::Operand(_) => {
            assert(tree.emitted() + flushed(tree.pending()) =~= tree.postorder());
        },
        Tree::Group(_) => {
            assert(tree.emitted() + flushed(tree.pending()) =~= tree.postorder());
        },
        Tree::Binary(left, operator, right) => {
            let op = operator_of(operator.value)->0;
            lemma_postorder_splits(*right);
            lemma_flushed_bottom(op, right.pending());
            assert(tree.emitted() + flushed(tree.pending()) =~= tree.postorder());
        },
    }
}

/// The operators that a tree leaves waiting bind at least as tightly as its
/// root.
proof fn lemma_pending_is_tight(tree: Tree)
    requires
        tree.respects_precedence(),
    ensures
        tree.root_priority() matches Some(rank) ==> tight(tree.pending(), rank),
        tree.root_priority() is None ==> tree.pending().len() == 0,
    decreases tree,
{
    match tree {
        Tree::Binary(left, operator, right) => {
            lemma_pending_is_tight(*right);
        },
        _ => {},
    }
}

/// Operators on top that bind at least as tightly as a new one go to the
/// output, the top one first, down to what holds below.
proof fn lemma_pop_tighter_flushes(
    output: Seq<ValueView>,
    below: Seq<OperatorType>,
    above: Seq<OperatorType>,
    op: OperatorType,
)
    requires
        tight(above, op.priority()),
        holds_below(below, op.priority()),
    ensures
        (Shunt { output, stack: below + above }).pop_tighter(op) == (Shunt {
            output: output + flushed(above),
            stack: below,
        }),
    decreases above.len(),
{
    let state = Shunt { output, stack: below + above };
    if above.len() == 0 {
        assert(below + above =~= below);
        assert(output + flushed(above) =~= output);
    } else {
        assert(state.stack.last() == above.last());
        assert(state.stack.drop_last() =~= below + above.drop_last());
        let next = output.push(ValueView::Operator(above.last()));
        assert(tight(above.drop_last(), op.priority())) by {
            assert forall|i: int| 0 <= i < above.drop_last().len() implies !(
            #[trigger] above.drop_last()[i] is LeftParenthesis) && above.drop_last()[i].priority()
                >= op.priority() by {
                assert(above.drop_last()[i] == above[i]);
            }
        }
        lemma_pop_tighter_flushes(next, below, above.drop_last(), op);
        assert(next + flushed(above.drop_last()) =~= output + flushed(above));
    }
}

/// The operators above a parenthesis go to the output, the top one first.
proof fn lemma_pop_group_flushes(
    output: Seq<ValueView>,
    below: Seq<OperatorType>,
    above: Seq<OperatorType>,
)
    requires
        tight(above, 0),
        below.len() == 0 || below.last() is LeftParenthesis,
    ensures
        (Shunt { output, stack: below + above }).pop_group() == (Shunt {
            output: output + flushed(above),
            stack: below,
        }),
    decreases above.len(),
{
    let state = Shunt { output, stack: below + above };
    if above.len() == 0 {
        assert(below + above =~= below);
        assert(output + flushed(above) =~= output);
    } else {
        assert(state.stack.last() == above.last());
        assert(state.stack.drop_last() =~= below + above.drop_last());
        let next = output.push(ValueView::Operator(above.last()));
        assert(tight(above.drop_last(), 0)) by {
            assert forall|i: int| 0 <= i < above.drop_last().len() implies !(
            #[trigger] above.drop_last()[i] is LeftParenthesis) && above.drop_last()[i].priority()
                >= 0 by {
                assert(above.drop_last()[i] == above[i]);
            }
        }
        lemma_pop_group_flushes(next, below, above.drop_last());
        assert(next + flushed(above.drop_last()) =~= output + flushed(above));
    }
}

/// At the end the operators that wait go to the output, the top one first.
proof fn lemma_finish_flushes(output: Seq<ValueView>, stack: Seq<OperatorType>)
    requires
        tight(stack, 0),
    ensures
        (Shunt { output, stack }).finish() == Ok::<Seq<ValueView>, ParserError>(
            output + flushed(stack),
        ),
    decreases stack.len(),
{
    if stack.len() == 0 {
        assert(output + flushed(stack) =~= output);
    } else {
        let next = output.push(ValueView::Operator(stack.last()));
        assert(tight(stack.drop_last(), 0)) by {
            assert forall|i: int| 0 <= i < stack.drop_last().len() implies !(
            #[trigger] stack.drop_last()[i] is LeftParenthesis) && stack.drop_last()[i].priority()
                >= 0 by {
                assert(stack.drop_last()[i] == stack[i]);
            }
        }
        lemma_finish_flushes(next, stack.drop_last());
        assert(next + flushed(stack.drop_last()) =~= output + flushed(stack));
    }
}

/// Tokens are read one after the other: a sequence in two parts is read as
/// the first part and then the second.
pub proof fn lemma_run_in_parts(state: Shunt, first: Seq<TokenView>, second: Seq<TokenView>)
    ensures
        state.run(first + second) == match state.run(first) {
            Ok(middle) => middle.run(second),
            Err(error) => Err(error),
        },
    decreases first.len(),
{
    if first.len() == 0 {
        assert(first + second =~= second);
    } else {
        assert((first + second)[0] == first[0]);
        assert((first + second).drop_first() =~= first.drop_first() + second);
        match state.step(first[0]) {
            Ok(next) => {
                lemma_run_in_parts(next, first.drop_first(), second);
            },
            Err(_) => {},
        }
    }
}

/// Reading one token is one step.
proof fn lemma_run_one(state: Shunt, token: TokenView)
    ensures
        state.run(seq![token]) == state.step(token),
{
    assert(seq![token].drop_first() =~= Seq::<TokenView>::empty());
    match state.step(token) {
        Ok(next) => {
            assert(next.run(Seq::empty()) == Ok::<Shunt, ParserError>(next));
        },
        Err(_) => {},
    }
}

/// Reading the tokens of a tree puts out what the tree emits and leaves its
/// pending operators on top of the stack, if nothing that waited before
/// binds as tightly as the root of the tree.
proof fn lemma_run_of_tree(tree: Tree, output: Seq<ValueView>, stack: Seq<OperatorType>)
    requires
        tree.respects_precedence(),
        tree.root_priority() matches Some(rank) ==> holds_below(stack, rank),
    ensures
        (Shunt { output, stack }).run(tree.tokens()) == Ok::<Shunt, ParserError>(
            Shunt { output: output + tree.emitted(), stack: stack + tree.pending() },
        ),
    decreases tree,
{
    let state = Shunt { output, stack };
    match tree {
        Tree::Operand(token) => {
            lemma_run_one(state, token);
            assert(output.push(operand_of(token)) =~= output + tree.emitted());
            assert(stack =~= stack + tree.pending());
        },
        Tree::Group(inner) => {
            let marker = OperatorType::LeftParenthesis;
            let inside = Shunt { output, stack: stack.push(marker) };
            lemma_run_in_parts(state, seq![opening()] + inner.tokens(), seq![closing()]);
            lemma_run_in_parts(state, seq![opening()], inner.tokens());
            lemma_run_one(state, opening());
            assert(state.step(opening()) == Ok::<Shunt, ParserError>(inside));
            lemma_run_of_tree(*inner, output, stack.push(marker));
            let closed = Shunt {
                output: output + inner.emitted(),
                stack: stack.push(marker) + inner.pending(),
            };
            assert(state.run(seq![opening()] + inner.tokens()) == Ok::<Shunt, ParserError>(
                closed,
            ));
            lemma_run_one(closed, closing());
            lemma_pending_is_tight(*inner);
            assert(tight(inner.pending(), 0)) by {
                if inner.root_priority() is Some {
                    assert forall|i: int| 0 <= i < inner.pending().len() implies !(
                    #[trigger] inner.pending()[i] is LeftParenthesis)
                        && inner.pending()[i].priority() >= 0 by {}
                }
            }
            lemma_pop_group_flushes(closed.output, stack.push(marker), inner.pending());
            lemma_postorder_splits(*inner);
            assert(stack.push(marker).drop_last() =~= stack);
            assert(output + inner.emitted() + flushed(inner.pending()) =~= output
                + tree.emitted());
            assert(stack =~= stack + tree.pending());
        },
        Tree::Binary(left, operator, right) => {
            let op = operator_of(operator.value)->0;
            let rank = op.priority();
            lemma_run_in_parts(state, left.tokens() + seq![operator], right.tokens());
            lemma_run_in_parts(state, left.tokens(), seq![operator]);
            lemma_run_of_tree(*left, output, stack);
            let after_left = Shunt {
                output: output + left.emitted(),
                stack: stack + left.pending(),
            };
            lemma_run_one(after_left, operator);
            lemma_pending_is_tight(*left);
            assert(tight(left.pending(), rank)) by {
                if left.root_priority() is Some {
                    assert forall|i: int| 0 <= i < left.pending().len() implies !(
                    #[trigger] left.pending()[i] is LeftParenthesis)
                        && left.pending()[i].priority() >= rank by {}
                }
            }
            lemma_pop_tighter_flushes(after_left.output, stack, left.pending(), op);
            lemma_postorder_splits(*left);
            let after_operator = Shunt {
                output: output + left.postorder(),
                stack: stack.push(op),
            };
            assert(output + left.emitted() + flushed(left.pending()) =~= output
                + left.postorder());
            assert(after_left.step(operator) == Ok::<Shunt, ParserError>(after_operator));
            lemma_run_of_tree(*right, after_operator.output, after_operator.stack);
            assert(output + left.postorder() + right.emitted() =~= output + tree.emitted());
            assert(stack.push(op) + right.pending() =~= stack + tree.pending());
        },
    }
}

/// The postfix form of an expression is the postorder of its tree: each
/// operator follows its two operands, by precedence, from left to right
/// among operators of one rank, and by parentheses before either.
pub proof fn lemma_postfix_is_postorder(tree: Tree)
    requires
        tree.respects_precedence(),
    ensures
        to_postfix(tree.tokens()) == Ok::<Seq<ValueView>, ParserError>(tree.postorder()),
{
    let empty_output = Seq::<ValueView>::empty();
    let empty_stack = Seq::<OperatorType>::empty();
    lemma_run_of_tree(tree, empty_output, empty_stack);
    lemma_pending_is_tight(tree);
    assert(tight(tree.pending(), 0)) by {
        if tree.root_priority() is Some {
            assert forall|i: int| 0 <= i < tree.pending().len() implies !(
            #[trigger] tree.pending()[i] is LeftParenthesis) && tree.pending()[i].priority()
                >= 0 by {}
        }
    }
    lemma_finish_flushes(empty_output + tree.emitted(), empty_stack + tree.pending());
    lemma_postorder_splits(tree);
    assert(empty_stack + tree.pending() =~= tree.pending());
    assert(empty_output + tree.emitted() + flushed(tree.pending()) =~= tree.postorder());
}

/// A postfix sequence in two parts runs as the first part and then the
/// second.
pub proof fn lemma_execute_in_parts(
    first: Seq<ValueView>,
    second: Seq<ValueView>,
    stack: Seq<EmitResult>,
)
    ensures
        execute(first + second, stack) == match execute(first, stack) {
            Outcome::Finished(middle) => execute(second, middle),
            Outcome::Underflow => Outcome::Underflow,
            Outcome::Stuck => Outcome::Stuck,
        },
    decreases first.len(),
{
    if first.len() == 0 {
        assert(first + second =~= second);
    } else {
        let whole = first + second;
        assert(whole[0] == first[0]);
        assert(whole.drop_first() =~= first.drop_first() + second);
        match first[0] {
            ValueView::Number(bits) => {
                lemma_execute_in_parts(
                    first.drop_first(),
                    second,
                    stack.push(EmitResult::Number(bits)),
                );
            },
            ValueView::Boolean(value) => {
                lemma_execute_in_parts(
                    first.drop_first(),
                    second,
                    stack.push(EmitResult::Boolean(value)),
                );
            },
            ValueView::Operator(op) => {
                if stack.len() >= 2 {
                    match applied(op, stack[stack.len() - 2], stack[stack.len() - 1]) {
                        Some(value) => {
                            lemma_execute_in_parts(
                                first.drop_first(),
                                second,
                                stack.drop_last().drop_last().push(value),
                            );
                        },
                        None => {},
                    }
                }
            },
            ValueView::Variable(_) => {},
        }
    }
}

/// The postorder of a tree, run with numbers for its variables, puts the
/// value of the tree on the stack and touches nothing below it; it gets
/// stuck where the tree has no value.
proof fn lemma_execute_of_tree(tree: Tree, map: Map<Seq<char>, u32>, stack: Seq<EmitResult>)
    requires
        tree.respects_precedence(),
    ensures
        execute(substituted(tree.postorder(), map), stack) == match tree.value(map) {
            Some(value) => Outcome::Finished(stack.push(value)),
            None => Outcome::Stuck,
        },
    decreases tree,
{
    match tree {
        Tree::Operand(token) => {
            let program = substituted(tree.postorder(), map);
            assert(program =~= seq![bound(operand_of(token), map)]);
            assert(program.drop_first() =~= Seq::<ValueView>::empty());
            match bound(operand_of(token), map) {
                ValueView::Number(bits) => {
                    let next = stack.push(EmitResult::Number(bits));
                    assert(execute(program.drop_first(), next) == Outcome::Finished(next));
                    assert(execute(program, stack) == execute(program.drop_first(), next));
                },
                ValueView::Boolean(value) => {
                    let next = stack.push(EmitResult::Boolean(value));
                    assert(execute(program.drop_first(), next) == Outcome::Finished(next));
                    assert(execute(program, stack) == execute(program.drop_first(), next));
                },
                _ => {},
            }
        },
        Tree::Group(inner) => {
            lemma_execute_of_tree(*inner, map, stack);
        },
        Tree::Binary(left, operator, right) => {
            let op = operator_of(operator.value)->0;
            let first = substituted(left.postorder(), map);
            let second = substituted(right.postorder(), map);
            let last = seq![ValueView::Operator(op)];
            assert(substituted(tree.postorder(), map) =~= first + (second + last));
            lemma_execute_in_parts(first, second + last, stack);
            lemma_execute_of_tree(*left, map, stack);
            match left.value(map) {
                Some(a) => {
                    lemma_execute_in_parts(second, last, stack.push(a));
                    lemma_execute_of_tree(*right, map, stack.push(a));
                    match right.value(map) {
                        Some(b) => {
                            let full = stack.push(a).push(b);
                            assert(last.drop_first() =~= Seq::<ValueView>::empty());
                            assert(last[0] == ValueView::Operator(op));
                            assert(full[full.len() - 2] == a && full[full.len() - 1] == b);
                            match applied(op, a, b) {
                                Some(value) => {
                                    let next = full.drop_last().drop_last().push(value);
                                    assert(next =~= stack.push(value));
                                    assert(execute(last.drop_first(), next) == Outcome::Finished(
                                        next,
                                    ));
                                    assert(execute(last, full) == Outcome::Finished(next));
                                },
                                None => {
                                    assert(execute(last, full) == Outcome::Stuck);
                                },
                            }
                        },
                        None => {},
                    }
                },
                None => {},
            }
        },
    }
}

/// Evaluating the postorder of a tree gives the value of the tree.
pub proof fn lemma_evaluation_is_tree_value(tree: Tree, map: Map<Seq<char>, u32>)
    requires
        tree.respects_precedence(),
    ensures
        evaluation(Some(substituted(tree.postorder(), map))) == match tree.value(map) {
            Some(value) => Some(Ok::<EmitResult, EvalError>(value)),
            None => None,
        },
{
    lemma_execute_of_tree(tree, map, Seq::empty());
}

/// Whether a tree has a value is decided by the tree alone: it has one,
/// whatever numbers are bound to its variables, where the types say that
/// its postorder gives one, and then the value is of the type that they
/// tell.
pub proof fn lemma_tree_has_a_value_where_types_say(tree: Tree, map: Map<Seq<char>, u32>)
    requires
        tree.respects_precedence(),
    ensures
        match tree.value(map) {
            Some(value) => predicted(tree.postorder()) == Some(
                Ok::<Kind, EvalError>(kind_of(value)),
            ),
            None => predicted(tree.postorder()) is None,
        },
{
    lemma_evaluation_is_tree_value(tree, map);
    lemma_evaluation_follows_types(tree.postorder(), map);
}

/// An expression means its tree. The tokens of a tree that is built by
/// precedence, by association to the left and by parentheses have a postfix
/// form, and evaluating that form with numbers for the variables gives the
/// value of the tree: each operator applied to the values of its two
/// operands, the left one first. Where an operator in the tree does not take
/// the types of its operands, evaluation is not defined.
pub proof fn lemma_expression_means_its_tree(tree: Tree, map: Map<Seq<char>, u32>)
    requires
        tree.respects_precedence(),
    ensures
        to_postfix(tree.tokens()) is Ok,
        evaluation(Some(substituted(to_postfix(tree.tokens())->Ok_0, map))) == match tree.value(
            map,
        ) {
            Some(value) => Some(Ok::<EmitResult, EvalError>(value)),
            None => None,
        },
{
    lemma_postfix_is_postorder(tree);
    lemma_evaluation_is_tree_value(tree, map);
}

/// Tokens are read one after the other: where the reader stands after a
/// sequence in two parts is where it stands after the second part, read from
/// where it stands after the first.
pub proof fn lemma_after_all_in_parts(phase: Phase, first: Seq<TokenView>, second: Seq<TokenView>)
    ensures
        phase.after_all(first + second) == match phase.after_all(first) {
            Some(middle) => middle.after_all(second),
            None => None,
        },
    decreases first.len(),
{
    if first.len() == 0 {
        assert(first + second =~= second);
    } else {
        assert((first + second)[0] == first[0]);
        assert((first + second).drop_first() =~= first.drop_first() + second);
        match phase.after(first[0]) {
            Some(next) => {
                lemma_after_all_in_parts(next, first.drop_first(), second);
            },
            None => {},
        }
    }
}

/// The tokens of a tree may come where an operand is due, and stand for one
/// operand: after them an operator is due, and as many parentheses are open
/// as before.
proof fn lemma_tree_is_an_operand(tree: Tree, open: nat)
    requires
        tree.respects_precedence(),
    ensures
        (Phase { operand_due: true, open }).after_all(tree.tokens()) == Some(
            Phase { operand_due: false, open },
        ),
    decreases tree,
{
    let due = Phase { operand_due: true, open };
    let done = Phase { operand_due: false, open };
    match tree {
        Tree::Operand(token) => {
            assert(tree.tokens().drop_first() =~= Seq::<TokenView>::empty());
            assert(due.after(token) == Some(done));
            assert(done.after_all(Seq::empty()) == Some(done));
        },
        Tree::Group(inner) => {
            let inside = Phase { operand_due: true, open: open + 1 };
            let filled = Phase { operand_due: false, open: open + 1 };
            lemma_after_all_in_parts(due, seq![opening()] + inner.tokens(), seq![closing()]);
            lemma_after_all_in_parts(due, seq![opening()], inner.tokens());
            assert(seq![opening()].drop_first() =~= Seq::<TokenView>::empty());
            assert(due.after(opening()) == Some(inside));
            assert(inside.after_all(Seq::empty()) == Some(inside));
            lemma_tree_is_an_operand(*inner, open + 1);
            assert(seq![closing()].drop_first() =~= Seq::<TokenView>::empty());
            assert(filled.after(closing()) == Some(done));
            assert(done.after_all(Seq::empty()) == Some(done));
        },
        Tree::Binary(left, operator, right) => {
            lemma_after_all_in_parts(due, left.tokens() + seq![operator], right.tokens());
            lemma_after_all_in_parts(due, left.tokens(), seq![operator]);
            lemma_tree_is_an_operand(*left, open);
            assert(seq![operator].drop_first() =~= Seq::<TokenView>::empty());
            assert(done.after(operator) == Some(due));
            assert(due.after_all(Seq::empty()) == Some(due));
            lemma_tree_is_an_operand(*right, open);
        },
    }
}

/// The tokens of a tree are an infix expression, if each of them carries a
/// literal of its kind.
pub proof fn lemma_tokens_of_tree_are_infix(tree: Tree)
    requires
        tree.respects_precedence(),
        well_formed(tree.tokens()),
    ensures
        is_infix(tree.tokens()),
{
    lemma_tree_is_an_operand(tree, 0);
}

} // verus!
