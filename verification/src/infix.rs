//! Infix token sequences, and what their postfix form is proved to be:
//! free of parentheses, and balanced, so that it runs on a stack without
//! underflow and leaves one value.

use crate::parser::OperatorType;
use crate::parser::ParserError;
use crate::parser::Shunt;
use crate::parser::ValueView;
use crate::parser::operand_of;
use crate::parser::operator_of;
use crate::parser::to_postfix;
use crate::tokenizer::TokenType;
use crate::tokenizer::TokenView;
use crate::tokenizer::is_literal;
use crate::tokenizer::well_formed;
use vstd::prelude::*;

verus! {

/// Where a reader of infix tokens stands: whether an operand is due next,
/// and how many parentheses are open.
pub struct Phase {
    pub operand_due: bool,
    pub open: nat,
}

impl Phase {
    /// Where the reader stands after a token, if the token may come here. An
    /// operand or `(` comes where an operand is due; an operator or `)` comes
    /// after an operand, `)` only while a parenthesis is open.
    pub open spec fn after(self, token: TokenView) -> Option<Phase> {
        match token.token_type {
            TokenType::Number | TokenType::Boolean | TokenType::Variable => if self.operand_due {
                Some(Phase { operand_due: false, open: self.open })
            } else {
                None
            },
            TokenType::Operator => if self.operand_due {
                None
            } else {
                Some(Phase { operand_due: true, open: self.open })
            },
            TokenType::Parenthesis => if token.value[0] == '(' {
                if self.operand_due {
                    Some(Phase { operand_due: true, open: self.open + 1 })
                } else {
                    None
                }
            } else {
                if !self.operand_due && self.open > 0 {
                    Some(Phase { operand_due: false, open: (self.open - 1) as nat })
                } else {
                    None
                }
            },
            TokenType::Whitespace => None,
        }
    }

    /// Where the reader stands after a sequence of tokens, if each of them
    /// may come where it does.
    pub open spec fn after_all(self, tokens: Seq<TokenView>) -> Option<Phase>
        decreases tokens.len(),
    {
        if tokens.len() == 0 {
            Some(self)
        } else {
            match self.after(tokens[0]) {
                Some(next) => next.after_all(tokens.drop_first()),
                None => None,
            }
        }
    }
}

/// Whether the tokens form an infix expression: operands joined by binary
/// operators, any part of it that is an expression itself possibly enclosed
/// in parentheses, every token a literal of its kind.
pub open spec fn is_infix(tokens: Seq<TokenView>) -> bool {
    &&& well_formed(tokens)
    &&& (Phase { operand_due: true, open: 0 }).after_all(tokens) == Some(
        Phase { operand_due: false, open: 0 },
    )
}

/// How many values are on the stack after one postfix element, if the
/// element finds what it needs: an operator takes two values and leaves one,
/// anything else leaves one more.
pub open spec fn height_with(value: ValueView, height: nat) -> Option<nat> {
    if value is Operator {
        if height < 2 {
            None
        } else {
            Some((height - 1) as nat)
        }
    } else {
        Some(height + 1)
    }
}

/// How many values are on the stack after a postfix sequence has run from
/// a stack of `height` values, if no operator in it finds fewer than two.
pub open spec fn height_after(program: Seq<ValueView>, height: nat) -> Option<nat>
    decreases program.len(),
{
    if program.len() == 0 {
        Some(height)
    } else {
        match height_with(program[0], height) {
            Some(next) => height_after(program.drop_first(), next),
            None => None,
        }
    }
}

/// Whether a postfix sequence, run from an empty stack, never lacks a value
/// and leaves exactly one.
pub open spec fn balanced(program: Seq<ValueView>) -> bool {
    height_after(program, 0) == Some(1nat)
}

/// Whether no parenthesis marker occurs in a postfix sequence.
pub open spec fn free_of_parentheses(program: Seq<ValueView>) -> bool {
    forall|i: int|
        0 <= i < program.len() ==> #[trigger] program[i] != ValueView::Operator(
            OperatorType::LeftParenthesis,
        )
}

/// How many parentheses wait on the operator stack.
pub open spec fn open_groups(stack: Seq<OperatorType>) -> nat
    decreases stack.len(),
{
    if stack.len() == 0 {
        0
    } else if stack.last() is LeftParenthesis {
        open_groups(stack.drop_last()) + 1
    } else {
        open_groups(stack.drop_last())
    }
}

/// How many operators wait on the operator stack.
pub open spec fn waiting(stack: Seq<OperatorType>) -> nat
    decreases stack.len(),
{
    if stack.len() == 0 {
        0
    } else if stack.last() is LeftParenthesis {
        waiting(stack.drop_last())
    } else {
        waiting(stack.drop_last()) + 1
    }
}

/// Whether the state of the conversion fits where the reader stands: as
/// many parentheses wait as are open, and the output holds one value for each
/// operator that waits, and one more once an operand has come.
pub open spec fn fits(state: Shunt, phase: Phase) -> bool {
    &&& open_groups(state.stack) == phase.open
    &&& height_after(state.output, 0) == Some(
        if phase.operand_due {
            waiting(state.stack)
        } else {
            waiting(state.stack) + 1
        },
    )
}

/// A postfix sequence with one more element runs as the sequence does, and
/// then the element.
pub proof fn lemma_height_after_push(program: Seq<ValueView>, value: ValueView, height: nat)
    ensures
        height_after(program.push(value), height) == match height_after(program, height) {
            Some(reached) => height_with(value, reached),
            None => None,
        },
    decreases program.len(),
{
    let longer = program.push(value);
    if program.len() == 0 {
        assert(longer.drop_first() =~= Seq::empty());
        assert(longer[0] == value);
        match height_with(value, height) {
            Some(next) => {
                assert(height_after(longer.drop_first(), next) == Some(next));
            },
            None => {},
        }
    } else {
        assert(longer.drop_first() =~= program.drop_first().push(value));
        assert(longer[0] == program[0]);
        match height_with(program[0], height) {
            Some(next) => {
                lemma_height_after_push(program.drop_first(), value, next);
            },
            None => {},
        }
    }
}

/// Moving the tighter operators to the output keeps the parentheses that
/// wait, and keeps the output one value ahead of the operators that wait.
proof fn lemma_pop_tighter_fits(state: Shunt, op: OperatorType)
    requires
        height_after(state.output, 0) == Some(waiting(state.stack) + 1),
    ensures
        height_after(state.pop_tighter(op).output, 0) == Some(
            waiting(state.pop_tighter(op).stack) + 1,
        ),
        open_groups(state.pop_tighter(op).stack) == open_groups(state.stack),
    decreases state.stack.len(),
{
    if state.operator_on_top() && state.stack.last().priority() >= op.priority() {
        lemma_height_after_push(state.output, ValueView::Operator(state.stack.last()), 0);
        lemma_pop_tighter_fits(state.pop(), op);
    }
}

/// Moving a group's operators to the output keeps the parentheses that
/// wait, and keeps the output one value ahead of the operators that wait. A
/// parenthesis is then on top if one waits at all.
proof fn lemma_pop_group_fits(state: Shunt)
    requires
        height_after(state.output, 0) == Some(waiting(state.stack) + 1),
    ensures
        height_after(state.pop_group().output, 0) == Some(waiting(state.pop_group().stack) + 1),
        open_groups(state.pop_group().stack) == open_groups(state.stack),
        !state.pop_group().operator_on_top(),
    decreases state.stack.len(),
{
    if state.operator_on_top() {
        lemma_height_after_push(state.output, ValueView::Operator(state.stack.last()), 0);
        lemma_pop_group_fits(state.pop());
    }
}

/// A token that may come where the reader stands takes the conversion to a
/// state that fits where the reader stands then.
proof fn lemma_step_fits(state: Shunt, phase: Phase, token: TokenView)
    requires
        fits(state, phase),
        phase.after(token) is Some,
        is_literal(token.token_type, token.value),
    ensures
        state.step(token) is Ok,
        fits(state.step(token)->Ok_0, phase.after(token)->0),
{
    match token.token_type {
        TokenType::Number | TokenType::Boolean | TokenType::Variable => {
            lemma_height_after_push(state.output, operand_of(token), 0);
        },
        TokenType::Parenthesis => {
            if token.value[0] == '(' {
                assert(state.stack.push(OperatorType::LeftParenthesis).drop_last() =~= state.stack);
            } else {
                lemma_pop_group_fits(state);
            }
        },
        TokenType::Operator => {
            let op = operator_of(token.value)->0;
            let popped = state.pop_tighter(op);
            lemma_pop_tighter_fits(state, op);
            assert(popped.stack.push(op).drop_last() =~= popped.stack);
        },
        TokenType::Whitespace => {},
    }
}

/// Tokens that may come one after the other take the conversion to a state
/// that fits where the reader stands after them.
proof fn lemma_run_fits(state: Shunt, phase: Phase, tokens: Seq<TokenView>)
    requires
        fits(state, phase),
        phase.after_all(tokens) is Some,
        well_formed(tokens),
    ensures
        state.run(tokens) is Ok,
        fits(state.run(tokens)->Ok_0, phase.after_all(tokens)->0),
    decreases tokens.len(),
{
    if tokens.len() > 0 {
        assert(is_literal(tokens[0].token_type, tokens[0].value));
        lemma_step_fits(state, phase, tokens[0]);
        assert forall|i: int| 0 <= i < tokens.drop_first().len() implies is_literal(
            (#[trigger] tokens.drop_first()[i]).token_type,
            tokens.drop_first()[i].value,
        ) by {
            assert(tokens.drop_first()[i] == tokens[i + 1]);
        }
        lemma_run_fits(state.step(tokens[0])->Ok_0, phase.after(tokens[0])->0, tokens.drop_first());
    }
}

/// With no parenthesis open and an operand read last, the operators that
/// wait complete a balanced sequence.
proof fn lemma_finish_balanced(state: Shunt)
    requires
        open_groups(state.stack) == 0,
        height_after(state.output, 0) == Some(waiting(state.stack) + 1),
    ensures
        state.finish() is Ok,
        balanced(state.finish()->Ok_0),
    decreases state.stack.len(),
{
    if state.stack.len() > 0 {
        lemma_height_after_push(state.output, ValueView::Operator(state.stack.last()), 0);
        lemma_finish_balanced(state.pop());
    }
}

/// The postfix form of an infix expression exists and is balanced: run on
/// a stack, no operator in it lacks a value, and exactly one value is left.
pub proof fn lemma_infix_gives_balanced_postfix(tokens: Seq<TokenView>)
    requires
        is_infix(tokens),
    ensures
        to_postfix(tokens) is Ok,
        balanced(to_postfix(tokens)->Ok_0),
{
    let start = Shunt { output: Seq::empty(), stack: Seq::empty() };
    let phase = Phase { operand_due: true, open: 0 };
    lemma_run_fits(start, phase, tokens);
    lemma_finish_balanced(start.run(tokens)->Ok_0);
}

/// Moving the tighter operators to the output brings no parenthesis there.
proof fn lemma_pop_tighter_free(state: Shunt, op: OperatorType)
    requires
        free_of_parentheses(state.output),
    ensures
        free_of_parentheses(state.pop_tighter(op).output),
    decreases state.stack.len(),
{
    if state.operator_on_top() && state.stack.last().priority() >= op.priority() {
        lemma_pop_tighter_free(state.pop(), op);
    }
}

/// Moving a group's operators to the output brings no parenthesis there.
proof fn lemma_pop_group_free(state: Shunt)
    requires
        free_of_parentheses(state.output),
    ensures
        free_of_parentheses(state.pop_group().output),
    decreases state.stack.len(),
{
    if state.operator_on_top() {
        lemma_pop_group_free(state.pop());
    }
}

/// No token brings a parenthesis to the output.
proof fn lemma_run_free(state: Shunt, tokens: Seq<TokenView>)
    requires
        free_of_parentheses(state.output),
    ensures
        state.run(tokens) matches Ok(end) ==> free_of_parentheses(end.output),
    decreases tokens.len(),
{
    if tokens.len() > 0 {
        let token = tokens[0];
        match token.token_type {
            TokenType::Parenthesis => {
                lemma_pop_group_free(state);
            },
            TokenType::Operator => {
                lemma_pop_tighter_free(state, operator_of(token.value)->0);
            },
            _ => {},
        }
        match state.step(token) {
            Ok(next) => {
                lemma_run_free(next, tokens.drop_first());
            },
            Err(_) => {},
        }
    }
}

/// The operators that wait at the end bring no parenthesis to the output.
proof fn lemma_finish_free(state: Shunt)
    requires
        free_of_parentheses(state.output),
    ensures
        state.finish() matches Ok(program) ==> free_of_parentheses(program),
    decreases state.stack.len(),
{
    if state.stack.len() > 0 && !(state.stack.last() is LeftParenthesis) {
        lemma_finish_free(state.pop());
    }
}

/// No parenthesis reaches the postfix form: the markers on the operator
/// stack are dropped when their group closes.
pub proof fn lemma_postfix_is_free_of_parentheses(tokens: Seq<TokenView>)
    ensures
        to_postfix(tokens) matches Ok(program) ==> free_of_parentheses(program),
{
    let start = Shunt { output: Seq::empty(), stack: Seq::empty() };
    lemma_run_free(start, tokens);
    match start.run(tokens) {
        Ok(end) => {
            lemma_finish_free(end);
        },
        Err(_) => {},
    }
}

/// Whether a token is an operand: a number, a boolean or a variable.
pub open spec fn is_operand(token: TokenView) -> bool {
    token.token_type is Number || token.token_type is Boolean || token.token_type is Variable
}

/// Whether a token is an operator that its text spells.
pub open spec fn is_operator(token: TokenView) -> bool {
    token.token_type is Operator && operator_of(token.value) is Some
}

/// Precedence and associativity: of two operators in `a first b second c`,
/// the first is applied to `a` and `b` unless the second binds tighter; then
/// the second is applied to `b` and `c` first. Operators of one rank are
/// applied from left to right.
pub proof fn lemma_precedence_orders_two_operators(
    a: TokenView,
    first: TokenView,
    b: TokenView,
    second: TokenView,
    c: TokenView,
)
    requires
        is_operand(a),
        is_operator(first),
        is_operand(b),
        is_operator(second),
        is_operand(c),
    ensures
        to_postfix(seq![a, first, b, second, c]) == Ok::<Seq<ValueView>, ParserError>(
            if operator_of(first.value)->0.priority() >= operator_of(second.value)->0.priority() {
                seq![
                    operand_of(a),
                    operand_of(b),
                    ValueView::Operator(operator_of(first.value)->0),
                    operand_of(c),
                    ValueView::Operator(operator_of(second.value)->0),
                ]
            } else {
                seq![
                    operand_of(a),
                    operand_of(b),
                    operand_of(c),
                    ValueView::Operator(operator_of(second.value)->0),
                    ValueView::Operator(operator_of(first.value)->0),
                ]
            },
        ),
{
    reveal_with_fuel(Shunt::pop_tighter, 3);
    reveal_with_fuel(Shunt::finish, 4);
    let tokens = seq![a, first, b, second, c];
    let from_first = seq![first, b, second, c];
    let from_b = seq![b, second, c];
    let from_second = seq![second, c];
    let from_c = seq![c];
    assert(tokens.drop_first() =~= from_first);
    assert(from_first.drop_first() =~= from_b);
    assert(from_b.drop_first() =~= from_second);
    assert(from_second.drop_first() =~= from_c);
    assert(from_c.drop_first() =~= Seq::<TokenView>::empty());
    let start = Shunt { output: Seq::empty(), stack: Seq::empty() };
    let after_a = start.step(a)->Ok_0;
    let after_first = after_a.step(first)->Ok_0;
    let after_b = after_first.step(b)->Ok_0;
    let after_second = after_b.step(second)->Ok_0;
    let after_c = after_second.step(c)->Ok_0;
    assert(start.run(tokens) == after_a.run(from_first));
    assert(after_a.run(from_first) == after_first.run(from_b));
    assert(after_first.run(from_b) == after_b.run(from_second));
    assert(after_b.run(from_second) == after_second.run(from_c));
    assert(after_second.run(from_c) == after_c.run(Seq::empty()));
    assert(after_c.run(Seq::empty()) == Ok::<Shunt, ParserError>(after_c));
    let op1 = operator_of(first.value)->0;
    let op2 = operator_of(second.value)->0;
    assert(after_first.stack =~= seq![op1]);
    if op1.priority() >= op2.priority() {
        assert(after_c.stack =~= seq![op2]);
        assert(after_c.finish()->Ok_0 =~= seq![
            operand_of(a),
            operand_of(b),
            ValueView::Operator(op1),
            operand_of(c),
            ValueView::Operator(op2),
        ]);
    } else {
        assert(after_c.stack =~= seq![op1, op2]);
        assert(after_c.finish()->Ok_0 =~= seq![
            operand_of(a),
            operand_of(b),
            operand_of(c),
            ValueView::Operator(op2),
            ValueView::Operator(op1),
        ]);
    }
}

/// Whether a token is `(`.
pub open spec fn is_opening(token: TokenView) -> bool {
    token.token_type is Parenthesis && token.value.len() == 1 && token.value[0] == '('
}

/// Whether a token is `)`.
pub open spec fn is_closing(token: TokenView) -> bool {
    token.token_type is Parenthesis && token.value.len() == 1 && token.value[0] == ')'
}

/// Parentheses come before precedence: in `a first ( b second c )` the
/// second operator is applied to `b` and `c` first, however loosely it binds.
pub proof fn lemma_parentheses_group_on_the_right(
    a: TokenView,
    first: TokenView,
    opening: TokenView,
    b: TokenView,
    second: TokenView,
    c: TokenView,
    closing: TokenView,
)
    requires
        is_operand(a),
        is_operator(first),
        is_opening(opening),
        is_operand(b),
        is_operator(second),
        is_operand(c),
        is_closing(closing),
    ensures
        to_postfix(seq![a, first, opening, b, second, c, closing]) == Ok::<
            Seq<ValueView>,
            ParserError,
        >(
            seq![
                operand_of(a),
                operand_of(b),
                operand_of(c),
                ValueView::Operator(operator_of(second.value)->0),
                ValueView::Operator(operator_of(first.value)->0),
            ],
        ),
{
    reveal_with_fuel(Shunt::pop_tighter, 3);
    reveal_with_fuel(Shunt::pop_group, 3);
    reveal_with_fuel(Shunt::finish, 3);
    let tokens = seq![a, first, opening, b, second, c, closing];
    let from_first = seq![first, opening, b, second, c, closing];
    let from_opening = seq![opening, b, second, c, closing];
    let from_b = seq![b, second, c, closing];
    let from_second = seq![second, c, closing];
    let from_c = seq![c, closing];
    let from_closing = seq![closing];
    assert(tokens.drop_first() =~= from_first);
    assert(from_first.drop_first() =~= from_opening);
    assert(from_opening.drop_first() =~= from_b);
    assert(from_b.drop_first() =~= from_second);
    assert(from_second.drop_first() =~= from_c);
    assert(from_c.drop_first() =~= from_closing);
    assert(from_closing.drop_first() =~= Seq::<TokenView>::empty());
    let op1 = operator_of(first.value)->0;
    let op2 = operator_of(second.value)->0;
    let start = Shunt { output: Seq::empty(), stack: Seq::empty() };
    let after_a = start.step(a)->Ok_0;
    let after_first = after_a.step(first)->Ok_0;
    let after_opening = after_first.step(opening)->Ok_0;
    let after_b = after_opening.step(b)->Ok_0;
    let after_second = after_b.step(second)->Ok_0;
    let after_c = after_second.step(c)->Ok_0;
    assert(after_opening.stack =~= seq![op1, OperatorType::LeftParenthesis]);
    assert(after_c.stack =~= seq![op1, OperatorType::LeftParenthesis, op2]);
    assert(after_c.pop_group().stack =~= seq![op1, OperatorType::LeftParenthesis]);
    let after_closing = after_c.step(closing)->Ok_0;
    assert(after_closing.stack =~= seq![op1]);
    assert(start.run(tokens) == after_a.run(from_first));
    assert(after_a.run(from_first) == after_first.run(from_opening));
    assert(after_first.run(from_opening) == after_opening.run(from_b));
    assert(after_opening.run(from_b) == after_b.run(from_second));
    assert(after_b.run(from_second) == after_second.run(from_c));
    assert(after_second.run(from_c) == after_c.run(from_closing));
    assert(after_c.run(from_closing) == after_closing.run(Seq::empty()));
    assert(after_closing.run(Seq::empty()) == Ok::<Shunt, ParserError>(after_closing));
    assert(after_closing.finish()->Ok_0 =~= seq![
        operand_of(a),
        operand_of(b),
        operand_of(c),
        ValueView::Operator(op2),
        ValueView::Operator(op1),
    ]);
}

/// Parentheses come before precedence: in `( a first b ) second c` the
/// first operator is applied to `a` and `b` first, however loosely it binds.
pub proof fn lemma_parentheses_group_on_the_left(
    opening: TokenView,
    a: TokenView,
    first: TokenView,
    b: TokenView,
    closing: TokenView,
    second: TokenView,
    c: TokenView,
)
    requires
        is_opening(opening),
        is_operand(a),
        is_operator(first),
        is_operand(b),
        is_closing(closing),
        is_operator(second),
        is_operand(c),
    ensures
        to_postfix(seq![opening, a, first, b, closing, second, c]) == Ok::<
            Seq<ValueView>,
            ParserError,
        >(
            seq![
                operand_of(a),
                operand_of(b),
                ValueView::Operator(operator_of(first.value)->0),
                operand_of(c),
                ValueView::Operator(operator_of(second.value)->0),
            ],
        ),
{
    reveal_with_fuel(Shunt::pop_tighter, 3);
    reveal_with_fuel(Shunt::pop_group, 3);
    reveal_with_fuel(Shunt::finish, 3);
    let tokens = seq![opening, a, first, b, closing, second, c];
    let from_a = seq![a, first, b, closing, second, c];
    let from_first = seq![first, b, closing, second, c];
    let from_b = seq![b, closing, second, c];
    let from_closing = seq![closing, second, c];
    let from_second = seq![second, c];
    let from_c = seq![c];
    assert(tokens.drop_first() =~= from_a);
    assert(from_a.drop_first() =~= from_first);
    assert(from_first.drop_first() =~= from_b);
    assert(from_b.drop_first() =~= from_closing);
    assert(from_closing.drop_first() =~= from_second);
    assert(from_second.drop_first() =~= from_c);
    assert(from_c.drop_first() =~= Seq::<TokenView>::empty());
    let op1 = operator_of(first.value)->0;
    let op2 = operator_of(second.value)->0;
    let start = Shunt { output: Seq::empty(), stack: Seq::empty() };
    let after_opening = start.step(opening)->Ok_0;
    let after_a = after_opening.step(a)->Ok_0;
    let after_first = after_a.step(first)->Ok_0;
    let after_b = after_first.step(b)->Ok_0;
    assert(after_b.stack =~= seq![OperatorType::LeftParenthesis, op1]);
    assert(after_b.pop_group().stack =~= seq![OperatorType::LeftParenthesis]);
    let after_closing = after_b.step(closing)->Ok_0;
    assert(after_closing.stack =~= Seq::<OperatorType>::empty());
    let after_second = after_closing.step(second)->Ok_0;
    let after_c = after_second.step(c)->Ok_0;
    assert(after_c.stack =~= seq![op2]);
    assert(start.run(tokens) == after_opening.run(from_a));
    assert(after_opening.run(from_a) == after_a.run(from_first));
    assert(after_a.run(from_first) == after_first.run(from_b));
    assert(after_first.run(from_b) == after_b.run(from_closing));
    assert(after_b.run(from_closing) == after_closing.run(from_second));
    assert(after_closing.run(from_second) == after_second.run(from_c));
    assert(after_second.run(from_c) == after_c.run(Seq::empty()));
    assert(after_c.run(Seq::empty()) == Ok::<Shunt, ParserError>(after_c));
    assert(after_c.finish()->Ok_0 =~= seq![
        operand_of(a),
        operand_of(b),
        ValueView::Operator(op1),
        operand_of(c),
        ValueView::Operator(op2),
    ]);
}

/// How many parentheses are open after the tokens, read from a point
/// where `open` were; or `None` where a `)` comes while none is open.
pub open spec fn nesting(tokens: Seq<TokenView>, open: nat) -> Option<nat>
    decreases tokens.len(),
{
    if tokens.len() == 0 {
        Some(open)
    } else if !(tokens[0].token_type is Parenthesis) {
        nesting(tokens.drop_first(), open)
    } else if tokens[0].value[0] == '(' {
        nesting(tokens.drop_first(), open + 1)
    } else if open == 0 {
        None
    } else {
        nesting(tokens.drop_first(), (open - 1) as nat)
    }
}

/// Moving the tighter operators to the output keeps the parentheses that
/// wait.
proof fn lemma_pop_tighter_keeps_groups(state: Shunt, op: OperatorType)
    ensures
        open_groups(state.pop_tighter(op).stack) == open_groups(state.stack),
    decreases state.stack.len(),
{
    if state.operator_on_top() && state.stack.last().priority() >= op.priority() {
        lemma_pop_tighter_keeps_groups(state.pop(), op);
    }
}

/// Moving a group's operators to the output keeps the parentheses that
/// wait, and leaves one on top if one waits at all.
proof fn lemma_pop_group_keeps_groups(state: Shunt)
    ensures
        open_groups(state.pop_group().stack) == open_groups(state.stack),
        !state.pop_group().operator_on_top(),
    decreases state.stack.len(),
{
    if state.operator_on_top() {
        lemma_pop_group_keeps_groups(state.pop());
    }
}

/// As many parentheses wait on the stack as are open, and the conversion
/// fails where a `)` comes while none is open.
proof fn lemma_run_follows_nesting(state: Shunt, tokens: Seq<TokenView>)
    requires
        well_formed(tokens),
    ensures
        match nesting(tokens, open_groups(state.stack)) {
            Some(open) => state.run(tokens) is Ok && open_groups(state.run(tokens)->Ok_0.stack)
                == open,
            None => state.run(tokens) == Err::<Shunt, ParserError>(
                ParserError::NoMatchingLeftParenthesis,
            ),
        },
    decreases tokens.len(),
{
    if tokens.len() > 0 {
        let token = tokens[0];
        let open = open_groups(state.stack);
        assert(is_literal(token.token_type, token.value));
        assert forall|i: int| 0 <= i < tokens.drop_first().len() implies is_literal(
            (#[trigger] tokens.drop_first()[i]).token_type,
            tokens.drop_first()[i].value,
        ) by {
            assert(tokens.drop_first()[i] == tokens[i + 1]);
        }
        if !(token.token_type is Parenthesis) {
            if token.token_type is Operator {
                let op = operator_of(token.value)->0;
                let popped = state.pop_tighter(op);
                lemma_pop_tighter_keeps_groups(state, op);
                assert(popped.stack.push(op).drop_last() =~= popped.stack);
            }
            let next = state.step(token)->Ok_0;
            assert(open_groups(next.stack) == open);
            lemma_run_follows_nesting(next, tokens.drop_first());
        } else if token.value[0] == '(' {
            let next = state.step(token)->Ok_0;
            assert(next.stack.drop_last() =~= state.stack);
            assert(open_groups(next.stack) == open + 1);
            lemma_run_follows_nesting(next, tokens.drop_first());
        } else {
            lemma_pop_group_keeps_groups(state);
            let group = state.pop_group();
            if open > 0 {
                assert(group.stack.len() > 0);
                let next = state.step(token)->Ok_0;
                assert(open_groups(next.stack) == open - 1);
                lemma_run_follows_nesting(next, tokens.drop_first());
            } else {
                assert(group.stack.len() == 0);
            }
        }
    }
}

/// The end fails where a parenthesis still waits, and nowhere else.
proof fn lemma_finish_follows_groups(state: Shunt)
    ensures
        if open_groups(state.stack) == 0 {
            state.finish() is Ok
        } else {
            state.finish() == Err::<Seq<ValueView>, ParserError>(ParserError::ExtraLeftParenthesis)
        },
    decreases state.stack.len(),
{
    if state.stack.len() > 0 && !(state.stack.last() is LeftParenthesis) {
        lemma_finish_follows_groups(state.pop());
    }
}

/// The conversion fails on unbalanced parentheses and on nothing else: on a
/// `)` that comes while no `(` is open, and else on a `(` that is still open
/// at the end.
pub proof fn lemma_postfix_exists_unless_unbalanced(tokens: Seq<TokenView>)
    requires
        well_formed(tokens),
    ensures
        match nesting(tokens, 0) {
            None => to_postfix(tokens) == Err::<Seq<ValueView>, ParserError>(
                ParserError::NoMatchingLeftParenthesis,
            ),
            Some(open) => if open == 0 {
                to_postfix(tokens) is Ok
            } else {
                to_postfix(tokens) == Err::<Seq<ValueView>, ParserError>(
                    ParserError::ExtraLeftParenthesis,
                )
            },
        },
{
    let start = Shunt { output: Seq::empty(), stack: Seq::empty() };
    lemma_run_follows_nesting(start, tokens);
    match start.run(tokens) {
        Ok(end) => {
            lemma_finish_follows_groups(end);
        },
        Err(_) => {},
    }
}

} // verus!
