//! Operators, postfix values, and the conversion of an infix token sequence
//! to postfix form.

use crate::infix::free_of_parentheses;
use crate::infix::lemma_postfix_is_free_of_parentheses;
use crate::single;
use crate::text::characters;
use crate::tokenizer::TokenList;
use crate::tokenizer::TokenType;
use crate::tokenizer::TokenView;
use crate::tokenizer::is_literal;
use crate::tokenizer::well_formed;
use vstd::prelude::*;
use vstd::std_specs::cmp::PartialEqSpecImpl;

verus! {

/// The operators, and the marker that stands for `(` on the operator stack.
#[derive(PartialEq, Eq, Structural, Debug, Clone, Copy)]
pub enum OperatorType {
    /// +
    Plus,
    /// -
    Minus,
    /// *
    Times,
    /// /
    Divide,
    /// &&
    And,
    /// ||
    Or,
    /// <
    LT,
    /// <=
    LE,
    /// >
    GT,
    /// >=
    GE,
    /// =
    Eq,
    /// An opening parenthesis waiting on the operator stack for its partner.
    /// It is no operator: it never occurs in a token or in postfix output.
    LeftParenthesis,
}

/// Why tokens have no postfix form.
#[derive(Debug, PartialEq, Eq, Structural, Clone, Copy)]
pub enum ParserError {
    /// A `)` came with no `(` open.
    NoMatchingLeftParenthesis,
    /// A `(` was still open when the tokens ended.
    ExtraLeftParenthesis,
}

/// The operator that a text spells, if it spells one.
pub open spec fn operator_of(text: Seq<char>) -> Option<OperatorType> {
    if text.len() == 1 {
        match text[0] {
            '+' => Some(OperatorType::Plus),
            '-' => Some(OperatorType::Minus),
            '*' => Some(OperatorType::Times),
            '/' => Some(OperatorType::Divide),
            '<' => Some(OperatorType::LT),
            '>' => Some(OperatorType::GT),
            '=' => Some(OperatorType::Eq),
            _ => None,
        }
    } else if text.len() == 2 {
        match (text[0], text[1]) {
            ('&', '&') => Some(OperatorType::And),
            ('|', '|') => Some(OperatorType::Or),
            ('<', '=') => Some(OperatorType::LE),
            ('>', '=') => Some(OperatorType::GE),
            _ => None,
        }
    } else {
        None
    }
}

/// The boolean that a text spells, if it spells one.
pub open spec fn boolean_of(text: Seq<char>) -> Option<bool> {
    if text == seq!['t', 'r', 'u', 'e'] {
        Some(true)
    } else if text == seq!['f', 'a', 'l', 's', 'e'] {
        Some(false)
    } else {
        None
    }
}

/// Reads a boolean, if the text spells one.
pub fn recognize_boolean(text: &str) -> (value: Option<bool>)
    ensures
        value == boolean_of(text@),
{
    let chars = characters(text);
    if chars.len() == 4 && chars[0] == 't' && chars[1] == 'r' && chars[2] == 'u' && chars[3]
        == 'e' {
        assert(chars@ =~= seq!['t', 'r', 'u', 'e']);
        Some(true)
    } else if chars.len() == 5 && chars[0] == 'f' && chars[1] == 'a' && chars[2] == 'l'
        && chars[3] == 's' && chars[4] == 'e' {
        assert(chars@ =~= seq!['f', 'a', 'l', 's', 'e']);
        Some(false)
    } else {
        proof {
            let yes = seq!['t', 'r', 'u', 'e'];
            let no = seq!['f', 'a', 'l', 's', 'e'];
            if chars@ == yes {
                assert(yes[0] == 't' && yes[1] == 'r' && yes[2] == 'u' && yes[3] == 'e');
            }
            if chars@ == no {
                assert(no[0] == 'f' && no[1] == 'a' && no[2] == 'l' && no[3] == 's' && no[4]
                    == 'e');
            }
        }
        None
    }
}

impl OperatorType {
    /// `+ - * /`
    pub open spec fn is_arithmetic(self) -> bool {
        self is Plus || self is Minus || self is Times || self is Divide
    }

    /// `< <= > >= =`
    pub open spec fn is_relational(self) -> bool {
        self is LT || self is LE || self is GT || self is GE || self is Eq
    }

    /// `&& ||`
    pub open spec fn is_logical(self) -> bool {
        self is And || self is Or
    }

    /// How tightly an operator binds: a higher rank binds tighter. The
    /// parenthesis marker has no rank of its own; 0 stands for it here.
    pub open spec fn priority(self) -> nat {
        match self {
            OperatorType::LeftParenthesis => 0,
            OperatorType::Or => 1,
            OperatorType::And => 2,
            OperatorType::Eq => 3,
            OperatorType::LT | OperatorType::LE | OperatorType::GT | OperatorType::GE => 4,
            OperatorType::Plus | OperatorType::Minus => 5,
            OperatorType::Times | OperatorType::Divide => 6,
        }
    }

    /// What an arithmetic operator makes of two numbers.
    pub open spec fn arithmetic(self, first: u32, second: u32) -> u32 {
        match self {
            OperatorType::Plus => single::sum(first, second),
            OperatorType::Minus => single::difference(first, second),
            OperatorType::Times => single::product(first, second),
            _ => single::quotient(first, second),
        }
    }

    /// What a relational operator makes of two numbers.
    pub open spec fn comparison(self, first: u32, second: u32) -> bool {
        match self {
            OperatorType::LT => single::less(first, second),
            OperatorType::LE => single::less_or_equal(first, second),
            OperatorType::GT => single::less(second, first),
            OperatorType::GE => single::less_or_equal(second, first),
            _ => single::equal(first, second),
        }
    }

    /// What a logical operator makes of two booleans.
    pub open spec fn conditional(self, first: bool, second: bool) -> bool {
        match self {
            OperatorType::And => first && second,
            _ => first || second,
        }
    }

    /// Reads an operator, if the text spells one.
    pub fn recognize(text: &str) -> (op: Option<Self>)
        ensures
            op == operator_of(text@),
    {
        let length: usize = text.unicode_len();
        if length == 1 {
            match text.get_char(0) {
                '+' => Some(OperatorType::Plus),
                '-' => Some(OperatorType::Minus),
                '*' => Some(OperatorType::Times),
                '/' => Some(OperatorType::Divide),
                '<' => Some(OperatorType::LT),
                '>' => Some(OperatorType::GT),
                '=' => Some(OperatorType::Eq),
                _ => None,
            }
        } else if length == 2 {
            match (text.get_char(0), text.get_char(1)) {
                ('&', '&') => Some(OperatorType::And),
                ('|', '|') => Some(OperatorType::Or),
                ('<', '=') => Some(OperatorType::LE),
                ('>', '=') => Some(OperatorType::GE),
                _ => None,
            }
        } else {
            None
        }
    }

    /// Reads an operator from a text that spells one.
    pub fn from_str(text: &str) -> (op: Self)
        requires
            operator_of(text@) is Some,
        ensures
            operator_of(text@) == Some(op),
    {
        match OperatorType::recognize(text) {
            Some(op) => op,
            None => vstd::pervasive::unreached(),
        }
    }

    /// The precedence rank of an operator: the higher, the tighter it binds.
    pub fn get_priority(&self) -> (rank: u32)
        requires
            !(self is LeftParenthesis),
        ensures
            rank == self.priority(),
            1 <= rank <= 6,
    {
        match self {
            OperatorType::Or => 1,
            OperatorType::And => 2,
            OperatorType::Eq => 3,
            OperatorType::LT | OperatorType::LE | OperatorType::GT | OperatorType::GE => 4,
            OperatorType::Plus | OperatorType::Minus => 5,
            _ => 6,
        }
    }

    /// Applies an arithmetic operator to two numbers. Division by zero is no
    /// error: it gives an infinity or a NaN.
    pub fn eval_nums(&self, first: u32, second: u32) -> (result: u32)
        requires
            self.is_arithmetic(),
        ensures
            result == self.arithmetic(first, second),
            self is Divide && single::is_zero(second) ==> !single::is_finite(result),
    {
        match self {
            OperatorType::Plus => single::rounded_sum(first, second),
            OperatorType::Minus => single::rounded_difference(first, second),
            OperatorType::Times => single::rounded_product(first, second),
            _ => single::rounded_quotient(first, second),
        }
    }

    /// Applies a logical operator to two booleans.
    pub fn eval_conditional(&self, first: bool, second: bool) -> (result: bool)
        requires
            self.is_logical(),
        ensures
            result == self.conditional(first, second),
    {
        match self {
            OperatorType::And => first && second,
            _ => first || second,
        }
    }

    /// Applies a relational operator to two numbers.
    pub fn eval_comparison(&self, first: u32, second: u32) -> (result: bool)
        requires
            self.is_relational(),
        ensures
            result == self.comparison(first, second),
    {
        match self {
            OperatorType::LT => single::is_less(first, second),
            OperatorType::LE => single::is_less_or_equal(first, second),
            OperatorType::GT => single::is_less(second, first),
            OperatorType::GE => single::is_less_or_equal(second, first),
            _ => single::is_equal(first, second),
        }
    }
}

/// An element of a postfix sequence. A number is held as the bit pattern of
/// an IEEE-754 single.
#[derive(Debug, Clone)]
pub enum Value {
    Operator(OperatorType),
    Number(u32),
    Boolean(bool),
    Variable(String),
}

/// A sequence in postfix, that is reverse Polish, notation.
pub type Rpn = Vec<Value>;

/// A postfix element as contracts see it.
pub enum ValueView {
    Operator(OperatorType),
    Number(u32),
    Boolean(bool),
    Variable(Seq<char>),
}

impl View for Value {
    type V = ValueView;

    open spec fn view(&self) -> ValueView {
        match self {
            Value::Operator(op) => ValueView::Operator(*op),
            Value::Number(bits) => ValueView::Number(*bits),
            Value::Boolean(value) => ValueView::Boolean(*value),
            Value::Variable(name) => ValueView::Variable(name@),
        }
    }
}

impl DeepView for Value {
    type V = ValueView;

    open spec fn deep_view(&self) -> ValueView {
        self@
    }
}

impl ValueView {
    /// Equality of postfix elements: numbers are equal as IEEE numbers, so
    /// the two zeros are equal and a NaN equals nothing.
    pub open spec fn same(self, other: ValueView) -> bool {
        match (self, other) {
            (ValueView::Operator(a), ValueView::Operator(b)) => a == b,
            (ValueView::Number(a), ValueView::Number(b)) => single::equal(a, b),
            (ValueView::Boolean(a), ValueView::Boolean(b)) => a == b,
            (ValueView::Variable(a), ValueView::Variable(b)) => a == b,
            _ => false,
        }
    }
}

impl PartialEq for Value {
    fn eq(&self, other: &Value) -> (equal: bool) {
        match (self, other) {
            (Value::Operator(a), Value::Operator(b)) => *a == *b,
            (Value::Number(a), Value::Number(b)) => single::is_equal(*a, *b),
            (Value::Boolean(a), Value::Boolean(b)) => *a == *b,
            (Value::Variable(a), Value::Variable(b)) => *a == *b,
            _ => false,
        }
    }
}

impl PartialEqSpecImpl for Value {
    open spec fn obeys_eq_spec() -> bool {
        true
    }

    open spec fn eq_spec(&self, other: &Value) -> bool {
        self@.same(other@)
    }
}

/// The postfix element that an operand token stands for: the number that a
/// number literal denotes, the boolean that a boolean literal spells, or the
/// variable of that name.
pub open spec fn operand_of(token: TokenView) -> ValueView {
    match token.token_type {
        TokenType::Number => ValueView::Number(single::parsed(token.value)->0),
        TokenType::Boolean => ValueView::Boolean(boolean_of(token.value)->0),
        _ => ValueView::Variable(token.value),
    }
}

/// The state of the conversion: the postfix output so far, and the operators
/// that wait, the last one on top.
pub struct Shunt {
    pub output: Seq<ValueView>,
    pub stack: Seq<OperatorType>,
}

impl Shunt {
    /// Moves the operator on top of the stack to the output.
    pub open spec fn pop(self) -> Shunt {
        Shunt {
            output: self.output.push(ValueView::Operator(self.stack.last())),
            stack: self.stack.drop_last(),
        }
    }

    /// Whether an operator is on top of the stack, and not a parenthesis.
    pub open spec fn operator_on_top(self) -> bool {
        self.stack.len() > 0 && !(self.stack.last() is LeftParenthesis)
    }

    /// Moves operators to the output for as long as the one on top binds at
    /// least as tightly as `op`: operators of one rank associate to the left.
    pub open spec fn pop_tighter(self, op: OperatorType) -> Shunt
        decreases self.stack.len(),
    {
        if self.operator_on_top() && self.stack.last().priority() >= op.priority() {
            self.pop().pop_tighter(op)
        } else {
            self
        }
    }

    /// Moves operators to the output until a parenthesis is on top or the
    /// stack is empty.
    pub open spec fn pop_group(self) -> Shunt
        decreases self.stack.len(),
    {
        if self.operator_on_top() {
            self.pop().pop_group()
        } else {
            self
        }
    }

    /// What one token does to the state. An operand goes to the output. An
    /// operator waits on the stack, after those on top of it that bind at
    /// least as tightly have gone to the output. `(` waits on the stack, and
    /// `)` sends the operators above the nearest `(` to the output and drops
    /// that `(`. This speaks of tokens that carry a literal of their kind.
    pub open spec fn step(self, token: TokenView) -> Result<Shunt, ParserError> {
        match token.token_type {
            TokenType::Number | TokenType::Boolean | TokenType::Variable => Ok(
                Shunt { output: self.output.push(operand_of(token)), stack: self.stack },
            ),
            TokenType::Parenthesis => if token.value[0] == '(' {
                Ok(
                    Shunt {
                        output: self.output,
                        stack: self.stack.push(OperatorType::LeftParenthesis),
                    },
                )
            } else {
                let group = self.pop_group();
                if group.stack.len() == 0 {
                    Err(ParserError::NoMatchingLeftParenthesis)
                } else {
                    Ok(Shunt { output: group.output, stack: group.stack.drop_last() })
                }
            },
            TokenType::Operator => {
                let op = operator_of(token.value)->0;
                let popped = self.pop_tighter(op);
                Ok(Shunt { output: popped.output, stack: popped.stack.push(op) })
            },
            TokenType::Whitespace => Ok(self),
        }
    }

    /// What a sequence of tokens does to the state, from left to right.
    pub open spec fn run(self, tokens: Seq<TokenView>) -> Result<Shunt, ParserError>
        decreases tokens.len(),
    {
        if tokens.len() == 0 {
            Ok(self)
        } else {
            match self.step(tokens[0]) {
                Ok(next) => next.run(tokens.drop_first()),
                Err(error) => Err(error),
            }
        }
    }

    /// The output once the tokens have ended: the operators that still wait
    /// follow, the top one first. A parenthesis among them was never closed.
    pub open spec fn finish(self) -> Result<Seq<ValueView>, ParserError>
        decreases self.stack.len(),
    {
        if self.stack.len() == 0 {
            Ok(self.output)
        } else if self.stack.last() is LeftParenthesis {
            Err(ParserError::ExtraLeftParenthesis)
        } else {
            self.pop().finish()
        }
    }
}

/// The postfix form of an infix token sequence by the shunting-yard
/// algorithm, or the parenthesis that has no partner.
pub open spec fn to_postfix(tokens: Seq<TokenView>) -> Result<Seq<ValueView>, ParserError> {
    match (Shunt { output: Seq::empty(), stack: Seq::empty() }).run(tokens) {
        Ok(state) => state.finish(),
        Err(error) => Err(error),
    }
}

/// Converts infix tokens to postfix: operands keep their order, and each
/// operator follows its operands, by precedence and from left to right
/// among equals. No parenthesis is left in the result. The tokens must carry
/// literals of their kinds, as those of the tokenizer do.
pub fn tokens_to_rpn(tokens: TokenList) -> (result: Result<Rpn, ParserError>)
    requires
        well_formed(tokens.deep_view()),
    ensures
        match result {
            Ok(rpn) => to_postfix(tokens.deep_view()) == Ok::<Seq<ValueView>, ParserError>(
                rpn.deep_view(),
            ) && free_of_parentheses(rpn.deep_view()),
            Err(error) => to_postfix(tokens.deep_view()) == Err::<Seq<ValueView>, ParserError>(
                error,
            ),
        },
{
    let mut token_queue: Rpn = Vec::new();
    let mut operator_stack: Vec<OperatorType> = Vec::new();
    let ghost all = tokens.deep_view();
    let ghost start = Shunt { output: Seq::empty(), stack: Seq::empty() };
    assert(token_queue.deep_view() =~= Seq::empty());
    assert(all.skip(0) =~= all);
    let mut i: usize = 0;
    while i < tokens.len()
        invariant
            i <= tokens.len(),
            all == tokens.deep_view(),
            well_formed(all),
            start == (Shunt { output: Seq::empty(), stack: Seq::empty() }),
            start.run(all) == (Shunt {
                output: token_queue.deep_view(),
                stack: operator_stack@,
            }).run(all.skip(i as int)),
        decreases tokens.len() - i,
    {
        let token = &tokens[i];
        let ghost before = Shunt { output: token_queue.deep_view(), stack: operator_stack@ };
        proof {
            assert(all.skip(i as int).drop_first() =~= all.skip(i + 1));
            assert(all.skip(i as int)[0] == token@);
            assert(is_literal(all[i as int].token_type, all[i as int].value));
        }
        match token.token_type {
            TokenType::Number => {
                let bits: u32 = match single::read_decimal(token.value.as_str()) {
                    Some(bits) => bits,
                    None => vstd::pervasive::unreached(),
                };
                token_queue.push(Value::Number(bits));
                assert(token_queue.deep_view() =~= before.output.push(ValueView::Number(bits)));
            },
            TokenType::Boolean => {
                let value: bool = match recognize_boolean(token.value.as_str()) {
                    Some(value) => value,
                    None => vstd::pervasive::unreached(),
                };
                token_queue.push(Value::Boolean(value));
                assert(token_queue.deep_view() =~= before.output.push(ValueView::Boolean(value)));
            },
            TokenType::Variable => {
                token_queue.push(Value::Variable(token.value.clone()));
                assert(token_queue.deep_view() =~= before.output.push(
                    ValueView::Variable(token.value@),
                ));
            },
            TokenType::Parenthesis => {
                if token.value.as_str().get_char(0) == '(' {
                    operator_stack.push(OperatorType::LeftParenthesis);
                } else {
                    unload(&mut token_queue, &mut operator_stack, None);
                    if operator_stack.len() == 0 {
                        assert(before.step(token@) == Err::<Shunt, ParserError>(
                            ParserError::NoMatchingLeftParenthesis,
                        ));
                        assert(before.run(all.skip(i as int)) == Err::<Shunt, ParserError>(
                            ParserError::NoMatchingLeftParenthesis,
                        ));
                        return Err(ParserError::NoMatchingLeftParenthesis);
                    }
                    operator_stack.pop();
                }
            },
            TokenType::Operator => {
                let op = OperatorType::from_str(token.value.as_str());
                unload(&mut token_queue, &mut operator_stack, Some(op));
                operator_stack.push(op);
            },
            TokenType::Whitespace => {},
        }
        i += 1;
    }
    assert(all.skip(i as int).len() == 0);
    while operator_stack.len() > 0
        invariant
            to_postfix(tokens.deep_view()) == (Shunt {
                output: token_queue.deep_view(),
                stack: operator_stack@,
            }).finish(),
        decreases operator_stack.len(),
    {
        let ghost before = token_queue.deep_view();
        let ghost waiting = Shunt { output: before, stack: operator_stack@ };
        let op = operator_stack.pop().unwrap();
        if op == OperatorType::LeftParenthesis {
            assert(waiting.finish() == Err::<Seq<ValueView>, ParserError>(
                ParserError::ExtraLeftParenthesis,
            ));
            return Err(ParserError::ExtraLeftParenthesis);
        }
        token_queue.push(Value::Operator(op));
        assert(token_queue.deep_view() =~= before.push(ValueView::Operator(op)));
    }
    proof {
        lemma_postfix_is_free_of_parentheses(tokens.deep_view());
    }
    Ok(token_queue)
}

/// Moves operators from the stack to the output queue: all down to the
/// nearest parenthesis, or, given an operator, those on top that bind at least
/// as tightly as it does.
fn unload(token_queue: &mut Rpn, operator_stack: &mut Vec<OperatorType>, bound: Option<OperatorType>)
    requires
        bound matches Some(op) ==> !(op is LeftParenthesis),
    ensures
        (Shunt { output: final(token_queue).deep_view(), stack: final(operator_stack)@ }) == ({
            let before = Shunt { output: old(token_queue).deep_view(), stack: old(operator_stack)@ };
            match bound {
                Some(op) => before.pop_tighter(op),
                None => before.pop_group(),
            }
        }),
{
    let ghost start = Shunt { output: token_queue.deep_view(), stack: operator_stack@ };
    loop
        invariant
            bound matches Some(op) ==> !(op is LeftParenthesis),
            match bound {
                Some(op) => start.pop_tighter(op) == (Shunt {
                    output: token_queue.deep_view(),
                    stack: operator_stack@,
                }).pop_tighter(op),
                None => start.pop_group() == (Shunt {
                    output: token_queue.deep_view(),
                    stack: operator_stack@,
                }).pop_group(),
            },
        ensures
            (Shunt { output: token_queue.deep_view(), stack: operator_stack@ }) == (match bound {
                Some(op) => start.pop_tighter(op),
                None => start.pop_group(),
            }),
        decreases operator_stack.len(),
    {
        let depth: usize = operator_stack.len();
        if depth == 0 {
            break;
        }
        let top = operator_stack[depth - 1];
        if top == OperatorType::LeftParenthesis {
            break;
        }
        match bound {
            Some(op) => {
                if top.get_priority() < op.get_priority() {
                    break;
                }
            },
            None => {},
        }
        let ghost before = token_queue.deep_view();
        operator_stack.pop();
        token_queue.push(Value::Operator(top));
        assert(token_queue.deep_view() =~= before.push(ValueView::Operator(top)));
    }
}

} // verus!
