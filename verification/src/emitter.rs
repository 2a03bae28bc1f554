//! Evaluation of a postfix sequence on a stack of values, after the
//! variables in it have been given numbers.

use crate::parser::OperatorType;
use crate::parser::Rpn;
use crate::parser::Value;
use crate::parser::ValueView;
use crate::single;
use crate::typing::Kind;
use crate::typing::lemma_binding_resolves;
use crate::typing::lemma_resolved_evaluation_follows_types;
use crate::typing::lemma_resolves_itself;
use crate::typing::predict;
use crate::typing::predicted;
use crate::typing::resolves;
use vstd::hash_map::StringHashMap;
use vstd::prelude::*;
use vstd::std_specs::cmp::PartialEqSpecImpl;

verus! {

/// The numbers given to variables, by name. A number is held as the bit
/// pattern of an IEEE-754 single.
pub type VariableMap = StringHashMap<u32>;

/// The value of an expression: a number, held as the bit pattern of an
/// IEEE-754 single, or a boolean.
#[derive(Clone, Copy, Debug)]
pub enum EmitResult {
    Number(u32),
    Boolean(bool),
}

impl EmitResult {
    /// Equality of results: numbers are equal as IEEE numbers, so the two
    /// zeros are equal and a NaN equals nothing.
    pub open spec fn same(self, other: EmitResult) -> bool {
        match (self, other) {
            (EmitResult::Number(a), EmitResult::Number(b)) => single::equal(a, b),
            (EmitResult::Boolean(a), EmitResult::Boolean(b)) => a == b,
            _ => false,
        }
    }

    /// The boolean, if the result is one.
    pub fn as_bool(&self) -> (value: Option<bool>)
        ensures
            value == (match *self {
                EmitResult::Boolean(value) => Some(value),
                EmitResult::Number(_) => None,
            }),
    {
        match self {
            EmitResult::Boolean(value) => Some(*value),
            EmitResult::Number(_) => None,
        }
    }

    /// The bit pattern of the number, if the result is one.
    pub fn as_float_bits(&self) -> (bits: Option<u32>)
        ensures
            bits == (match *self {
                EmitResult::Number(bits) => Some(bits),
                EmitResult::Boolean(_) => None,
            }),
    {
        match self {
            EmitResult::Number(bits) => Some(*bits),
            EmitResult::Boolean(_) => None,
        }
    }
}

impl PartialEq for EmitResult {
    fn eq(&self, other: &EmitResult) -> (equal: bool) {
        match (self, other) {
            (EmitResult::Number(a), EmitResult::Number(b)) => single::is_equal(*a, *b),
            (EmitResult::Boolean(a), EmitResult::Boolean(b)) => *a == *b,
            _ => false,
        }
    }
}

impl PartialEqSpecImpl for EmitResult {
    open spec fn obeys_eq_spec() -> bool {
        true
    }

    open spec fn eq_spec(&self, other: &EmitResult) -> bool {
        self.same(*other)
    }
}

/// Why an evaluation gives no value.
#[derive(Debug, PartialEq, Eq, Structural, Clone, Copy)]
pub enum EvalError {
    /// The expression has variables and none were bound yet.
    NoVariables,
    /// An operator was reached with fewer than two values on the stack.
    NotEnoughValues,
    /// More than one value was left when the sequence ended.
    TooMuchValues,
}

/// Why numbers could not be bound.
#[derive(Debug, PartialEq, Eq, Clone)]
pub enum BindVariablesError {
    /// The expression names a variable that the map does not hold.
    UnknownVariable(String),
}

/// What an operator makes of its two operands: arithmetic and relational
/// operators take numbers, logical operators take booleans. Nothing is
/// defined for operands of another type, nor for the parenthesis marker.
pub open spec fn applied(op: OperatorType, left: EmitResult, right: EmitResult) -> Option<
    EmitResult,
> {
    match (left, right) {
        (EmitResult::Number(first), EmitResult::Number(second)) => if op.is_arithmetic() {
            Some(EmitResult::Number(op.arithmetic(first, second)))
        } else if op.is_relational() {
            Some(EmitResult::Boolean(op.comparison(first, second)))
        } else {
            None
        },
        (EmitResult::Boolean(first), EmitResult::Boolean(second)) => if op.is_logical() {
            Some(EmitResult::Boolean(op.conditional(first, second)))
        } else {
            None
        },
        _ => None,
    }
}

/// How the run of a postfix sequence on a stack ends.
pub enum Outcome {
    /// The sequence was consumed; this is the stack that is left, the top
    /// last.
    Finished(Seq<EmitResult>),
    /// An operator was reached with fewer than two values on the stack.
    Underflow,
    /// The sequence is not one that evaluation is defined for: an operator met
    /// operands of the wrong type, or a variable or a parenthesis marker was
    /// reached.
    Stuck,
}

/// The run of a postfix sequence from left to right on a stack. A literal is
/// pushed. An operator takes the two values on top, the lower one as its left
/// operand, and pushes what it makes of them.
pub open spec fn execute(program: Seq<ValueView>, stack: Seq<EmitResult>) -> Outcome
    decreases program.len(),
{
    if program.len() == 0 {
        Outcome::Finished(stack)
    } else {
        match program[0] {
            ValueView::Number(bits) => execute(
                program.drop_first(),
                stack.push(EmitResult::Number(bits)),
            ),
            ValueView::Boolean(value) => execute(
                program.drop_first(),
                stack.push(EmitResult::Boolean(value)),
            ),
            ValueView::Operator(op) => if stack.len() < 2 {
                Outcome::Underflow
            } else {
                match applied(op, stack[stack.len() - 2], stack[stack.len() - 1]) {
                    Some(value) => execute(
                        program.drop_first(),
                        stack.drop_last().drop_last().push(value),
                    ),
                    None => Outcome::Stuck,
                }
            },
            ValueView::Variable(_) => Outcome::Stuck,
        }
    }
}

/// What evaluating a resolved postfix sequence gives, where `None` stands for
/// a sequence that was never resolved. The result is `None` where evaluation
/// is not defined: where the run gets stuck, or leaves no value at all.
pub open spec fn evaluation(resolved: Option<Seq<ValueView>>) -> Option<
    Result<EmitResult, EvalError>,
> {
    match resolved {
        None => Some(Err(EvalError::NoVariables)),
        Some(program) => match execute(program, Seq::empty()) {
            Outcome::Underflow => Some(Err(EvalError::NotEnoughValues)),
            Outcome::Stuck => None,
            Outcome::Finished(stack) => if stack.len() > 1 {
                Some(Err(EvalError::TooMuchValues))
            } else if stack.len() == 1 {
                Some(Ok(stack[0]))
            } else {
                None
            },
        },
    }
}

/// Whether a postfix sequence holds a variable.
pub open spec fn has_variable(program: Seq<ValueView>) -> bool {
    exists|i: int| 0 <= i < program.len() && #[trigger] program[i] is Variable
}

/// The name of the first variable that the map does not hold, if there is
/// one.
pub open spec fn first_unbound(program: Seq<ValueView>, map: Map<Seq<char>, u32>) -> Option<
    Seq<char>,
>
    decreases program.len(),
{
    if program.len() == 0 {
        None
    } else {
        match program[0] {
            ValueView::Variable(name) if !map.contains_key(name) => Some(name),
            _ => first_unbound(program.drop_first(), map),
        }
    }
}

/// A postfix element with its variable, if it is one, replaced by the number
/// that the map gives it.
pub open spec fn bound(value: ValueView, map: Map<Seq<char>, u32>) -> ValueView {
    match value {
        ValueView::Variable(name) => ValueView::Number(map[name]),
        _ => value,
    }
}

/// A postfix sequence with each variable replaced by its number.
pub open spec fn substituted(program: Seq<ValueView>, map: Map<Seq<char>, u32>) -> Seq<
    ValueView,
> {
    program.map_values(|value: ValueView| bound(value, map))
}

/// Applies an operator to two operands, where it is defined for them.
pub fn apply(op: OperatorType, left: EmitResult, right: EmitResult) -> (result: Option<
    EmitResult,
>)
    ensures
        result == applied(op, left, right),
{
    match (left, right) {
        (EmitResult::Number(first), EmitResult::Number(second)) => match op {
            OperatorType::Plus | OperatorType::Minus | OperatorType::Times | OperatorType::Divide => Some(
                EmitResult::Number(op.eval_nums(first, second)),
            ),
            OperatorType::LT
            | OperatorType::LE
            | OperatorType::GT
            | OperatorType::GE
            | OperatorType::Eq => Some(EmitResult::Boolean(op.eval_comparison(first, second))),
            _ => None,
        },
        (EmitResult::Boolean(first), EmitResult::Boolean(second)) => match op {
            OperatorType::And | OperatorType::Or => Some(
                EmitResult::Boolean(op.eval_conditional(first, second)),
            ),
            _ => None,
        },
        _ => None,
    }
}

/// Copies a postfix sequence.
pub fn duplicate(values: &Rpn) -> (copy: Rpn)
    ensures
        copy.deep_view() == values.deep_view(),
{
    let mut copy: Rpn = Vec::new();
    let mut i: usize = 0;
    assert(copy.deep_view() =~= values.deep_view().take(0));
    while i < values.len()
        invariant
            i <= values.len(),
            copy.deep_view() == values.deep_view().take(i as int),
        decreases values.len() - i,
    {
        let ghost before = copy.deep_view();
        let value = match &values[i] {
            Value::Operator(op) => Value::Operator(*op),
            Value::Number(bits) => Value::Number(*bits),
            Value::Boolean(value) => Value::Boolean(*value),
            Value::Variable(name) => Value::Variable(name.clone()),
        };
        copy.push(value);
        assert(copy.deep_view() =~= before.push(values.deep_view()[i as int]));
        assert(values.deep_view().take(i + 1) =~= values.deep_view().take(i as int).push(
            values.deep_view()[i as int],
        ));
        i += 1;
    }
    assert(values.deep_view().take(i as int) =~= values.deep_view());
    copy
}

/// Decides whether a postfix sequence holds a variable.
pub fn contains_variable(values: &Rpn) -> (found: bool)
    ensures
        found == has_variable(values.deep_view()),
{
    let mut i: usize = 0;
    while i < values.len()
        invariant
            i <= values.len(),
            forall|k: int| 0 <= k < i ==> !(#[trigger] values.deep_view()[k] is Variable),
        decreases values.len() - i,
    {
        match &values[i] {
            Value::Variable(_) => {
                assert(values.deep_view()[i as int] is Variable);
                return true;
            },
            _ => {},
        }
        i += 1;
    }
    false
}

/// A postfix sequence, and the same sequence with its variables resolved
/// once they are known.
#[derive(Debug)]
pub struct Emitter {
    rpn: Rpn,
    no_var_rpn: Option<Rpn>,
}

impl Clone for Emitter {
    fn clone(&self) -> (copy: Self)
        ensures
            copy.postfix() == self.postfix(),
            copy.resolved() == self.resolved(),
    {
        proof {
            use_type_invariant(self);
        }
        let no_var_rpn = match &self.no_var_rpn {
            Some(rpn) => Some(duplicate(rpn)),
            None => None,
        };
        Emitter { rpn: duplicate(&self.rpn), no_var_rpn }
    }
}

impl Emitter {
    /// What is resolved is the sequence itself with numbers in place of its
    /// variables.
    #[verifier::type_invariant]
    spec fn consistent(self) -> bool {
        self.no_var_rpn matches Some(rpn) ==> resolves(rpn.deep_view(), self.rpn.deep_view())
    }

    /// The postfix sequence as it was given, variables included.
    pub closed spec fn postfix(&self) -> Seq<ValueView> {
        self.rpn.deep_view()
    }

    /// The postfix sequence with numbers in place of its variables, once
    /// there is one.
    pub closed spec fn resolved(&self) -> Option<Seq<ValueView>> {
        match self.no_var_rpn {
            Some(rpn) => Some(rpn.deep_view()),
            None => None,
        }
    }

    /// Takes a postfix sequence. One without variables is resolved as it
    /// stands.
    pub fn new(rpn: Rpn) -> (emitter: Self)
        ensures
            emitter.postfix() == rpn.deep_view(),
            emitter.resolved() == if has_variable(rpn.deep_view()) {
                None
            } else {
                Some(rpn.deep_view())
            },
    {
        let no_var_rpn = if contains_variable(&rpn) {
            None
        } else {
            proof {
                lemma_resolves_itself(rpn.deep_view());
            }
            Some(duplicate(&rpn))
        };
        Emitter { rpn, no_var_rpn }
    }

    /// The postfix sequence as it was given, variables included.
    pub fn rpn(&self) -> (rpn: &Rpn)
        ensures
            rpn.deep_view() == self.postfix(),
    {
        &self.rpn
    }

    /// The resolved postfix sequence, once there is one.
    pub fn no_var_rpn(&self) -> (rpn: &Option<Rpn>)
        ensures
            match *rpn {
                Some(rpn) => self.resolved() == Some(rpn.deep_view()),
                None => self.resolved() is None,
            },
    {
        &self.no_var_rpn
    }

    /// What evaluation will give, as far as the types tell before any number
    /// is bound: nothing, where an operator does not find operands of the types
    /// it takes or the sequence is empty; else an error, or the type of the
    /// value.
    pub fn result_type(&self) -> (result: Option<Result<Kind, EvalError>>)
        ensures
            result == predicted(self.postfix()),
    {
        predict(&self.rpn)
    }

    /// Resolves the postfix sequence anew with the numbers of the map, which
    /// may hold more names than are used. Where a variable is missing from the
    /// map, the error names the first such, and what was resolved before stays.
    pub fn bind_variables(&mut self, var_map: &VariableMap) -> (result: Result<
        (),
        BindVariablesError,
    >)
        ensures
            final(self).postfix() == old(self).postfix(),
            match result {
                Ok(_) => first_unbound(old(self).postfix(), var_map@) is None
                    && final(self).resolved() == Some(
                    substituted(old(self).postfix(), var_map@),
                ),
                Err(BindVariablesError::UnknownVariable(name)) => first_unbound(
                    old(self).postfix(),
                    var_map@,
                ) == Some(name@) && final(self).resolved() == old(self).resolved(),
            },
    {
        let mut resolved: Rpn = Vec::new();
        let ghost program = self.rpn.deep_view();
        let mut i: usize = 0;
        assert(program.skip(0) =~= program);
        assert(resolved.deep_view() =~= substituted(program.take(0), var_map@));
        while i < self.rpn.len()
            invariant
                i <= self.rpn.len(),
                program == self.rpn.deep_view(),
                *self == *old(self),
                first_unbound(program, var_map@) == first_unbound(program.skip(i as int), var_map@),
                resolved.deep_view() == substituted(program.take(i as int), var_map@),
            decreases self.rpn.len() - i,
        {
            let ghost before = resolved.deep_view();
            proof {
                assert(program.skip(i as int).drop_first() =~= program.skip(i + 1));
                assert(program.skip(i as int)[0] == program[i as int]);
            }
            let value = match &self.rpn[i] {
                Value::Operator(op) => Value::Operator(*op),
                Value::Number(bits) => Value::Number(*bits),
                Value::Boolean(value) => Value::Boolean(*value),
                Value::Variable(name) => match var_map.get(name.as_str()) {
                    Some(bits) => Value::Number(*bits),
                    None => {
                        return Err(BindVariablesError::UnknownVariable(name.clone()));
                    },
                },
            };
            resolved.push(value);
            assert(resolved.deep_view() =~= before.push(bound(program[i as int], var_map@)));
            assert(substituted(program.take(i + 1), var_map@) =~= substituted(
                program.take(i as int),
                var_map@,
            ).push(bound(program[i as int], var_map@)));
            i += 1;
        }
        assert(program.take(i as int) =~= program);
        proof {
            lemma_binding_resolves(program, var_map@);
        }
        self.no_var_rpn = Some(resolved);
        Ok(())
    }

    /// Evaluates the resolved sequence, wherever evaluation is defined, and
    /// says where it is not.
    pub fn checked_eval(&self) -> (result: Option<Result<EmitResult, EvalError>>)
        ensures
            result == evaluation(self.resolved()),
    {
        let program = match &self.no_var_rpn {
            Some(program) => program,
            None => {
                return Some(Err(EvalError::NoVariables));
            },
        };
        let mut value_stack: Vec<EmitResult> = Vec::new();
        let mut i: usize = 0;
        assert(program.deep_view().skip(0) =~= program.deep_view());
        while i < program.len()
            invariant
                i <= program.len(),
                self.resolved() == Some(program.deep_view()),
                execute(program.deep_view(), Seq::empty()) == execute(
                    program.deep_view().skip(i as int),
                    value_stack@,
                ),
            decreases program.len() - i,
        {
            proof {
                assert(program.deep_view().skip(i as int).drop_first() =~= program.deep_view().skip(
                    i + 1,
                ));
                assert(program.deep_view().skip(i as int)[0] == program[i as int]@);
            }
            match &program[i] {
                Value::Number(bits) => {
                    value_stack.push(EmitResult::Number(*bits));
                },
                Value::Boolean(value) => {
                    value_stack.push(EmitResult::Boolean(*value));
                },
                Value::Operator(op) => {
                    let depth: usize = value_stack.len();
                    if depth < 2 {
                        return Some(Err(EvalError::NotEnoughValues));
                    }
                    let second_val = value_stack[depth - 1];
                    let first_val = value_stack[depth - 2];
                    match apply(*op, first_val, second_val) {
                        Some(value) => {
                            value_stack.pop();
                            value_stack.pop();
                            value_stack.push(value);
                        },
                        None => {
                            return None;
                        },
                    }
                },
                Value::Variable(_) => {
                    return None;
                },
            }
            i += 1;
        }
        if value_stack.len() > 1 {
            Some(Err(EvalError::TooMuchValues))
        } else if value_stack.len() == 1 {
            Some(Ok(value_stack[0]))
        } else {
            None
        }
    }

    /// Evaluates the resolved sequence. The sequence must be one in which
    /// every operator finds operands of the types it takes, and which leaves a
    /// value: that is decided by the sequence as it was given, whatever is
    /// bound to its variables.
    pub fn eval(&self) -> (result: Result<EmitResult, EvalError>)
        requires
            self.resolved() is Some ==> predicted(self.postfix()) is Some,
        ensures
            evaluation(self.resolved()) == Some(result),
    {
        proof {
            use_type_invariant(self);
            match self.resolved() {
                Some(resolved) => {
                    lemma_resolved_evaluation_follows_types(resolved, self.postfix());
                },
                None => {},
            }
        }
        match self.checked_eval() {
            Some(result) => result,
            None => vstd::pervasive::unreached(),
        }
    }
}

} // verus!
