//! The types of the values on the evaluation stack, and the proof that how
//! an evaluation ends is decided by the postfix sequence alone: the numbers
//! bound to its variables decide only which value it gives.

use crate::emitter::EmitResult;
use crate::emitter::EvalError;
use crate::emitter::Outcome;
use crate::emitter::applied;
use crate::emitter::bound;
use crate::emitter::evaluation;
use crate::emitter::execute;
use crate::emitter::has_variable;
use crate::emitter::substituted;
use crate::infix::height_after;
use crate::parser::OperatorType;
use crate::parser::Rpn;
use crate::parser::Value;
use crate::parser::ValueView;
use vstd::prelude::*;

verus! {

/// The type of a value on the stack.
#[derive(Debug, PartialEq, Eq, Structural, Clone, Copy)]
pub enum Kind {
    Number,
    Boolean,
}

/// The type of a result.
pub open spec fn kind_of(value: EmitResult) -> Kind {
    match value {
        EmitResult::Number(_) => Kind::Number,
        EmitResult::Boolean(_) => Kind::Boolean,
    }
}

/// The types of the values on a stack.
pub open spec fn kinds_of(stack: Seq<EmitResult>) -> Seq<Kind> {
    stack.map_values(|value: EmitResult| kind_of(value))
}

/// The type that an operator gives for operands of two types, if it takes
/// them: arithmetic makes a number of two numbers, a relation makes a boolean
/// of two numbers, and a logical operator makes a boolean of two booleans.
pub open spec fn kind_made(op: OperatorType, left: Kind, right: Kind) -> Option<Kind> {
    match (left, right) {
        (Kind::Number, Kind::Number) => if op.is_arithmetic() {
            Some(Kind::Number)
        } else if op.is_relational() {
            Some(Kind::Boolean)
        } else {
            None
        },
        (Kind::Boolean, Kind::Boolean) => if op.is_logical() {
            Some(Kind::Boolean)
        } else {
            None
        },
        _ => None,
    }
}

/// How the run of a postfix sequence ends, told from types alone.
pub enum Shape {
    /// The sequence is consumed; these are the types of the values left.
    Finished(Seq<Kind>),
    /// An operator is reached with fewer than two values on the stack.
    Underflow,
    /// An operator meets operands that it does not take, or is itself the
    /// parenthesis marker.
    Stuck,
}

/// The run of a postfix sequence on the types of a stack. A variable counts
/// as the number that it will be bound to.
pub open spec fn shape(program: Seq<ValueView>, kinds: Seq<Kind>) -> Shape
    decreases program.len(),
{
    if program.len() == 0 {
        Shape::Finished(kinds)
    } else {
        match program[0] {
            ValueView::Number(_) | ValueView::Variable(_) => shape(
                program.drop_first(),
                kinds.push(Kind::Number),
            ),
            ValueView::Boolean(_) => shape(program.drop_first(), kinds.push(Kind::Boolean)),
            ValueView::Operator(op) => if kinds.len() < 2 {
                Shape::Underflow
            } else {
                match kind_made(op, kinds[kinds.len() - 2], kinds[kinds.len() - 1]) {
                    Some(kind) => shape(
                        program.drop_first(),
                        kinds.drop_last().drop_last().push(kind),
                    ),
                    None => Shape::Stuck,
                }
            },
        }
    }
}

/// Whether every operator that is reached finds operands of the types it
/// takes.
pub open spec fn well_typed(program: Seq<ValueView>) -> bool {
    !(shape(program, Seq::empty()) is Stuck)
}

/// What an evaluation gives, as far as the types tell: `None` where it is not
/// defined, else the error, or the type of the value.
pub open spec fn predicted(program: Seq<ValueView>) -> Option<Result<Kind, EvalError>> {
    match shape(program, Seq::empty()) {
        Shape::Stuck => None,
        Shape::Underflow => Some(Err(EvalError::NotEnoughValues)),
        Shape::Finished(kinds) => if kinds.len() > 1 {
            Some(Err(EvalError::TooMuchValues))
        } else if kinds.len() == 1 {
            Some(Ok(kinds[0]))
        } else {
            None
        },
    }
}

/// Decides the type that an operator gives for operands of two types.
pub fn make_kind(op: OperatorType, left: Kind, right: Kind) -> (kind: Option<Kind>)
    ensures
        kind == kind_made(op, left, right),
{
    match (left, right) {
        (Kind::Number, Kind::Number) => match op {
            OperatorType::Plus | OperatorType::Minus | OperatorType::Times | OperatorType::Divide => Some(
                Kind::Number,
            ),
            OperatorType::LT
            | OperatorType::LE
            | OperatorType::GT
            | OperatorType::GE
            | OperatorType::Eq => Some(Kind::Boolean),
            _ => None,
        },
        (Kind::Boolean, Kind::Boolean) => match op {
            OperatorType::And | OperatorType::Or => Some(Kind::Boolean),
            _ => None,
        },
        _ => None,
    }
}

/// Decides what the evaluation of a postfix sequence gives, as far as the
/// types tell.
pub fn predict(program: &Rpn) -> (result: Option<Result<Kind, EvalError>>)
    ensures
        result == predicted(program.deep_view()),
{
    let mut kinds: Vec<Kind> = Vec::new();
    let mut i: usize = 0;
    assert(program.deep_view().skip(0) =~= program.deep_view());
    while i < program.len()
        invariant
            i <= program.len(),
            shape(program.deep_view(), Seq::empty()) == shape(
                program.deep_view().skip(i as int),
                kinds@,
            ),
        decreases program.len() - i,
    {
        proof {
            assert(program.deep_view().skip(i as int).drop_first() =~= program.deep_view().skip(
                i + 1,
            ));
            assert(program.deep_view().skip(i as int)[0] == program[i as int]@);
        }
        match &program[i] {
            Value::Number(_) => {
                kinds.push(Kind::Number);
            },
            Value::Variable(_) => {
                kinds.push(Kind::Number);
            },
            Value::Boolean(_) => {
                kinds.push(Kind::Boolean);
            },
            Value::Operator(op) => {
                let depth: usize = kinds.len();
                if depth < 2 {
                    return Some(Err(EvalError::NotEnoughValues));
                }
                match make_kind(*op, kinds[depth - 2], kinds[depth - 1]) {
                    Some(kind) => {
                        kinds.pop();
                        kinds.pop();
                        kinds.push(kind);
                    },
                    None => {
                        return None;
                    },
                }
            },
        }
        i += 1;
    }
    if kinds.len() > 1 {
        Some(Err(EvalError::TooMuchValues))
    } else if kinds.len() == 1 {
        Some(Ok(kinds[0]))
    } else {
        None
    }
}

/// An operator is defined for two operands exactly where it takes their
/// types, and its result has the type that it makes of them.
pub proof fn lemma_applied_follows_kinds(op: OperatorType, left: EmitResult, right: EmitResult)
    ensures
        match applied(op, left, right) {
            Some(value) => kind_made(op, kind_of(left), kind_of(right)) == Some(kind_of(value)),
            None => kind_made(op, kind_of(left), kind_of(right)) is None,
        },
{
}

/// The run of a sequence without variables ends as the types of its stack
/// tell.
pub proof fn lemma_execute_follows_shape(program: Seq<ValueView>, stack: Seq<EmitResult>)
    requires
        !has_variable(program),
    ensures
        match execute(program, stack) {
            Outcome::Finished(rest) => shape(program, kinds_of(stack)) == Shape::Finished(
                kinds_of(rest),
            ),
            Outcome::Underflow => shape(program, kinds_of(stack)) == Shape::Underflow,
            Outcome::Stuck => shape(program, kinds_of(stack)) == Shape::Stuck,
        },
    decreases program.len(),
{
    if program.len() > 0 {
        let rest = program.drop_first();
        assert forall|i: int| 0 <= i < rest.len() implies !(#[trigger] rest[i] is Variable) by {
            assert(rest[i] == program[i + 1]);
        }
        assert(!(program[0] is Variable));
        match program[0] {
            ValueView::Number(bits) => {
                let next = stack.push(EmitResult::Number(bits));
                assert(kinds_of(next) =~= kinds_of(stack).push(Kind::Number));
                lemma_execute_follows_shape(rest, next);
            },
            ValueView::Boolean(value) => {
                let next = stack.push(EmitResult::Boolean(value));
                assert(kinds_of(next) =~= kinds_of(stack).push(Kind::Boolean));
                lemma_execute_follows_shape(rest, next);
            },
            ValueView::Operator(op) => {
                if stack.len() >= 2 {
                    let left = stack[stack.len() - 2];
                    let right = stack[stack.len() - 1];
                    lemma_applied_follows_kinds(op, left, right);
                    match applied(op, left, right) {
                        Some(value) => {
                            let next = stack.drop_last().drop_last().push(value);
                            assert(kinds_of(next) =~= kinds_of(stack).drop_last().drop_last().push(
                                kind_of(value),
                            ));
                            lemma_execute_follows_shape(rest, next);
                        },
                        None => {},
                    }
                }
            },
            ValueView::Variable(_) => {},
        }
    }
}

/// Whether `resolved` is `program` with a number in place of each variable.
pub open spec fn resolves(resolved: Seq<ValueView>, program: Seq<ValueView>) -> bool {
    &&& resolved.len() == program.len()
    &&& forall|i: int|
        0 <= i < program.len() ==> if #[trigger] program[i] is Variable {
            resolved[i] is Number
        } else {
            resolved[i] == program[i]
        }
}

/// Numbers in place of the variables change no type, and no variable is
/// left.
pub proof fn lemma_resolved_keeps_shape(
    resolved: Seq<ValueView>,
    program: Seq<ValueView>,
    kinds: Seq<Kind>,
)
    requires
        resolves(resolved, program),
    ensures
        shape(resolved, kinds) == shape(program, kinds),
        !has_variable(resolved),
    decreases program.len(),
{
    assert forall|i: int| 0 <= i < resolved.len() implies !(#[trigger] resolved[i] is Variable) by {
        assert(program[i] is Variable || resolved[i] == program[i]);
    }
    if program.len() > 0 {
        assert(program[0] is Variable || resolved[0] == program[0]);
        assert(resolves(resolved.drop_first(), program.drop_first())) by {
            assert forall|i: int| 0 <= i < program.drop_first().len() implies if
            #[trigger] program.drop_first()[i] is Variable {
                resolved.drop_first()[i] is Number
            } else {
                resolved.drop_first()[i] == program.drop_first()[i]
            } by {
                assert(program.drop_first()[i] == program[i + 1]);
                assert(resolved.drop_first()[i] == resolved[i + 1]);
            }
        }
        match program[0] {
            ValueView::Number(_) | ValueView::Variable(_) => {
                lemma_resolved_keeps_shape(
                    resolved.drop_first(),
                    program.drop_first(),
                    kinds.push(Kind::Number),
                );
            },
            ValueView::Boolean(_) => {
                lemma_resolved_keeps_shape(
                    resolved.drop_first(),
                    program.drop_first(),
                    kinds.push(Kind::Boolean),
                );
            },
            ValueView::Operator(op) => {
                if kinds.len() >= 2 {
                    match kind_made(op, kinds[kinds.len() - 2], kinds[kinds.len() - 1]) {
                        Some(kind) => {
                            lemma_resolved_keeps_shape(
                                resolved.drop_first(),
                                program.drop_first(),
                                kinds.drop_last().drop_last().push(kind),
                            );
                        },
                        None => {},
                    }
                }
            },
        }
    }
}

/// A sequence without variables is resolved as it stands.
pub proof fn lemma_resolves_itself(program: Seq<ValueView>)
    requires
        !has_variable(program),
    ensures
        resolves(program, program),
{
}

/// Binding puts a number in place of each variable.
pub proof fn lemma_binding_resolves(program: Seq<ValueView>, map: Map<Seq<char>, u32>)
    ensures
        resolves(substituted(program, map), program),
{
    assert forall|i: int| 0 <= i < program.len() implies if #[trigger] program[i] is Variable {
        substituted(program, map)[i] is Number
    } else {
        substituted(program, map)[i] == program[i]
    } by {
        assert(substituted(program, map)[i] == bound(program[i], map));
    }
}

/// Binding numbers to the variables changes no type.
pub proof fn lemma_binding_keeps_shape(
    program: Seq<ValueView>,
    map: Map<Seq<char>, u32>,
    kinds: Seq<Kind>,
)
    ensures
        shape(substituted(program, map), kinds) == shape(program, kinds),
{
    lemma_binding_resolves(program, map);
    lemma_resolved_keeps_shape(substituted(program, map), program, kinds);
}

/// No variable is left once numbers are bound.
pub proof fn lemma_binding_leaves_no_variable(program: Seq<ValueView>, map: Map<Seq<char>, u32>)
    ensures
        !has_variable(substituted(program, map)),
{
    assert forall|i: int| 0 <= i < substituted(program, map).len() implies !(
    #[trigger] substituted(program, map)[i] is Variable) by {
        assert(substituted(program, map)[i] == bound(program[i], map));
    }
}

/// Where the types let a run finish, as many values are left as the heights
/// tell; where they tell of an underflow, so do the heights.
pub proof fn lemma_shape_follows_height(program: Seq<ValueView>, kinds: Seq<Kind>)
    ensures
        match shape(program, kinds) {
            Shape::Finished(rest) => height_after(program, kinds.len()) == Some(rest.len()),
            Shape::Underflow => height_after(program, kinds.len()) is None,
            Shape::Stuck => true,
        },
    decreases program.len(),
{
    if program.len() > 0 {
        match program[0] {
            ValueView::Number(_) | ValueView::Variable(_) => {
                lemma_shape_follows_height(program.drop_first(), kinds.push(Kind::Number));
            },
            ValueView::Boolean(_) => {
                lemma_shape_follows_height(program.drop_first(), kinds.push(Kind::Boolean));
            },
            ValueView::Operator(op) => {
                if kinds.len() >= 2 {
                    match kind_made(op, kinds[kinds.len() - 2], kinds[kinds.len() - 1]) {
                        Some(kind) => {
                            lemma_shape_follows_height(
                                program.drop_first(),
                                kinds.drop_last().drop_last().push(kind),
                            );
                        },
                        None => {},
                    }
                }
            },
        }
    }
}

/// Evaluating a sequence that has numbers in place of the variables of
/// another ends as the types of that other tell.
pub proof fn lemma_resolved_evaluation_follows_types(
    resolved: Seq<ValueView>,
    program: Seq<ValueView>,
)
    requires
        resolves(resolved, program),
    ensures
        match evaluation(Some(resolved)) {
            None => predicted(program) is None,
            Some(Err(error)) => predicted(program) == Some(Err::<Kind, EvalError>(error)),
            Some(Ok(value)) => predicted(program) == Some(Ok::<Kind, EvalError>(kind_of(value))),
        },
{
    lemma_resolved_keeps_shape(resolved, program, Seq::empty());
    lemma_execute_follows_shape(resolved, Seq::empty());
    assert(kinds_of(Seq::empty()) =~= Seq::empty());
}

/// How an evaluation ends is decided by the postfix sequence alone.
/// Whatever numbers are bound to its variables, evaluation is defined where
/// the types say so, fails with the error that they tell, and else gives a
/// value of the type that they tell.
pub proof fn lemma_evaluation_follows_types(program: Seq<ValueView>, map: Map<Seq<char>, u32>)
    ensures
        match evaluation(Some(substituted(program, map))) {
            None => predicted(program) is None,
            Some(Err(error)) => predicted(program) == Some(Err::<Kind, EvalError>(error)),
            Some(Ok(value)) => predicted(program) == Some(Ok::<Kind, EvalError>(kind_of(value))),
        },
{
    lemma_binding_resolves(program, map);
    lemma_resolved_evaluation_follows_types(substituted(program, map), program);
}

} // verus!
