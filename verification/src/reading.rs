//! Every infix expression has a tree, and only one: the proof reads the
//! tokens as the conversion to postfix does, and builds trees where that
//! puts out values. The tokens of the tree that an expression is read as
//! are the expression, and a tree is read back from its tokens.

use crate::infix::Phase;
use crate::infix::is_infix;
use crate::infix::is_operator;
use crate::parser::operator_of;
use crate::tokenizer::TokenType;
use crate::tokenizer::TokenView;
use crate::tokenizer::is_literal;
use crate::tokenizer::well_formed;
use crate::tree::Tree;
use crate::tree::closing;
use crate::tree::opening;
use vstd::prelude::*;

verus! {

/// The rank of the operator that a token spells.
pub open spec fn rank_of(token: TokenView) -> nat {
    operator_of(token.value)->0.priority()
}

/// The state of a reader that builds trees: the trees that are complete,
/// and the operator tokens that wait for their right operand, the last on
/// top. `None` stands for an open parenthesis.
pub struct Reading {
    pub trees: Seq<Tree>,
    pub stack: Seq<Option<TokenView>>,
}

impl Reading {
    /// Whether an operator is on top of the stack, and not a parenthesis.
    pub open spec fn operator_on_top(self) -> bool {
        self.stack.len() > 0 && self.stack.last() is Some
    }

    /// Joins the two trees on top by the operator on top of the stack.
    pub open spec fn reduce(self) -> Reading {
        Reading {
            trees: self.trees.drop_last().drop_last().push(
                Tree::Binary(
                    Box::new(self.trees[self.trees.len() - 2]),
                    self.stack.last()->0,
                    Box::new(self.trees.last()),
                ),
            ),
            stack: self.stack.drop_last(),
        }
    }

    /// Joins trees for as long as the operator on top is of the given rank at
    /// least.
    pub open spec fn reduce_tighter(self, rank: nat) -> Reading
        decreases self.stack.len(),
    {
        if self.operator_on_top() && rank_of(self.stack.last()->0) >= rank {
            self.reduce().reduce_tighter(rank)
        } else {
            self
        }
    }

    /// What one token does to the state.
    pub open spec fn step(self, token: TokenView) -> Reading {
        match token.token_type {
            TokenType::Number | TokenType::Boolean | TokenType::Variable => Reading {
                trees: self.trees.push(Tree::Operand(token)),
                stack: self.stack,
            },
            TokenType::Parenthesis => if token.value[0] == '(' {
                Reading { trees: self.trees, stack: self.stack.push(None) }
            } else {
                let group = self.reduce_tighter(0);
                Reading {
                    trees: group.trees.drop_last().push(Tree::Group(Box::new(group.trees.last()))),
                    stack: group.stack.drop_last(),
                }
            },
            TokenType::Operator => {
                let reduced = self.reduce_tighter(rank_of(token));
                Reading { trees: reduced.trees, stack: reduced.stack.push(Some(token)) }
            },
            TokenType::Whitespace => self,
        }
    }

    /// What a sequence of tokens does to the state, from left to right.
    pub open spec fn run(self, tokens: Seq<TokenView>) -> Reading
        decreases tokens.len(),
    {
        if tokens.len() == 0 {
            self
        } else {
            self.step(tokens[0]).run(tokens.drop_first())
        }
    }
}

/// The tree that an infix expression is read as.
pub open spec fn tree_of(tokens: Seq<TokenView>) -> Tree {
    (Reading { trees: Seq::empty(), stack: Seq::empty() }).run(tokens).reduce_tighter(0).trees[0]
}

/// The tokens that a state stands for: for each operator that waits, the
/// tokens of its left operand and its own; `(` for each parenthesis that
/// waits; and last the tokens of the operand on top, if one is complete.
pub open spec fn written(
    trees: Seq<Tree>,
    stack: Seq<Option<TokenView>>,
    complete: bool,
) -> Seq<TokenView>
    decreases stack.len(), (if complete { 1nat } else { 0nat }),
{
    if complete {
        if trees.len() == 0 {
            Seq::empty()
        } else {
            written(trees.drop_last(), stack, false) + trees.last().tokens()
        }
    } else if stack.len() == 0 {
        Seq::empty()
    } else {
        match stack.last() {
            None => written(trees, stack.drop_last(), false) + seq![opening()],
            Some(token) => if trees.len() == 0 {
                Seq::empty()
            } else {
                written(trees.drop_last(), stack.drop_last(), false) + trees.last().tokens()
                    + seq![token]
            },
        }
    }
}

/// Whether the operand on top may stand to the right of the operator on top
/// of the stack: it binds tighter.
pub open spec fn tighter_than_top(tree: Tree, stack: Seq<Option<TokenView>>) -> bool {
    (stack.len() > 0 && stack.last() is Some && tree.root_priority() is Some)
        ==> tree.root_priority()->0 > rank_of(stack.last()->0)
}

/// Whether the state is in order: each tree is one that its tokens are read
/// as; each operator that waits has a left operand that binds at least as
/// tightly, and binds tighter than the operator that waits below it; and the
/// operand on top, if one is complete, binds tighter than the operator on
/// top of the stack.
pub open spec fn ordered(trees: Seq<Tree>, stack: Seq<Option<TokenView>>, complete: bool) -> bool
    decreases stack.len(), (if complete { 1nat } else { 0nat }),
{
    if complete {
        &&& trees.len() > 0
        &&& trees.last().respects_precedence()
        &&& tighter_than_top(trees.last(), stack)
        &&& ordered(trees.drop_last(), stack, false)
    } else if stack.len() == 0 {
        trees.len() == 0
    } else {
        match stack.last() {
            None => ordered(trees, stack.drop_last(), false),
            Some(token) => {
                &&& trees.len() > 0
                &&& is_operator(token)
                &&& trees.last().respects_precedence()
                &&& trees.last().root_priority() matches Some(below) ==> below >= rank_of(token)
                &&& (stack.len() > 1 && stack[stack.len() - 2] is Some) ==> rank_of(
                    stack[stack.len() - 2]->0,
                ) < rank_of(token)
                &&& ordered(trees.drop_last(), stack.drop_last(), false)
            },
        }
    }
}

/// How many parentheses wait on the stack.
pub open spec fn groups(stack: Seq<Option<TokenView>>) -> nat
    decreases stack.len(),
{
    if stack.len() == 0 {
        0
    } else if stack.last() is None {
        groups(stack.drop_last()) + 1
    } else {
        groups(stack.drop_last())
    }
}

/// Whether the root of the tree on top, if it is an operator, is of the
/// given rank at least.
pub open spec fn top_at_least(trees: Seq<Tree>, rank: nat) -> bool {
    trees.len() > 0 && (trees.last().root_priority() matches Some(root) ==> root >= rank)
}

/// Joining trees keeps the state in order and the tokens that it stands
/// for, and ends below every operator of the given rank or above.
proof fn lemma_reduce_tighter(state: Reading, rank: nat)
    requires
        ordered(state.trees, state.stack, true),
        top_at_least(state.trees, rank),
    ensures
        ({
            let reduced = state.reduce_tighter(rank);
            &&& ordered(reduced.trees, reduced.stack, true)
            &&& top_at_least(reduced.trees, rank)
            &&& written(reduced.trees, reduced.stack, true) == written(
                state.trees,
                state.stack,
                true,
            )
            &&& groups(reduced.stack) == groups(state.stack)
            &&& !(reduced.operator_on_top() && rank_of(reduced.stack.last()->0) >= rank)
        }),
    decreases state.stack.len(),
{
    if state.operator_on_top() && rank_of(state.stack.last()->0) >= rank {
        let token = state.stack.last()->0;
        let right = state.trees.last();
        let rest = state.trees.drop_last();
        assert(ordered(rest, state.stack, false));
        let left = rest.last();
        let below = rest.drop_last();
        let lower = state.stack.drop_last();
        assert(ordered(below, lower, false));
        let joined = Tree::Binary(Box::new(left), token, Box::new(right));
        let next = state.reduce();
        assert(state.trees[state.trees.len() - 2] == left);
        assert(next.trees == below.push(joined));
        assert(next.trees.drop_last() =~= below);
        assert(next.trees.last() == joined);
        assert(joined.respects_precedence());
        assert(tighter_than_top(joined, lower)) by {
            if lower.len() > 0 && lower.last() is Some {
                assert(lower.last() == state.stack[state.stack.len() - 2]);
            }
        }
        assert(ordered(next.trees, next.stack, true));
        assert(written(next.trees, next.stack, true) =~= written(
            state.trees,
            state.stack,
            true,
        )) by {
            let before = written(below, lower, false);
            assert(written(next.trees, next.stack, true) == before + joined.tokens());
            assert(joined.tokens() == left.tokens() + seq![token] + right.tokens());
            assert(written(rest, state.stack, false) == before + left.tokens() + seq![token]);
            assert(written(state.trees, state.stack, true) == written(rest, state.stack, false)
                + right.tokens());
        }
        lemma_reduce_tighter(next, rank);
    }
}

/// Whether the state of the reader fits where the reading stands, and
/// stands for the tokens read so far.
pub open spec fn in_step(state: Reading, phase: Phase, read: Seq<TokenView>) -> bool {
    &&& ordered(state.trees, state.stack, !phase.operand_due)
    &&& !phase.operand_due ==> state.trees.last().root_priority() is None
    &&& groups(state.stack) == phase.open
    &&& written(state.trees, state.stack, !phase.operand_due) == read
}

/// A token that may come where the reading stands keeps the reader in step,
/// and is added to what the state stands for.
proof fn lemma_step_in_step(state: Reading, phase: Phase, read: Seq<TokenView>, token: TokenView)
    requires
        in_step(state, phase, read),
        phase.after(token) is Some,
        is_literal(token.token_type, token.value),
    ensures
        in_step(state.step(token), phase.after(token)->0, read.push(token)),
{
    let next = state.step(token);
    match token.token_type {
        TokenType::Number | TokenType::Boolean | TokenType::Variable => {
            assert(next.trees.drop_last() =~= state.trees);
            assert(Tree::Operand(token).tokens() =~= seq![token]);
            assert(written(next.trees, next.stack, true) =~= read.push(token));
        },
        TokenType::Parenthesis => {
            if token.value[0] == '(' {
                assert(token.value =~= seq!['(']);
                assert(token == opening());
                assert(next.stack.drop_last() =~= state.stack);
                assert(written(next.trees, next.stack, false) =~= read.push(token));
            } else {
                assert(token.value =~= seq![')']);
                assert(token == closing());
                lemma_reduce_tighter(state, 0);
                let group = state.reduce_tighter(0);
                assert(group.stack.len() > 0);
                assert(group.stack.last() is None);
                let inner = group.trees.last();
                let rest = group.trees.drop_last();
                let lower = group.stack.drop_last();
                assert(ordered(rest, group.stack, false));
                assert(ordered(rest, lower, false));
                let wrapped = Tree::Group(Box::new(inner));
                assert(next.trees.drop_last() =~= rest);
                assert(next.trees.last() == wrapped);
                assert(wrapped.respects_precedence());
                assert(ordered(next.trees, next.stack, true));
                assert(written(next.trees, next.stack, true) =~= read.push(token)) by {
                    let before = written(rest, lower, false);
                    assert(written(next.trees, next.stack, true) == before + wrapped.tokens());
                    assert(wrapped.tokens() == seq![opening()] + inner.tokens() + seq![closing()]);
                    assert(written(rest, group.stack, false) == before + seq![opening()]);
                    assert(written(group.trees, group.stack, true) == written(
                        rest,
                        group.stack,
                        false,
                    ) + inner.tokens());
                }
            }
        },
        TokenType::Operator => {
            lemma_reduce_tighter(state, rank_of(token));
            let reduced = state.reduce_tighter(rank_of(token));
            assert(next.stack.drop_last() =~= reduced.stack);
            assert(next.stack.last() == Some(token));
            assert(ordered(reduced.trees.drop_last(), reduced.stack, false));
            assert(ordered(next.trees, next.stack, false)) by {
                if next.stack.len() > 1 && next.stack[next.stack.len() - 2] is Some {
                    assert(next.stack[next.stack.len() - 2] == reduced.stack.last());
                }
            }
            assert(written(next.trees, next.stack, false) =~= read.push(token));
        },
        TokenType::Whitespace => {},
    }
}

/// Tokens that may come one after the other keep the reader in step, and
/// are added to what the state stands for.
proof fn lemma_run_in_step(
    state: Reading,
    phase: Phase,
    read: Seq<TokenView>,
    tokens: Seq<TokenView>,
)
    requires
        in_step(state, phase, read),
        phase.after_all(tokens) is Some,
        well_formed(tokens),
    ensures
        in_step(state.run(tokens), phase.after_all(tokens)->0, read + tokens),
    decreases tokens.len(),
{
    if tokens.len() == 0 {
        assert(read + tokens =~= read);
    } else {
        assert(is_literal(tokens[0].token_type, tokens[0].value));
        lemma_step_in_step(state, phase, read, tokens[0]);
        assert forall|i: int| 0 <= i < tokens.drop_first().len() implies is_literal(
            (#[trigger] tokens.drop_first()[i]).token_type,
            tokens.drop_first()[i].value,
        ) by {
            assert(tokens.drop_first()[i] == tokens[i + 1]);
        }
        lemma_run_in_step(
            state.step(tokens[0]),
            phase.after(tokens[0])->0,
            read.push(tokens[0]),
            tokens.drop_first(),
        );
        assert(read.push(tokens[0]) + tokens.drop_first() =~= read + tokens);
    }
}

/// Every infix expression has a tree: one that is built by precedence, by
/// association to the left and by parentheses, and whose tokens, read from
/// left to right, are the expression.
pub proof fn lemma_infix_has_a_tree(tokens: Seq<TokenView>)
    requires
        is_infix(tokens),
    ensures
        tree_of(tokens).respects_precedence(),
        tree_of(tokens).tokens() == tokens,
{
    let start = Reading { trees: Seq::empty(), stack: Seq::empty() };
    let phase = Phase { operand_due: true, open: 0 };
    lemma_run_in_step(start, phase, Seq::empty(), tokens);
    assert(Seq::<TokenView>::empty() + tokens =~= tokens);
    let end = start.run(tokens);
    lemma_reduce_tighter(end, 0);
    let last = end.reduce_tighter(0);
    assert(last.stack.len() == 0) by {
        if last.stack.len() > 0 {
            assert(last.stack.last() is None);
        }
    }
    assert(ordered(last.trees.drop_last(), last.stack, false));
    assert(last.trees.drop_last().len() == 0);
    assert(last.trees[0] == last.trees.last());
    assert(written(last.trees.drop_last(), last.stack, false) =~= Seq::<TokenView>::empty());
    assert(written(last.trees, last.stack, true) =~= last.trees.last().tokens());
}

/// The tree that the trees and the operators between them stand for, where
/// each operator joins the tree before it to all that follows.
pub open spec fn joined(trees: Seq<Tree>, operators: Seq<Option<TokenView>>) -> Tree
    decreases operators.len(),
{
    if operators.len() == 0 || trees.len() == 0 {
        trees[0]
    } else {
        Tree::Binary(
            Box::new(trees[0]),
            operators[0]->0,
            Box::new(joined(trees.drop_first(), operators.drop_first())),
        )
    }
}

impl Tree {
    /// The operands along the right edge of the tree: the left operand of
    /// the root, then those along the right edge of its right operand.
    pub open spec fn edge_trees(self) -> Seq<Tree>
        decreases self,
    {
        match self {
            Tree::Binary(left, _, right) => seq![*left] + right.edge_trees(),
            _ => seq![self],
        }
    }

    /// The operators along the right edge of the tree, the root first.
    pub open spec fn edge_operators(self) -> Seq<Option<TokenView>>
        decreases self,
    {
        match self {
            Tree::Binary(_, operator, right) => seq![Some(operator)] + right.edge_operators(),
            _ => Seq::empty(),
        }
    }
}

/// Whether the entries are operators, each of the given rank at least.
pub open spec fn all_at_least(operators: Seq<Option<TokenView>>, rank: nat) -> bool {
    forall|i: int|
        0 <= i < operators.len() ==> (#[trigger] operators[i]) is Some && rank_of(operators[i]->0)
            >= rank
}

/// Whether nothing below is joined for the given rank: the stack is empty, or
/// a parenthesis is on top, or an operator of a lower rank.
pub open spec fn rests_below(stack: Seq<Option<TokenView>>, rank: nat) -> bool {
    stack.len() == 0 || stack.last() is None || rank_of(stack.last()->0) < rank
}

/// A tree is what its right edge stands for.
proof fn lemma_edge_joins(tree: Tree)
    ensures
        joined(tree.edge_trees(), tree.edge_operators()) == tree,
        tree.edge_trees().len() == tree.edge_operators().len() + 1,
    decreases tree,
{
    match tree {
        Tree::Binary(left, operator, right) => {
            lemma_edge_joins(*right);
            assert(tree.edge_trees().drop_first() =~= right.edge_trees());
            assert(tree.edge_operators().drop_first() =~= right.edge_operators());
        },
        _ => {},
    }
}

/// The operators along the right edge of a tree are of the rank of its root
/// at least.
proof fn lemma_edge_is_tight(tree: Tree)
    requires
        tree.respects_precedence(),
    ensures
        tree.root_priority() matches Some(rank) ==> all_at_least(tree.edge_operators(), rank),
        tree.root_priority() is None ==> tree.edge_operators().len() == 0,
        all_at_least(tree.edge_operators(), 0),
    decreases tree,
{
    match tree {
        Tree::Binary(left, operator, right) => {
            lemma_edge_is_tight(*right);
            let rank = rank_of(operator);
            assert forall|i: int| 0 <= i < tree.edge_operators().len() implies (
            #[trigger] tree.edge_operators()[i]) is Some && rank_of(tree.edge_operators()[i]->0)
                >= rank by {
                if i > 0 {
                    assert(tree.edge_operators()[i] == right.edge_operators()[i - 1]);
                }
            }
        },
        _ => {},
    }
}

/// Joining the last two trees by the last operator changes nothing of what
/// the trees and operators stand for.
proof fn lemma_joined_from_the_end(trees: Seq<Tree>, operators: Seq<Option<TokenView>>)
    requires
        operators.len() > 0,
        trees.len() == operators.len() + 1,
    ensures
        joined(
            trees.drop_last().drop_last().push(
                Tree::Binary(
                    Box::new(trees[trees.len() - 2]),
                    operators.last()->0,
                    Box::new(trees.last()),
                ),
            ),
            operators.drop_last(),
        ) == joined(trees, operators),
    decreases operators.len(),
{
    let last = Tree::Binary(
        Box::new(trees[trees.len() - 2]),
        operators.last()->0,
        Box::new(trees.last()),
    );
    let shorter = trees.drop_last().drop_last().push(last);
    if operators.len() == 1 {
        assert(operators.drop_first() =~= Seq::empty());
        assert(trees.drop_first()[0] == trees.last());
        assert(joined(trees.drop_first(), operators.drop_first()) == trees.last());
        assert(shorter[0] == last);
    } else {
        lemma_joined_from_the_end(trees.drop_first(), operators.drop_first());
        assert(trees.drop_first().drop_last().drop_last().push(last) =~= shorter.drop_first());
        assert(operators.drop_first().drop_last() =~= operators.drop_last().drop_first());
        assert(trees.drop_first()[trees.drop_first().len() - 2] == trees[trees.len() - 2]);
        assert(shorter[0] == trees[0]);
        assert(operators.drop_last()[0] == operators[0]);
    }
}

/// Operators on top that are of the given rank at least are all joined, down
/// to what rests below.
proof fn lemma_reduce_joins(
    below: Seq<Tree>,
    trees: Seq<Tree>,
    stack: Seq<Option<TokenView>>,
    operators: Seq<Option<TokenView>>,
    rank: nat,
)
    requires
        trees.len() == operators.len() + 1,
        all_at_least(operators, rank),
        rests_below(stack, rank),
    ensures
        (Reading { trees: below + trees, stack: stack + operators }).reduce_tighter(rank) == (
        Reading { trees: below.push(joined(trees, operators)), stack }),
    decreases operators.len(),
{
    let state = Reading { trees: below + trees, stack: stack + operators };
    if operators.len() == 0 {
        assert(stack + operators =~= stack);
        assert(below + trees =~= below.push(trees[0]));
    } else {
        assert(state.stack.last() == operators.last());
        let last = Tree::Binary(
            Box::new(trees[trees.len() - 2]),
            operators.last()->0,
            Box::new(trees.last()),
        );
        let shorter = trees.drop_last().drop_last().push(last);
        assert(state.trees[state.trees.len() - 2] == trees[trees.len() - 2]);
        assert(state.trees.last() == trees.last());
        assert(state.trees.drop_last().drop_last().push(last) =~= below + shorter);
        assert(state.stack.drop_last() =~= stack + operators.drop_last());
        assert(all_at_least(operators.drop_last(), rank)) by {
            assert forall|i: int| 0 <= i < operators.drop_last().len() implies (
            #[trigger] operators.drop_last()[i]) is Some && rank_of(operators.drop_last()[i]->0)
                >= rank by {
                assert(operators.drop_last()[i] == operators[i]);
            }
        }
        lemma_reduce_joins(below, shorter, stack, operators.drop_last(), rank);
        lemma_joined_from_the_end(trees, operators);
    }
}

/// Reading one token is one step.
proof fn lemma_read_one(state: Reading, token: TokenView)
    ensures
        state.run(seq![token]) == state.step(token),
{
    let one = seq![token];
    assert(one.drop_first() =~= Seq::<TokenView>::empty());
    assert(one[0] == token);
    assert(state.step(token).run(one.drop_first()) == state.step(token));
}

/// Tokens are read one after the other.
proof fn lemma_read_in_parts(state: Reading, first: Seq<TokenView>, second: Seq<TokenView>)
    ensures
        state.run(first + second) == state.run(first).run(second),
    decreases first.len(),
{
    if first.len() == 0 {
        assert(first + second =~= second);
    } else {
        assert((first + second)[0] == first[0]);
        assert((first + second).drop_first() =~= first.drop_first() + second);
        lemma_read_in_parts(state.step(first[0]), first.drop_first(), second);
    }
}

/// Reading the tokens of a tree leaves the operands and operators of its
/// right edge on top, if nothing that waited before is of the rank of its
/// root or above.
proof fn lemma_read_of_tree(tree: Tree, trees: Seq<Tree>, stack: Seq<Option<TokenView>>)
    requires
        tree.respects_precedence(),
        tree.root_priority() matches Some(rank) ==> rests_below(stack, rank),
    ensures
        (Reading { trees, stack }).run(tree.tokens()) == (Reading {
            trees: trees + tree.edge_trees(),
            stack: stack + tree.edge_operators(),
        }),
    decreases tree,
{
    let state = Reading { trees, stack };
    match tree {
        Tree::Operand(token) => {
            lemma_read_one(state, token);
            assert(trees.push(tree) =~= trees + tree.edge_trees());
            assert(stack =~= stack + tree.edge_operators());
        },
        Tree::Group(inner) => {
            lemma_read_in_parts(state, seq![opening()] + inner.tokens(), seq![closing()]);
            lemma_read_in_parts(state, seq![opening()], inner.tokens());
            lemma_read_one(state, opening());
            lemma_read_of_tree(*inner, trees, stack.push(None));
            let closed = Reading {
                trees: trees + inner.edge_trees(),
                stack: stack.push(None) + inner.edge_operators(),
            };
            lemma_read_one(closed, closing());
            lemma_edge_joins(*inner);
            lemma_edge_is_tight(*inner);
            lemma_reduce_joins(
                trees,
                inner.edge_trees(),
                stack.push(None),
                inner.edge_operators(),
                0,
            );
            assert(stack.push(None).drop_last() =~= stack);
            assert(trees.push(*inner).drop_last() =~= trees);
            assert(trees.push(tree) =~= trees + tree.edge_trees());
            assert(stack =~= stack + tree.edge_operators());
        },
        Tree::Binary(left, operator, right) => {
            let rank = rank_of(operator);
            lemma_read_in_parts(state, left.tokens() + seq![operator], right.tokens());
            lemma_read_in_parts(state, left.tokens(), seq![operator]);
            lemma_read_of_tree(*left, trees, stack);
            let after_left = Reading {
                trees: trees + left.edge_trees(),
                stack: stack + left.edge_operators(),
            };
            lemma_read_one(after_left, operator);
            lemma_edge_joins(*left);
            lemma_edge_is_tight(*left);
            assert(all_at_least(left.edge_operators(), rank)) by {
                if left.root_priority() is Some {
                    assert forall|i: int| 0 <= i < left.edge_operators().len() implies (
                    #[trigger] left.edge_operators()[i]) is Some && rank_of(
                        left.edge_operators()[i]->0,
                    ) >= rank by {}
                }
            }
            lemma_reduce_joins(trees, left.edge_trees(), stack, left.edge_operators(), rank);
            let after_operator = Reading {
                trees: trees.push(*left),
                stack: stack.push(Some(operator)),
            };
            assert(after_left.step(operator) == after_operator);
            lemma_read_of_tree(*right, after_operator.trees, after_operator.stack);
            assert(trees.push(*left) + right.edge_trees() =~= trees + tree.edge_trees());
            assert(stack.push(Some(operator)) + right.edge_operators() =~= stack
                + tree.edge_operators());
        },
    }
}

/// A tree is read back from its tokens: the tree that an expression is read
/// as is the only one that is built by precedence, by association to the
/// left and by parentheses and has the tokens of the expression.
pub proof fn lemma_tree_is_read_back(tree: Tree)
    requires
        tree.respects_precedence(),
    ensures
        tree_of(tree.tokens()) == tree,
{
    let none = Seq::<Tree>::empty();
    let empty = Seq::<Option<TokenView>>::empty();
    lemma_read_of_tree(tree, none, empty);
    lemma_edge_joins(tree);
    lemma_edge_is_tight(tree);
    lemma_reduce_joins(none, tree.edge_trees(), empty, tree.edge_operators(), 0);
    assert(empty + tree.edge_operators() =~= tree.edge_operators());
    assert(none + tree.edge_trees() =~= tree.edge_trees());
}

} // verus!
