use vstd::prelude::*;
use crate::error::{bad_parse, Error, ErrorType, SpecError};
use crate::lexer::{lex, token_views, tokens_of, SpecToken, SpecTokenType, Token, TokenType};
use crate::numeral::Numeral;

pub use crate::lexer::Operation;

verus! {

/// What a node of the tree is.
#[derive(Debug, PartialEq, Eq)]
pub enum ExpressionData {
    Op(Box<Expression>, Operation, Box<Expression>),
    Constant(Numeral),
    Identifier(char),
}

/// A node of the tree with the half-open span `[start, end)` of the text it stands for.
#[derive(Debug, PartialEq, Eq)]
pub struct Expression {
    pub data: ExpressionData,
    pub start: usize,
    pub end: usize,
}

/// The mathematical content of an [`ExpressionData`].
pub enum SpecExpressionData {
    Op(Box<SpecExpression>, Operation, Box<SpecExpression>),
    Constant(Seq<char>),
    Identifier(char),
}

/// The mathematical content of an [`Expression`].
pub struct SpecExpression {
    pub data: SpecExpressionData,
    pub start: int,
    pub end: int,
}

/// The content of a tree, node by node.
pub open spec fn content(e: Expression) -> SpecExpression
    decreases e,
{
    SpecExpression {
        data: match e.data {
            ExpressionData::Op(lhs, op, rhs) => SpecExpressionData::Op(
                Box::new(content(*lhs)),
                op,
                Box::new(content(*rhs)),
            ),
            ExpressionData::Constant(val) => SpecExpressionData::Constant(val@),
            ExpressionData::Identifier(name) => SpecExpressionData::Identifier(name),
        },
        start: e.start as int,
        end: e.end as int,
    }
}

impl View for Expression {
    type V = SpecExpression;

    open spec fn view(&self) -> SpecExpression {
        content(*self)
    }
}

/// A constant with the given span.
pub open spec fn constant(val: Seq<char>, start: int, end: int) -> SpecExpression {
    SpecExpression { data: SpecExpressionData::Constant(val), start, end }
}

/// An identifier with the given span.
pub open spec fn identifier(name: char, start: int, end: int) -> SpecExpression {
    SpecExpression { data: SpecExpressionData::Identifier(name), start, end }
}

/// An operation on two operands; its span runs from the start of the left one
/// to the end of the right one.
pub open spec fn binary(lhs: SpecExpression, op: Operation, rhs: SpecExpression) -> SpecExpression {
    SpecExpression {
        data: SpecExpressionData::Op(Box::new(lhs), op, Box::new(rhs)),
        start: lhs.start,
        end: rhs.end,
    }
}

/// The same node with another span.
pub open spec fn rebound(e: SpecExpression, start: int, end: int) -> SpecExpression {
    SpecExpression { data: e.data, start, end }
}

/// How tightly an operation binds: the higher, the tighter.
pub open spec fn precedence_of(op: Operation) -> int {
    match op {
        Operation::Add => 0,
        Operation::Subtract => 0,
        Operation::Multiply => 1,
        Operation::Divide => 1,
        Operation::Exponentiate => 2,
    }
}

/// Whether, of two operators with one operand between them, the left one takes
/// that operand: it binds tighter, or as tightly and groups to the left.
/// Exponentiation groups to the right, every other operation to the left.
pub open spec fn binds_first(left: Operation, right: Operation) -> bool {
    precedence_of(left) > precedence_of(right) || (precedence_of(left) == precedence_of(right)
        && left != Operation::Exponentiate)
}

/// The position of the operator that is applied last in a chain of operators:
/// the loosest one, and among equals the last, or the first for exponentiation.
pub open spec fn root(ops: Seq<Operation>) -> int
    decreases ops.len(),
{
    if ops.len() <= 1 {
        0
    } else {
        let before = root(ops.drop_last());
        if binds_first(ops[before], ops.last()) {
            ops.len() - 1
        } else {
            before
        }
    }
}

/// The root lies within the chain.
pub proof fn lemma_root_bounds(ops: Seq<Operation>)
    requires
        ops.len() > 0,
    ensures
        0 <= root(ops) < ops.len(),
    decreases ops.len(),
{
    if ops.len() > 1 {
        lemma_root_bounds(ops.drop_last());
    }
}

/// The operators of a chain of operators and operands.
pub open spec fn operators(rest: Seq<(Operation, SpecExpression)>) -> Seq<Operation> {
    Seq::new(rest.len(), |i: int| rest[i].0)
}

/// The tree of a flat chain `first op operand op operand ...`: the operator
/// applied last is the root, and what stands on either side of it is grouped in
/// the same way.
pub open spec fn group(first: SpecExpression, rest: Seq<(Operation, SpecExpression)>) -> SpecExpression
    decreases rest.len(),
{
    if rest.len() == 0 {
        first
    } else {
        let k = root(operators(rest));
        proof {
            lemma_root_bounds(operators(rest));
        }
        binary(group(first, rest.take(k)), rest[k].0, group(rest[k].1, rest.skip(k + 1)))
    }
}

/// No operator of a chain binds looser than its root.
pub proof fn lemma_root_loosest(ops: Seq<Operation>, i: int)
    requires
        0 <= i < ops.len(),
    ensures
        precedence_of(ops[root(ops)]) <= precedence_of(ops[i]),
    decreases ops.len(),
{
    if ops.len() > 1 {
        lemma_root_bounds(ops.drop_last());
        if i < ops.len() - 1 {
            lemma_root_loosest(ops.drop_last(), i);
        }
    }
}

/// The root is the last of the loosest operators of a chain, and where the
/// loosest is exponentiation, which is then the only operation in it, the first.
pub proof fn lemma_root_is_last_of_loosest(ops: Seq<Operation>, i: int)
    requires
        0 <= i < ops.len(),
    ensures
        precedence_of(ops[root(ops)]) <= precedence_of(ops[i]),
        ops[root(ops)] != Operation::Exponentiate && root(ops) < i ==> precedence_of(
            ops[root(ops)],
        ) < precedence_of(ops[i]),
        ops[root(ops)] == Operation::Exponentiate ==> root(ops) == 0,
    decreases ops.len(),
{
    lemma_root_loosest(ops, i);
    if ops.len() > 1 {
        let front = ops.drop_last();
        lemma_root_bounds(front);
        lemma_root_is_last_of_loosest(front, 0);
        if i < ops.len() - 1 {
            lemma_root_is_last_of_loosest(front, i);
        }
    }
}

/// Whether the operator at `j` takes both operands next to it: the operator in
/// front of it leaves the left one to it, and it binds before the one behind it.
pub open spec fn is_handle(ops: Seq<Operation>, j: int) -> bool {
    &&& 0 <= j < ops.len()
    &&& j == 0 || !binds_first(ops[j - 1], ops[j])
    &&& j == ops.len() - 1 || binds_first(ops[j], ops[j + 1])
}

/// An operator that takes both its operands is not the root of a longer chain,
/// and the root stays the same operator when it is taken out.
pub proof fn lemma_root_without(ops: Seq<Operation>, j: int)
    requires
        ops.len() >= 2,
        is_handle(ops, j),
    ensures
        root(ops) != j,
        root(ops.remove(j)) == if root(ops) < j {
            root(ops)
        } else {
            root(ops) - 1
        },
    decreases ops.len(),
{
    let front = ops.drop_last();
    lemma_root_bounds(front);
    if j == ops.len() - 1 {
        lemma_root_loosest(front, j - 1);
        assert(ops.remove(j) =~= front);
    } else if ops.len() == 2 {
        assert(ops.remove(j) =~= seq![ops[1]]);
        assert(front =~= seq![ops[0]]);
    } else {
        lemma_root_without(front, j);
        assert(ops.remove(j).drop_last() =~= front.remove(j));
        lemma_root_bounds(front.remove(j));
    }
}

/// The first operand once the operator at `j` has taken its two operands.
pub open spec fn folded_first(
    first: SpecExpression,
    rest: Seq<(Operation, SpecExpression)>,
    j: int,
) -> SpecExpression {
    if j == 0 {
        binary(first, rest[0].0, rest[0].1)
    } else {
        first
    }
}

/// The chain once the operator at `j` has taken its two operands.
pub open spec fn folded_rest(rest: Seq<(Operation, SpecExpression)>, j: int) -> Seq<
    (Operation, SpecExpression),
> {
    if j == 0 {
        rest.skip(1)
    } else {
        rest.update(j - 1, (rest[j - 1].0, binary(rest[j - 1].1, rest[j].0, rest[j].1))).remove(j)
    }
}

/// How folding at `j` shows on the right of a position `k` in front of `j`.
proof fn lemma_folded_right(rest: Seq<(Operation, SpecExpression)>, j: int, k: int)
    requires
        0 <= k < j < rest.len(),
    ensures
        folded_rest(rest, j).len() == rest.len() - 1,
        folded_rest(rest, j).take(k) == rest.take(k),
        folded_rest(rest, j).skip(k + 1) == folded_rest(rest.skip(k + 1), j - k - 1),
        folded_rest(rest, j)[k].0 == rest[k].0,
        folded_rest(rest, j)[k].1 == folded_first(rest[k].1, rest.skip(k + 1), j - k - 1),
        operators(rest.skip(k + 1)) == operators(rest).skip(k + 1),
{
    let after = folded_rest(rest, j);
    let right = rest.skip(k + 1);
    assert(after.take(k) =~= rest.take(k));
    assert(after.skip(k + 1) =~= folded_rest(right, j - k - 1));
    assert(operators(right) =~= operators(rest).skip(k + 1));
}

/// How folding at `j` shows on the left of a position `k` behind `j`.
proof fn lemma_folded_left(
    first: SpecExpression,
    rest: Seq<(Operation, SpecExpression)>,
    j: int,
    k: int,
)
    requires
        0 <= j < k < rest.len(),
    ensures
        folded_rest(rest, j).len() == rest.len() - 1,
        folded_rest(rest, j).take(k - 1) == folded_rest(rest.take(k), j),
        folded_rest(rest, j).skip(k) == rest.skip(k + 1),
        folded_rest(rest, j)[k - 1] == rest[k],
        folded_first(first, rest, j) == folded_first(first, rest.take(k), j),
        operators(rest.take(k)) == operators(rest).take(k),
{
    let after = folded_rest(rest, j);
    let left = rest.take(k);
    assert(after.take(k - 1) =~= folded_rest(left, j));
    assert(after.skip(k) =~= rest.skip(k + 1));
    assert(operators(left) =~= operators(rest).take(k));
}

/// A chain that is not empty groups around its root.
proof fn lemma_group_at_root(first: SpecExpression, rest: Seq<(Operation, SpecExpression)>)
    requires
        rest.len() > 0,
    ensures
        0 <= root(operators(rest)) < rest.len(),
        group(first, rest) == binary(
            group(first, rest.take(root(operators(rest)))),
            rest[root(operators(rest))].0,
            group(rest[root(operators(rest))].1, rest.skip(root(operators(rest)) + 1)),
        ),
{
    lemma_root_bounds(operators(rest));
}

/// An operator that takes both operands next to it may be applied at once: the
/// chain groups to the same tree with the operation in place of its operands.
pub proof fn lemma_fold(first: SpecExpression, rest: Seq<(Operation, SpecExpression)>, j: int)
    requires
        is_handle(operators(rest), j),
    ensures
        group(first, rest) == group(folded_first(first, rest, j), folded_rest(rest, j)),
    decreases rest.len(),
{
    let ops = operators(rest);
    let after = folded_rest(rest, j);
    let head = folded_first(first, rest, j);
    lemma_group_at_root(first, rest);
    if rest.len() == 1 {
        assert(rest.take(0) =~= Seq::empty());
        assert(rest.skip(1) =~= Seq::empty());
    } else {
        lemma_root_without(ops, j);
        let k = root(ops);
        assert(operators(after) =~= ops.remove(j));
        lemma_group_at_root(head, after);
        if k < j {
            lemma_folded_right(rest, j, k);
            lemma_fold(rest[k].1, rest.skip(k + 1), j - k - 1);
        } else {
            lemma_folded_left(first, rest, j, k);
            lemma_fold(first, rest.take(k), j);
        }
    }
}

/// The closing parenthesis in front of `end` that ends the group open at `from`,
/// where `level` groups are open.
pub open spec fn closing(tokens: Seq<SpecToken>, from: int, end: int, level: nat) -> Option<int>
    decreases tokens.len() - from,
{
    if from < 0 || from >= end || from >= tokens.len() {
        None
    } else {
        match tokens[from].token_type {
            SpecTokenType::OpenParen => closing(tokens, from + 1, end, level + 1),
            SpecTokenType::CloseParen => if level <= 1 {
                Some(from)
            } else {
                closing(tokens, from + 1, end, (level - 1) as nat)
            },
            _ => closing(tokens, from + 1, end, level),
        }
    }
}

/// A closing parenthesis is found at or behind the place where the search
/// starts, and in front of its end.
pub proof fn lemma_closing_bounds(tokens: Seq<SpecToken>, from: int, end: int, level: nat)
    ensures
        closing(tokens, from, end, level) matches Some(close) ==> from <= close < end && close
            < tokens.len() && tokens[close].token_type == SpecTokenType::CloseParen,
    decreases tokens.len() - from,
{
    if 0 <= from < end && from < tokens.len() {
        match tokens[from].token_type {
            SpecTokenType::OpenParen => lemma_closing_bounds(tokens, from + 1, end, level + 1),
            SpecTokenType::CloseParen => if level > 1 {
                lemma_closing_bounds(tokens, from + 1, end, (level - 1) as nat)
            },
            _ => lemma_closing_bounds(tokens, from + 1, end, level),
        }
    }
}

/// The position behind `e`, as far as positions reach.
pub open spec fn following(e: int) -> int {
    if e < usize::MAX {
        e + 1
    } else {
        e
    }
}

/// Where the last token ends: the place at which an expression is missed when
/// the tokens run out.
pub open spec fn end_of_input(tokens: Seq<SpecToken>) -> int {
    if tokens.len() == 0 {
        0
    } else {
        tokens.last().end
    }
}

/// The failure of a place where an expression should start and none does.
pub open spec fn expected_expression(start: int, end: int) -> SpecError {
    bad_parse("expected expression"@, start, end)
}

/// The failure of an operand that is due at `at` where a scope has ended: it
/// points at the token there, or just behind the last token where the tokens
/// have run out.
pub open spec fn absent(tokens: Seq<SpecToken>, at: int) -> SpecError {
    if 0 <= at < tokens.len() {
        expected_expression(tokens[at].start, tokens[at].end)
    } else {
        expected_expression(end_of_input(tokens), following(end_of_input(tokens)))
    }
}

/// The operator at `at`, and where its right operand starts. An identifier or an
/// opening parenthesis in place of an operator multiplies, and is itself the
/// start of the operand. A numeral cannot be multiplied in this way.
pub open spec fn operator(tokens: Seq<SpecToken>, at: int) -> Result<(Operation, int), SpecError> {
    let t = tokens[at];
    match t.token_type {
        SpecTokenType::Op(op) => Ok((op, at + 1)),
        SpecTokenType::Identifier(_) => Ok((Operation::Multiply, at)),
        SpecTokenType::OpenParen => Ok((Operation::Multiply, at)),
        SpecTokenType::Constant(_) => Err(
            bad_parse("constant on RHS of implicit multiplication"@, t.start, t.end),
        ),
        SpecTokenType::CloseParen => Err(expected_expression(t.start, t.end)),
    }
}

/// Where the tokens go on behind the operand that starts at `at`.
pub open spec fn after_operand(tokens: Seq<SpecToken>, at: int, end: int, leading: bool) -> int {
    match tokens[at].token_type {
        SpecTokenType::OpenParen => match closing(tokens, at + 1, end, 1) {
            Some(close) => close + 1,
            None => at + 1,
        },
        SpecTokenType::Op(Operation::Subtract) => if leading {
            at
        } else {
            at + 1
        },
        _ => at + 1,
    }
}

/// The operand that starts at `at`, in a scope that ends at `end`. A numeral and
/// an identifier stand for themselves. A parenthesis opens a group that is read
/// as a scope of its own, and the result spans both parentheses. Where `leading`
/// holds, the operand opens a scope, and a minus sign there yields a zero of no
/// width in front of it, so that the sign is read again as a subtraction.
pub open spec fn operand(tokens: Seq<SpecToken>, at: int, end: int, leading: bool) -> Result<
    SpecExpression,
    SpecError,
>
    decreases tokens.len() - at, 0int,
{
    if at < 0 || at >= tokens.len() {
        Err(absent(tokens, at))
    } else {
        let t = tokens[at];
        match t.token_type {
            SpecTokenType::Constant(val) => Ok(constant(val, t.start, t.end)),
            SpecTokenType::Identifier(name) => Ok(identifier(name, t.start, t.end)),
            SpecTokenType::OpenParen => match closing(tokens, at + 1, end, 1) {
                None => Err(bad_parse("failed to match paren"@, t.start, t.end)),
                Some(close) => match scope(tokens, at + 1, close) {
                    Err(e) => Err(e),
                    Ok(inner) => Ok(rebound(inner, t.start, tokens[close].end)),
                },
            },
            SpecTokenType::Op(Operation::Subtract) => if leading {
                Ok(constant(seq!['0'], t.start, t.start))
            } else {
                Err(
                    bad_parse(
                        "expected expression; wrap in parens for unary minus"@,
                        t.start,
                        t.end,
                    ),
                )
            },
            _ => Err(expected_expression(t.start, t.end)),
        }
    }
}

/// The operators and operands from `at` up to `end`, in order.
pub open spec fn items(tokens: Seq<SpecToken>, at: int, end: int) -> Result<
    Seq<(Operation, SpecExpression)>,
    SpecError,
>
    decreases tokens.len() - at, 1int,
{
    if at < 0 || at >= end || at >= tokens.len() {
        Ok(Seq::empty())
    } else {
        match operator(tokens, at) {
            Err(e) => Err(e),
            Ok((op, next)) => if next >= end || next >= tokens.len() {
                Err(absent(tokens, next))
            } else {
                match operand(tokens, next, end, false) {
                    Err(e) => Err(e),
                    Ok(rhs) => {
                        proof {
                            lemma_closing_bounds(tokens, at + 1, end, 1);
                            lemma_closing_bounds(tokens, at + 2, end, 1);
                        }
                        match items(tokens, after_operand(tokens, next, end, false), end) {
                            Err(e) => Err(e),
                            Ok(rest) => Ok(seq![(op, rhs)] + rest),
                        }
                    },
                }
            },
        }
    }
}

/// The tree of the tokens from `start` up to `end`: the leading operand, then
/// operators and operands by turns, grouped by precedence. Only the tokens in
/// front of `end` are part of it. The first failure in the order of the tokens
/// is the result.
pub open spec fn scope(tokens: Seq<SpecToken>, start: int, end: int) -> Result<
    SpecExpression,
    SpecError,
>
    decreases tokens.len() - start, 2int,
{
    if start < 0 || start >= end || start >= tokens.len() {
        Err(absent(tokens, start))
    } else {
        match operand(tokens, start, end, true) {
            Err(e) => Err(e),
            Ok(first) => {
                proof {
                    lemma_closing_bounds(tokens, start + 1, end, 1);
                }
                match items(tokens, after_operand(tokens, start, end, true), end) {
                    Err(e) => Err(e),
                    Ok(rest) => Ok(group(first, rest)),
                }
            },
        }
    }
}

/// The tree of a whole sequence of tokens.
pub open spec fn tree_of(tokens: Seq<SpecToken>) -> Result<SpecExpression, SpecError> {
    scope(tokens, 0, tokens.len() as int)
}

/// The tree of a text: that of its tokens, or the failure to read them.
pub open spec fn tree_of_text(text: Seq<char>) -> Result<SpecExpression, SpecError> {
    match tokens_of(text) {
        Err(e) => Err(e),
        Ok(tokens) => tree_of(tokens),
    }
}

/// The content of a result.
pub open spec fn outcome(r: Result<Expression, Error>) -> Result<SpecExpression, SpecError> {
    match r {
        Ok(e) => Ok(e@),
        Err(e) => Err(e@),
    }
}


impl Expression {
    pub fn new_const(val: Numeral, start: usize, end: usize) -> (e: Expression)
        ensures
            e@ == constant(val@, start as int, end as int),
    {
        let data = ExpressionData::Constant(val);
        Expression { data, start, end }
    }

    pub fn new_id(name: char, start: usize, end: usize) -> (e: Expression)
        ensures
            e@ == identifier(name, start as int, end as int),
    {
        let data = ExpressionData::Identifier(name);
        Expression { data, start, end }
    }

    pub fn new_op(lhs: Expression, op: Operation, rhs: Expression) -> (e: Expression)
        ensures
            e@ == binary(lhs@, op, rhs@),
    {
        let start = lhs.start;
        let end = rhs.end;
        let data = ExpressionData::Op(Box::new(lhs), op, Box::new(rhs));
        Expression { data, start, end }
    }

    pub fn with_bounds(self, start: usize, end: usize) -> (e: Expression)
        ensures
            e@ == rebound(self@, start as int, end as int),
    {
        Expression { data: self.data, start, end }
    }
}

/// The contents of a stack of operators with their right operands.
pub open spec fn pending(stack: Seq<(Operation, Expression)>) -> Seq<(Operation, SpecExpression)> {
    Seq::new(stack.len(), |i: int| (stack[i].0, stack[i].1@))
}

/// Whether no operator of the chain binds before the one behind it.
pub open spec fn is_ascending(ops: Seq<Operation>) -> bool {
    forall|i: int| 0 <= i < ops.len() - 1 ==> !binds_first(#[trigger] ops[i], ops[i + 1])
}

pub fn precedence(operation: &Operation) -> (p: i32)
    ensures
        p == precedence_of(*operation),
{
    match operation {
        Operation::Add => 0,
        Operation::Subtract => 0,
        Operation::Multiply => 1,
        Operation::Divide => 1,
        Operation::Exponentiate => 2,
    }
}

fn binds_before(left: &Operation, right: &Operation) -> (b: bool)
    ensures
        b == binds_first(*left, *right),
{
    let l = precedence(left);
    let r = precedence(right);
    l > r || (l == r && l < 2)
}

fn failure(message: &str, start: usize, end: usize) -> (e: Error)
    ensures
        e@ == bad_parse(message@, start as int, end as int),
{
    Error::new(ErrorType::BadParse, message.to_owned(), start, end)
}

fn missing(tokens: &Vec<Token>, at: usize) -> (e: Error)
    ensures
        e@ == absent(token_views(tokens@), at as int),
{
    if at < tokens.len() {
        return failure("expected expression", tokens[at].start, tokens[at].end);
    }
    let last = if tokens.len() == 0 {
        0
    } else {
        tokens[tokens.len() - 1].end
    };
    let behind = if last < usize::MAX {
        last + 1
    } else {
        last
    };
    failure("expected expression", last, behind)
}

fn match_paren(tokens: &Vec<Token>, start: usize, end: usize) -> (res: Result<usize, Error>)
    requires
        1 <= start <= tokens.len(),
    ensures
        match closing(token_views(tokens@), start as int, end as int, 1) {
            Some(close) => res == Ok::<usize, Error>(close as usize),
            None => res matches Err(e) && e@ == bad_parse(
                "failed to match paren"@,
                tokens[start - 1].start as int,
                tokens[start - 1].end as int,
            ),
        },
{
    let mut i = start;
    let mut level: usize = 1;
    while i < end && i < tokens.len()
        invariant
            1 <= start <= i <= tokens.len(),
            1 <= level <= i - start + 1,
            closing(token_views(tokens@), start as int, end as int, 1) == closing(
                token_views(tokens@),
                i as int,
                end as int,
                level as nat,
            ),
        decreases tokens.len() - i,
    {
        match tokens[i].token_type {
            TokenType::OpenParen => {
                level += 1;
            },
            TokenType::CloseParen => {
                if level == 1 {
                    proof {
                        lemma_closing_bounds(token_views(tokens@), start as int, end as int, 1);
                    }
                    return Ok(i);
                }
                level -= 1;
            },
            _ => (),
        }
        i += 1;
    }
    Err(failure("failed to match paren", tokens[start - 1].start, tokens[start - 1].end))
}

/// Applies the operators on top of the stack that bind before the incoming one,
/// or all of them where nothing comes in.
fn reduce(
    lhs: Expression,
    stack: Vec<(Operation, Expression)>,
    incoming: Option<Operation>,
    Ghost(rest): Ghost<Seq<(Operation, SpecExpression)>>,
) -> (r: (Expression, Vec<(Operation, Expression)>))
    requires
        is_ascending(operators(pending(stack@))),
        match incoming {
            Some(op) => rest.len() > 0 && rest[0].0 == op,
            None => rest.len() == 0,
        },
    ensures
        is_ascending(operators(pending(r.1@))),
        group(r.0@, pending(r.1@) + rest) == group(lhs@, pending(stack@) + rest),
        match incoming {
            Some(op) => r.1@.len() > 0 ==> !binds_first(r.1@.last().0, op),
            None => r.1@.len() == 0,
        },
{
    let ghost goal = group(lhs@, pending(stack@) + rest);
    let mut lhs = lhs;
    let mut stack = stack;
    loop
        invariant
            is_ascending(operators(pending(stack@))),
            group(lhs@, pending(stack@) + rest) == goal,
            match incoming {
                Some(op) => rest.len() > 0 && rest[0].0 == op,
                None => rest.len() == 0,
            },
        ensures
            match incoming {
                Some(op) => stack@.len() > 0 ==> !binds_first(stack@.last().0, op),
                None => stack@.len() == 0,
            },
        decreases stack.len(),
    {
        let ghost before = stack@;
        let ghost chain = pending(before) + rest;
        match stack.pop() {
            None => {
                break ;
            },
            Some((top_op, top_rhs)) => {
                let fold = match incoming {
                    Some(op) => binds_before(&top_op, &op),
                    None => true,
                };
                if !fold {
                    stack.push((top_op, top_rhs));
                    assert(stack@ =~= before);
                    break ;
                }
                let ghost j = before.len() - 1;
                proof {
                    assert(is_handle(operators(chain), j)) by {
                        if j > 0 {
                            assert(operators(pending(before))[j - 1] == operators(chain)[j - 1]);
                        }
                    }
                    lemma_fold(lhs@, chain, j);
                }
                match stack.pop() {
                    Some((prev_op, prev_rhs)) => {
                        stack.push((prev_op, Expression::new_op(prev_rhs, top_op, top_rhs)));
                        assert(pending(stack@) + rest =~= folded_rest(chain, j));
                        assert(is_ascending(operators(pending(stack@)))) by {
                            assert forall|i: int| 0 <= i < stack@.len() - 1 implies !binds_first(
                                #[trigger] operators(pending(stack@))[i],
                                operators(pending(stack@))[i + 1],
                            ) by {
                                assert(operators(pending(before))[i] == operators(pending(stack@))[i]);
                            }
                        }
                    },
                    None => {
                        lhs = Expression::new_op(lhs, top_op, top_rhs);
                        assert(pending(stack@) + rest =~= folded_rest(chain, j));
                    },
                }
            },
        }
    }
    (lhs, stack)
}

fn next_operator(tokens: &Vec<Token>, at: usize) -> (res: Result<(Operation, usize), Error>)
    requires
        at < tokens.len(),
    ensures
        match operator(token_views(tokens@), at as int) {
            Ok(found) => res == Ok::<(Operation, usize), Error>((found.0, found.1 as usize))
                && at <= found.1 <= at + 1,
            Err(e) => res matches Err(x) && x@ == e,
        },
{
    let t = &tokens[at];
    match t.token_type {
        TokenType::Op(op) => Ok((op, at + 1)),
        TokenType::Identifier(_) => Ok((Operation::Multiply, at)),
        TokenType::OpenParen => Ok((Operation::Multiply, at)),
        TokenType::Constant(_) => Err(
            failure("constant on RHS of implicit multiplication", t.start, t.end),
        ),
        TokenType::CloseParen => Err(failure("expected expression", t.start, t.end)),
    }
}

fn parse_operand(tokens: &Vec<Token>, at: usize, end: usize, leading: bool) -> (res: Result<
    (Expression, usize),
    Error,
>)
    requires
        at < tokens.len(),
    ensures
        match operand(token_views(tokens@), at as int, end as int, leading) {
            Ok(e) => res matches Ok(found) && found.0@ == e && found.1 == after_operand(
                token_views(tokens@),
                at as int,
                end as int,
                leading,
            ) && at <= found.1 <= tokens.len() && (!leading ==> at < found.1),
            Err(e) => res matches Err(x) && x@ == e,
        },
    decreases tokens.len() - at, 0int,
{
    let t = &tokens[at];
    match &t.token_type {
        TokenType::Constant(val) => Ok((Expression::new_const(val.clone(), t.start, t.end), at + 1)),
        TokenType::Identifier(name) => Ok((Expression::new_id(*name, t.start, t.end), at + 1)),
        TokenType::OpenParen => {
            proof {
                lemma_closing_bounds(token_views(tokens@), at + 1, end as int, 1);
            }
            match match_paren(tokens, at + 1, end) {
                Err(e) => Err(e),
                Ok(end_paren) => match parse_tokens(tokens, at + 1, end_paren) {
                    Err(e) => Err(e),
                    Ok(inner_expr) => Ok(
                        (inner_expr.with_bounds(t.start, tokens[end_paren].end), end_paren + 1),
                    ),
                },
            }
        },
        TokenType::Op(Operation::Subtract) => {
            if leading {
                Ok((Expression::new_const(Numeral::zero(), t.start, t.start), at))
            } else {
                Err(
                    failure(
                        "expected expression; wrap in parens for unary minus",
                        t.start,
                        t.end,
                    ),
                )
            }
        },
        _ => Err(failure("expected expression", t.start, t.end)),
    }
}

/// Builds the tree of the tokens from `start` up to `end`.
pub fn parse_tokens(tokens: &Vec<Token>, start: usize, end: usize) -> (res: Result<
    Expression,
    Error,
>)
    ensures
        outcome(res) == scope(token_views(tokens@), start as int, end as int),
    decreases tokens.len() - start, 1int,
{
    if start >= end || start >= tokens.len() {
        return Err(missing(tokens, start));
    }
    let ghost all = token_views(tokens@);
    let (first, after) = match parse_operand(tokens, start, end, true) {
        Err(e) => {
            return Err(e);
        },
        Ok(found) => found,
    };
    let mut curr_lhs = first;
    let mut i = after;
    let mut stack: Vec<(Operation, Expression)> = Vec::new();
    while i < end && i < tokens.len()
        invariant
            all == token_views(tokens@),
            start < tokens.len(),
            start <= i <= tokens.len(),
            is_ascending(operators(pending(stack@))),
            scope(all, start as int, end as int) == match items(all, i as int, end as int) {
                Err(e) => Err(e),
                Ok(rest) => Ok(group(curr_lhs@, pending(stack@) + rest)),
            },
        decreases tokens.len() - i,
    {
        let (curr_op, at) = match next_operator(tokens, i) {
            Err(e) => {
                return Err(e);
            },
            Ok(found) => found,
        };
        if at >= end || at >= tokens.len() {
            return Err(missing(tokens, at));
        }
        let (curr_rhs, next) = match parse_operand(tokens, at, end, false) {
            Err(e) => {
                return Err(e);
            },
            Ok(found) => found,
        };
        let ghost tail = match items(all, next as int, end as int) {
            Ok(rest) => rest,
            Err(_) => Seq::empty(),
        };
        let ghost rest = seq![(curr_op, curr_rhs@)] + tail;
        let ghost entry = (curr_op, curr_rhs@);
        let (lhs, mut kept) = reduce(curr_lhs, stack, Some(curr_op), Ghost(rest));
        let ghost low = kept@;
        kept.push((curr_op, curr_rhs));
        proof {
            assert(items(all, i as int, end as int) == match items(all, next as int, end as int) {
                Err(e) => Err(e),
                Ok(more) => Ok(seq![entry] + more),
            });
            assert(pending(kept@) =~= pending(low).push(entry));
            assert(pending(kept@) + tail =~= pending(low) + rest);
            let ops = operators(pending(kept@));
            let lower = operators(pending(low));
            assert forall|k: int| 0 <= k < ops.len() - 1 implies !binds_first(
                #[trigger] ops[k],
                ops[k + 1],
            ) by {
                if k < ops.len() - 2 {
                    assert(!binds_first(lower[k], lower[k + 1]));
                    assert(ops[k] == lower[k]);
                    assert(ops[k + 1] == lower[k + 1]);
                } else {
                    assert(ops[k] == low.last().0);
                    assert(ops[k + 1] == curr_op);
                }
            }
        }
        curr_lhs = lhs;
        stack = kept;
        i = next;
    }
    let (lhs, kept) = reduce(curr_lhs, stack, None, Ghost(Seq::empty()));
    proof {
        assert(pending(kept@) + Seq::<(Operation, SpecExpression)>::empty() =~= Seq::empty());
    }
    Ok(lhs)
}

/// Reads a text as an expression.
pub fn parse(text: &str) -> (res: Result<Expression, Error>)
    ensures
        outcome(res) == tree_of_text(text@),
{
    match lex(text) {
        Err(e) => Err(e),
        Ok(tokens) => parse_tokens(&tokens, 0, tokens.len()),
    }
}

} // verus!
