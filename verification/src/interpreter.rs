use std::collections::HashMap;
use vstd::prelude::*;
use vstd::string::StringExecFns;
use crate::error::{Error, ErrorType, SpecError};
use crate::numeral::Numeral;
use crate::parser::{
    parse, tree_of_text, Expression, ExpressionData, Operation, SpecExpression, SpecExpressionData,
};

verus! {

broadcast use vstd::std_specs::hash::group_hash_axioms;

/// The sign bit of a double-precision value.
pub const SIGN: u64 = 0x8000_0000_0000_0000;

/// The bits of positive infinity: every bit of the exponent, none of the fraction.
pub const INFINITY: u64 = 0x7ff0_0000_0000_0000;

/// The bits of a double without its sign.
pub open spec fn magnitude(bits: u64) -> u64 {
    if bits >= SIGN {
        (bits - SIGN) as u64
    } else {
        bits
    }
}

/// Whether the bits are those of zero, of either sign.
pub open spec fn is_zero(bits: u64) -> bool {
    magnitude(bits) == 0
}

/// Whether the bits are those of an infinity, of either sign.
pub open spec fn is_infinite(bits: u64) -> bool {
    magnitude(bits) == INFINITY
}

/// Whether the bits are those of no number.
pub open spec fn is_nan(bits: u64) -> bool {
    magnitude(bits) > INFINITY
}

fn without_sign(bits: u64) -> (m: u64)
    ensures
        m == magnitude(bits),
{
    if bits >= SIGN {
        bits - SIGN
    } else {
        bits
    }
}

/// The number that stands for a character in the keys of a context.
pub open spec fn code(name: char) -> u32 {
    name as u32
}

/// Different characters have different codes.
pub proof fn lemma_code_is_injective(a: char, b: char)
    requires
        code(a) == code(b),
    ensures
        a == b,
{
    assert(code(a) as char == a);
    assert(code(b) as char == b);
}

/// The values of identifiers; each value is a double, given by its bits.
pub struct Context {
    bindings: HashMap<u32, u64>,
}

impl View for Context {
    type V = Map<char, u64>;

    closed spec fn view(&self) -> Map<char, u64> {
        Map::new(
            |name: char| self.bindings@.contains_key(code(name)),
            |name: char| self.bindings@[code(name)],
        )
    }
}

impl Context {
    /// A context that binds nothing.
    pub fn new() -> (context: Context)
        ensures
            context@ == Map::<char, u64>::empty(),
    {
        let context = Context { bindings: HashMap::new() };
        assert(context@ =~= Map::<char, u64>::empty());
        context
    }

    /// Binds `name` to `value`, in place of what it was bound to.
    pub fn insert(&mut self, name: char, value: u64)
        ensures
            final(self)@ == old(self)@.insert(name, value),
    {
        self.bindings.insert(name as u32, value);
        proof {
            assert forall|other: char| #[trigger] code(other) == code(name) implies other
                == name by {
                lemma_code_is_injective(other, name);
            }
            assert(self@ =~= old(self)@.insert(name, value));
        }
    }

    /// What `name` is bound to.
    pub fn get(&self, name: char) -> (value: Option<u64>)
        ensures
            value == if self@.contains_key(name) {
                Some(self@[name])
            } else {
                None
            },
    {
        match self.bindings.get(&(name as u32)) {
            Some(value) => Some(*value),
            None => None,
        }
    }
}

/// The sign that an operation is written with.
pub open spec fn symbol_of(op: Operation) -> char {
    match op {
        Operation::Exponentiate => '^',
        Operation::Multiply => '*',
        Operation::Divide => '/',
        Operation::Add => '+',
        Operation::Subtract => '-',
    }
}

pub fn op_representation(op: Operation) -> (c: char)
    ensures
        c == symbol_of(op),
{
    match op {
        Operation::Exponentiate => '^',
        Operation::Multiply => '*',
        Operation::Divide => '/',
        Operation::Add => '+',
        Operation::Subtract => '-',
    }
}

/// Why the result of an operation is no finite number.
#[derive(Debug, PartialEq, Eq, Clone, Copy, Structural)]
pub enum Verdict {
    Infinity,
    Undefined,
}

/// What is computed outside the library: the double that a numeral denotes, the
/// double that an operation on two doubles yields, and the text that a double is
/// written as. Doubles are given by their bits.
pub struct Arithmetic {
    pub constant: spec_fn(Seq<char>) -> u64,
    pub apply: spec_fn(Operation, u64, u64) -> u64,
    pub render: spec_fn(u64) -> Seq<char>,
}

/// The failure of an identifier that the context does not bind.
pub open spec fn unbound(name: char, start: int, end: int) -> SpecError {
    SpecError {
        error_type: ErrorType::UnboundIdentifier,
        message: "identifier '"@.push(name) + "' is not bound"@,
        start,
        end,
    }
}

/// The failure of a division by zero.
pub open spec fn division_by_zero(start: int, end: int) -> SpecError {
    SpecError {
        error_type: ErrorType::UndefinedOperation,
        message: "division by zero is undefined"@,
        start,
        end,
    }
}

/// The failure of an operation whose result is no finite number; `lhs` and `rhs`
/// are the operands as text.
pub open spec fn failed(
    op: Operation,
    lhs: Seq<char>,
    rhs: Seq<char>,
    verdict: Verdict,
    start: int,
    end: int,
) -> SpecError {
    SpecError {
        error_type: ErrorType::UndefinedOperation,
        message: "("@ + lhs + ") "@.push(symbol_of(op)) + " ("@ + rhs + ") is "@ + match verdict {
            Verdict::Infinity => "infinity"@,
            Verdict::Undefined => "undefined"@,
        },
        start,
        end,
    }
}

/// The result of one operation on two values. Division by zero fails before
/// anything is computed, and so does zero to the power zero. Any other result is
/// computed, and fails where it is infinite or no number.
pub open spec fn applied(
    op: Operation,
    lhs: u64,
    rhs: u64,
    start: int,
    end: int,
    a: Arithmetic,
) -> Result<u64, SpecError> {
    if op == Operation::Divide && is_zero(rhs) {
        Err(division_by_zero(start, end))
    } else if op == Operation::Exponentiate && is_zero(lhs) && is_zero(rhs) {
        Err(failed(op, (a.render)(lhs), (a.render)(rhs), Verdict::Undefined, start, end))
    } else {
        let result = (a.apply)(op, lhs, rhs);
        if is_infinite(result) {
            Err(failed(op, (a.render)(lhs), (a.render)(rhs), Verdict::Infinity, start, end))
        } else if is_nan(result) {
            Err(failed(op, (a.render)(lhs), (a.render)(rhs), Verdict::Undefined, start, end))
        } else {
            Ok(result)
        }
    }
}

/// The value of a tree: a constant is what its numeral denotes, an identifier
/// what the context binds it to, an operation what it yields on the values of
/// its operands, the left one first. The first failure is the result.
pub open spec fn value(tree: SpecExpression, context: Map<char, u64>, a: Arithmetic) -> Result<
    u64,
    SpecError,
>
    decreases tree,
{
    match tree.data {
        SpecExpressionData::Constant(val) => Ok((a.constant)(val)),
        SpecExpressionData::Identifier(name) => if context.contains_key(name) {
            Ok(context[name])
        } else {
            Err(unbound(name, tree.start, tree.end))
        },
        SpecExpressionData::Op(lhs, op, rhs) => match value(*lhs, context, a) {
            Err(e) => Err(e),
            Ok(x) => match value(*rhs, context, a) {
                Err(e) => Err(e),
                Ok(y) => applied(op, x, y, tree.start, tree.end, a),
            },
        },
    }
}

/// A step that an evaluation has still to take.
enum Task {
    /// Find the value of a tree.
    Visit(Expression),
    /// Apply an operation, whose node has the given span, to the two values
    /// found last.
    Apply(Operation, usize, usize),
}

/// The mathematical content of a [`Task`].
pub enum SpecTask {
    Visit(SpecExpression),
    Apply(Operation, int, int),
}

impl View for Task {
    type V = SpecTask;

    closed spec fn view(&self) -> SpecTask {
        match *self {
            Task::Visit(tree) => SpecTask::Visit(tree@),
            Task::Apply(op, start, end) => SpecTask::Apply(op, start as int, end as int),
        }
    }
}

/// The contents of a stack of tasks; the last one is taken first.
spec fn task_views(tasks: Seq<Task>) -> Seq<SpecTask> {
    Seq::new(tasks.len(), |i: int| tasks[i]@)
}

/// What an evaluation asks of the outside.
#[derive(Debug, PartialEq, Eq)]
pub enum Request {
    /// The double that the numeral denotes.
    Constant(Numeral),
    /// The double that the operation yields on the two doubles, the left one
    /// first; then the span of the node that holds the operation.
    Operation(Operation, u64, u64, usize, usize),
}

/// The mathematical content of a [`Request`].
pub enum SpecRequest {
    Constant(Seq<char>),
    Operation(Operation, u64, u64, int, int),
}

impl View for Request {
    type V = SpecRequest;

    open spec fn view(&self) -> SpecRequest {
        match *self {
            Request::Constant(val) => SpecRequest::Constant(val@),
            Request::Operation(op, lhs, rhs, start, end) => SpecRequest::Operation(
                op,
                lhs,
                rhs,
                start as int,
                end as int,
            ),
        }
    }
}

/// An evaluation that waits for a value from the outside.
pub struct Evaluation<'a> {
    tasks: Vec<Task>,
    values: Vec<u64>,
    context: &'a Context,
    request: Request,
}

/// The mathematical content of an [`Evaluation`].
pub struct SpecEvaluation {
    pub tasks: Seq<SpecTask>,
    pub values: Seq<u64>,
    pub context: Map<char, u64>,
    pub request: SpecRequest,
}

impl<'a> View for Evaluation<'a> {
    type V = SpecEvaluation;

    closed spec fn view(&self) -> SpecEvaluation {
        SpecEvaluation {
            tasks: task_views(self.tasks@),
            values: self.values@,
            context: self.context@,
            request: self.request@,
        }
    }
}

/// An operation whose result is no finite number. The failure is complete once
/// the operands are given as text.
#[derive(Debug, PartialEq, Eq, Clone, Copy, Structural)]
pub struct Report {
    pub op: Operation,
    pub lhs: u64,
    pub rhs: u64,
    pub verdict: Verdict,
    pub start: usize,
    pub end: usize,
}

/// How far an evaluation has come.
pub enum Progress<'a> {
    /// It waits for a value from the outside.
    Pending(Evaluation<'a>),
    /// It has failed, and the failure wants the operands as text.
    Failing(Report),
    /// It has ended.
    Done(Result<u64, Error>),
}

/// The mathematical content of a [`Progress`].
pub enum SpecProgress {
    Pending(SpecEvaluation),
    Failing(Report),
    Done(Result<u64, SpecError>),
}

impl<'a> View for Progress<'a> {
    type V = SpecProgress;

    open spec fn view(&self) -> SpecProgress {
        match *self {
            Progress::Pending(evaluation) => SpecProgress::Pending(evaluation@),
            Progress::Failing(report) => SpecProgress::Failing(report),
            Progress::Done(Ok(v)) => SpecProgress::Done(Ok(v)),
            Progress::Done(Err(e)) => SpecProgress::Done(Err(e@)),
        }
    }
}

/// Whether the tasks, taken with `count` values at hand, never lack a value and
/// leave exactly one.
pub open spec fn fits(tasks: Seq<SpecTask>, count: int) -> bool
    decreases tasks.len(),
{
    if tasks.len() == 0 {
        count == 1
    } else {
        match tasks.last() {
            SpecTask::Visit(_) => fits(tasks.drop_last(), count + 1),
            SpecTask::Apply(_, _, _) => count >= 2 && fits(tasks.drop_last(), count - 1),
        }
    }
}

/// What the tasks lead to from the values at hand: each tree is replaced by its
/// value, each operation takes the last two values and leaves its result, and
/// the value that is left at the end is the result. The first failure ends it.
pub open spec fn finish(
    tasks: Seq<SpecTask>,
    values: Seq<u64>,
    context: Map<char, u64>,
    a: Arithmetic,
) -> Result<u64, SpecError>
    decreases tasks.len(),
{
    if tasks.len() == 0 {
        Ok(values.last())
    } else {
        match tasks.last() {
            SpecTask::Visit(tree) => match value(tree, context, a) {
                Err(e) => Err(e),
                Ok(v) => finish(tasks.drop_last(), values.push(v), context, a),
            },
            SpecTask::Apply(op, start, end) => match applied(
                op,
                values[values.len() - 2],
                values[values.len() - 1],
                start,
                end,
                a,
            ) {
                Err(e) => Err(e),
                Ok(v) => finish(
                    tasks.drop_last(),
                    values.take(values.len() - 2).push(v),
                    context,
                    a,
                ),
            },
        }
    }
}

/// The value that the outside owes to a waiting evaluation.
pub open spec fn answer(request: SpecRequest, a: Arithmetic) -> u64 {
    match request {
        SpecRequest::Constant(val) => (a.constant)(val),
        SpecRequest::Operation(op, lhs, rhs, _, _) => (a.apply)(op, lhs, rhs),
    }
}

/// What a waiting evaluation leads to once `bits` is the value it waited for.
/// The value of a numeral is taken as it is. The result of an operation fails
/// where it is infinite or no number.
pub open spec fn settled(e: SpecEvaluation, bits: u64, a: Arithmetic) -> Result<u64, SpecError> {
    match e.request {
        SpecRequest::Constant(_) => finish(e.tasks, e.values.push(bits), e.context, a),
        SpecRequest::Operation(op, lhs, rhs, start, end) => if is_infinite(bits) {
            Err(failed(op, (a.render)(lhs), (a.render)(rhs), Verdict::Infinity, start, end))
        } else if is_nan(bits) {
            Err(failed(op, (a.render)(lhs), (a.render)(rhs), Verdict::Undefined, start, end))
        } else {
            finish(e.tasks, e.values.push(bits), e.context, a)
        },
    }
}

/// The failure that a report stands for.
pub open spec fn reported(report: Report, lhs: Seq<char>, rhs: Seq<char>) -> SpecError {
    failed(report.op, lhs, rhs, report.verdict, report.start as int, report.end as int)
}

/// The result that an evaluation comes to where the outside computes as `a` does.
pub open spec fn result_under(p: SpecProgress, a: Arithmetic) -> Result<u64, SpecError> {
    match p {
        SpecProgress::Pending(e) => settled(e, answer(e.request, a), a),
        SpecProgress::Failing(report) => Err(
            reported(report, (a.render)(report.lhs), (a.render)(report.rhs)),
        ),
        SpecProgress::Done(r) => r,
    }
}

/// Where the outside computes as `a` does, its answer to what an evaluation
/// waits for leads to the result that the evaluation comes to under `a`. So
/// the result of a run, from its start through every answer to its end, is the
/// value of the tree under any `a` that gives the answers that were given.
pub proof fn lemma_answer_keeps_result(e: SpecEvaluation, a: Arithmetic)
    ensures
        settled(e, answer(e.request, a), a) == result_under(SpecProgress::Pending(e), a),
{
}

/// The number of nodes of a tree.
pub open spec fn size(tree: SpecExpression) -> nat
    decreases tree,
{
    match tree.data {
        SpecExpressionData::Op(lhs, _, rhs) => 1 + size(*lhs) + size(*rhs),
        _ => 1,
    }
}

/// A bound on the steps that the tasks take.
pub open spec fn weight(tasks: Seq<SpecTask>) -> nat
    decreases tasks.len(),
{
    if tasks.len() == 0 {
        0
    } else {
        weight(tasks.drop_last()) + match tasks.last() {
            SpecTask::Visit(tree) => 2 * size(tree),
            SpecTask::Apply(_, _, _) => 1,
        }
    }
}


impl Report {
    /// The failure, with the operands written as `lhs` and `rhs`.
    pub fn finish(&self, lhs: &str, rhs: &str) -> (e: Error)
        ensures
            e@ == reported(*self, lhs@, rhs@),
    {
        let mut message = "(".to_owned();
        message.append(lhs);
        message.append(") ");
        message.push(op_representation(self.op));
        message.append(" (");
        message.append(rhs);
        message.append(") is ");
        match self.verdict {
            Verdict::Infinity => message.append("infinity"),
            Verdict::Undefined => message.append("undefined"),
        }
        proof {
            assert(message@ =~= reported(*self, lhs@, rhs@).message);
        }
        Error::new(ErrorType::UndefinedOperation, message, self.start, self.end)
    }
}

/// Takes the tasks one by one until a value from the outside is wanted, or the
/// evaluation ends.
fn advance<'a>(
    tasks: Vec<Task>,
    values: Vec<u64>,
    context: &'a Context,
    Ghost(goal): Ghost<spec_fn(Arithmetic) -> Result<u64, SpecError>>,
) -> (p: Progress<'a>)
    requires
        fits(task_views(tasks@), values@.len() as int),
        forall|a: Arithmetic| #[trigger]
            finish(task_views(tasks@), values@, context@, a) == goal(a),
    ensures
        forall|a: Arithmetic| #[trigger] result_under(p@, a) == goal(a),
{
    let mut tasks = tasks;
    let mut values = values;
    loop
        invariant
            fits(task_views(tasks@), values@.len() as int),
            forall|a: Arithmetic| #[trigger]
                finish(task_views(tasks@), values@, context@, a) == goal(a),
        decreases weight(task_views(tasks@)),
    {
        let ghost before = task_views(tasks@);
        let ghost held = values@;
        match tasks.pop() {
            None => {
                assert(before.len() == 0);
                let v = values[0];
                let p = Progress::Done(Ok(v));
                assert forall|a: Arithmetic| #[trigger] result_under(p@, a) == goal(a) by {
                    assert(finish(before, held, context@, a) == goal(a));
                }
                return p;
            },
            Some(Task::Visit(tree)) => {
                let ghost left = task_views(tasks@);
                assert(left =~= before.drop_last());
                assert(before.last() == SpecTask::Visit(tree@));
                let Expression { data, start, end } = tree;
                match data {
                    ExpressionData::Constant(val) => {
                        let p = Progress::Pending(
                            Evaluation { tasks, values, context, request: Request::Constant(val) },
                        );
                        assert forall|a: Arithmetic| #[trigger]
                            result_under(p@, a) == goal(a) by {
                            assert(finish(before, held, context@, a) == goal(a));
                        }
                        return p;
                    },
                    ExpressionData::Identifier(name) => {
                        match context.get(name) {
                            Some(v) => {
                                values.push(v);
                                assert forall|a: Arithmetic| #[trigger]
                                    finish(left, values@, context@, a) == goal(a) by {
                                    assert(finish(before, held, context@, a) == goal(a));
                                }
                            },
                            None => {
                                let mut message = "identifier '".to_owned();
                                message.push(name);
                                message.append("' is not bound");
                                let e = Error::new(
                                    ErrorType::UnboundIdentifier,
                                    message,
                                    start,
                                    end,
                                );
                                let p = Progress::Done(Err(e));
                                assert forall|a: Arithmetic| #[trigger]
                                    result_under(p@, a) == goal(a) by {
                                    assert(finish(before, held, context@, a) == goal(a));
                                }
                                return p;
                            },
                        }
                    },
                    ExpressionData::Op(lhs, op, rhs) => {
                        let ghost l = lhs@;
                        let ghost r = rhs@;
                        tasks.push(Task::Apply(op, start, end));
                        let ghost one = task_views(tasks@);
                        tasks.push(Task::Visit(*rhs));
                        let ghost two = task_views(tasks@);
                        tasks.push(Task::Visit(*lhs));
                        let ghost three = task_views(tasks@);
                        proof {
                            let apply = SpecTask::Apply(op, start as int, end as int);
                            assert(one =~= left.push(apply));
                            assert(two =~= one.push(SpecTask::Visit(r)));
                            assert(three =~= two.push(SpecTask::Visit(l)));
                            assert(three.drop_last() =~= two);
                            assert(two.drop_last() =~= one);
                            assert(one.drop_last() =~= left);
                            assert(before.last() == SpecTask::Visit(
                                SpecExpression {
                                    data: SpecExpressionData::Op(Box::new(l), op, Box::new(r)),
                                    start: start as int,
                                    end: end as int,
                                },
                            ));
                            assert(weight(one) == weight(left) + 1);
                            assert(weight(two) == weight(one) + 2 * size(r));
                            assert(weight(three) == weight(two) + 2 * size(l));
                            assert(weight(before) == weight(left) + 2 * (1 + size(l) + size(r)));
                            assert(fits(left, held.len() as int + 1));
                            assert(fits(one, held.len() as int + 2));
                            assert(fits(two, held.len() as int + 1));
                            assert(fits(three, held.len() as int));
                            assert forall|a: Arithmetic| #[trigger]
                                finish(three, held, context@, a) == goal(a) by {
                                assert(finish(before, held, context@, a) == goal(a));
                                if let Ok(x) = value(l, context@, a) {
                                    if let Ok(y) = value(r, context@, a) {
                                        let both = held.push(x).push(y);
                                        assert(both.take(both.len() - 2) =~= held);
                                        assert(finish(two, held.push(x), context@, a) == finish(
                                            one,
                                            both,
                                            context@,
                                            a,
                                        ));
                                    }
                                }
                            }
                        }
                    },
                }
            },
            Some(Task::Apply(op, start, end)) => {
                let ghost left = task_views(tasks@);
                assert(left =~= before.drop_last());
                assert(before.last() == SpecTask::Apply(op, start as int, end as int));
                let rhs = values.pop().unwrap();
                let lhs = values.pop().unwrap();
                assert(values@ =~= held.take(held.len() - 2));
                let divides = match op {
                    Operation::Divide => true,
                    _ => false,
                };
                let raises = match op {
                    Operation::Exponentiate => true,
                    _ => false,
                };
                if divides && without_sign(rhs) == 0 {
                    let e = Error::new(
                        ErrorType::UndefinedOperation,
                        "division by zero is undefined".to_owned(),
                        start,
                        end,
                    );
                    let p = Progress::Done(Err(e));
                    assert forall|a: Arithmetic| #[trigger] result_under(p@, a) == goal(a) by {
                        assert(finish(before, held, context@, a) == goal(a));
                    }
                    return p;
                }
                if raises && without_sign(lhs) == 0 && without_sign(rhs) == 0 {
                    let p = Progress::Failing(
                        Report { op, lhs, rhs, verdict: Verdict::Undefined, start, end },
                    );
                    assert forall|a: Arithmetic| #[trigger] result_under(p@, a) == goal(a) by {
                        assert(finish(before, held, context@, a) == goal(a));
                    }
                    return p;
                }
                let p = Progress::Pending(
                    Evaluation {
                        tasks,
                        values,
                        context,
                        request: Request::Operation(op, lhs, rhs, start, end),
                    },
                );
                assert forall|a: Arithmetic| #[trigger] result_under(p@, a) == goal(a) by {
                    assert(finish(before, held, context@, a) == goal(a));
                }
                return p;
            },
        }
    }
}

impl<'a> Evaluation<'a> {
    #[verifier::type_invariant]
    spec fn balanced(self) -> bool {
        fits(task_views(self.tasks@), self.values@.len() as int + 1)
    }

    /// What this evaluation waits for.
    pub fn request(&self) -> (request: &Request)
        ensures
            request@ == self@.request,
    {
        &self.request
    }

    /// Goes on with `bits` as the value that the evaluation waited for.
    pub fn resume(self, bits: u64) -> (p: Progress<'a>)
        ensures
            forall|a: Arithmetic| #[trigger] result_under(p@, a) == settled(self@, bits, a),
    {
        proof {
            use_type_invariant(&self);
        }
        let ghost goal = |a: Arithmetic| settled(self@, bits, a);
        let Evaluation { tasks, mut values, context, request } = self;
        match request {
            Request::Constant(_) => {},
            Request::Operation(op, lhs, rhs, start, end) => {
                let m = without_sign(bits);
                if m == INFINITY {
                    return Progress::Failing(
                        Report { op, lhs, rhs, verdict: Verdict::Infinity, start, end },
                    );
                }
                if m > INFINITY {
                    return Progress::Failing(
                        Report { op, lhs, rhs, verdict: Verdict::Undefined, start, end },
                    );
                }
            },
        }
        values.push(bits);
        advance(tasks, values, context, Ghost(goal))
    }
}


/// The result of a text: the value of its tree, or the failure to read it.
pub open spec fn result_of_text(text: Seq<char>, context: Map<char, u64>, a: Arithmetic) -> Result<
    u64,
    SpecError,
> {
    match tree_of_text(text) {
        Err(e) => Err(e),
        Ok(tree) => value(tree, context, a),
    }
}

/// Starts to evaluate `tree` with the values that `context` gives to its
/// identifiers. Whatever the outside computes, the evaluation comes to the value
/// of the tree under that.
pub fn interpret_tree<'a>(tree: Expression, context: &'a Context) -> (p: Progress<'a>)
    ensures
        forall|a: Arithmetic| #[trigger] result_under(p@, a) == value(tree@, context@, a),
{
    let ghost goal = |a: Arithmetic| value(tree@, context@, a);
    let ghost first = SpecTask::Visit(tree@);
    let mut tasks: Vec<Task> = Vec::new();
    tasks.push(Task::Visit(tree));
    proof {
        let all = task_views(tasks@);
        assert(all =~= seq![first]);
        assert(all.drop_last() =~= Seq::<SpecTask>::empty());
        assert(fits(all.drop_last(), 1));
        assert forall|a: Arithmetic| #[trigger]
            finish(all, Seq::<u64>::empty(), context@, a) == goal(a) by {
            if let Ok(v) = value(tree@, context@, a) {
                assert(finish(all.drop_last(), Seq::<u64>::empty().push(v), context@, a) == Ok::<
                    u64,
                    SpecError,
                >(v));
            }
        }
    }
    advance(tasks, Vec::new(), context, Ghost(goal))
}

/// Reads a text as an expression and starts to evaluate it. A text that is no
/// expression ends the evaluation at once with the failure to read it.
pub fn interpret<'a>(text: &str, bound_vars: &'a Context) -> (p: Progress<'a>)
    ensures
        forall|a: Arithmetic| #[trigger]
            result_under(p@, a) == result_of_text(text@, bound_vars@, a),
{
    match parse(text) {
        Err(e) => Progress::Done(Err(e)),
        Ok(tree) => interpret_tree(tree, bound_vars),
    }
}

} // verus!
