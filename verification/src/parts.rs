use vstd::prelude::*;
use crate::error::SpecError;
use crate::lexer::{
    lemma_scan_spells, lemma_spelled_token, lemma_tokens_are_ordered, lemma_tokens_of_part,
    moved_tokens, tokens_of, Operation, SpecToken, SpecTokenType,
};
use crate::parser::{
    after_operand, binary, closing, constant, group, items, lemma_closing_bounds,
    lemma_root_bounds, operand, operator, operators, rebound, root, scope, tree_of_text,
    SpecExpression, SpecExpressionData,
};

verus! {

/// The tree with every span in it moved by `by`.
pub open spec fn moved(e: SpecExpression, by: int) -> SpecExpression
    decreases e,
{
    SpecExpression {
        data: match e.data {
            SpecExpressionData::Op(lhs, op, rhs) => SpecExpressionData::Op(
                Box::new(moved(*lhs, by)),
                op,
                Box::new(moved(*rhs, by)),
            ),
            SpecExpressionData::Constant(val) => SpecExpressionData::Constant(val),
            SpecExpressionData::Identifier(name) => SpecExpressionData::Identifier(name),
        },
        start: e.start + by,
        end: e.end + by,
    }
}

/// The chain with every span in it moved by `by`.
pub open spec fn moved_items(rest: Seq<(Operation, SpecExpression)>, by: int) -> Seq<
    (Operation, SpecExpression),
> {
    Seq::new(rest.len(), |k: int| (rest[k].0, moved(rest[k].1, by)))
}

/// A chain whose spans are moved groups to the tree with its spans moved.
proof fn lemma_group_moved(first: SpecExpression, rest: Seq<(Operation, SpecExpression)>, by: int)
    ensures
        group(moved(first, by), moved_items(rest, by)) == moved(group(first, rest), by),
    decreases rest.len(),
{
    if rest.len() > 0 {
        let there = moved_items(rest, by);
        assert(operators(there) =~= operators(rest));
        let k = root(operators(rest));
        lemma_root_bounds(operators(rest));
        lemma_group_moved(first, rest.take(k), by);
        lemma_group_moved(rest[k].1, rest.skip(k + 1), by);
        assert(there.take(k) =~= moved_items(rest.take(k), by));
        assert(there.skip(k + 1) =~= moved_items(rest.skip(k + 1), by));
    }
}

/// Parentheses match as they did when spans are moved.
proof fn lemma_closing_moved(tokens: Seq<SpecToken>, by: int, from: int, end: int, level: nat)
    ensures
        closing(moved_tokens(tokens, by), from, end, level) == closing(tokens, from, end, level),
    decreases tokens.len() - from,
{
    if 0 <= from < end && from < tokens.len() {
        match tokens[from].token_type {
            SpecTokenType::OpenParen => lemma_closing_moved(tokens, by, from + 1, end, level + 1),
            SpecTokenType::CloseParen => if level > 1 {
                lemma_closing_moved(tokens, by, from + 1, end, (level - 1) as nat)
            },
            _ => lemma_closing_moved(tokens, by, from + 1, end, level),
        }
    }
}

/// An operand is read from tokens with moved spans as it was, with its spans
/// moved.
proof fn lemma_operand_moved(tokens: Seq<SpecToken>, by: int, at: int, end: int, leading: bool)
    requires
        0 <= at < tokens.len(),
        operand(tokens, at, end, leading) is Ok,
    ensures
        operand(moved_tokens(tokens, by), at, end, leading) == Ok::<SpecExpression, SpecError>(
            moved(operand(tokens, at, end, leading)->Ok_0, by),
        ),
        after_operand(moved_tokens(tokens, by), at, end, leading) == after_operand(
            tokens,
            at,
            end,
            leading,
        ),
    decreases tokens.len() - at, 0int,
{
    lemma_closing_moved(tokens, by, at + 1, end, 1);
    if let SpecTokenType::OpenParen = tokens[at].token_type {
        let close = closing(tokens, at + 1, end, 1)->Some_0;
        lemma_closing_bounds(tokens, at + 1, end, 1);
        lemma_scope_moved(tokens, by, at + 1, close);
    }
}

/// A chain is read from tokens with moved spans as it was, with its spans moved.
proof fn lemma_items_moved(tokens: Seq<SpecToken>, by: int, at: int, end: int)
    requires
        items(tokens, at, end) is Ok,
    ensures
        items(moved_tokens(tokens, by), at, end) == Ok::<
            Seq<(Operation, SpecExpression)>,
            SpecError,
        >(moved_items(items(tokens, at, end)->Ok_0, by)),
    decreases tokens.len() - at, 1int,
{
    let there = moved_tokens(tokens, by);
    if 0 <= at < end && at < tokens.len() {
        let (op, next) = operator(tokens, at)->Ok_0;
        assert(operator(there, at) == operator(tokens, at));
        lemma_operand_moved(tokens, by, next, end, false);
        let after = after_operand(tokens, next, end, false);
        lemma_closing_bounds(tokens, next + 1, end, 1);
        lemma_items_moved(tokens, by, after, end);
        let rhs = operand(tokens, next, end, false)->Ok_0;
        let rest = items(tokens, after, end)->Ok_0;
        assert(moved_items(seq![(op, rhs)] + rest, by) =~= seq![(op, moved(rhs, by))]
            + moved_items(rest, by));
    } else {
        assert(moved_items(Seq::<(Operation, SpecExpression)>::empty(), by) =~= Seq::empty());
    }
}

/// A scope is read from tokens with moved spans as it was, with its spans moved.
pub proof fn lemma_scope_moved(tokens: Seq<SpecToken>, by: int, start: int, end: int)
    requires
        scope(tokens, start, end) is Ok,
    ensures
        scope(moved_tokens(tokens, by), start, end) == Ok::<SpecExpression, SpecError>(
            moved(scope(tokens, start, end)->Ok_0, by),
        ),
    decreases tokens.len() - start, 2int,
{
    lemma_operand_moved(tokens, by, start, end, true);
    lemma_closing_bounds(tokens, start + 1, end, 1);
    let after = after_operand(tokens, start, end, true);
    lemma_items_moved(tokens, by, after, end);
    lemma_group_moved(
        operand(tokens, start, end, true)->Ok_0,
        items(tokens, after, end)->Ok_0,
        by,
    );
}

/// A closing parenthesis is found in a part of the tokens where it is found in
/// the tokens, if the part holds it and the search reaches it.
proof fn lemma_closing_within(
    tokens: Seq<SpecToken>,
    p: int,
    q: int,
    from: int,
    end: int,
    end2: int,
    level: nat,
)
    requires
        0 <= p <= from,
        closing(tokens, from, end, level) is Some,
        closing(tokens, from, end, level)->Some_0 < end2 <= q <= tokens.len(),
    ensures
        closing(tokens.subrange(p, q), from - p, end2 - p, level) == Some(
            closing(tokens, from, end, level)->Some_0 - p,
        ),
    decreases tokens.len() - from,
{
    let part = tokens.subrange(p, q);
    lemma_closing_bounds(tokens, from, end, level);
    assert(part[from - p] == tokens[from]);
    match tokens[from].token_type {
        SpecTokenType::OpenParen => {
            lemma_closing_within(tokens, p, q, from + 1, end, end2, level + 1);
        },
        SpecTokenType::CloseParen => {
            if level > 1 {
                lemma_closing_within(tokens, p, q, from + 1, end, end2, (level - 1) as nat);
            }
        },
        _ => {
            lemma_closing_within(tokens, p, q, from + 1, end, end2, level);
        },
    }
}

/// An operand is read from a part of the tokens as it is from the tokens, if
/// the part holds it whole. An operand that does not open a scope is read in
/// the same way where it opens one.
proof fn lemma_operand_within(
    tokens: Seq<SpecToken>,
    p: int,
    q: int,
    at: int,
    end: int,
    end2: int,
    leading: bool,
    leading2: bool,
)
    requires
        0 <= p <= at < q <= tokens.len(),
        operand(tokens, at, end, leading) is Ok,
        after_operand(tokens, at, end, leading) <= end2 <= q,
        leading ==> leading2,
    ensures
        operand(tokens.subrange(p, q), at - p, end2 - p, leading2) == operand(
            tokens,
            at,
            end,
            leading,
        ),
        after_operand(tokens.subrange(p, q), at - p, end2 - p, leading2) == after_operand(
            tokens,
            at,
            end,
            leading,
        ) - p,
    decreases tokens.len() - at, 0int,
{
    let part = tokens.subrange(p, q);
    assert(part[at - p] == tokens[at]);
    if let SpecTokenType::OpenParen = tokens[at].token_type {
        let close = closing(tokens, at + 1, end, 1)->Some_0;
        lemma_closing_bounds(tokens, at + 1, end, 1);
        lemma_closing_within(tokens, p, q, at + 1, end, end2, 1);
        lemma_scope_within(tokens, p, q, at + 1, close);
        assert(part[close - p] == tokens[close]);
    }
}

/// A chain is read from a part of the tokens as it is from the tokens, if the
/// part holds it whole.
proof fn lemma_items_within(tokens: Seq<SpecToken>, p: int, q: int, at: int, end: int)
    requires
        0 <= p <= at,
        end <= q <= tokens.len(),
        items(tokens, at, end) is Ok,
    ensures
        items(tokens.subrange(p, q), at - p, end - p) == items(tokens, at, end),
    decreases tokens.len() - at, 1int,
{
    let part = tokens.subrange(p, q);
    if at < end {
        assert(part[at - p] == tokens[at]);
        let (op, next) = operator(tokens, at)->Ok_0;
        assert(operator(part, at - p) == Ok::<(Operation, int), SpecError>((op, next - p)));
        lemma_closing_bounds(tokens, next + 1, end, 1);
        lemma_operand_within(tokens, p, q, next, end, end, false, false);
        lemma_items_within(tokens, p, q, after_operand(tokens, next, end, false), end);
    }
}

/// A scope is read from a part of the tokens as it is from the tokens, if the
/// part holds it whole.
proof fn lemma_scope_within(tokens: Seq<SpecToken>, p: int, q: int, start: int, end: int)
    requires
        0 <= p <= start,
        end <= q <= tokens.len(),
        scope(tokens, start, end) is Ok,
    ensures
        scope(tokens.subrange(p, q), start - p, end - p) == scope(tokens, start, end),
    decreases tokens.len() - start, 2int,
{
    lemma_closing_bounds(tokens, start + 1, end, 1);
    lemma_operand_within(tokens, p, q, start, end, end, true, true);
    lemma_items_within(tokens, p, q, after_operand(tokens, start, end, true), end);
}

/// Where the chain that starts at `at` stands after `k` of its operators and
/// operands.
pub open spec fn position(tokens: Seq<SpecToken>, at: int, end: int, k: nat) -> int
    decreases k,
{
    if k == 0 {
        at
    } else {
        position(
            tokens,
            after_operand(tokens, operator(tokens, at)->Ok_0.1, end, false),
            end,
            (k - 1) as nat,
        )
    }
}

/// Going on by `j` and then by `k` is going on by both.
proof fn lemma_position_adds(tokens: Seq<SpecToken>, at: int, end: int, j: nat, k: nat)
    ensures
        position(tokens, position(tokens, at, end, j), end, k) == position(tokens, at, end, j + k),
    decreases j,
{
    if j > 0 {
        lemma_position_adds(
            tokens,
            after_operand(tokens, operator(tokens, at)->Ok_0.1, end, false),
            end,
            (j - 1) as nat,
            k,
        );
    }
}

/// A chain is made of what is read up to any place between its operators and
/// operands, and of what is read from there on.
proof fn lemma_items_split(tokens: Seq<SpecToken>, at: int, end: int, k: nat)
    requires
        0 <= at <= end <= tokens.len(),
        items(tokens, at, end) is Ok,
        k <= items(tokens, at, end)->Ok_0.len(),
    ensures
        at <= position(tokens, at, end, k) <= end,
        items(tokens, position(tokens, at, end, k), end) == Ok::<
            Seq<(Operation, SpecExpression)>,
            SpecError,
        >(items(tokens, at, end)->Ok_0.skip(k as int)),
        items(tokens, at, position(tokens, at, end, k)) == Ok::<
            Seq<(Operation, SpecExpression)>,
            SpecError,
        >(items(tokens, at, end)->Ok_0.take(k as int)),
    decreases k,
{
    let rest = items(tokens, at, end)->Ok_0;
    if k == 0 {
        assert(rest.skip(0) =~= rest);
        assert(rest.take(0) =~= Seq::empty());
    } else {
        let (op, next) = operator(tokens, at)->Ok_0;
        let rhs = operand(tokens, next, end, false)->Ok_0;
        let after = after_operand(tokens, next, end, false);
        lemma_closing_bounds(tokens, next + 1, end, 1);
        let more = items(tokens, after, end)->Ok_0;
        assert(rest =~= seq![(op, rhs)] + more);
        lemma_items_split(tokens, after, end, (k - 1) as nat);
        let m = position(tokens, at, end, k);
        assert(m == position(tokens, after, end, (k - 1) as nat));
        assert(more.skip(k - 1) =~= rest.skip(k as int));
        assert(tokens.subrange(0, tokens.len() as int) =~= tokens);
        lemma_operand_within(tokens, 0, tokens.len() as int, next, end, m, false, false);
        assert(seq![(op, rhs)] + more.take(k - 1) =~= rest.take(k as int));
    }
}

/// What holds of the operator and the operand at place `j` of a chain.
proof fn lemma_item(tokens: Seq<SpecToken>, at: int, end: int, j: nat)
    requires
        0 <= at <= end <= tokens.len(),
        items(tokens, at, end) is Ok,
        j < items(tokens, at, end)->Ok_0.len(),
    ensures
        ({
            let rest = items(tokens, at, end)->Ok_0;
            let m = position(tokens, at, end, j);
            let o = operator(tokens, m)->Ok_0.1;
            &&& at <= m <= o < position(tokens, at, end, j + 1) <= end
            &&& operand(tokens, o, end, false) == Ok::<SpecExpression, SpecError>(rest[j as int].1)
            &&& position(tokens, at, end, j + 1) == after_operand(tokens, o, end, false)
        }),
{
    let rest = items(tokens, at, end)->Ok_0;
    lemma_items_split(tokens, at, end, j);
    lemma_items_split(tokens, at, end, j + 1);
    lemma_position_adds(tokens, at, end, j, 1);
    let m = position(tokens, at, end, j);
    assert(rest.skip(j as int)[0] == rest[j as int]);
    let (op, next) = operator(tokens, m)->Ok_0;
    lemma_closing_bounds(tokens, next + 1, end, 1);
    let after = after_operand(tokens, next, end, false);
    assert(position(tokens, m, end, 1) == position(tokens, after, end, 0));
}

/// Places further on in a chain are further on in the tokens.
proof fn lemma_position_grows(tokens: Seq<SpecToken>, at: int, end: int, j: nat, k: nat)
    requires
        0 <= at <= end <= tokens.len(),
        items(tokens, at, end) is Ok,
        j <= k <= items(tokens, at, end)->Ok_0.len(),
    ensures
        position(tokens, at, end, j) <= position(tokens, at, end, k),
    decreases k - j,
{
    if j < k {
        lemma_item(tokens, at, end, j);
        lemma_position_grows(tokens, at, end, j + 1, k);
    }
}

/// An operand starts where its first token starts and ends where its last token
/// ends; the zero in front of a leading minus sign has no token and no width.
proof fn lemma_operand_span(tokens: Seq<SpecToken>, at: int, end: int, leading: bool)
    requires
        0 <= at < tokens.len(),
        operand(tokens, at, end, leading) is Ok,
    ensures
        ({
            let x = operand(tokens, at, end, leading)->Ok_0;
            let after = after_operand(tokens, at, end, leading);
            &&& at <= after <= tokens.len()
            &&& x.start == tokens[at].start
            &&& after > at ==> x.end == tokens[after - 1].end
            &&& after == at ==> x.end == x.start
        }),
{
    lemma_closing_bounds(tokens, at + 1, end, 1);
}

/// A tree of a chain starts where the first operand starts and ends where the
/// last one ends.
proof fn lemma_group_span(first: SpecExpression, rest: Seq<(Operation, SpecExpression)>)
    ensures
        group(first, rest).start == first.start,
        group(first, rest).end == if rest.len() == 0 {
            first.end
        } else {
            rest.last().1.end
        },
    decreases rest.len(),
{
    if rest.len() > 0 {
        let k = root(operators(rest));
        lemma_root_bounds(operators(rest));
        lemma_group_span(first, rest.take(k));
        lemma_group_span(rest[k].1, rest.skip(k + 1));
    }
}

/// Whether `part` is the tree `whole` or a tree within it.
pub open spec fn is_part(part: SpecExpression, whole: SpecExpression) -> bool
    decreases whole,
{
    part == whole || match whole.data {
        SpecExpressionData::Op(lhs, _, rhs) => is_part(part, *lhs) || is_part(part, *rhs),
        _ => false,
    }
}

/// The operand at place `a` of a chain; the first operand is at place zero.
pub open spec fn head(
    first: SpecExpression,
    rest: Seq<(Operation, SpecExpression)>,
    a: int,
) -> SpecExpression {
    if a == 0 {
        first
    } else {
        rest[a - 1].1
    }
}

/// A part of the tree of a chain is the tree of a piece of the chain, or a part
/// of one operand. The result gives the piece by the places of its first and its
/// last operand, which are the same for an operand.
proof fn lemma_group_parts(
    first: SpecExpression,
    rest: Seq<(Operation, SpecExpression)>,
    part: SpecExpression,
) -> (w: (int, int))
    requires
        is_part(part, group(first, rest)),
    ensures
        0 <= w.0 <= w.1 <= rest.len(),
        w.0 < w.1 ==> part == group(head(first, rest, w.0), rest.subrange(w.0, w.1)),
        w.0 == w.1 ==> is_part(part, head(first, rest, w.0)),
    decreases rest.len(),
{
    if rest.len() == 0 {
        (0, 0)
    } else {
        let k = root(operators(rest));
        lemma_root_bounds(operators(rest));
        let left = group(first, rest.take(k));
        let right = group(rest[k].1, rest.skip(k + 1));
        assert(group(first, rest) == binary(left, rest[k].0, right));
        if part == group(first, rest) {
            assert(rest.subrange(0, rest.len() as int) =~= rest);
            (0, rest.len() as int)
        } else if is_part(part, left) {
            let w = lemma_group_parts(first, rest.take(k), part);
            assert(rest.take(k).subrange(w.0, w.1) =~= rest.subrange(w.0, w.1));
            w
        } else {
            let w = lemma_group_parts(rest[k].1, rest.skip(k + 1), part);
            assert(rest.skip(k + 1).subrange(w.0, w.1) =~= rest.subrange(
                w.0 + k + 1,
                w.1 + k + 1,
            ));
            (w.0 + k + 1, w.1 + k + 1)
        }
    }
}

/// The zero that stands in front of a leading minus sign at position `at`.
pub open spec fn leading_zero(at: int) -> SpecExpression {
    constant(seq!['0'], at, at)
}

/// A part of the tree of a scope is the zero in front of a leading minus sign,
/// or the tree of tokens of the scope, read by themselves. The result gives the
/// tokens by the place of the first and the place behind the last, and no
/// tokens for the zero.
proof fn lemma_part_is_read(
    tokens: Seq<SpecToken>,
    start: int,
    end: int,
    part: SpecExpression,
) -> (w: (int, int))
    requires
        0 <= start,
        end <= tokens.len(),
        scope(tokens, start, end) is Ok,
        is_part(part, scope(tokens, start, end)->Ok_0),
    ensures
        start <= w.0 <= w.1 <= end,
        w.0 < end,
        part.start == tokens[w.0].start,
        w.0 == w.1 ==> part == leading_zero(part.start),
        w.0 < w.1 ==> scope(tokens.subrange(w.0, w.1), 0, w.1 - w.0) == Ok::<
            SpecExpression,
            SpecError,
        >(part) && part.end == tokens[w.1 - 1].end,
    decreases tokens.len() - start,
{
    let first = operand(tokens, start, end, true)->Ok_0;
    let at0 = after_operand(tokens, start, end, true);
    lemma_closing_bounds(tokens, start + 1, end, 1);
    lemma_operand_span(tokens, start, end, true);
    let rest = items(tokens, at0, end)->Ok_0;
    let (a, b) = lemma_group_parts(first, rest, part);
    let o = if a == 0 {
        start
    } else {
        operator(tokens, position(tokens, at0, end, (a - 1) as nat))->Ok_0.1
    };
    let leading = a == 0;
    if a > 0 {
        lemma_item(tokens, at0, end, (a - 1) as nat);
    }
    let x = head(first, rest, a);
    let after = position(tokens, at0, end, a as nat);
    assert(operand(tokens, o, end, leading) == Ok::<SpecExpression, SpecError>(x));
    assert(after_operand(tokens, o, end, leading) == after);
    lemma_operand_span(tokens, o, end, leading);
    lemma_closing_bounds(tokens, o + 1, end, 1);
    if a < b {
        let q = position(tokens, at0, end, b as nat);
        lemma_items_split(tokens, at0, end, a as nat);
        lemma_position_grows(tokens, at0, end, a as nat, b as nat);
        lemma_item(tokens, at0, end, (b - 1) as nat);
        lemma_items_split(tokens, after, end, (b - a) as nat);
        lemma_position_adds(tokens, at0, end, a as nat, (b - a) as nat);
        assert(rest.skip(a).take(b - a) =~= rest.subrange(a, b));
        lemma_position_grows(tokens, at0, end, a as nat, (b - 1) as nat);
        lemma_operand_within(tokens, o, q, o, end, q, leading, true);
        lemma_items_within(tokens, o, q, after, q);
        lemma_group_span(x, rest.subrange(a, b));
        let last = operator(tokens, position(tokens, at0, end, (b - 1) as nat))->Ok_0.1;
        lemma_operand_span(tokens, last, end, false);
        (o, q)
    } else {
        if let SpecTokenType::OpenParen = tokens[o].token_type {
            let close = closing(tokens, o + 1, end, 1)->Some_0;
            let inner = scope(tokens, o + 1, close)->Ok_0;
            assert(x == rebound(inner, tokens[o].start, tokens[close].end));
            if part == x {
                lemma_operand_within(tokens, o, close + 1, o, end, close + 1, leading, true);
                (o, close + 1)
            } else {
                assert(is_part(part, inner));
                lemma_part_is_read(tokens, o + 1, close, part)
            }
        } else {
            assert(part == x);
            if after == o {
                (o, o)
            } else {
                lemma_operand_within(tokens, o, o + 1, o, end, o + 1, leading, true);
                (o, o + 1)
            }
        }
    }
}

/// Every part of the tree of a text lies within the text and has a width, but
/// for the zero in front of a leading minus sign, which has none.
pub proof fn lemma_part_has_width(text: Seq<char>, part: SpecExpression)
    requires
        tree_of_text(text) is Ok,
        is_part(part, tree_of_text(text)->Ok_0),
    ensures
        0 <= part.start <= part.end <= text.len(),
        part.start < part.end || part == leading_zero(part.start),
{
    let tokens = tokens_of(text)->Ok_0;
    let (p, q) = lemma_part_is_read(tokens, 0, tokens.len() as int, part);
    lemma_scan_spells(text, 0);
    if p < q {
        lemma_spelled_token(text, 0, tokens, p);
        lemma_spelled_token(text, 0, tokens, q - 1);
        if p < q - 1 {
            lemma_tokens_are_ordered(text, p, q - 1);
        }
    } else {
        lemma_spelled_token(text, 0, tokens, p);
    }
}

/// Every part of the tree of a text that has a width is what its own span of
/// the text reads as by itself, with the spans counted from the start of that
/// span.
pub proof fn lemma_part_reads_alone(text: Seq<char>, part: SpecExpression)
    requires
        tree_of_text(text) is Ok,
        is_part(part, tree_of_text(text)->Ok_0),
        part.start < part.end,
    ensures
        0 <= part.start < part.end <= text.len(),
        tree_of_text(text.subrange(part.start, part.end)) == Ok::<SpecExpression, SpecError>(
            moved(part, -part.start),
        ),
{
    let tokens = tokens_of(text)->Ok_0;
    let (p, q) = lemma_part_is_read(tokens, 0, tokens.len() as int, part);
    lemma_tokens_of_part(text, p, q);
    lemma_scope_moved(tokens.subrange(p, q), -part.start, 0, q - p);
}

} // verus!
