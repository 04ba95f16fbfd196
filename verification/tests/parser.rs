use serious::error::ErrorType;
use serious::lexer::{lex, Token, TokenType};
use serious::numeral::Numeral;
use serious::parser::{parse, parse_tokens, precedence, Expression, ExpressionData, Operation};

/// A tree with the value of each numeral in place of the text.
#[derive(Debug, PartialEq)]
enum Node {
    Op(Box<Tree>, Operation, Box<Tree>),
    Constant(f64),
    Identifier(char),
}

#[derive(Debug, PartialEq)]
struct Tree {
    data: Node,
    start: usize,
    end: usize,
}

impl Tree {
    fn new_const(val: f64, start: usize, end: usize) -> Tree {
        Tree { data: Node::Constant(val), start, end }
    }

    fn new_id(name: char, start: usize, end: usize) -> Tree {
        Tree { data: Node::Identifier(name), start, end }
    }

    fn new_op(lhs: Tree, op: Operation, rhs: Tree) -> Tree {
        let start = lhs.start;
        let end = rhs.end;
        Tree { data: Node::Op(Box::new(lhs), op, Box::new(rhs)), start, end }
    }

    fn with_bounds(self, start: usize, end: usize) -> Tree {
        Tree { data: self.data, start, end }
    }
}

fn value(numeral: &Numeral) -> f64 {
    numeral.digits().iter().collect::<String>().parse::<f64>().unwrap()
}

fn tree(e: &Expression) -> Tree {
    let data = match &e.data {
        ExpressionData::Op(lhs, op, rhs) => Node::Op(Box::new(tree(lhs)), *op, Box::new(tree(rhs))),
        ExpressionData::Constant(val) => Node::Constant(value(val)),
        ExpressionData::Identifier(name) => Node::Identifier(*name),
    };
    Tree { data, start: e.start, end: e.end }
}

fn read(text: &str) -> Tree {
    tree(&parse(text).unwrap())
}

fn numeral(text: &str) -> Numeral {
    Numeral::new(text.chars().collect()).unwrap()
}

/// The tree with every span moved down by `by`.
fn moved(t: &Tree, by: usize) -> Tree {
    let data = match &t.data {
        Node::Op(lhs, op, rhs) => Node::Op(Box::new(moved(lhs, by)), *op, Box::new(moved(rhs, by))),
        Node::Constant(val) => Node::Constant(*val),
        Node::Identifier(name) => Node::Identifier(*name),
    };
    Tree { data, start: t.start - by, end: t.end - by }
}

/// Reads each part of `t` that has a width again from its own span of `text`.
fn reread(text: &str, t: &Tree) {
    if t.start < t.end {
        assert_eq!(read(&text[t.start..t.end]), moved(t, t.start));
    }
    if let Node::Op(lhs, _, rhs) = &t.data {
        reread(text, lhs);
        reread(text, rhs);
    }
}

#[test]
fn parser_empty() {
    let err = parse("").unwrap_err();
    assert_eq!(err.message, "expected token");
    assert_eq!(err.start, 0);
    assert_eq!(err.end, 1);
}

#[test]
fn err_from_lex() {
    let err = parse("2*0.2.3").unwrap_err();
    assert_eq!(err.message, "invalid float literal");
    assert_eq!(err.start, 2);
    assert_eq!(err.end, 7);
}

#[test]
fn simple_constant() {
    let tree = read("100");
    assert_eq!(tree, Tree::new_const(100., 0, 3));
}

#[test]
fn parser_simple_add() {
    let tree = read("1+2");
    assert_eq!(tree, Tree::new_op(
        Tree::new_const(1., 0, 1),
        Operation::Add,
        Tree::new_const(2., 2, 3)
    ));
}

#[test]
fn left_associate() {
    let tree = read("1+2-3");
    assert_eq!(tree, Tree::new_op(
        Tree::new_op(
            Tree::new_const(1., 0, 1),
            Operation::Add,
            Tree::new_const(2., 2, 3)
        ),
        Operation::Subtract,
        Tree::new_const(3., 4, 5)
    ));
}

#[test]
fn order_of_ops_add_div() {
    let tree = read("A + 2/3");
    assert_eq!(tree, Tree::new_op(
        Tree::new_id('A', 0, 1),
        Operation::Add,
        Tree::new_op(
            Tree::new_const(2., 4, 5),
            Operation::Divide,
            Tree::new_const(3., 6, 7)
        )
    ));
}

#[test]
fn order_of_ops_mult_exp() {
    let tree = read("2x^3");
    assert_eq!(tree, Tree::new_op(
        Tree::new_const(2., 0, 1),
        Operation::Multiply,
        Tree::new_op(
            Tree::new_id('x', 1, 2),
            Operation::Exponentiate,
            Tree::new_const(3., 3, 4)
        )
    ));
}

#[test]
fn order_of_ops_multilevel_1() {
    let tree = read("2x^4 + x*3");
    assert_eq!(tree, Tree::new_op(
        Tree::new_op(
            Tree::new_const(2., 0, 1),
            Operation::Multiply,
            Tree::new_op(
                Tree::new_id('x', 1, 2),
                Operation::Exponentiate,
                Tree::new_const(4., 3, 4)
            )
        ),
        Operation::Add,
        Tree::new_op(
            Tree::new_id('x', 7, 8),
            Operation::Multiply,
            Tree::new_const(3., 9, 10)
        )
    ));
}

#[test]
fn order_of_ops_multilevel_2() {
    let tree = read("1+2*3 * 4^5");
    assert_eq!(tree, Tree::new_op(
        Tree::new_const(1., 0, 1),
        Operation::Add,
        Tree::new_op(
            Tree::new_op(
                Tree::new_const(2., 2, 3),
                Operation::Multiply,
                Tree::new_const(3., 4, 5)
            ),
            Operation::Multiply,
            Tree::new_op(
                Tree::new_const(4., 8, 9),
                Operation::Exponentiate,
                Tree::new_const(5., 10, 11)
            )
        )
    ));
}

#[test]
fn order_of_ops_multilevel_3() {
    let tree = read("1 + xy^2^3");
    assert_eq!(tree, Tree::new_op(
        Tree::new_const(1., 0, 1),
        Operation::Add,
        Tree::new_op(
            Tree::new_id('x', 4, 5),
            Operation::Multiply,
            Tree::new_op(
                Tree::new_id('y', 5, 6),
                Operation::Exponentiate,
                Tree::new_op(
                    Tree::new_const(2., 7, 8),
                    Operation::Exponentiate,
                    Tree::new_const(3., 9, 10)
                )
            )
        )
    ));
}

#[test]
fn simple_parens() {
    let tree = read("2*( x + 0.4 )");
    assert_eq!(tree, Tree::new_op(
        Tree::new_const(2., 0, 1),
        Operation::Multiply,
        Tree::new_op(
            Tree::new_id('x', 4, 5),
            Operation::Add,
            Tree::new_const(0.4, 8, 11)
        ).with_bounds(2, 13)
    ));
}

#[test]
fn nested_parens() {
    let tree = read("(x+y)(2^(20z))");
    assert_eq!(tree, Tree::new_op(
        Tree::new_op(
            Tree::new_id('x', 1, 2),
            Operation::Add,
            Tree::new_id('y', 3, 4)
        ).with_bounds(0, 5),
        Operation::Multiply,
        Tree::new_op(
            Tree::new_const(2., 6, 7),
            Operation::Exponentiate,
            Tree::new_op(
                Tree::new_const(20., 9, 11),
                Operation::Multiply,
                Tree::new_id('z', 11, 12)
            ).with_bounds(8, 13)
        ).with_bounds(5, 14)
    ));
}

#[test]
fn extra_open_paren() {
    let err = parse("(1*(2+3)").unwrap_err();
    assert_eq!(err.message, "failed to match paren");
    assert_eq!(err.start, 0);
    assert_eq!(err.end, 1);
}

#[test]
fn extra_close_paren() {
    let err = parse("4*1+(2+3))").unwrap_err();
    assert_eq!(err.message, "expected expression");
    assert_eq!(err.start, 9);
    assert_eq!(err.end, 10);
}

#[test]
fn implicit_mult_identifier() {
    let tree = read("2+4x+7");
    assert_eq!(tree, Tree::new_op(
        Tree::new_op(
            Tree::new_const(2., 0, 1),
            Operation::Add,
            Tree::new_op(
                Tree::new_const(4., 2, 3),
                Operation::Multiply,
                Tree::new_id('x', 3, 4)
            )
        ),
        Operation::Add,
        Tree::new_const(7., 5, 6)
    ));
}

#[test]
fn attempt_const_implicit_mult() {
    let err = parse("x3").unwrap_err();
    assert_eq!(err.message, "constant on RHS of implicit multiplication");
    assert_eq!(err.start, 1);
    assert_eq!(err.end, 2);
}

#[test]
fn empty_paren() {
    let err = parse("x()").unwrap_err();
    assert_eq!(err.message, "expected expression");
    assert_eq!(err.start, 2);
    assert_eq!(err.end, 3);
}

#[test]
fn just_paren() {
    let err = parse("(").unwrap_err();
    assert_eq!(err.message, "failed to match paren");
    assert_eq!(err.start, 0);
    assert_eq!(err.end, 1);
}

#[test]
fn complex_implicit_mult_identifier() {
    let tree = read("4x^2 + 2xy");
    assert_eq!(tree, Tree::new_op(
        Tree::new_op(
            Tree::new_const(4., 0, 1),
            Operation::Multiply,
            Tree::new_op(
                Tree::new_id('x', 1, 2),
                Operation::Exponentiate,
                Tree::new_const(2., 3, 4)
            )
        ),
        Operation::Add,
        Tree::new_op(
            Tree::new_op(
                Tree::new_const(2., 7, 8),
                Operation::Multiply,
                Tree::new_id('x', 8, 9)
            ),
            Operation::Multiply,
            Tree::new_id('y', 9, 10),
        ),
    ));
}

#[test]
fn precedence_of_each_operation() {
    assert_eq!(precedence(&Operation::Add), 0);
    assert_eq!(precedence(&Operation::Subtract), 0);
    assert_eq!(precedence(&Operation::Multiply), 1);
    assert_eq!(precedence(&Operation::Divide), 1);
    assert_eq!(precedence(&Operation::Exponentiate), 2);
}

#[test]
fn precedence_groups_products_and_powers() {
    let tree = read("2*y^4+x*3^2");
    assert_eq!(tree, Tree::new_op(
        Tree::new_op(
            Tree::new_const(2., 0, 1),
            Operation::Multiply,
            Tree::new_op(
                Tree::new_id('y', 2, 3),
                Operation::Exponentiate,
                Tree::new_const(4., 4, 5)
            )
        ),
        Operation::Add,
        Tree::new_op(
            Tree::new_id('x', 6, 7),
            Operation::Multiply,
            Tree::new_op(
                Tree::new_const(3., 8, 9),
                Operation::Exponentiate,
                Tree::new_const(2., 10, 11)
            )
        )
    ));
}

#[test]
fn powers_group_to_the_right() {
    let tree = read("x^2^3");
    assert_eq!(tree, Tree::new_op(
        Tree::new_id('x', 0, 1),
        Operation::Exponentiate,
        Tree::new_op(
            Tree::new_const(2., 2, 3),
            Operation::Exponentiate,
            Tree::new_const(3., 4, 5)
        )
    ));
}

#[test]
fn quotients_and_differences_group_to_the_left() {
    let tree = read("8/4/2");
    assert_eq!(tree, Tree::new_op(
        Tree::new_op(
            Tree::new_const(8., 0, 1),
            Operation::Divide,
            Tree::new_const(4., 2, 3)
        ),
        Operation::Divide,
        Tree::new_const(2., 4, 5)
    ));
    let tree = read("8-4*2-1");
    assert_eq!(tree, Tree::new_op(
        Tree::new_op(
            Tree::new_const(8., 0, 1),
            Operation::Subtract,
            Tree::new_op(
                Tree::new_const(4., 2, 3),
                Operation::Multiply,
                Tree::new_const(2., 4, 5)
            )
        ),
        Operation::Subtract,
        Tree::new_const(1., 6, 7)
    ));
}

#[test]
fn three_levels_fold_at_once() {
    let tree = read("a+b*c^d-e");
    assert_eq!(tree, Tree::new_op(
        Tree::new_op(
            Tree::new_id('a', 0, 1),
            Operation::Add,
            Tree::new_op(
                Tree::new_id('b', 2, 3),
                Operation::Multiply,
                Tree::new_op(
                    Tree::new_id('c', 4, 5),
                    Operation::Exponentiate,
                    Tree::new_id('d', 6, 7)
                )
            )
        ),
        Operation::Subtract,
        Tree::new_id('e', 8, 9)
    ));
}

#[test]
fn unary_minus() {
    let tree = parse("-2x").unwrap();
    assert_eq!(tree, Expression::new_op(
        Expression::new_const(Numeral::zero(), 0, 0),
        Operation::Subtract,
        Expression::new_op(
            Expression::new_const(numeral("2"), 1, 2),
            Operation::Multiply,
            Expression::new_id('x', 2, 3)
        )
    ));
    assert_eq!(tree.start, 0);
    assert_eq!(tree.end, 3);
}

#[test]
fn order_of_ops_unary_minus() {
    let tree = read("-2x^2 - 3");
    assert_eq!(tree, Tree::new_op(
        Tree::new_op(
            Tree::new_const(0., 0, 0),
            Operation::Subtract,
            Tree::new_op(
                Tree::new_const(2., 1, 2),
                Operation::Multiply,
                Tree::new_op(
                    Tree::new_id('x', 2, 3),
                    Operation::Exponentiate,
                    Tree::new_const(2., 4, 5)
                )
            )
        ),
        Operation::Subtract,
        Tree::new_const(3., 8, 9)
    ));
}

#[test]
fn unary_minus_error() {
    let err = parse("3*-2x").unwrap_err();
    assert_eq!(err.error_type, ErrorType::BadParse);
    assert_eq!(err.message, "expected expression; wrap in parens for unary minus");
    assert_eq!(err.start, 2);
    assert_eq!(err.end, 3);
}

#[test]
fn unary_minus_nested() {
    let tree = read("3*(-2xy)");
    assert_eq!(tree, Tree::new_op(
        Tree::new_const(3., 0, 1),
        Operation::Multiply,
        Tree::new_op(
            Tree::new_const(0., 3, 3),
            Operation::Subtract,
            Tree::new_op(
                Tree::new_op(
                    Tree::new_const(2., 4, 5),
                    Operation::Multiply,
                    Tree::new_id('x', 5, 6)
                ),
                Operation::Multiply,
                Tree::new_id('y', 6, 7)
            )
        ).with_bounds(2, 8)
    ));
}

#[test]
fn two_minus_signs() {
    let err = parse("--2").unwrap_err();
    assert_eq!(err.message, "expected expression; wrap in parens for unary minus");
    assert_eq!(err.start, 1);
    assert_eq!(err.end, 2);
}

#[test]
fn factored_quadratic() {
    let tree = read("(2a+5)(a-4)");
    assert_eq!(tree, Tree::new_op(
        Tree::new_op(
            Tree::new_op(
                Tree::new_const(2., 1, 2),
                Operation::Multiply,
                Tree::new_id('a', 2, 3)
            ),
            Operation::Add,
            Tree::new_const(5., 4, 5)
        ).with_bounds(0, 6),
        Operation::Multiply,
        Tree::new_op(
            Tree::new_id('a', 7, 8),
            Operation::Subtract,
            Tree::new_const(4., 9, 10)
        ).with_bounds(6, 11)
    ));
}

#[test]
fn parenthesized_constant_spans_the_parentheses() {
    let tree = read("((5))");
    assert_eq!(tree, Tree::new_const(5., 0, 5));
}

#[test]
fn dangling_operator() {
    let err = parse("1+").unwrap_err();
    assert_eq!(err.error_type, ErrorType::BadParse);
    assert_eq!(err.message, "expected expression");
    assert_eq!(err.start, 2);
    assert_eq!(err.end, 3);
}

#[test]
fn dangling_operator_behind_spaces() {
    let err = parse("1 +   ").unwrap_err();
    assert_eq!(err.message, "expected expression");
    assert_eq!(err.start, 3);
    assert_eq!(err.end, 4);
}

#[test]
fn lone_minus() {
    let err = parse("-").unwrap_err();
    assert_eq!(err.message, "expected expression");
    assert_eq!(err.start, 1);
    assert_eq!(err.end, 2);
}

#[test]
fn dangling_operator_in_a_group() {
    let err = parse("(1+)").unwrap_err();
    assert_eq!(err.message, "expected expression");
    assert_eq!(err.start, 3);
    assert_eq!(err.end, 4);
}

#[test]
fn operator_where_an_operand_is_due() {
    let err = parse("*3").unwrap_err();
    assert_eq!(err.message, "expected expression");
    assert_eq!(err.start, 0);
    assert_eq!(err.end, 1);
    let err = parse("2+*3").unwrap_err();
    assert_eq!(err.message, "expected expression");
    assert_eq!(err.start, 2);
    assert_eq!(err.end, 3);
}

#[test]
fn close_paren_at_the_start() {
    let err = parse(")").unwrap_err();
    assert_eq!(err.message, "expected expression");
    assert_eq!(err.start, 0);
    assert_eq!(err.end, 1);
}

#[test]
fn unmatched_paren_is_found_before_what_is_in_it() {
    let err = parse("1+(2+*3").unwrap_err();
    assert_eq!(err.message, "failed to match paren");
    assert_eq!(err.start, 2);
    assert_eq!(err.end, 3);
}

#[test]
fn constant_behind_a_group() {
    let err = parse("(x)3").unwrap_err();
    assert_eq!(err.message, "constant on RHS of implicit multiplication");
    assert_eq!(err.start, 3);
    assert_eq!(err.end, 4);
}

#[test]
fn only_spaces() {
    let err = parse("  ").unwrap_err();
    assert_eq!(err.error_type, ErrorType::BadParse);
    assert_eq!(err.message, "expected expression");
    assert_eq!(err.start, 0);
    assert_eq!(err.end, 1);
}

#[test]
fn no_tokens() {
    let tokens: Vec<Token> = Vec::new();
    let err = parse_tokens(&tokens, 0, 0).unwrap_err();
    assert_eq!(err.message, "expected expression");
    assert_eq!(err.start, 0);
    assert_eq!(err.end, 1);
}

#[test]
fn tokens_are_built_as_the_text_is() {
    let tokens = lex("2(x+1)^2").unwrap();
    let built = parse_tokens(&tokens, 0, tokens.len()).unwrap();
    assert_eq!(built, parse("2(x+1)^2").unwrap());
}

#[test]
fn tokens_by_hand() {
    let tokens = vec![
        Token::new(TokenType::Identifier('a'), 0, 1),
        Token::new(TokenType::Op(Operation::Divide), 1, 2),
        Token::new(TokenType::Constant(numeral("2.5")), 2, 5),
    ];
    let built = parse_tokens(&tokens, 0, tokens.len()).unwrap();
    assert_eq!(built, Expression::new_op(
        Expression::new_id('a', 0, 1),
        Operation::Divide,
        Expression::new_const(numeral("2.5"), 2, 5)
    ));
}

#[test]
fn a_range_of_the_tokens() {
    let tokens = lex("1+2*3").unwrap();
    let built = parse_tokens(&tokens, 2, 5).unwrap();
    assert_eq!(tree(&built), Tree::new_op(
        Tree::new_const(2., 2, 3),
        Operation::Multiply,
        Tree::new_const(3., 4, 5)
    ));
    let built = parse_tokens(&tokens, 0, 3).unwrap();
    assert_eq!(tree(&built), Tree::new_op(
        Tree::new_const(1., 0, 1),
        Operation::Add,
        Tree::new_const(2., 2, 3)
    ));
}

#[test]
fn constructors_set_the_spans() {
    let c = Expression::new_const(numeral("1.5"), 3, 6);
    assert_eq!(c.data, ExpressionData::Constant(numeral("1.5")));
    assert_eq!((c.start, c.end), (3, 6));
    let i = Expression::new_id('q', 7, 8);
    assert_eq!(i.data, ExpressionData::Identifier('q'));
    assert_eq!((i.start, i.end), (7, 8));
    let o = Expression::new_op(c, Operation::Add, i);
    assert_eq!((o.start, o.end), (3, 8));
    let w = o.with_bounds(2, 9);
    assert_eq!((w.start, w.end), (2, 9));
    match w.data {
        ExpressionData::Op(lhs, op, rhs) => {
            assert_eq!(op, Operation::Add);
            assert_eq!((lhs.start, lhs.end), (3, 6));
            assert_eq!((rhs.start, rhs.end), (7, 8));
        }
        _ => panic!("an operation is expected"),
    }
}

#[test]
fn every_part_reads_the_same_from_its_own_span() {
    for text in [
        "2*y^4+x*3^2",
        "4x^2 + 2xy",
        "(x+y)(2^(20z))",
        "-2x^2 + 3x - 5",
        "3*(-2xy)",
        "1 + xy^2^3",
        "((a))b/(c - 1.5)^2",
    ] {
        reread(text, &read(text));
    }
}

#[test]
fn a_range_that_ends_behind_an_operator() {
    let tokens = lex("1+2*3").unwrap();
    let err = parse_tokens(&tokens, 0, 2).unwrap_err();
    assert_eq!(err.message, "expected expression");
    assert_eq!(err.start, 2);
    assert_eq!(err.end, 3);
    let err = parse_tokens(&tokens, 3, 3).unwrap_err();
    assert_eq!(err.message, "expected expression");
    assert_eq!(err.start, 3);
    assert_eq!(err.end, 4);
    let err = parse_tokens(&tokens, 5, 5).unwrap_err();
    assert_eq!(err.message, "expected expression");
    assert_eq!(err.start, 5);
    assert_eq!(err.end, 6);
}

#[test]
fn a_range_that_ends_within_a_group() {
    let tokens = lex("2(x+1)").unwrap();
    let err = parse_tokens(&tokens, 0, 4).unwrap_err();
    assert_eq!(err.message, "failed to match paren");
    assert_eq!(err.start, 1);
    assert_eq!(err.end, 2);
}

/// Whether every part of `t` has a width, but for a zero of no width.
fn parts_have_width(t: &Tree) -> bool {
    let here = t.start < t.end || (t.start == t.end && t.data == Node::Constant(0.));
    match &t.data {
        Node::Op(lhs, _, rhs) => here && parts_have_width(lhs) && parts_have_width(rhs),
        _ => here,
    }
}

#[test]
fn every_part_has_a_width_but_the_leading_zero() {
    for text in ["-2x", "3*(-2xy)", "(x+y)(2^(20z))", "-(-(-x))", " 1 + ( 2 ) "] {
        let t = read(text);
        assert!(parts_have_width(&t));
        assert!(t.end <= text.len());
    }
    let t = read("-(-x)");
    assert_eq!(t, Tree::new_op(
        Tree::new_const(0., 0, 0),
        Operation::Subtract,
        Tree::new_op(
            Tree::new_const(0., 2, 2),
            Operation::Subtract,
            Tree::new_id('x', 3, 4)
        ).with_bounds(1, 5)
    ));
}
