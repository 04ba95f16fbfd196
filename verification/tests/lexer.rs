use serious::error::ErrorType;
use serious::lexer::{lex, Operation, Token, TokenType};
use serious::numeral::Numeral;

/// A token with the value of its numeral in place of the text.
#[derive(Debug, PartialEq)]
enum Kind {
    OpenParen,
    CloseParen,
    Op(Operation),
    Constant(f64),
    Identifier(char),
}

#[derive(Debug, PartialEq)]
struct Seen {
    kind: Kind,
    start: usize,
    end: usize,
}

impl Seen {
    fn new(kind: Kind, start: usize, end: usize) -> Seen {
        Seen { kind, start, end }
    }
}

fn value(numeral: &Numeral) -> f64 {
    numeral.digits().iter().collect::<String>().parse::<f64>().unwrap()
}

fn seen(tokens: &[Token]) -> Vec<Seen> {
    let mut all = Vec::new();
    for token in tokens {
        let kind = match &token.token_type {
            TokenType::OpenParen => Kind::OpenParen,
            TokenType::CloseParen => Kind::CloseParen,
            TokenType::Op(op) => Kind::Op(*op),
            TokenType::Constant(numeral) => Kind::Constant(value(numeral)),
            TokenType::Identifier(name) => Kind::Identifier(*name),
        };
        all.push(Seen::new(kind, token.start, token.end));
    }
    all
}

#[test]
fn lexer_empty() {
    let err = lex("").unwrap_err();
    assert_eq!(err.message, "expected token");
    assert_eq!(err.start, 0);
    assert_eq!(err.end, 1);
}

#[test]
fn too_large() {
    let mut too_big = f64::MAX.to_string();
    too_big.push_str("0");

    let err = lex(too_big.as_str()).unwrap_err();
    assert_eq!(err.message, "number too large to fit in f64");
    assert_eq!(err.start, 0);
    assert_eq!(err.end, 310);
}

#[test]
fn invalid_float_extra_decimal() {
    let err = lex("0.2.3").unwrap_err();
    assert_eq!(err.message, "invalid float literal");
    assert_eq!(err.start, 0);
    assert_eq!(err.end, 5);
}

#[test]
fn invalid_float_only_decimal() {
    let err = lex("abc.").unwrap_err();
    assert_eq!(err.message, "invalid float literal");
    assert_eq!(err.start, 3);
    assert_eq!(err.end, 4);
}

#[test]
fn simple_mult() {
    let tokens = lex("4*0.23").unwrap();
    assert_eq!(seen(&tokens), vec![
        Seen::new(Kind::Constant(4.), 0, 1),
        Seen::new(Kind::Op(Operation::Multiply), 1, 2),
        Seen::new(Kind::Constant(0.23), 2, 6)
    ]);
}

#[test]
fn lexer_simple_add() {
    let tokens = lex("0+45").unwrap();
    assert_eq!(seen(&tokens), vec![
        Seen::new(Kind::Constant(0.), 0, 1),
        Seen::new(Kind::Op(Operation::Add), 1, 2),
        Seen::new(Kind::Constant(45.), 2, 4)
    ]);
}

#[test]
fn with_spaces() {
    let tokens = lex("5+ 4 * 3     * 9").unwrap();
    assert_eq!(seen(&tokens), vec![
        Seen::new(Kind::Constant(5.), 0, 1),
        Seen::new(Kind::Op(Operation::Add), 1, 2),
        Seen::new(Kind::Constant(4.), 3, 4),
        Seen::new(Kind::Op(Operation::Multiply), 5, 6),
        Seen::new(Kind::Constant(3.), 7, 8),
        Seen::new(Kind::Op(Operation::Multiply), 13, 14),
        Seen::new(Kind::Constant(9.), 15, 16)
    ]);
}

#[test]
fn parens() {
    let tokens = lex("0+(7*5)+(6*(7+8+90))").unwrap();
    assert_eq!(seen(&tokens), vec![
        Seen::new(Kind::Constant(0.), 0, 1),
        Seen::new(Kind::Op(Operation::Add), 1, 2),
        Seen::new(Kind::OpenParen, 2, 3),
        Seen::new(Kind::Constant(7.), 3, 4),
        Seen::new(Kind::Op(Operation::Multiply), 4, 5),
        Seen::new(Kind::Constant(5.), 5, 6),
        Seen::new(Kind::CloseParen, 6, 7),
        Seen::new(Kind::Op(Operation::Add), 7, 8),
        Seen::new(Kind::OpenParen, 8, 9),
        Seen::new(Kind::Constant(6.), 9, 10),
        Seen::new(Kind::Op(Operation::Multiply), 10, 11),
        Seen::new(Kind::OpenParen, 11, 12),
        Seen::new(Kind::Constant(7.), 12, 13),
        Seen::new(Kind::Op(Operation::Add), 13, 14),
        Seen::new(Kind::Constant(8.), 14, 15),
        Seen::new(Kind::Op(Operation::Add), 15, 16),
        Seen::new(Kind::Constant(90.), 16, 18),
        Seen::new(Kind::CloseParen, 18, 19),
        Seen::new(Kind::CloseParen, 19, 20)
    ]);
}

#[test]
fn identifier() {
    let tokens = lex("8y(4X + 7.3)").unwrap();
    assert_eq!(seen(&tokens), vec![
        Seen::new(Kind::Constant(8.), 0, 1),
        Seen::new(Kind::Identifier('y'), 1, 2),
        Seen::new(Kind::OpenParen, 2, 3),
        Seen::new(Kind::Constant(4.), 3, 4),
        Seen::new(Kind::Identifier('X'), 4, 5),
        Seen::new(Kind::Op(Operation::Add), 6, 7),
        Seen::new(Kind::Constant(7.3), 8, 11),
        Seen::new(Kind::CloseParen, 11, 12)
    ]);
}

#[test]
fn numerals_keep_their_text() {
    let tokens = lex("007.50").unwrap();
    assert_eq!(tokens.len(), 1);
    assert_eq!(tokens[0], Token::new(
        TokenType::Constant(Numeral::new("007.50".chars().collect()).unwrap()),
        0,
        6
    ));
}

#[test]
fn every_operator_and_parenthesis() {
    let tokens = lex("()+-*/^").unwrap();
    assert_eq!(seen(&tokens), vec![
        Seen::new(Kind::OpenParen, 0, 1),
        Seen::new(Kind::CloseParen, 1, 2),
        Seen::new(Kind::Op(Operation::Add), 2, 3),
        Seen::new(Kind::Op(Operation::Subtract), 3, 4),
        Seen::new(Kind::Op(Operation::Multiply), 4, 5),
        Seen::new(Kind::Op(Operation::Divide), 5, 6),
        Seen::new(Kind::Op(Operation::Exponentiate), 6, 7)
    ]);
}

#[test]
fn letters_at_the_ends_of_the_alphabet() {
    let tokens = lex("AZaz").unwrap();
    assert_eq!(seen(&tokens), vec![
        Seen::new(Kind::Identifier('A'), 0, 1),
        Seen::new(Kind::Identifier('Z'), 1, 2),
        Seen::new(Kind::Identifier('a'), 2, 3),
        Seen::new(Kind::Identifier('z'), 3, 4)
    ]);
}

#[test]
fn invalid_character() {
    let err = lex("2 $ 3").unwrap_err();
    assert_eq!(err.error_type, ErrorType::BadParse);
    assert_eq!(err.message, "invalid character '$'");
    assert_eq!(err.start, 2);
    assert_eq!(err.end, 3);
}

#[test]
fn characters_between_the_two_alphabets_are_invalid() {
    for c in ['[', '\\', ']', '_', '`', '@', '{'] {
        let err = lex(&format!("x{}", c)).unwrap_err();
        assert_eq!(err.message, format!("invalid character '{}'", c));
        assert_eq!(err.start, 1);
        assert_eq!(err.end, 2);
    }
}

#[test]
fn character_outside_ascii_is_invalid() {
    let err = lex("1+é").unwrap_err();
    assert_eq!(err.message, "invalid character 'é'");
    assert_eq!(err.start, 2);
    assert_eq!(err.end, 3);
}

#[test]
fn pending_numeral_fails_before_the_character_behind_it() {
    let err = lex("1..2$").unwrap_err();
    assert_eq!(err.message, "invalid float literal");
    assert_eq!(err.start, 0);
    assert_eq!(err.end, 4);
}

#[test]
fn only_spaces_give_no_tokens() {
    let tokens = lex("   ").unwrap();
    assert!(tokens.is_empty());
}

#[test]
fn a_space_ends_a_numeral() {
    let tokens = lex("1 2").unwrap();
    assert_eq!(seen(&tokens), vec![
        Seen::new(Kind::Constant(1.), 0, 1),
        Seen::new(Kind::Constant(2.), 2, 3)
    ]);
}

#[test]
fn numeral_at_the_end_of_the_text() {
    let tokens = lex("x+12.5").unwrap();
    assert_eq!(seen(&tokens), vec![
        Seen::new(Kind::Identifier('x'), 0, 1),
        Seen::new(Kind::Op(Operation::Add), 1, 2),
        Seen::new(Kind::Constant(12.5), 2, 6)
    ]);
}

#[test]
fn point_at_either_end_of_a_numeral() {
    let tokens = lex("5. .5").unwrap();
    assert_eq!(seen(&tokens), vec![
        Seen::new(Kind::Constant(5.), 0, 2),
        Seen::new(Kind::Constant(0.5), 3, 5)
    ]);
}

#[test]
fn too_large_in_the_middle_of_a_text() {
    let text = format!("1+{}0*2", f64::MAX);
    let err = lex(&text).unwrap_err();
    assert_eq!(err.error_type, ErrorType::BadParse);
    assert_eq!(err.message, "number too large to fit in f64");
    assert_eq!(err.start, 2);
    assert_eq!(err.end, 312);
}

#[test]
fn largest_double_is_read() {
    let text = f64::MAX.to_string();
    let tokens = lex(&text).unwrap();
    assert_eq!(seen(&tokens), vec![Seen::new(Kind::Constant(f64::MAX), 0, 309)]);
}

#[test]
fn tokens_come_in_the_order_of_the_text() {
    for text in ["0+(7*5)+(6*(7+8+90))", "  8y(4X + 7.3)  ", "1 2 3", "-x^2"] {
        let tokens = lex(text).unwrap();
        let mut last = 0;
        for token in &tokens {
            assert!(last <= token.start);
            assert!(token.start < token.end);
            assert!(token.end <= text.len());
            last = token.end;
        }
        assert!(text.is_ascii());
    }
}

#[test]
fn a_part_of_the_text_has_the_tokens_in_it() {
    let text = " 12 + x*(3.5 - y) ";
    let all = lex(text).unwrap();
    for p in 0..all.len() {
        for q in p + 1..=all.len() {
            let start = all[p].start;
            let end = all[q - 1].end;
            let part = lex(&text[start..end]).unwrap();
            assert_eq!(part.len(), q - p);
            for k in 0..part.len() {
                assert_eq!(part[k].token_type, all[p + k].token_type);
                assert_eq!(part[k].start + start, all[p + k].start);
                assert_eq!(part[k].end + start, all[p + k].end);
            }
        }
    }
}

#[test]
fn a_failure_counts_bytes_as_well_as_characters() {
    for text in ["1+é", "x y z ☃ 3", "12.5.1", "((3)) § 8"] {
        let err = lex(text).unwrap_err();
        assert!(text[..err.start].is_ascii());
        assert!(text.is_char_boundary(err.start));
    }
}
