use dice_expr::cursor::Cursor;
use dice_expr::token::Token;
use dice_expr::tokenizer::{consume_num, consume_num_or_roll, parse_digits, tokenize};

fn cursor(s: &str) -> Cursor<char> {
    Cursor::new(s.chars().collect())
}

fn rest(mut iter: Cursor<char>) -> String {
    let mut s = String::new();
    while let Some(c) = iter.next() {
        s.push(c);
    }
    s
}

#[test]
fn tokenizer_single_num() {
    let mut iter = cursor("123");
    let result = consume_num_or_roll(&mut iter);
    assert_eq!(result, Some(Token::Num(123)));
    assert_eq!(iter.next(), None);
}

#[test]
fn tokenizer_single_roll() {
    let mut iter = cursor("2d6");
    let result = consume_num_or_roll(&mut iter);
    assert_eq!(
        result,
        Some(Token::Roll {
            number: 2,
            sides: 6
        })
    );
    assert_eq!(iter.next(), None);
}

#[test]
fn tokenizer_single_roll_with_junk() {
    let mut iter = cursor("2d6abc");
    let result = consume_num_or_roll(&mut iter);
    assert_eq!(
        result,
        Some(Token::Roll {
            number: 2,
            sides: 6
        })
    );
    assert_eq!(rest(iter), "abc");
}

#[test]
fn tokenizer_junk() {
    let mut iter = cursor("x22");
    let result = consume_num_or_roll(&mut iter);
    assert_eq!(result, None);
    assert_eq!(rest(iter), "x22");
}

#[test]
fn tokenizer_roll() {
    let s = "2d6";
    let expected = vec![Token::Roll {
        number: 2,
        sides: 6,
    }];
    assert_eq!(tokenize(s), Some(expected));
}

#[test]
fn tokenizer_addition() {
    let s = "1 + 2";
    let expected = vec![Token::Num(1), Token::Sym('+'), Token::Num(2)];
    assert_eq!(tokenize(s), Some(expected));
}

#[test]
fn tokenizer_subtraction() {
    let s = "1 - 2";
    let expected = vec![Token::Num(1), Token::Sym('-'), Token::Num(2)];
    assert_eq!(tokenize(s), Some(expected));
}

#[test]
fn tokenizer_nospace() {
    let s = "1+2";
    let expected = vec![Token::Num(1), Token::Sym('+'), Token::Num(2)];
    assert_eq!(tokenize(s), Some(expected));
}

#[test]
fn tokenizer_roll_and_addition() {
    let s = "2d6 + 1";
    let expected = vec![
        Token::Roll {
            number: 2,
            sides: 6,
        },
        Token::Sym('+'),
        Token::Num(1),
    ];
    assert_eq!(tokenize(s), Some(expected));
}

#[test]
fn tokenizer_parens() {
    let s = "(1 + 2)";
    let expected = vec![
        Token::OpenParen,
        Token::Num(1),
        Token::Sym('+'),
        Token::Num(2),
        Token::CloseParen,
    ];
    assert_eq!(tokenize(s), Some(expected));
}

#[test]
fn mod_single_num() {
    let mut iter = cursor("123");
    let result = consume_num_or_roll(&mut iter);
    assert_eq!(result, Some(Token::Num(123)));
    assert_eq!(iter.next(), None);
}

#[test]
fn mod_single_roll() {
    let mut iter = cursor("2d6");
    let result = consume_num_or_roll(&mut iter);
    assert_eq!(
        result,
        Some(Token::Roll {
            number: 2,
            sides: 6
        })
    );
    assert_eq!(iter.next(), None);
}

#[test]
fn mod_single_roll_with_junk() {
    let mut iter = cursor("2d6abc");
    let result = consume_num_or_roll(&mut iter);
    assert_eq!(
        result,
        Some(Token::Roll {
            number: 2,
            sides: 6
        })
    );
    assert_eq!(rest(iter), "abc");
}

#[test]
fn mod_junk() {
    let mut iter = cursor("x22");
    let result = consume_num_or_roll(&mut iter);
    assert_eq!(result, None);
    assert_eq!(rest(iter), "x22");
}

#[test]
fn mod_roll() {
    let s = "2d6";
    let expected = vec![Token::Roll {
        number: 2,
        sides: 6,
    }];
    assert_eq!(tokenize(s), Some(expected));
}

#[test]
fn mod_nospace() {
    let s = "1+2";
    let expected = vec![Token::Num(1), Token::Sym('+'), Token::Num(2)];
    assert_eq!(tokenize(s), Some(expected));
}

#[test]
fn mod_roll_and_addition() {
    let s = "2d6 + 1";
    let expected = vec![
        Token::Roll {
            number: 2,
            sides: 6,
        },
        Token::Sym('+'),
        Token::Num(1),
    ];
    assert_eq!(tokenize(s), Some(expected));
}

#[test]
fn mod_parens() {
    let s = "(1 + 2)";
    let expected = vec![
        Token::OpenParen,
        Token::Num(1),
        Token::Sym('+'),
        Token::Num(2),
        Token::CloseParen,
    ];
    assert_eq!(tokenize(s), Some(expected));
}

#[test]
fn empty_text_has_no_tokens() {
    assert_eq!(tokenize(""), Some(vec![]));
    assert_eq!(tokenize("   "), Some(vec![]));
}

#[test]
fn all_operators_are_single_tokens() {
    let expected = vec![
        Token::Sym('+'),
        Token::Sym('-'),
        Token::Sym('*'),
        Token::Sym('/'),
        Token::OpenParen,
        Token::CloseParen,
    ];
    assert_eq!(tokenize("+-*/()"), Some(expected));
}

#[test]
fn only_the_space_character_is_skipped() {
    assert_eq!(tokenize("1\t+ 2"), None);
    assert_eq!(tokenize("1\n"), None);
}

#[test]
fn unknown_character_rejects_the_whole_text() {
    assert_eq!(tokenize("x22"), None);
    assert_eq!(tokenize("1 + 2 ?"), None);
    assert_eq!(tokenize("2d6abc"), None);
}

#[test]
fn dice_without_faces_is_rejected() {
    assert_eq!(tokenize("2d"), None);
    assert_eq!(tokenize("2d + 1"), None);
    assert_eq!(tokenize("d6"), None);
    assert_eq!(tokenize("2 d6"), None);
}

#[test]
fn zero_sided_die_is_lexed() {
    assert_eq!(
        tokenize("3d0"),
        Some(vec![Token::Roll {
            number: 3,
            sides: 0
        }])
    );
}

#[test]
fn adjacent_numbers_need_a_space() {
    assert_eq!(tokenize("1 2"), Some(vec![Token::Num(1), Token::Num(2)]));
    assert_eq!(tokenize("12"), Some(vec![Token::Num(12)]));
}

#[test]
fn leading_zeros_are_read_in_base_ten() {
    assert_eq!(tokenize("007"), Some(vec![Token::Num(7)]));
}

#[test]
fn number_limits() {
    assert_eq!(tokenize("4294967295"), Some(vec![Token::Num(4294967295)]));
    assert_eq!(tokenize("4294967296"), None);
    assert_eq!(tokenize("99999999999999999999999"), None);
}

#[test]
fn parse_digits_reads_base_ten() {
    assert_eq!(parse_digits(&"1203".chars().collect()), Some(1203));
    assert_eq!(parse_digits(&"0".chars().collect()), Some(0));
    assert_eq!(parse_digits(&Vec::new()), None);
    assert_eq!(parse_digits(&"4294967296".chars().collect()), None);
}

#[test]
fn consume_num_stops_at_the_first_non_digit() {
    let mut iter = cursor("42d6");
    assert_eq!(consume_num(&mut iter), Some(42));
    assert_eq!(rest(iter), "d6");
    let mut iter = cursor("+1");
    assert_eq!(consume_num(&mut iter), None);
    assert_eq!(rest(iter), "+1");
}

#[test]
fn failed_roll_has_consumed_the_separator() {
    let mut iter = cursor("2dx");
    assert_eq!(consume_num_or_roll(&mut iter), None);
    assert_eq!(rest(iter), "x");
}

#[test]
fn a_leading_space_changes_nothing() {
    assert_eq!(tokenize(" 2d6+1"), tokenize("2d6+1"));
    assert_eq!(tokenize("  (1)"), tokenize("(1)"));
}
