use tinylang::lexer::{is_special, lex, Class, Tk};

fn name(s: &str) -> Tk {
    Tk::Name(s.to_string())
}

fn infix(s: &str) -> Tk {
    Tk::NameInfix(s.to_string())
}

#[test]
fn empty_text_is_the_end_alone() {
    assert_eq!(lex(String::new()), vec![Tk::Eof]);
    assert_eq!(lex(" \t\r ".to_string()), vec![Tk::Eof]);
}

#[test]
fn delimiters_and_simple_tokens() {
    assert_eq!(
        lex("(){}[].,:;\n".to_string()),
        vec![
            Tk::LParen, Tk::RParen, Tk::LBrace, Tk::RBrace, Tk::LSquare, Tk::RSquare, Tk::Dot,
            Tk::Comma, Tk::Colon, Tk::Semicolon, Tk::NewLine, Tk::Eof,
        ]
    );
}

#[test]
fn names_are_read_whole() {
    assert_eq!(lex("ab".to_string()), vec![name("ab"), Tk::Eof]);
    assert_eq!(
        lex("foo _bar x1 Y_2z".to_string()),
        vec![name("foo"), name("_bar"), name("x1"), name("Y_2z"), Tk::Eof]
    );
    assert_eq!(lex("a(b".to_string()), vec![name("a"), Tk::LParen, name("b"), Tk::Eof]);
}

#[test]
fn operators_are_runs_of_special_characters() {
    assert_eq!(
        lex("a == b -> c".to_string()),
        vec![name("a"), infix("=="), name("b"), infix("->"), name("c"), Tk::Eof]
    );
    assert_eq!(lex("n-1".to_string()), vec![name("n"), infix("-"), Tk::LitInt(1), Tk::Eof]);
    assert_eq!(lex("<=>!".to_string()), vec![infix("<=>!"), Tk::Eof]);
}

#[test]
fn special_characters() {
    for c in "!@$%^&*-+=|/<>".chars() {
        assert!(is_special(c), "{}", c);
        assert!(Class::Infix.test(c));
    }
    for c in "a0_ ()#~?.,;\"".chars() {
        assert!(!is_special(c), "{}", c);
    }
}

#[test]
fn character_classes() {
    assert!(Class::Number.test('0') && Class::Number.test('9') && Class::Number.test('.'));
    assert!(!Class::Number.test('a') && !Class::Number.test('-'));
    assert!(Class::Name.test('a') && Class::Name.test('Z') && Class::Name.test('_'));
    assert!(Class::Name.test('5') && !Class::Name.test('.') && !Class::Name.test(' '));
    assert!(Class::Text.test('a') && Class::Text.test('\n') && !Class::Text.test('"'));
}

#[test]
fn integers() {
    assert_eq!(lex("0".to_string()), vec![Tk::LitInt(0), Tk::Eof]);
    assert_eq!(lex("120".to_string()), vec![Tk::LitInt(120), Tk::Eof]);
    assert_eq!(lex("007".to_string()), vec![Tk::LitInt(7), Tk::Eof]);
    assert_eq!(
        lex(isize::MAX.to_string()),
        vec![Tk::LitInt(isize::MAX), Tk::Eof]
    );
}

#[test]
fn integer_too_large_is_an_error_token() {
    let text = format!("{}0", isize::MAX);
    assert_eq!(
        lex(text),
        vec![Tk::Error("Malformed Number".to_string()), Tk::Eof]
    );
    assert_eq!(
        lex("99999999999999999999999999 x".to_string()),
        vec![Tk::Error("Malformed Number".to_string()), name("x"), Tk::Eof]
    );
}

#[test]
fn floating_point_literals_keep_their_text() {
    assert_eq!(lex("1.5".to_string()), vec![Tk::LitFloat("1.5".to_string()), Tk::Eof]);
    assert_eq!(lex("10.".to_string()), vec![Tk::LitFloat("10.".to_string()), Tk::Eof]);
    assert_eq!(
        lex("0.25+1".to_string()),
        vec![Tk::LitFloat("0.25".to_string()), infix("+"), Tk::LitInt(1), Tk::Eof]
    );
}

#[test]
fn number_with_two_dots_is_an_error_token() {
    assert_eq!(
        lex("1.2.3".to_string()),
        vec![Tk::Error("Malformed Number".to_string()), Tk::Eof]
    );
}

#[test]
fn strings() {
    assert_eq!(
        lex("\"hello world\"".to_string()),
        vec![Tk::LitStr("hello world".to_string()), Tk::Eof]
    );
    assert_eq!(lex("\"\"".to_string()), vec![Tk::LitStr(String::new()), Tk::Eof]);
    assert_eq!(
        lex("\"a\nb\" x".to_string()),
        vec![Tk::LitStr("a\nb".to_string()), name("x"), Tk::Eof]
    );
}

#[test]
fn string_without_its_end_is_an_error_token() {
    assert_eq!(
        lex("x \"abc".to_string()),
        vec![name("x"), Tk::Error("Unterminated String".to_string()), Tk::Eof]
    );
}

#[test]
fn character_that_begins_no_token_is_an_error_token() {
    assert_eq!(
        lex("a # b".to_string()),
        vec![name("a"), Tk::Error("Unexpected Character".to_string()), name("b"), Tk::Eof]
    );
}

#[test]
fn tokens_of_a_small_program() {
    assert_eq!(
        lex("let f = n -> (n * 2);\nprint (f 5)".to_string()),
        vec![
            name("let"), name("f"), infix("="), name("n"), infix("->"), Tk::LParen, name("n"),
            infix("*"), Tk::LitInt(2), Tk::RParen, Tk::Semicolon, Tk::NewLine, name("print"),
            Tk::LParen, name("f"), Tk::LitInt(5), Tk::RParen, Tk::Eof,
        ]
    );
}

#[test]
fn token_copies_are_equal() {
    for t in lex("a 1 2.5 \"s\" + ( #".to_string()) {
        assert_eq!(t.clone(), t);
    }
}
