use tinylang::lexer::{lex, Tk};
use tinylang::parser::{
    float_literals, parse_seq, same_token, Expr, HigherParser, InfixRule, LowerParser, ParseError,
    ParserContext, PrefixRule,
};
use tinylang::program::read;

fn lower(source: &str) -> Result<Expr, ParseError> {
    LowerParser::new(lex(source.to_string())).parse()
}

fn n(s: &str) -> Expr {
    Expr::Name(s.to_string())
}

fn op(s: &str) -> Expr {
    Expr::NameInfix(s.to_string())
}

fn higher(source: &str) -> Result<String, ParseError> {
    let tokens = lex(source.to_string());
    let mut ctx = ParserContext::standard();
    for text in float_literals(&tokens) {
        let bits = text.parse::<f64>().unwrap().to_bits();
        ctx.define_float(text, bits);
    }
    read(tokens, &ctx).map(|core| format!("{:?}", core))
}

fn one(source: &str) -> String {
    // the text of the only expression of the program
    let whole = higher(source).unwrap();
    assert!(whole.starts_with("Block([") && whole.ends_with("])"), "{}", whole);
    whole["Block([".len()..whole.len() - 2].to_string()
}

#[test]
fn first_phase_reads_a_block_of_elements() {
    assert_eq!(lower(""), Ok(Expr::Block(vec![])));
    assert_eq!(lower("a"), Ok(Expr::Block(vec![n("a")])));
    assert_eq!(
        lower("a b; c"),
        Ok(Expr::Block(vec![Expr::FExpr(vec![n("a"), n("b")]), n("c")]))
    );
    assert_eq!(
        lower("a\nb 1"),
        Ok(Expr::Block(vec![n("a"), Expr::FExpr(vec![n("b"), Expr::LitInt(1)])]))
    );
}

#[test]
fn first_phase_skips_empty_elements() {
    assert_eq!(lower("a;\n"), Ok(Expr::Block(vec![n("a")])));
    assert_eq!(lower(";;a;;b;"), Ok(Expr::Block(vec![n("a"), n("b")])));
    assert_eq!(lower("\n\n"), Ok(Expr::Block(vec![])));
}

#[test]
fn parentheses_group_one_element_and_make_a_tuple_of_more() {
    assert_eq!(
        lower("(a b)"),
        Ok(Expr::Block(vec![Expr::FExpr(vec![n("a"), n("b")])]))
    );
    assert_eq!(lower("(a)"), Ok(Expr::Block(vec![n("a")])));
    assert_eq!(
        lower("(a, b c)"),
        Ok(Expr::Block(vec![Expr::Tuple(vec![
            n("a"),
            Expr::FExpr(vec![n("b"), n("c")])
        ])]))
    );
    assert_eq!(lower("()"), Ok(Expr::Block(vec![Expr::Tuple(vec![])])));
}

#[test]
fn brackets_make_a_list_and_braces_a_block() {
    assert_eq!(
        lower("[1, 2]"),
        Ok(Expr::Block(vec![Expr::List(vec![Expr::LitInt(1), Expr::LitInt(2)])]))
    );
    assert_eq!(
        lower("{a; b\nc}"),
        Ok(Expr::Block(vec![Expr::Block(vec![n("a"), n("b"), n("c")])]))
    );
    assert_eq!(
        lower("f {x} (y)"),
        Ok(Expr::Block(vec![Expr::FExpr(vec![
            n("f"),
            Expr::Block(vec![n("x")]),
            n("y")
        ])]))
    );
}

#[test]
fn first_phase_keeps_literals_and_operators() {
    assert_eq!(
        lower("x = 1.5 + \"s\""),
        Ok(Expr::Block(vec![Expr::FExpr(vec![
            n("x"),
            op("="),
            Expr::LitFloat("1.5".to_string()),
            op("+"),
            Expr::LitStr("s".to_string()),
        ])]))
    );
}

#[test]
fn first_phase_errors() {
    // a list that nothing closes
    assert_eq!(lower("(a"), Err(ParseError::UnexpectedToken));
    assert_eq!(lower("a ) b"), Err(ParseError::UnexpectedToken));
    assert_eq!(lower("a . b"), Err(ParseError::UnexpectedToken));
    assert_eq!(lower("a # b"), Err(ParseError::UnexpectedToken));
    // a new line does not separate within brackets
    assert_eq!(lower("[a\nb]"), Err(ParseError::UnexpectedToken));
    // tokens that end without their end
    assert_eq!(
        LowerParser::new(vec![Tk::LParen]).parse(),
        Err(ParseError::UnexpectedEnd)
    );
    assert_eq!(LowerParser::new(vec![]).parse(), Err(ParseError::UnexpectedEnd));
    // a list that is to end with a token that ends no list
    assert_eq!(
        LowerParser::new(vec![Tk::Name("a".to_string()), Tk::Colon, Tk::Eof])
            .list_expr(Tk::Comma, Tk::Colon, false),
        Err(ParseError::BadDelimiter)
    );
}

#[test]
fn list_expr_with_a_separator_of_its_own() {
    let tokens = vec![
        Tk::Name("a".to_string()),
        Tk::Colon,
        Tk::Name("b".to_string()),
        Tk::NewLine,
        Tk::RSquare,
        Tk::Eof,
    ];
    assert_eq!(
        LowerParser::new(tokens).list_expr(Tk::Colon, Tk::RSquare, true),
        Ok(Expr::List(vec![n("a"), n("b")]))
    );
}

#[test]
fn same_token_compares_kind_and_content() {
    assert!(same_token(&Tk::Eof, &Tk::Eof));
    assert!(same_token(&Tk::Name("a".to_string()), &Tk::Name("a".to_string())));
    assert!(!same_token(&Tk::Name("a".to_string()), &Tk::Name("b".to_string())));
    assert!(!same_token(&Tk::Name("a".to_string()), &Tk::NameInfix("a".to_string())));
    assert!(same_token(&Tk::LitInt(3), &Tk::LitInt(3)));
    assert!(!same_token(&Tk::LitInt(3), &Tk::LitInt(4)));
    assert!(!same_token(&Tk::LParen, &Tk::RParen));
}

#[test]
fn application_is_a_call_of_the_first_with_the_others() {
    assert_eq!(one("x"), "Get(\"x\")");
    assert_eq!(one("f 1 2"), "Call(Get(\"f\"), [Lit(Int(1)), Lit(Int(2))])");
    assert_eq!(
        one("f (g x) \"s\""),
        "Call(Get(\"f\"), [Call(Get(\"g\"), [Get(\"x\")]), Lit(Str(\"s\"))])"
    );
    assert_eq!(higher(""), Ok("Block([])".to_string()));
}

#[test]
fn operators_go_by_precedence_and_to_the_left() {
    assert_eq!(
        one("1 + 2 * 3"),
        "Call(Get(\"+\"), [Lit(Int(1)), Call(Get(\"*\"), [Lit(Int(2)), Lit(Int(3))])])"
    );
    assert_eq!(
        one("1 * 2 + 3"),
        "Call(Get(\"+\"), [Call(Get(\"*\"), [Lit(Int(1)), Lit(Int(2))]), Lit(Int(3))])"
    );
    assert_eq!(
        one("a - b - c"),
        "Call(Get(\"-\"), [Call(Get(\"-\"), [Get(\"a\"), Get(\"b\")]), Get(\"c\")])"
    );
    assert_eq!(
        one("a + 1 == b / 2"),
        "Call(Get(\"==\"), [Call(Get(\"+\"), [Get(\"a\"), Lit(Int(1))]), Call(Get(\"/\"), [Get(\"b\"), Lit(Int(2))])])"
    );
    assert_eq!(
        one("f x + 1"),
        "Call(Get(\"+\"), [Call(Get(\"f\"), [Get(\"x\")]), Lit(Int(1))])"
    );
}

#[test]
fn assignment_and_declaration() {
    assert_eq!(one("let x = 1"), "Let(\"x\", Lit(Int(1)))");
    assert_eq!(one("x = f 2"), "Assign(\"x\", Call(Get(\"f\"), [Lit(Int(2))]))");
    assert_eq!(
        one("x = y + 1"),
        "Assign(\"x\", Call(Get(\"+\"), [Get(\"y\"), Lit(Int(1))]))"
    );
}

#[test]
fn lambdas() {
    assert_eq!(one("x y -> x"), "Lambda([\"x\", \"y\"], Block([Get(\"x\")]))");
    assert_eq!(one("-> 1"), "Lambda([], Block([Lit(Int(1))]))");
    assert_eq!(
        one("let id = x -> return x"),
        "Let(\"id\", Lambda([\"x\"], Block([Return(Get(\"x\"))])))"
    );
    assert_eq!(
        one("x -> {a; b}"),
        "Lambda([\"x\"], Block([Block([Get(\"a\"), Get(\"b\")])]))"
    );
}

#[test]
fn keywords() {
    assert_eq!(one("return 1"), "Return(Lit(Int(1)))");
    assert_eq!(one("return f x"), "Return(Call(Get(\"f\"), [Get(\"x\")]))");
    assert_eq!(one("break"), "Break");
    assert_eq!(one("continue"), "Continue");
    assert_eq!(one("loop break"), "Loop(Break)");
    assert_eq!(one("loop {f; break}"), "Loop(Block([Get(\"f\"), Break]))");
    assert_eq!(one("if a then b"), "If(Get(\"a\"), Get(\"b\"), Lit(Int(0)))");
    assert_eq!(one("if a then b else c"), "If(Get(\"a\"), Get(\"b\"), Get(\"c\"))");
    assert_eq!(
        one("if (a == 1) then (return 2) else {c}"),
        "If(Call(Get(\"==\"), [Get(\"a\"), Lit(Int(1))]), Return(Lit(Int(2))), Block([Get(\"c\")]))"
    );
}

#[test]
fn literals() {
    assert_eq!(one("\"s\""), "Lit(Str(\"s\"))");
    assert_eq!(one("42"), "Lit(Int(42))");
    assert_eq!(
        one("1.5"),
        format!("Lit(Float({}))", 1.5f64.to_bits())
    );
    assert_eq!(
        one("f 2.0 2.0"),
        format!("Call(Get(\"f\"), [Lit(Float({0})), Lit(Float({0}))])", 2.0f64.to_bits())
    );
}

#[test]
fn second_phase_errors() {
    assert_eq!(higher("+"), Err(ParseError::EmptyExpression));
    assert_eq!(higher("return"), Err(ParseError::EmptyExpression));
    assert_eq!(higher("x = "), Err(ParseError::EmptyExpression));
    assert_eq!(higher("[1, 2]"), Err(ParseError::Unsupported));
    assert_eq!(higher("f (1, 2)"), Err(ParseError::Unsupported));
    assert_eq!(higher("if x"), Err(ParseError::MalformedIf));
    assert_eq!(higher("if x y z"), Err(ParseError::MalformedIf));
    assert_eq!(higher("if x then y other z"), Err(ParseError::MalformedIf));
    assert_eq!(higher("if x 1 z"), Err(ParseError::MalformedIf));
    assert_eq!(higher("1 -> x"), Err(ParseError::MalformedLambda));
    assert_eq!(higher("x (y z) -> x"), Err(ParseError::MalformedLambda));
    assert_eq!(higher("a b c = 1"), Err(ParseError::MalformedAssignment));
    assert_eq!(higher("1 = 2"), Err(ParseError::MalformedAssignment));
    assert_eq!(higher("foo x = 1"), Err(ParseError::MalformedAssignment));
    assert_eq!(higher("= 1"), Err(ParseError::MalformedAssignment));
}

#[test]
fn floating_point_literal_that_the_context_does_not_know() {
    let tokens = lex("x = 1.5".to_string());
    assert_eq!(float_literals(&tokens), vec!["1.5".to_string()]);
    let mut ctx = ParserContext::standard();
    assert!(!ctx.knows_float(&"1.5".to_string()));
    assert_eq!(
        read(tokens, &ctx).map(|c| format!("{:?}", c)),
        Err(ParseError::UnknownFloat)
    );
    ctx.define_float("1.5".to_string(), 7);
    assert!(ctx.knows_float(&"1.5".to_string()));
    assert_eq!(
        read(lex("x = 1.5".to_string()), &ctx).map(|c| format!("{:?}", c)),
        Ok("Block([Assign(\"x\", Lit(Float(7)))])".to_string())
    );
}

#[test]
fn float_literals_are_listed_in_order() {
    let tokens = lex("1.5 + x * 2.25 - 3 + 1.5".to_string());
    assert_eq!(
        float_literals(&tokens),
        vec!["1.5".to_string(), "2.25".to_string(), "1.5".to_string()]
    );
    assert!(float_literals(&lex("a 1 \"1.5\"".to_string())).is_empty());
}

#[test]
fn context_of_ones_own() {
    // one operator, `|`, which is a call, and one keyword
    let ctx = ParserContext::new(
        vec![String::new(), "|".to_string()],
        vec![],
        vec![("stop".to_string(), PrefixRule::Break)],
    );
    let parse = |source: &str| {
        let expr = LowerParser::new(lex(source.to_string())).parse().unwrap();
        parse_seq(&ctx, vec![expr]).map(|c| format!("{:?}", c))
    };
    assert_eq!(
        parse("a | b c"),
        Ok("Block([Call(Get(\"|\"), [Get(\"a\"), Call(Get(\"b\"), [Get(\"c\")])])])".to_string())
    );
    assert_eq!(parse("stop"), Ok("Block([Break])".to_string()));
    // `=` is no operator here: the operand before it is all that is read
    assert_eq!(parse("a = b"), Ok("Block([Get(\"a\")])".to_string()));
    let arrow = ParserContext::new(
        vec![String::new(), "=>".to_string()],
        vec![("=>".to_string(), InfixRule::Lambda)],
        vec![],
    );
    let expr = LowerParser::new(lex("x => x".to_string())).parse().unwrap();
    assert_eq!(
        parse_seq(&arrow, vec![expr]).map(|c| format!("{:?}", c)),
        Ok("Block([Lambda([\"x\"], Block([Get(\"x\")]))])".to_string())
    );
}

#[test]
fn second_phase_from_the_place_at_hand() {
    let ctx = ParserContext::standard();
    let fexpr = vec![n("f"), Expr::LitInt(1), op("+"), n("g")];
    let mut p = HigherParser::new(fexpr, &ctx);
    assert_eq!(
        p.parse_prefix().map(|c| format!("{:?}", c)),
        Ok("Call(Get(\"f\"), [Lit(Int(1))])".to_string())
    );
    let fexpr = vec![n("f"), Expr::LitInt(1), op("+"), n("g")];
    let mut p = HigherParser::new(fexpr, &ctx);
    assert_eq!(
        p.parse().map(|c| format!("{:?}", c)),
        Ok("Call(Get(\"+\"), [Call(Get(\"f\"), [Lit(Int(1))]), Get(\"g\")])".to_string())
    );
}

#[test]
fn copies_of_trees_are_equal() {
    let e = lower("f (a, b) [1] {x; 2.5} \"s\" + y").unwrap();
    assert_eq!(e.clone(), e);
}
