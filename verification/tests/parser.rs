use grammar_parser::ast::{Fatal, Order};
use grammar_parser::parser::Parser;
use grammar_parser::token::{tokenize, Token};

fn cv(s: &str) -> Vec<char> {
    s.chars().collect()
}

#[test]
fn tokenize_words_and_punctuation() {
    let ts = tokenize(&cv("ab[c, d]^$")).unwrap();
    assert_eq!(ts.len(), 8);
    assert!(matches!(&ts[0], Token::Word(w) if *w == cv("ab")));
    assert!(matches!(ts[1], Token::Open));
    assert!(matches!(&ts[2], Token::Word(w) if *w == cv("c")));
    assert!(matches!(ts[3], Token::Comma));
    assert!(matches!(&ts[4], Token::Word(w) if *w == cv("d")));
    assert!(matches!(ts[5], Token::Close));
    assert!(matches!(ts[6], Token::Caret));
    assert!(matches!(ts[7], Token::Dollar));
}

#[test]
fn tokenize_skips_whitespace() {
    let ts = tokenize(&cv("  a \t b ")).unwrap();
    assert_eq!(ts.len(), 2);
    assert!(matches!(&ts[0], Token::Word(w) if *w == cv("a")));
    assert!(matches!(&ts[1], Token::Word(w) if *w == cv("b")));
}

#[test]
fn tokenize_rejects_unknown_character() {
    assert_eq!(tokenize(&cv("a%b")).unwrap_err(), Fatal::UnexpectedChar);
}

#[test]
fn parser_cursor_primitives() {
    let mut p = Parser::from_str("a[b]").unwrap();
    assert!(!p.eof());
    assert!(matches!(p.peek().unwrap(), Token::Word(_)));
    let w = p.take_word().unwrap();
    assert_eq!(w, cv("a"));
    assert!(p.eat(Token::Open));
    assert!(!p.eat(Token::Open));
    let t = p.take().unwrap();
    assert!(matches!(&t, Token::Word(w2) if *w2 == cv("b")));
    assert!(p.expect(Token::Close).is_ok());
    assert!(p.eof());
    assert!(p.expect_eof().is_ok());
    assert!(p.peek().is_err());
    assert!(p.take().is_err());
}

#[test]
fn parser_eat_word() {
    let mut p = Parser::from_str("for x").unwrap();
    assert!(!p.eat_word("fox"));
    assert!(p.eat_word("for"));
    assert!(p.expect_eof().is_err());
}

#[test]
fn parse_ty_nested_arguments() {
    let mut p = Parser::from_str("pair[int, list[bool]]").unwrap();
    let ty = p.parse_ty().unwrap();
    assert!(p.eof());
    assert_eq!(ty.ctor, cv("pair"));
    assert_eq!(ty.args.len(), 2);
    assert_eq!(ty.args[0].ctor, cv("int"));
    assert!(ty.args[0].args.is_empty());
    assert_eq!(ty.args[1].ctor, cv("list"));
    assert_eq!(ty.args[1].args.len(), 1);
    assert_eq!(ty.args[1].args[0].ctor, cv("bool"));
}

#[test]
fn parse_ty_list_missing_close_fails() {
    let mut p = Parser::from_str("a[b").unwrap();
    assert!(p.parse_ty().is_err());
}

#[test]
fn parse_ty_list_empty_brackets_fail() {
    let mut p = Parser::from_str("a[]").unwrap();
    assert!(p.parse_ty().is_err());
}

#[test]
fn parse_nt_order_markers() {
    let mut p = Parser::from_str("^a").unwrap();
    let nt = p.parse_nt_exact(true).unwrap();
    assert_eq!(nt.name, cv("a"));
    assert_eq!(nt.order, Order::Early);

    let mut p = Parser::from_str("$b[c]").unwrap();
    let nt = p.parse_nt_exact(true).unwrap();
    assert_eq!(nt.name, cv("b"));
    assert_eq!(nt.order, Order::Late);
    assert_eq!(nt.args.len(), 1);

    let mut p = Parser::from_str("plain").unwrap();
    let nt = p.parse_nt_exact(true).unwrap();
    assert_eq!(nt.order, Order::Default);
}

#[test]
fn parse_nt_both_markers_fail() {
    let mut p = Parser::from_str("^$a").unwrap();
    assert!(p.parse_nt_exact(true).is_err());
}

#[test]
fn parse_nt_without_order_rejects_markers() {
    let mut p = Parser::from_str("^a").unwrap();
    assert!(p.parse_nt(false).is_err());
}

#[test]
fn parse_nt_exact_rejects_trailing_tokens() {
    let mut p = Parser::from_str("a b").unwrap();
    assert!(p.parse_nt_exact(true).is_err());
}

#[test]
fn parse_lhs_with_binders() {
    let mut p = Parser::from_str("for (t, u) foo[t]").unwrap();
    let lhs = p.parse_lhs_exact().unwrap();
    assert_eq!(lhs.vars, vec![cv("t"), cv("u")]);
    assert_eq!(lhs.nt.name, cv("foo"));
    assert_eq!(lhs.nt.args.len(), 1);
    assert_eq!(lhs.nt.args[0].ctor, cv("t"));
}

#[test]
fn parse_lhs_without_binders() {
    let mut p = Parser::from_str("foo").unwrap();
    let lhs = p.parse_lhs_exact().unwrap();
    assert!(lhs.vars.is_empty());
    assert_eq!(lhs.nt.name, cv("foo"));
}

#[test]
fn parse_lhs_malformed_binders_fail() {
    let mut p = Parser::from_str("for (t foo").unwrap();
    assert!(p.parse_lhs_exact().is_err());
    let mut p = Parser::from_str("for () foo").unwrap();
    assert!(p.parse_lhs_exact().is_err());
}
