use grammar_parser::ast::{Chunk, DiagKind, Fatal, Order, Ty, VarId};
use grammar_parser::builder::GrammarBuilder;

fn cv(s: &str) -> Vec<char> {
    s.chars().collect()
}

fn lines(ls: &[&str]) -> Vec<String> {
    ls.iter().map(|s| s.to_string()).collect()
}

fn nt_name(b: &GrammarBuilder, id: grammar_parser::ast::NtId) -> String {
    b.nt_names[id.0].iter().collect()
}

fn text_of(b: &GrammarBuilder, id: grammar_parser::ast::TextId) -> String {
    b.texts[id.0].iter().collect()
}

#[test]
fn single_line_production() {
    let mut b = GrammarBuilder::new();
    let diags = b.parse_grammar(&lines(&["foo ::= bar <<baz>> qux"])).unwrap();
    assert!(diags.is_empty());
    assert_eq!(b.prods.len(), 1);
    let p = &b.prods[0];
    assert!(p.lhs.vars.is_empty());
    assert_eq!(nt_name(&b, p.lhs.nt.id), "foo");
    let rhs = &p.rhs;
    assert_eq!(rhs.nts.len(), 1);
    assert_eq!(nt_name(&b, rhs.nts[0].0.id), "baz");
    assert_eq!(rhs.nts[0].1, Order::Default);
    assert_eq!(rhs.chunks.len(), 3);
    assert!(matches!(rhs.chunks[0], Chunk::Text(id, false) if text_of(&b, id) == "bar "));
    assert_eq!(rhs.chunks[1], Chunk::Nt(0));
    assert!(matches!(rhs.chunks[2], Chunk::Text(id, false) if text_of(&b, id) == " qux"));
}

#[test]
fn order_markers_already_sorted() {
    let mut b = GrammarBuilder::new();
    b.parse_grammar(&lines(&["foo ::= <<^a>> <<b>> <<$c>>"])).unwrap();
    let rhs = &b.prods[0].rhs;
    let names: Vec<String> = rhs.nts.iter().map(|e| nt_name(&b, e.0.id)).collect();
    assert_eq!(names, vec!["a", "b", "c"]);
    assert_eq!(rhs.nts[0].1, Order::Early);
    assert_eq!(rhs.nts[1].1, Order::Default);
    assert_eq!(rhs.nts[2].1, Order::Late);
}

#[test]
fn order_markers_remap_chunk_indices() {
    let mut b = GrammarBuilder::new();
    b.parse_grammar(&lines(&["foo ::= <<b>> <<$c>> <<^a>>"])).unwrap();
    let rhs = &b.prods[0].rhs;
    let names: Vec<String> = rhs.nts.iter().map(|e| nt_name(&b, e.0.id)).collect();
    assert_eq!(names, vec!["a", "b", "c"]);
    let nt_indices: Vec<usize> = rhs
        .chunks
        .iter()
        .filter_map(|c| match c {
            Chunk::Nt(i) => Some(*i),
            _ => None,
        })
        .collect();
    assert_eq!(nt_indices, vec![1, 2, 0]);
}

#[test]
fn stable_order_within_classes() {
    let mut b = GrammarBuilder::new();
    b.parse_grammar(&lines(&["p ::= <<x>> <<y>> <<^e1>> <<^e2>> <<$l1>> <<$l2>>"])).unwrap();
    let rhs = &b.prods[0].rhs;
    let names: Vec<String> = rhs.nts.iter().map(|e| nt_name(&b, e.0.id)).collect();
    assert_eq!(names, vec!["e1", "e2", "x", "y", "l1", "l2"]);
    let nt_indices: Vec<usize> = rhs
        .chunks
        .iter()
        .filter_map(|c| match c {
            Chunk::Nt(i) => Some(*i),
            _ => None,
        })
        .collect();
    assert_eq!(nt_indices, vec![2, 3, 0, 1, 4, 5]);
    for c in &rhs.chunks {
        if let Chunk::Nt(i) = c {
            assert!(*i < rhs.nts.len());
        }
    }
}

#[test]
fn typed_reference_with_variable_binder() {
    let mut b = GrammarBuilder::new();
    b.parse_grammar(&lines(&["for (t) foo[t] ::= <<bar[t, Baz]>>"])).unwrap();
    let p = &b.prods[0];
    assert_eq!(p.lhs.vars.len(), 1);
    assert_eq!(text_of(&b, p.lhs.vars[0]), "t");
    assert!(matches!(p.lhs.nt.args[0], Ty::Var(VarId(0))));
    let args = &p.rhs.nts[0].0.args;
    assert_eq!(args.len(), 2);
    assert!(matches!(args[0], Ty::Var(VarId(0))));
    match &args[1] {
        Ty::Ctor(c) => {
            assert_eq!(text_of(&b, c.ctor), "Baz");
            assert!(c.args.is_empty());
        },
        _ => panic!("second argument should be a constructor"),
    }
}

#[test]
fn block_with_standalone_reference() {
    let mut b = GrammarBuilder::new();
    let diags = b.parse_grammar(&lines(&["p ::=", "  one", "    <<item>>"])).unwrap();
    assert!(diags.is_empty());
    assert_eq!(b.prods.len(), 1);
    let rhs = &b.prods[0].rhs;
    assert_eq!(rhs.nts.len(), 1);
    assert_eq!(nt_name(&b, rhs.nts[0].0.id), "item");
    assert_eq!(rhs.chunks.len(), 5);
    assert!(matches!(rhs.chunks[0], Chunk::Text(id, true) if text_of(&b, id) == "one"));
    assert_eq!(rhs.chunks[1], Chunk::Indent(2));
    assert_eq!(rhs.chunks[2], Chunk::Nt(0));
    assert_eq!(rhs.chunks[3], Chunk::Indent(-2));
    assert_eq!(rhs.chunks[4], Chunk::MagicNewline);
}

#[test]
fn both_markers_fail_the_production() {
    let mut b = GrammarBuilder::new();
    let r = b.parse_grammar(&lines(&["foo ::= <<^$a>>"]));
    assert_eq!(r.unwrap_err(), Fatal::MalformedRef);
}

#[test]
fn block_dedents_by_minimum_indentation() {
    let mut b = GrammarBuilder::new();
    b.parse_grammar(&lines(&["p ::=", "    a", "  b"])).unwrap();
    let rhs = &b.prods[0].rhs;
    assert_eq!(rhs.chunks.len(), 2);
    assert!(matches!(rhs.chunks[0], Chunk::Text(id, true) if text_of(&b, id) == "  a"));
    assert!(matches!(rhs.chunks[1], Chunk::Text(id, false) if text_of(&b, id) == "b"));
}

#[test]
fn block_absorbs_blank_lines_and_drops_trailing_ones() {
    let mut b = GrammarBuilder::new();
    b.parse_grammar(&lines(&["p ::=", "  a", "", "  b", "", "q ::= r"])).unwrap();
    assert_eq!(b.prods.len(), 2);
    let rhs = &b.prods[0].rhs;
    // The blank line between `a` and `b` yields an empty text chunk; the
    // trailing blank line before `q` does not widen the block.
    assert_eq!(rhs.chunks.len(), 3);
    assert!(matches!(rhs.chunks[0], Chunk::Text(id, true) if text_of(&b, id) == "a"));
    assert!(matches!(rhs.chunks[1], Chunk::Text(id, true) if text_of(&b, id) == ""));
    assert!(matches!(rhs.chunks[2], Chunk::Text(id, false) if text_of(&b, id) == "b"));
}

#[test]
fn diagnostics_for_bad_top_level_lines() {
    let mut b = GrammarBuilder::new();
    let diags = b
        .parse_grammar(&lines(&["// comment", "", "  indented", "no delimiter", "ok ::= x"]))
        .unwrap();
    assert_eq!(diags.len(), 2);
    assert_eq!(diags[0].line, 3);
    assert_eq!(diags[0].kind, DiagKind::IndentedOutsideBlock);
    assert_eq!(diags[1].line, 4);
    assert_eq!(diags[1].kind, DiagKind::ExpectedDelimiter);
    assert_eq!(b.prods.len(), 1);
}

#[test]
fn unicode_whitespace_counts_as_indentation() {
    let mut b = GrammarBuilder::new();
    // A no-break space indents the line, as the block driver's whitespace
    // set is the Unicode one; outside a block that earns a diagnostic.
    let diags = b.parse_grammar(&lines(&["\u{a0}stray", "ok ::= x"])).unwrap();
    assert_eq!(diags.len(), 1);
    assert_eq!(diags[0].kind, DiagKind::IndentedOutsideBlock);
    assert_eq!(b.prods.len(), 1);

    // An ideographic space indents a block body line and is dedented away.
    let mut b2 = GrammarBuilder::new();
    b2.parse_grammar(&lines(&["p ::=", "\u{3000}body"])).unwrap();
    let rhs = &b2.prods[0].rhs;
    assert_eq!(rhs.chunks.len(), 1);
    assert!(matches!(rhs.chunks[0], Chunk::Text(id, false) if text_of(&b2, id) == "body"));
}

#[test]
fn indented_comment_is_skipped() {
    let mut b = GrammarBuilder::new();
    let diags = b.parse_grammar(&lines(&["  // note", "ok ::= x"])).unwrap();
    assert!(diags.is_empty());
    assert_eq!(b.prods.len(), 1);
}

#[test]
fn lexer_failure_in_lhs_is_fatal() {
    let mut b = GrammarBuilder::new();
    let r = b.parse_grammar(&lines(&["f%o ::= x"]));
    assert_eq!(r.unwrap_err(), Fatal::UnexpectedChar);
}

#[test]
fn malformed_lhs_is_fatal() {
    let mut b = GrammarBuilder::new();
    let r = b.parse_grammar(&lines(&["foo[ ::= x"]));
    assert_eq!(r.unwrap_err(), Fatal::MalformedLhs);
}

#[test]
fn variable_with_arguments_is_fatal() {
    let mut b = GrammarBuilder::new();
    let r = b.parse_grammar(&lines(&["for (t) foo ::= <<bar[t[x]]>>"]));
    assert_eq!(r.unwrap_err(), Fatal::VarWithArgs);
}

#[test]
fn interning_gives_equal_ids_for_equal_texts() {
    let mut b = GrammarBuilder::new();
    b.parse_grammar(&lines(&["a ::= same", "b ::= same"])).unwrap();
    let id0 = match b.prods[0].rhs.chunks[0] {
        Chunk::Text(id, _) => id,
        _ => panic!("expected a text chunk"),
    };
    let id1 = match b.prods[1].rhs.chunks[0] {
        Chunk::Text(id, _) => id,
        _ => panic!("expected a text chunk"),
    };
    assert_eq!(id0, id1);
    // Equal nonterminal names share an identifier too.
    assert_eq!(b.prods.len(), 2);
}

#[test]
fn intern_and_nt_id_directly() {
    let mut b = GrammarBuilder::new();
    let x = b.intern_text(&cv("hello"));
    let y = b.intern_text(&cv("world"));
    let z = b.intern_text(&cv("hello"));
    assert_eq!(x, z);
    assert_ne!(x, y);
    let n1 = b.nt_id(&cv("expr"));
    let n2 = b.nt_id(&cv("expr"));
    assert_eq!(n1, n2);
}

#[test]
fn unmatched_marker_text_stays_literal() {
    let mut b = GrammarBuilder::new();
    b.parse_grammar(&lines(&["p ::= a <<not closed"])).unwrap();
    let rhs = &b.prods[0].rhs;
    assert!(rhs.nts.is_empty());
    assert_eq!(rhs.chunks.len(), 1);
    assert!(matches!(rhs.chunks[0], Chunk::Text(id, false)
        if text_of(&b, id) == "a <<not closed"));
}

#[test]
fn empty_block_yields_empty_production() {
    let mut b = GrammarBuilder::new();
    b.parse_grammar(&lines(&["p ::="])).unwrap();
    assert_eq!(b.prods.len(), 1);
    assert!(b.prods[0].rhs.chunks.is_empty());
    assert!(b.prods[0].rhs.nts.is_empty());
}
