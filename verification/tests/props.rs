use parser_of_logic_expressions::ast::{atom_list, Expr};
use parser_of_logic_expressions::parser::{
    parse_and, parse_atom, parse_expression, parse_file, Expected,
};
use parser_of_logic_expressions::render::make_parantecies;

fn atoms_of(e: &Expr) -> Vec<String> {
    atom_list(e)
        .into_iter()
        .map(|t| String::from_utf8(t).expect("atom text is ascii"))
        .collect()
}

fn canon(src: &[u8]) -> Vec<u8> {
    let e = parse_expression(src).expect("input parses");
    make_parantecies(&e)
}

#[test]
fn atom_pattern_round_trip() {
    for s in ["x", "_x1", "Abc_09", "true", "false", "False"] {
        let e = parse_atom(s.as_bytes()).expect("atom parses");
        match &e {
            Expr::Atom(t) => assert_eq!(t, &s.as_bytes().to_vec()),
            _ => panic!("expected an atom"),
        }
    }
}

#[test]
fn atom_rejects_bad_shapes() {
    assert!(parse_atom(b"1a").is_err());
    assert!(parse_atom(b"").is_err());
    assert!(parse_atom(b"a b").is_err());
    assert!(parse_atom(b"a&").is_err());
}

#[test]
fn precedence_and_binds_tighter_than_or() {
    assert_eq!(canon(b"a & b | c"), b"((a & b) | c)".to_vec());
}

#[test]
fn flattening_is_left_associative() {
    assert_eq!(canon(b"a & b & c"), b"((a & b) & c)".to_vec());
}

#[test]
fn full_precedence_chain() {
    assert_eq!(
        canon(b"a <-> b -> c | d ^ e & f"),
        b"(a <-> (b -> (c | (d ^ (e & f)))))".to_vec()
    );
}

#[test]
fn negation_stacks_without_collapsing() {
    let e = parse_expression(b"!!true").expect("parse !!true");
    assert_eq!(atoms_of(&e), vec!["true"]);
    match &e {
        Expr::Not(inner) => match inner.as_ref() {
            Expr::Not(inner2) => match inner2.as_ref() {
                Expr::Atom(t) => assert_eq!(t, &b"true".to_vec()),
                _ => panic!("expected an atom under the two negations"),
            },
            _ => panic!("expected a second negation"),
        },
        _ => panic!("expected a negation"),
    }
    assert_eq!(make_parantecies(&e), b"!!true".to_vec());
}

#[test]
fn bracket_styles_are_equivalent() {
    for s in [&b"(a)"[..], &b"[a]"[..], &b"{a}"[..]] {
        let e = parse_expression(s).expect("bracketed atom parses");
        assert_eq!(atoms_of(&e), vec!["a"]);
        assert_eq!(make_parantecies(&e), b"a".to_vec());
    }
}

#[test]
fn nested_groups_are_transparent() {
    assert_eq!(canon(b"((a))"), b"a".to_vec());
    assert_eq!(canon(b"[{(a)}]"), b"a".to_vec());
    assert_eq!(canon(b"!(a & b)"), b"!(a & b)".to_vec());
}

#[test]
fn round_trip_keeps_atom_order() {
    for s in [
        &b"a & b | !c <-> d -> e ^ f"[..],
        &b"!(p | q) & [r ^ {s}]"[..],
        &b"x"[..],
    ] {
        let e = parse_expression(s).expect("input parses");
        let out = make_parantecies(&e);
        let e2 = parse_expression(&out).expect("canonical output re-parses");
        assert_eq!(atoms_of(&e), atoms_of(&e2));
    }
}

#[test]
fn canonicalization_is_idempotent() {
    for s in [
        &b"a & b | !c <-> d -> e ^ f"[..],
        &b"!(p | q) & [r ^ {s}]"[..],
        &b"a -> b -> c"[..],
    ] {
        let once = canon(s);
        let e2 = parse_expression(&once).expect("canonical output re-parses");
        assert_eq!(make_parantecies(&e2), once);
    }
}

#[test]
fn malformed_input_is_refused() {
    assert!(parse_expression(b"(a").is_err());
    assert!(parse_expression(b"a &").is_err());
    assert!(parse_expression(b"& a").is_err());
    assert!(parse_expression(b"a b").is_err());
    assert!(parse_expression(b"").is_err());
    assert!(parse_expression(b"a @ b").is_err());
}

#[test]
fn mismatched_brackets_are_refused() {
    assert!(parse_expression(b"(a]").is_err());
    assert!(parse_expression(b"[a)").is_err());
    assert!(parse_expression(b"{a]").is_err());
    // A newline is a line separator, never expression-internal whitespace.
    assert!(parse_expression(b"(a\n)").is_err());
}

#[test]
fn unmatched_bracket_reports_expected_close() {
    let err = parse_expression(b"(a").unwrap_err();
    assert_eq!(err.expected, Expected::CloseParen);
    assert_eq!(err.line, 1);
    let err2 = parse_expression(b"[a").unwrap_err();
    assert_eq!(err2.expected, Expected::CloseSquare);
}

#[test]
fn whitespace_between_tokens_is_insignificant() {
    let e = parse_and(b"  a \t&  b ").expect("spaced input parses");
    assert_eq!(atoms_of(&e), vec!["a", "b"]);
    assert_eq!(make_parantecies(&e), b"(a & b)".to_vec());
}

#[test]
fn file_error_carries_line_number() {
    let err = parse_file(b"a\n(b\nc\n").unwrap_err();
    assert_eq!(err.line, 2);
    assert!(parse_file(b"a\n//ok\n(b").is_err());
}

#[test]
fn file_of_blank_and_comment_lines_is_empty() {
    let exprs = parse_file(b"\n  \n// only a comment\n").expect("skippable file parses");
    assert_eq!(exprs.len(), 0);
    let none = parse_file(b"").expect("empty file parses");
    assert_eq!(none.len(), 0);
}

#[test]
fn file_keeps_source_order() {
    let exprs = parse_file(b"a | b\n!c\nd & e\n").expect("file parses");
    let collected: Vec<Vec<String>> = exprs.iter().map(atoms_of).collect();
    assert_eq!(
        collected,
        vec![
            vec!["a".to_string(), "b".to_string()],
            vec!["c".to_string()],
            vec!["d".to_string(), "e".to_string()],
        ]
    );
}
