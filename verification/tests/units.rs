use parser_of_logic_expressions::ast::{atom_list, Expr};
use parser_of_logic_expressions::parser::{
    parse_and, parse_atom, parse_expression, parse_file, parse_implication, parse_negation,
    parse_or, parse_primary, parse_xor,
};
use parser_of_logic_expressions::render::make_parantecies;

fn atoms_of(e: &Expr) -> Vec<String> {
    atom_list(e)
        .into_iter()
        .map(|t| String::from_utf8(t).expect("atom text is ascii"))
        .collect()
}

#[test]
fn atom1() {
    let e = parse_atom(b"A1_b").expect("parse atom");
    assert!(matches!(e, Expr::Atom(_)));
    match &e {
        Expr::Atom(t) => assert_eq!(t, &b"A1_b".to_vec()),
        _ => unreachable!(),
    }
}

#[test]
fn atom2() {
    let e = parse_atom(b"true").expect("parse atom true");
    match &e {
        Expr::Atom(t) => assert_eq!(t, &b"true".to_vec()),
        _ => panic!("expected an atom"),
    }
}

#[test]
fn primary1() {
    let e = parse_primary(b"(a)").expect("parse primary");
    assert_eq!(atoms_of(&e), vec!["a"]);
}

#[test]
fn primary2() {
    let e = parse_primary(b"[true]").expect("parse primary bracket");
    assert_eq!(atoms_of(&e), vec!["true"]);
}

#[test]
fn primary3() {
    let e = parse_primary(b"{False}").expect("parse primary bracket");
    assert_eq!(atoms_of(&e), vec!["False"]);
}

#[test]
fn negation() {
    let e = parse_negation(b"!!true").expect("parse negation");
    assert_eq!(atoms_of(&e), vec!["true"]);
}

#[test]
fn and() {
    let e = parse_and(b"a & b & c").expect("parse and");
    assert_eq!(atoms_of(&e), vec!["a", "b", "c"]);
}

#[test]
fn xor() {
    let e = parse_xor(b"a ^ b ^ c").expect("parse xor");
    assert_eq!(atoms_of(&e), vec!["a", "b", "c"]);
}

#[test]
fn or() {
    let e = parse_or(b"a | b | c").expect("parse or");
    assert_eq!(atoms_of(&e), vec!["a", "b", "c"]);
}

#[test]
fn implication() {
    let e = parse_implication(b"a -> b -> c").expect("parse implication");
    assert_eq!(atoms_of(&e), vec!["a", "b", "c"]);
}

#[test]
fn expression() {
    let e = parse_expression(b"a <-> b <-> c").expect("parse expression");
    assert_eq!(atoms_of(&e), vec!["a", "b", "c"]);
}

#[test]
fn file() {
    let src = b"a & b\ntrue\n";
    let exprs = parse_file(src).expect("parse file");
    let collected: Vec<Vec<String>> = exprs.iter().map(atoms_of).collect();
    assert_eq!(collected.len(), 2);
    assert_eq!(collected[0], vec!["a", "b"]);
    assert_eq!(collected[1], vec!["true"]);
}

#[test]
fn file_with_comments() {
    let src2 = b"a\n// comment line\nb\n";
    let exprs = parse_file(src2).expect("parse file comments");
    let collected: Vec<Vec<String>> = exprs.iter().map(atoms_of).collect();
    assert_eq!(collected.len(), 2);
    assert_eq!(collected[0], vec!["a"]);
    assert_eq!(collected[1], vec!["b"]);
}

#[test]
fn make_parantecies_three_atoms() {
    let e = parse_expression(b"a & b | c").expect("parse expression");
    let out = make_parantecies(&e);
    assert_eq!(out, b"((a & b) | c)".to_vec());
}
