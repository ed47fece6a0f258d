use parser_of_logic_expressions::parser::parse_expression;
use parser_of_logic_expressions::render::make_parantecies;

#[test]
fn test_parse_simple_atom() {
    let input = b"a";

    let e = parse_expression(input).expect("no pair");

    assert_eq!(make_parantecies(&e), b"a".to_vec());
}
