use ryvu::{parse, ConVec, Connection, IdentKind, Identifier, ParserError, SourcePosition, Token, TokenKind};

fn tok(kind: TokenKind, text: &str) -> Token {
    Token::new(kind, text.to_string(), SourcePosition::new(0, 0))
}

fn tok_at(kind: TokenKind, text: &str, line: usize, ch: usize) -> Token {
    Token::new(kind, text.to_string(), SourcePosition::new(line, ch))
}

fn ident(name: &str) -> Token {
    tok(TokenKind::Identifier, name)
}

fn charge() -> Token {
    tok(TokenKind::Charge, ">")
}

fn block() -> Token {
    tok(TokenKind::Block, ".")
}

fn port() -> Token {
    tok(TokenKind::Port, "$")
}

fn comma() -> Token {
    tok(TokenKind::Comma, ",")
}

fn semicolon() -> Token {
    tok(TokenKind::Semicolon, ";")
}

fn endline() -> Token {
    tok(TokenKind::EndLine, "\n")
}

/// A connection; `in_port` and `out_port` mark the ends written with a port sign.
fn con(from: &str, in_port: bool, to: &str, out_port: bool, is_charge: bool) -> Connection {
    let fk = if in_port { IdentKind::InPort } else { IdentKind::Node };
    let tk = if out_port { IdentKind::OutPort } else { IdentKind::Node };
    Connection::new(
        Identifier::new(from.to_owned(), fk),
        Identifier::new(to.to_owned(), tk),
        is_charge,
    )
}

fn charge_con(from: &str, to: &str) -> Connection {
    con(from, false, to, false, true)
}

fn block_con(from: &str, to: &str) -> Connection {
    con(from, false, to, false, false)
}

fn parser_test_case(tokens: Vec<Token>, connections: Vec<Connection>) {
    let pr = parse(tokens, false);
    assert_eq!(pr.1, vec![]);
    assert_eq!(pr.0, ConVec(connections));
}

fn parse_error_test_case(tokens: Vec<Token>, errors: Vec<ParserError>) {
    let generated_errors = parse(tokens, false).1;
    assert_eq!(generated_errors, errors);
}

fn parse_test_case_force_output(tokens: Vec<Token>, connections: Vec<Connection>) {
    let generated_connections = parse(tokens, false).0;
    assert_eq!(generated_connections, ConVec(connections));
}

fn parse_error_test_case_io_min(tokens: Vec<Token>, errors: Vec<ParserError>) {
    let generated_errors = parse(tokens, true).1;
    assert_eq!(generated_errors, errors);
}

#[test]
fn no_tokens() {
    parser_test_case(vec![], vec![])
}

#[test]
fn single_charge() {
    parser_test_case(vec![ident("a"), charge(), ident("b")], vec![charge_con("a", "b")])
}

#[test]
fn single_charge_same_node() {
    parser_test_case(vec![ident("a"), charge(), ident("a")], vec![charge_con("a", "a")])
}

#[test]
fn chained_statements() {
    parser_test_case(
        vec![ident("a"), block(), ident("b"), charge(), ident("c")],
        vec![block_con("a", "b"), charge_con("b", "c")],
    )
}

#[test]
fn chained_statements_reoccurring_idents() {
    parser_test_case(
        vec![ident("a"), block(), ident("b"), charge(), ident("a")],
        vec![block_con("a", "b"), charge_con("b", "a")],
    )
}

#[test]
fn semicolon_statement_seperation() {
    parser_test_case(
        vec![
            ident("a"),
            block(),
            ident("b"),
            charge(),
            ident("c"),
            semicolon(),
            ident("a"),
            charge(),
            ident("d"),
            semicolon(),
        ],
        vec![block_con("a", "b"), charge_con("b", "c"), charge_con("a", "d")],
    )
}

#[test]
fn passes_on_sequential_identifiers() {
    parse_test_case_force_output(
        vec![
            ident("a"),
            block(),
            ident("b"),
            semicolon(),
            ident("c"),
            ident("a"),
            semicolon(),
            ident("a"),
            charge(),
            ident("a"),
        ],
        vec![block_con("a", "b"), charge_con("a", "a")],
    )
}

#[test]
fn error_on_sequential_identifiers() {
    parse_error_test_case(
        vec![
            ident("a"),
            block(),
            ident("b"),
            semicolon(),
            ident("c"),
            tok_at(TokenKind::Identifier, "a", 0, 1),
            semicolon(),
            ident("a"),
            charge(),
            ident("a"),
        ],
        vec![ParserError::UnexpectedToken(SourcePosition::new(0, 1))],
    )
}

#[test]
fn ignores_endline_in_statements() {
    parser_test_case(vec![ident("a"), block(), ident("b")], vec![block_con("a", "b")])
}

#[test]
fn endline_terminates_statement() {
    parser_test_case(
        vec![ident("a"), block(), ident("b"), endline(), ident("a"), charge(), ident("c")],
        vec![block_con("a", "b"), charge_con("a", "c")],
    )
}

#[test]
fn endline_recovers_after_error() {
    parse_test_case_force_output(
        vec![ident("a"), block(), block(), endline(), ident("a"), charge(), ident("c")],
        vec![charge_con("a", "c")],
    )
}

#[test]
fn error_on_unexpected_end() {
    parse_error_test_case(vec![ident("a"), block()], vec![ParserError::UnexpectedEnd])
}

#[test]
fn input_ports() {
    parser_test_case(
        vec![port(), ident("a"), charge(), ident("b")],
        vec![con("a", true, "b", false, true)],
    )
}

#[test]
fn error_port_notfollewedby_ident() {
    parse_error_test_case(
        vec![
            port(),
            tok_at(TokenKind::Space, " ", 0, 1),
            ident("a"),
            charge(),
            ident("b"),
        ],
        vec![ParserError::UnexpectedToken(SourcePosition::new(0, 1))],
    )
}

#[test]
fn output_ports() {
    parser_test_case(
        vec![ident("a"), charge(), port(), ident("b")],
        vec![con("a", false, "b", true, true)],
    )
}

#[test]
fn error_inconsistant_ident_type() {
    parse_error_test_case(
        vec![
            ident("a"),
            charge(),
            port(),
            ident("b"),
            semicolon(),
            port(),
            ident("b"),
            charge(),
            port(),
            ident("a"),
            semicolon(),
            port(),
            ident("a"),
            charge(),
            ident("c"),
        ],
        vec![
            ParserError::InconstIdKind("b".to_owned(), IdentKind::InPort, IdentKind::OutPort),
            ParserError::InconstIdKind("a".to_owned(), IdentKind::OutPort, IdentKind::Node),
            ParserError::InconstIdKind("a".to_owned(), IdentKind::InPort, IdentKind::Node),
        ],
    )
}

#[test]
fn single_connect_node_batching() {
    parser_test_case(
        vec![ident("a"), comma(), ident("b"), comma(), ident("c"), charge(), ident("d")],
        vec![charge_con("a", "d"), charge_con("b", "d"), charge_con("c", "d")],
    )
}

#[test]
fn multi_connect_node_batching() {
    parser_test_case(
        vec![
            ident("a"),
            charge(),
            ident("b1"),
            comma(),
            ident("b2"),
            charge(),
            ident("c1"),
            comma(),
            ident("c2"),
            block(),
            ident("d"),
        ],
        vec![
            charge_con("a", "b1"),
            charge_con("a", "b2"),
            charge_con("b1", "c1"),
            charge_con("b1", "c2"),
            charge_con("b2", "c1"),
            charge_con("b2", "c2"),
            block_con("c1", "d"),
            block_con("c2", "d"),
        ],
    )
}

#[test]
fn port_node_batching() {
    parser_test_case(
        vec![
            port(),
            ident("a"),
            charge(),
            ident("b"),
            comma(),
            ident("c"),
            charge(),
            port(),
            ident("d"),
        ],
        vec![
            con("a", true, "b", false, true),
            con("a", true, "c", false, true),
            con("b", false, "d", true, true),
            con("c", false, "d", true, true),
        ],
    )
}

#[test]
fn error_inconsistant_ident_type_node_batching() {
    parse_error_test_case(
        vec![
            port(),
            ident("a"),
            charge(),
            port(),
            ident("b"),
            comma(),
            ident("c"),
            charge(),
            port(),
            ident("d"),
        ],
        vec![ParserError::InconstIdKind("b".to_owned(), IdentKind::InPort, IdentKind::OutPort)],
    )
}

#[test]
fn error_io_min_violated() {
    parse_error_test_case_io_min(
        vec![ident("a"), charge(), ident("b"), endline(), ident("a"), charge(), ident("c")],
        vec![ParserError::IOMin],
    )
}

#[test]
fn operater_at_next_line() {
    parser_test_case(
        vec![ident("a"), charge(), ident("b"), comma(), ident("c"), charge(), ident("d")],
        vec![
            charge_con("a", "b"),
            charge_con("a", "c"),
            charge_con("b", "d"),
            charge_con("c", "d"),
        ],
    )
}

#[test]
fn unexpected_token_after_opr() {
    parse_error_test_case(
        vec![ident("a"), charge(), tok_at(TokenKind::Block, ".", 0, 1)],
        vec![ParserError::UnexpectedToken(SourcePosition::new(0, 1))],
    )
}

#[test]
fn unexpected_token_after_port_sign() {
    parse_error_test_case(
        vec![port(), tok_at(TokenKind::Charge, ">", 0, 1), block()],
        vec![ParserError::UnexpectedToken(SourcePosition::new(0, 1))],
    )
}

#[test]
fn io_min_violation_wihout_basic_errors() {
    parse_error_test_case_io_min(
        vec![ident("a"), charge(), tok_at(TokenKind::Block, ".", 0, 1)],
        vec![ParserError::UnexpectedToken(SourcePosition::new(0, 1))],
    )
}

#[test]
fn outport_block_violation() {
    parse_error_test_case(
        vec![ident("a"), block(), port(), ident("b")],
        vec![ParserError::OutPortBlock("b".to_owned())],
    )
}

#[test]
fn outport_block_reported_once_per_name() {
    parse_error_test_case(
        vec![
            ident("a"),
            block(),
            port(),
            ident("b"),
            semicolon(),
            ident("c"),
            block(),
            port(),
            ident("b"),
        ],
        vec![ParserError::OutPortBlock("b".to_owned())],
    )
}

#[test]
fn io_min_satisfied_by_ports() {
    let pr = parse(vec![port(), ident("a"), charge(), port(), ident("b")], true);
    assert_eq!(pr.1, vec![]);
    assert_eq!(pr.0, ConVec(vec![con("a", true, "b", true, true)]));
}

#[test]
fn statement_must_end_at_separator() {
    let pr = parse(
        vec![
            ident("a"),
            charge(),
            ident("b"),
            tok_at(TokenKind::Identifier, "c", 0, 4),
            charge(),
            ident("d"),
        ],
        false,
    );
    assert_eq!(pr.1, vec![ParserError::UnexpectedToken(SourcePosition::new(0, 4))]);
    assert_eq!(pr.0, ConVec(vec![]));
}

#[test]
fn statement_cannot_start_with_operator() {
    let pr = parse(vec![tok_at(TokenKind::Charge, ">", 0, 0), semicolon(), ident("a"), charge(), ident("b")], false);
    assert_eq!(pr.1, vec![ParserError::UnexpectedToken(SourcePosition::new(0, 0))]);
    assert_eq!(pr.0, ConVec(vec![charge_con("a", "b")]));
}

#[test]
fn reserved_declaration_is_inert() {
    let pr = parse(
        vec![tok(TokenKind::Mod, "mod"), ident("m"), semicolon(), ident("a"), charge(), ident("b")],
        false,
    );
    assert_eq!(pr.1, vec![]);
    assert_eq!(pr.0, ConVec(vec![charge_con("a", "b")]));
}

#[test]
fn dangling_operator_gives_one_unexpected_end() {
    let pr = parse(vec![ident("a"), charge()], false);
    assert_eq!(pr.1, vec![ParserError::UnexpectedEnd]);
    assert_eq!(pr.0, ConVec(vec![]));
}

#[test]
fn port_checks_follow_kind_errors() {
    let pr = parse(
        vec![
            port(),
            ident("a"),
            charge(),
            ident("b"),
            semicolon(),
            ident("a"),
            charge(),
            ident("d"),
            semicolon(),
            ident("e"),
            block(),
            port(),
            ident("c"),
        ],
        true,
    );
    assert_eq!(
        pr.1,
        vec![
            ParserError::InconstIdKind("a".to_owned(), IdentKind::Node, IdentKind::InPort),
            ParserError::OutPortBlock("c".to_owned()),
        ]
    );
}
