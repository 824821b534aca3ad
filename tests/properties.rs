use ryvu::{compile, lex, parse, LexerError, LexerErrorKind, Network, ParserError, SourcePosition, Token, TokenKind};

#[test]
fn repeated_statement_gives_one_edge() {
    let cr = compile("a>b;a>b", false, false);
    assert!(cr.success);
    let m = cr.module.unwrap();
    assert_eq!(m.connections.len(), 2);
    assert_eq!(m.connections[0].charging, vec![1]);
    assert!(m.connections[0].blocking.is_empty());
    assert!(m.connections[1].charging.is_empty());
}

#[test]
fn batch_cross_product_three_sources() {
    // ids in order of first sight over the connections a>d, b>d, c>d: a 0, d 1, b 2, c 3
    let m = compile("a,b,c>d", false, false).module.unwrap();
    assert_eq!(m.connections.len(), 4);
    for source in [0, 2, 3] {
        assert_eq!(m.connections[source].charging, vec![1]);
    }
    assert!(m.connections[1].charging.is_empty());
}

#[test]
fn batch_cross_product_chain_of_batches() {
    let m = compile("a>b1,b2>c1,c2", false, false).module.unwrap();
    // ids: a 0, b1 1, b2 2, c1 3, c2 4
    assert_eq!(m.connections[0].charging, vec![1, 2]);
    assert_eq!(m.connections[1].charging, vec![3, 4]);
    assert_eq!(m.connections[2].charging, vec![3, 4]);
    let total: usize = m.connections.iter().map(|c| c.charging.len() + c.blocking.len()).sum();
    assert_eq!(total, 6);
}

#[test]
fn chain_threads_batches() {
    let m = compile("a.b>c", false, false).module.unwrap();
    assert_eq!(m.connections[0].blocking, vec![1]);
    assert!(m.connections[0].charging.is_empty());
    assert_eq!(m.connections[1].charging, vec![2]);
    assert!(!m.connections[0].charging.contains(&2));
}

#[test]
fn port_signs_register_each_port_once() {
    let m = compile("$a>b; $a>c", false, false).module.unwrap();
    assert_eq!(m.inputs, vec![0]);
    let m = compile("a>$b; c>$b", false, false).module.unwrap();
    assert_eq!(m.outputs, vec![1]);
    let cr = compile("$a>b; a>c", false, false);
    assert!(cr.module.is_none());
    assert_eq!(
        cr.perrors,
        vec![ParserError::InconstIdKind("a".to_string(), ryvu::IdentKind::Node, ryvu::IdentKind::InPort)]
    );
}

#[test]
fn pulse_lasts_one_tick() {
    let cr = compile("$a>$b", false, true);
    let mut network = Network::new(cr.module.unwrap());
    network.charge_inputs(&vec![true]);
    network.next();
    assert_eq!(network.output_bits(), vec![true]);
    network.next();
    assert_eq!(network.output_bits(), vec![false]);
}

#[test]
fn block_suppresses_only_outgoing_propagation() {
    // ids: x 0, y 1, z 2, w 3, o 4
    let cr = compile("x.y; z>y; w>x; y>o", false, false);
    let mut network = Network::new(cr.module.unwrap());
    network.charge_node(3);
    network.next();
    assert!(network.seek_node(0));
    network.charge_node(2);
    network.next();
    // x blocked y and z charged it in the same tick: y holds the charge but is blocked
    assert!(network.seek_node(1));
    network.next();
    assert!(!network.seek_node(4));
    assert!(!network.seek_node(1));
}

#[test]
fn unblocked_charge_propagates() {
    let cr = compile("x.y; z>y; w>x; y>o", false, false);
    let mut network = Network::new(cr.module.unwrap());
    network.charge_node(2);
    network.next();
    assert!(network.seek_node(1));
    network.next();
    assert!(network.seek_node(4));
}

#[test]
fn dangling_operator_at_end() {
    let (tokens, lerrors) = lex("a>");
    assert!(lerrors.is_empty());
    let (connections, perrors) = parse(tokens, false);
    assert_eq!(perrors, vec![ParserError::UnexpectedEnd]);
    assert!(connections.0.is_empty());
}

#[test]
fn invalid_identifier_gives_no_token() {
    let (tokens, errors) = lex("$1nvalid");
    assert_eq!(tokens, vec![Token::new(TokenKind::Port, "$".to_string(), SourcePosition::new(0, 0))]);
    assert_eq!(
        errors,
        vec![LexerError {
            error_kind: LexerErrorKind::InvalidIdentifier("1nvalid".to_string()),
            position: SourcePosition::new(0, 1)
        }]
    );
}

#[test]
fn charge_and_seek_address_port_positions() {
    // ids: a 0, b 1; input position 0 is a, output position 0 is b
    let cr = compile("$a>$b", false, true);
    let mut network = Network::new(cr.module.unwrap());
    network.charge(0);
    network.next();
    assert!(network.seek(0));
    network.next();
    assert!(!network.seek(0));
}

#[test]
fn earlier_connection_repeated_changes_nothing() {
    let once = compile("$a>b; c>$d", true, false);
    let again = compile("$a>b; c>$d; b>c; $a>b", true, false);
    let without = compile("$a>b; c>$d; b>c", true, false);
    assert!(once.success && again.success && without.success);
    assert_eq!(again.module, without.module);
    assert_eq!(again.input_ids, without.input_ids);
    assert_eq!(again.output_ids, without.output_ids);
    assert_eq!(again.input_ids, Some(vec!["a".to_string()]));
}
