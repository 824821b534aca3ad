use ryvu::{translate, ConVec, Connection, IdentKind, Identifier, Module, ModuleBuilder};

fn con(from: &str, in_port: bool, to: &str, out_port: bool, is_charge: bool) -> Connection {
    let fk = if in_port { IdentKind::InPort } else { IdentKind::Node };
    let tk = if out_port { IdentKind::OutPort } else { IdentKind::Node };
    Connection::new(
        Identifier::new(from.to_owned(), fk),
        Identifier::new(to.to_owned(), tk),
        is_charge,
    )
}

fn translate_test_case(connections: Vec<Connection>, module: Module) {
    let translation_result = translate(ConVec(connections), false);
    assert_eq!(translation_result.module, module);
    assert!(translation_result.identifiers.is_none());
}

fn translate_test_case_ids(connections: Vec<Connection>, inputs: Vec<&str>, outputs: Vec<&str>) {
    let translation_result = translate(ConVec(connections), true);
    let (tr_ins, tr_outs) = translation_result.identifiers.unwrap();
    assert_eq!(tr_ins, inputs.iter().map(|&s| s.to_owned()).collect::<Vec<String>>());
    assert_eq!(tr_outs, outputs.iter().map(|&s| s.to_owned()).collect::<Vec<String>>());
}

#[test]
fn single_connection() {
    let mut builder = ModuleBuilder::default();
    builder.charge(0, 1);
    translate_test_case(vec![con("a", false, "b", false, true)], builder.build())
}

#[test]
fn multiple_connection() {
    let mut builder = ModuleBuilder::default();
    builder.charge(0, 1);
    builder.block(0, 2);
    builder.charge(2, 0);
    builder.block(1, 3);
    builder.charge(3, 3);
    translate_test_case(
        vec![
            con("a", false, "b", false, true),
            con("a", false, "c", false, false),
            con("c", false, "a", false, true),
            con("b", false, "d", false, false),
            con("d", false, "d", false, true),
        ],
        builder.build(),
    )
}

#[test]
fn repeated_connection() {
    let mut builder = ModuleBuilder::default();
    builder.charge(0, 1);
    translate_test_case(
        vec![con("a", false, "b", false, true), con("a", false, "b", false, true)],
        builder.build(),
    )
}

#[test]
fn single_input_single_use() {
    let mut builder = ModuleBuilder::default();
    builder.charge(0, 1);
    builder.block(1, 2);
    builder.input(0);
    translate_test_case(
        vec![con("a", true, "b", false, true), con("b", false, "c", false, false)],
        builder.build(),
    )
}

#[test]
fn single_output_single_use() {
    let mut builder = ModuleBuilder::default();
    builder.charge(0, 1);
    builder.block(1, 2);
    builder.output(2);
    translate_test_case(
        vec![con("a", false, "b", false, true), con("b", false, "c", true, false)],
        builder.build(),
    )
}

#[test]
fn single_input_multiple_use() {
    let mut builder = ModuleBuilder::default();
    builder.charge(0, 1);
    builder.charge(0, 2);
    builder.input(0);
    translate_test_case(
        vec![con("a", true, "b", false, true), con("a", true, "c", false, true)],
        builder.build(),
    )
}

#[test]
fn single_output_multiple_use() {
    let mut builder = ModuleBuilder::default();
    builder.charge(0, 1);
    builder.charge(2, 1);
    builder.output(1);
    translate_test_case(
        vec![con("a", false, "b", true, true), con("c", false, "b", true, true)],
        builder.build(),
    )
}

#[test]
fn list_inputs_outputs() {
    translate_test_case_ids(
        vec![
            con("e", true, "m", false, true),
            con("m", false, "o", true, true),
            con("i", true, "m", false, false),
        ],
        vec!["e", "i"],
        vec!["o"],
    )
}

#[test]
fn builder_keeps_edge_sets_sorted() {
    let mut builder = ModuleBuilder::default();
    builder.charge(0, 3);
    builder.charge(0, 1);
    builder.charge(0, 3);
    builder.connect(0, 2, true);
    builder.connect(2, 0, false);
    assert_eq!(builder.input(1), 0);
    assert_eq!(builder.output(3), 0);
    assert_eq!(builder.output(2), 1);
    let m = builder.build();
    assert_eq!(m.connections.len(), 4);
    assert_eq!(m.connections[0].charging, vec![1, 2, 3]);
    assert!(m.connections[0].blocking.is_empty());
    assert_eq!(m.connections[2].blocking, vec![0]);
    assert_eq!(m.inputs, vec![1]);
    assert_eq!(m.outputs, vec![3, 2]);
    assert_eq!(builder.build(), Module::default());
}

#[test]
fn describe_lists_connections() {
    let cons = ConVec(vec![
        con("a", true, "b", false, true),
        con("b", false, "c", true, false),
        con("c", false, "c", false, true),
    ]);
    assert_eq!(cons.describe(), "!a>b\nb.!c\nc>c\n");
    assert_eq!(ConVec(vec![]).describe(), "");
}

#[test]
fn port_bound_where_first_seen_as_target() {
    let cons = vec![con("x", false, "a", false, true), con("a", true, "y", false, true)];
    let mut cons = cons;
    cons[0].to.kind = IdentKind::InPort;
    let tr = translate(ConVec(cons), true);
    assert_eq!(tr.module.inputs, vec![1]);
    let (ins, outs) = tr.identifiers.unwrap();
    assert_eq!(ins, vec!["a".to_string()]);
    assert!(outs.is_empty());
    let tr = translate(ConVec(vec![con("b", false, "y", true, true)]), false);
    let mut cons = vec![con("o", false, "y", false, true)];
    cons[0].from.kind = IdentKind::OutPort;
    let tr2 = translate(ConVec(cons), false);
    assert_eq!(tr.module.outputs, vec![1]);
    assert_eq!(tr2.module.outputs, vec![0]);
}
