use ryvu::{compile, Module, ModuleBuilder, ParserError, IdentKind, LexerErrorKind};

fn compile_case(source: &str, module: Module) {
    let cr = compile(source, false, false);
    assert_eq!(cr.module.expect("no module provided!"), module);
}

#[test]
fn lib_empty_source() {
    compile_case("", Module::default());
}

#[test]
fn space_nextline_only() {
    compile_case("\n    \n\n \n    \n\n  \n   \n\n\n   ", Module::default());
}

#[test]
fn space_nextline_semic_only() {
    compile_case("\n   ;;; \n\n \n ;;;  ;;; \n;\n  \n   \n\n\n   ", Module::default());
}

#[test]
fn simple_charge() {
    let mut builder = ModuleBuilder::default();
    builder.charge(0, 1);
    compile_case("a > b", builder.build());
}

#[test]
fn compile_reports_lexer_and_parser_errors() {
    let cr = compile("a > 9b", false, false);
    assert!(!cr.success);
    assert!(cr.module.is_none());
    assert_eq!(cr.lerrors.len(), 1);
    assert_eq!(cr.lerrors[0].error_kind, LexerErrorKind::InvalidIdentifier("9b".to_string()));
    assert_eq!(cr.perrors, vec![ParserError::UnexpectedEnd]);
}

#[test]
fn compile_requires_ports_when_asked() {
    let cr = compile("a > b", false, true);
    assert!(!cr.success);
    assert_eq!(cr.perrors, vec![ParserError::IOMin]);
    let cr = compile("$a > b\nb > $c", true, true);
    assert!(cr.success);
    assert_eq!(cr.input_ids, Some(vec!["a".to_string()]));
    assert_eq!(cr.output_ids, Some(vec!["c".to_string()]));
    let m = cr.module.unwrap();
    assert_eq!(m.inputs, vec![0]);
    assert_eq!(m.outputs, vec![2]);
}

#[test]
fn compile_line_break_before_port_ends_statement() {
    let cr = compile("$a > b\n$c > b", false, false);
    assert!(cr.success);
    let m = cr.module.unwrap();
    assert_eq!(m.inputs, vec![0, 2]);
}

#[test]
fn compile_operator_on_next_line_continues_statement() {
    let cr = compile("a\n> b\n# done\n", false, false);
    assert!(cr.success);
    let mut builder = ModuleBuilder::default();
    builder.charge(0, 1);
    assert_eq!(cr.module.unwrap(), builder.build());
}

#[test]
fn compile_reports_inconsistent_kind() {
    let cr = compile("$a > b; a > c", false, false);
    assert!(!cr.success);
    assert_eq!(
        cr.perrors,
        vec![ParserError::InconstIdKind("a".to_string(), IdentKind::Node, IdentKind::InPort)]
    );
}

#[test]
fn compile_structural_error_skips_port_checks() {
    let cr = compile("a.$b; c>", false, true);
    assert_eq!(cr.perrors, vec![ParserError::UnexpectedEnd]);
}

#[test]
fn compile_outport_block_once_and_io_min_together() {
    let cr = compile("a.$b; c.$b; d.$e", false, true);
    assert_eq!(
        cr.perrors,
        vec![
            ParserError::IOMin,
            ParserError::OutPortBlock("b".to_string()),
            ParserError::OutPortBlock("e".to_string()),
        ]
    );
    let cr = compile("$i>x; a.$b", false, true);
    assert_eq!(cr.perrors, vec![ParserError::OutPortBlock("b".to_string())]);
}
