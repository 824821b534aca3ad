use ryvu::{lex, SourcePosition, Token, TokenKind};

fn tok(kind: TokenKind, text: &str, line: usize, ch: usize) -> Token {
    Token::new(kind, text.to_string(), SourcePosition::new(line, ch))
}

fn tokens_of(source: &str) -> Vec<Token> {
    lex(source).0
}

#[test]
fn compile_empty_source() {
    let source = "";
    let tokens = tokens_of(source);
    assert_eq!(tokens, vec![]);
}

#[test]
fn compile_space_only() {
    let source = "    ";
    let tokens = tokens_of(source);
    assert_eq!(tokens, vec![tok(TokenKind::Space, source, 0, 0)]);
}

#[test]
fn compile_spaces_and_endlines() {
    let source = "    \n   \n\n     ";
    let tokens = tokens_of(source);
    assert_eq!(
        tokens,
        vec![
            tok(TokenKind::Space, "    ", 0, 0),
            tok(TokenKind::EndLine, "\n", 0, 4),
            tok(TokenKind::Space, "   ", 1, 0),
            tok(TokenKind::EndLine, "\n", 1, 3),
            tok(TokenKind::EndLine, "\n", 2, 0),
            tok(TokenKind::Space, "     ", 3, 0),
        ]
    );
}

#[test]
fn compile_supports_charge() {
    let source = "  > \n   \n>";
    let tokens = tokens_of(source);
    assert_eq!(
        tokens,
        vec![
            tok(TokenKind::Space, "  ", 0, 0),
            tok(TokenKind::Charge, ">", 0, 2),
            tok(TokenKind::Space, " ", 0, 3),
            tok(TokenKind::EndLine, "\n", 0, 4),
            tok(TokenKind::Space, "   ", 1, 0),
            tok(TokenKind::EndLine, "\n", 1, 3),
            tok(TokenKind::Charge, ">", 2, 0),
        ]
    );
}

#[test]
fn compile_supports_block() {
    let source = "  . \n   \n.";
    let tokens = tokens_of(source);
    assert_eq!(
        tokens,
        vec![
            tok(TokenKind::Space, "  ", 0, 0),
            tok(TokenKind::Block, ".", 0, 2),
            tok(TokenKind::Space, " ", 0, 3),
            tok(TokenKind::EndLine, "\n", 0, 4),
            tok(TokenKind::Space, "   ", 1, 0),
            tok(TokenKind::EndLine, "\n", 1, 3),
            tok(TokenKind::Block, ".", 2, 0),
        ]
    );
}

#[test]
fn compile_supports_port() {
    let source = "  $ \n   \n$";
    let tokens = tokens_of(source);
    assert_eq!(
        tokens,
        vec![
            tok(TokenKind::Space, "  ", 0, 0),
            tok(TokenKind::Port, "$", 0, 2),
            tok(TokenKind::Space, " ", 0, 3),
            tok(TokenKind::EndLine, "\n", 0, 4),
            tok(TokenKind::Space, "   ", 1, 0),
            tok(TokenKind::EndLine, "\n", 1, 3),
            tok(TokenKind::Port, "$", 2, 0),
        ]
    );
}

#[test]
fn compile_supports_identifier() {
    let source = "$input > $output;\nmid";
    let tokens = tokens_of(source);
    assert_eq!(
        tokens,
        vec![
            tok(TokenKind::Port, "$", 0, 0),
            tok(TokenKind::Identifier, "input", 0, 1),
            tok(TokenKind::Space, " ", 0, 6),
            tok(TokenKind::Charge, ">", 0, 7),
            tok(TokenKind::Space, " ", 0, 8),
            tok(TokenKind::Port, "$", 0, 9),
            tok(TokenKind::Identifier, "output", 0, 10),
            tok(TokenKind::Semicolon, ";", 0, 16),
            tok(TokenKind::EndLine, "\n", 0, 17),
            tok(TokenKind::Identifier, "mid", 1, 0),
        ]
    );
}

#[test]
fn compile_supports_identifier_uppercase() {
    let source = "$InPuT > $Output;\nMID";
    let tokens = tokens_of(source);
    assert_eq!(
        tokens,
        vec![
            tok(TokenKind::Port, "$", 0, 0),
            tok(TokenKind::Identifier, "InPuT", 0, 1),
            tok(TokenKind::Space, " ", 0, 6),
            tok(TokenKind::Charge, ">", 0, 7),
            tok(TokenKind::Space, " ", 0, 8),
            tok(TokenKind::Port, "$", 0, 9),
            tok(TokenKind::Identifier, "Output", 0, 10),
            tok(TokenKind::Semicolon, ";", 0, 16),
            tok(TokenKind::EndLine, "\n", 0, 17),
            tok(TokenKind::Identifier, "MID", 1, 0),
        ]
    );
}
