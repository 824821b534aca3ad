use ryvu::{lex, LexerError, LexerErrorKind, SourcePosition, Token, TokenKind};

fn tok(kind: TokenKind, text: &str, line: usize, ch: usize) -> Token {
    Token::new(kind, text.to_string(), SourcePosition::new(line, ch))
}

#[test]
fn lex_empty_source() {
    let source = "";
    let (tokens, errors) = lex(source);
    assert_eq!(tokens, vec![]);
    assert_eq!(errors, vec![]);
}

#[test]
fn lex_space_only() {
    let source = "    ";
    let (tokens, errors) = lex(source);
    assert_eq!(tokens, vec![tok(TokenKind::Space, source, 0, 0)]);
    assert_eq!(errors, vec![]);
}

#[test]
fn lex_spaces_and_endlines() {
    let source = "    \n   \n\n     ";
    let (tokens, errors) = lex(source);
    assert_eq!(
        tokens,
        vec![
            tok(TokenKind::Space, "    ", 0, 0),
            tok(TokenKind::EndLine, "\n", 0, 4),
            tok(TokenKind::Space, "   ", 1, 0),
            tok(TokenKind::EndLine, "\n", 1, 3),
            tok(TokenKind::EndLine, "\n", 2, 0),
            tok(TokenKind::Space, "     ", 3, 0),
        ]
    );
    assert_eq!(errors, vec![]);
}

#[test]
fn lex_supports_charge() {
    let source = "  > \n   \n>";
    let (tokens, errors) = lex(source);
    assert_eq!(
        tokens,
        vec![
            tok(TokenKind::Space, "  ", 0, 0),
            tok(TokenKind::Charge, ">", 0, 2),
            tok(TokenKind::Space, " ", 0, 3),
            tok(TokenKind::EndLine, "\n", 0, 4),
            tok(TokenKind::Space, "   ", 1, 0),
            tok(TokenKind::EndLine, "\n", 1, 3),
            tok(TokenKind::Charge, ">", 2, 0),
        ]
    );
    assert_eq!(errors, vec![]);
}

#[test]
fn lex_supports_block() {
    let source = "  . \n   \n.";
    let (tokens, errors) = lex(source);
    assert_eq!(
        tokens,
        vec![
            tok(TokenKind::Space, "  ", 0, 0),
            tok(TokenKind::Block, ".", 0, 2),
            tok(TokenKind::Space, " ", 0, 3),
            tok(TokenKind::EndLine, "\n", 0, 4),
            tok(TokenKind::Space, "   ", 1, 0),
            tok(TokenKind::EndLine, "\n", 1, 3),
            tok(TokenKind::Block, ".", 2, 0),
        ]
    );
    assert_eq!(errors, vec![]);
}

#[test]
fn lex_supports_port() {
    let source = "  $ \n   \n$";
    let (tokens, errors) = lex(source);
    assert_eq!(
        tokens,
        vec![
            tok(TokenKind::Space, "  ", 0, 0),
            tok(TokenKind::Port, "$", 0, 2),
            tok(TokenKind::Space, " ", 0, 3),
            tok(TokenKind::EndLine, "\n", 0, 4),
            tok(TokenKind::Space, "   ", 1, 0),
            tok(TokenKind::EndLine, "\n", 1, 3),
            tok(TokenKind::Port, "$", 2, 0),
        ]
    );
    assert_eq!(errors, vec![]);
}

#[test]
fn lex_supports_identifier() {
    let source = "$input > $output;\nmid";
    let (tokens, errors) = lex(source);
    assert_eq!(
        tokens,
        vec![
            tok(TokenKind::Port, "$", 0, 0),
            tok(TokenKind::Identifier, "input", 0, 1),
            tok(TokenKind::Space, " ", 0, 6),
            tok(TokenKind::Charge, ">", 0, 7),
            tok(TokenKind::Space, " ", 0, 8),
            tok(TokenKind::Port, "$", 0, 9),
            tok(TokenKind::Identifier, "output", 0, 10),
            tok(TokenKind::Semicolon, ";", 0, 16),
            tok(TokenKind::EndLine, "\n", 0, 17),
            tok(TokenKind::Identifier, "mid", 1, 0),
        ]
    );
    assert_eq!(errors, vec![]);
}

#[test]
fn lex_supports_identifier_uppercase() {
    let source = "$InPuT > $Output;\nMID";
    let (tokens, errors) = lex(source);
    assert_eq!(
        tokens,
        vec![
            tok(TokenKind::Port, "$", 0, 0),
            tok(TokenKind::Identifier, "InPuT", 0, 1),
            tok(TokenKind::Space, " ", 0, 6),
            tok(TokenKind::Charge, ">", 0, 7),
            tok(TokenKind::Space, " ", 0, 8),
            tok(TokenKind::Port, "$", 0, 9),
            tok(TokenKind::Identifier, "Output", 0, 10),
            tok(TokenKind::Semicolon, ";", 0, 16),
            tok(TokenKind::EndLine, "\n", 0, 17),
            tok(TokenKind::Identifier, "MID", 1, 0),
        ]
    );
    assert_eq!(errors, vec![]);
}

#[test]
fn error_on_unknown_character() {
    let source = "$InPuT @ $Output;\nMID";
    let (tokens, errors) = lex(source);
    assert_eq!(
        tokens,
        vec![
            tok(TokenKind::Port, "$", 0, 0),
            tok(TokenKind::Identifier, "InPuT", 0, 1),
            tok(TokenKind::Space, " ", 0, 6),
            tok(TokenKind::Space, " ", 0, 8),
            tok(TokenKind::Port, "$", 0, 9),
            tok(TokenKind::Identifier, "Output", 0, 10),
            tok(TokenKind::Semicolon, ";", 0, 16),
            tok(TokenKind::EndLine, "\n", 0, 17),
            tok(TokenKind::Identifier, "MID", 1, 0),
        ]
    );
    assert_eq!(
        errors,
        vec![LexerError {
            error_kind: LexerErrorKind::UnknownChar('@'),
            position: SourcePosition { line: 0, ch: 7 }
        }]
    );
}

#[test]
fn error_on_invalid_ident() {
    let source = "$1nPuT > $Ou4put;\nMID";
    let (tokens, errors) = lex(source);
    assert_eq!(
        tokens,
        vec![
            tok(TokenKind::Port, "$", 0, 0),
            tok(TokenKind::Space, " ", 0, 6),
            tok(TokenKind::Charge, ">", 0, 7),
            tok(TokenKind::Space, " ", 0, 8),
            tok(TokenKind::Port, "$", 0, 9),
            tok(TokenKind::Identifier, "Ou4put", 0, 10),
            tok(TokenKind::Semicolon, ";", 0, 16),
            tok(TokenKind::EndLine, "\n", 0, 17),
            tok(TokenKind::Identifier, "MID", 1, 0),
        ]
    );
    assert_eq!(
        errors,
        vec![LexerError {
            error_kind: LexerErrorKind::InvalidIdentifier("1nPuT".to_string()),
            position: SourcePosition { line: 0, ch: 1 }
        }]
    );
}

#[test]
fn lex_comment_runs_to_end_of_line() {
    let (tokens, errors) = lex("a # note > b\nc");
    assert_eq!(
        tokens,
        vec![
            tok(TokenKind::Identifier, "a", 0, 0),
            tok(TokenKind::Space, " ", 0, 1),
            tok(TokenKind::Comment, "# note > b", 0, 2),
            tok(TokenKind::EndLine, "\n", 0, 12),
            tok(TokenKind::Identifier, "c", 1, 0),
        ]
    );
    assert_eq!(errors, vec![]);
}

#[test]
fn lex_reserved_word_braces_and_comma() {
    let (tokens, errors) = lex("mod M{a,b}");
    assert_eq!(
        tokens,
        vec![
            tok(TokenKind::Mod, "mod", 0, 0),
            tok(TokenKind::Space, " ", 0, 3),
            tok(TokenKind::Identifier, "M", 0, 4),
            tok(TokenKind::OpenBrace, "{", 0, 5),
            tok(TokenKind::Identifier, "a", 0, 6),
            tok(TokenKind::Comma, ",", 0, 7),
            tok(TokenKind::Identifier, "b", 0, 8),
            tok(TokenKind::CloseBrace, "}", 0, 9),
        ]
    );
    assert_eq!(errors, vec![]);
}

#[test]
fn lex_tab_is_blank_and_modest_is_identifier() {
    let (tokens, errors) = lex("\tmodest");
    assert_eq!(
        tokens,
        vec![
            tok(TokenKind::Space, "\t", 0, 0),
            tok(TokenKind::Identifier, "modest", 0, 1),
        ]
    );
    assert_eq!(errors, vec![]);
}

#[test]
fn lex_invalid_identifier_keeps_neighbours() {
    let (tokens, errors) = lex("$1nvalid");
    assert_eq!(tokens, vec![tok(TokenKind::Port, "$", 0, 0)]);
    assert_eq!(
        errors,
        vec![LexerError {
            error_kind: LexerErrorKind::InvalidIdentifier("1nvalid".to_string()),
            position: SourcePosition { line: 0, ch: 1 }
        }]
    );
    let (tokens, errors) = lex("a>$1nvalid;b");
    assert_eq!(
        tokens,
        vec![
            tok(TokenKind::Identifier, "a", 0, 0),
            tok(TokenKind::Charge, ">", 0, 1),
            tok(TokenKind::Port, "$", 0, 2),
            tok(TokenKind::Semicolon, ";", 0, 10),
            tok(TokenKind::Identifier, "b", 0, 11),
        ]
    );
    assert_eq!(errors.len(), 1);
}

#[test]
fn lex_unknown_characters_are_all_reported() {
    let (tokens, errors) = lex("a@é");
    assert_eq!(tokens, vec![tok(TokenKind::Identifier, "a", 0, 0)]);
    assert_eq!(
        errors,
        vec![
            LexerError {
                error_kind: LexerErrorKind::UnknownChar('@'),
                position: SourcePosition::new(0, 1)
            },
            LexerError {
                error_kind: LexerErrorKind::UnknownChar('é'),
                position: SourcePosition::new(0, 2)
            },
        ]
    );
}

#[test]
fn lex_every_unicode_blank_is_space() {
    let (tokens, errors) = lex("a\u{c}\u{b}\u{a0}\u{3000}>b");
    assert_eq!(
        tokens,
        vec![
            tok(TokenKind::Identifier, "a", 0, 0),
            tok(TokenKind::Space, "\u{c}\u{b}\u{a0}\u{3000}", 0, 1),
            tok(TokenKind::Charge, ">", 0, 5),
            tok(TokenKind::Identifier, "b", 0, 6),
        ]
    );
    assert_eq!(errors, vec![]);
    let (tokens, errors) = lex("\u{c}");
    assert_eq!(tokens, vec![tok(TokenKind::Space, "\u{c}", 0, 0)]);
    assert!(errors.is_empty());
}

#[test]
fn invalid_run_in_place_of_identifier_changes_only_that_token() {
    let (bad_tokens, bad_errors) = lex("a > 1bc;\nd");
    let (good_tokens, good_errors) = lex("a > xbc;\nd");
    let mut expected = good_tokens.clone();
    let removed = expected.remove(4);
    assert_eq!(removed, tok(TokenKind::Identifier, "xbc", 0, 4));
    assert_eq!(bad_tokens, expected);
    assert!(good_errors.is_empty());
    assert_eq!(
        bad_errors,
        vec![LexerError {
            error_kind: LexerErrorKind::InvalidIdentifier("1bc".to_string()),
            position: SourcePosition::new(0, 4)
        }]
    );
}
