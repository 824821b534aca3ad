use vstd::prelude::*;
use crate::lex::{errors_view, lex, lexed, LexerError, LexerErrorView, TokenView};
use crate::module::Module;
use crate::parse::{final_errors, parse, parsed, parser_errors_view, ParserError, ParserErrorView};
use crate::translate::{translate, translated, ConnectionView, TranslateState};

verus! {

/// What compiling a program gives: the module when no stage reported an error, and every
/// error otherwise.
pub struct CompilationResult {
    pub module: Option<Module>,
    pub success: bool,
    pub perrors: Vec<ParserError>,
    pub lerrors: Vec<LexerError>,
    pub input_ids: Option<Vec<String>>,
    pub output_ids: Option<Vec<String>>,
}

/// The tokens of a program.
pub open spec fn program_tokens(source: Seq<char>) -> Seq<TokenView> {
    lexed(source).flushed().tokens
}

/// The lexical errors of a program.
pub open spec fn program_lex_errors(source: Seq<char>) -> Seq<LexerErrorView> {
    lexed(source).flushed().errors
}

/// The connections of a program.
pub open spec fn program_connections(source: Seq<char>) -> Seq<ConnectionView> {
    parsed(program_tokens(source)).connections
}

/// The parse errors of a program.
pub open spec fn program_parse_errors(source: Seq<char>, io_min: bool) -> Seq<ParserErrorView> {
    final_errors(parsed(program_tokens(source)), io_min)
}

/// A program compiles when neither the lexer nor the parser reports an error, and its
/// connections can be numbered.
pub open spec fn compiles(source: Seq<char>, io_min: bool) -> bool {
    &&& program_lex_errors(source).len() == 0
    &&& program_parse_errors(source, io_min).len() == 0
    &&& program_connections(source).len() < usize::MAX / 4
}

/// The translation of a program's connections.
pub open spec fn program_translation(source: Seq<char>) -> TranslateState {
    translated(program_connections(source))
}

/// Compiles program text: lexes, normalizes and parses it, and when no error was reported,
/// translates its connections into a module.
///
/// With `io_min`, a program must declare at least one input and one output port. With
/// `gen_ids`, the names bound to the input and output positions are returned too.
pub fn compile(source: &str, gen_ids: bool, io_min: bool) -> (r: CompilationResult)
    requires
        source@.len() < usize::MAX - 1,
    ensures
        errors_view(r.lerrors@) == program_lex_errors(source@),
        parser_errors_view(r.perrors@) == program_parse_errors(source@, io_min),
        r.success == compiles(source@, io_min),
        r.success ==> (r.module matches Some(m) && m.wf() && m@
            == program_translation(source@).module),
        !r.success ==> r.module is None && r.input_ids is None && r.output_ids is None,
        r.success && gen_ids ==> (r.input_ids matches Some(ins) && ins@.map_values(
            |s: String| s@,
        ) == program_translation(source@).input_names),
        r.success && gen_ids ==> (r.output_ids matches Some(outs) && outs@.map_values(
            |s: String| s@,
        ) == program_translation(source@).output_names),
        !gen_ids ==> r.input_ids is None && r.output_ids is None,
{
    let (tokens, lexer_errors) = lex(source);
    let (connections, parser_errors) = parse(tokens, io_min);
    if lexer_errors.len() > 0 || parser_errors.len() > 0 || connections.0.len() >= usize::MAX
        / 4 {
        CompilationResult {
            module: None,
            success: false,
            perrors: parser_errors,
            lerrors: lexer_errors,
            input_ids: None,
            output_ids: None,
        }
    } else {
        let tr = translate(connections, gen_ids);
        let (input_ids, output_ids) = match tr.identifiers {
            Some((ins, outs)) => (Some(ins), Some(outs)),
            None => (None, None),
        };
        CompilationResult {
            module: Some(tr.module),
            success: true,
            perrors: parser_errors,
            lerrors: lexer_errors,
            input_ids,
            output_ids,
        }
    }
}

} // verus!
