use vstd::prelude::*;

verus! {

/// A line and a column, both counted from 0; the column counts characters.
#[derive(Clone, Copy, Debug, PartialEq, Eq, Structural)]
pub struct SourcePosition {
    pub line: usize,
    pub ch: usize,
}

impl SourcePosition {
    pub fn new(line: usize, ch: usize) -> (r: SourcePosition)
        ensures
            r.line == line,
            r.ch == ch,
    {
        SourcePosition { line, ch }
    }
}

#[derive(Clone, Copy, Debug, PartialEq, Eq, Structural)]
pub enum TokenKind {
    /// `$`
    Port,
    Identifier,
    /// A run of blanks.
    Space,
    /// A line break.
    EndLine,
    /// `>`
    Charge,
    /// `.`
    Block,
    /// `;`
    Semicolon,
    /// `,`
    Comma,
    /// `#` up to the end of the line.
    Comment,
    /// The reserved word `mod`.
    Mod,
    /// `{`
    OpenBrace,
    /// `}`
    CloseBrace,
}

#[derive(Clone, Debug, PartialEq, Eq)]
pub struct Token {
    pub kind: TokenKind,
    pub text: String,
    pub position: SourcePosition,
}

#[derive(Clone, Debug, PartialEq, Eq)]
pub enum LexerErrorKind {
    /// A character that no token can hold.
    UnknownChar(char),
    /// A run of letters, digits and underscores that starts with a digit.
    InvalidIdentifier(String),
}

#[derive(Clone, Debug, PartialEq, Eq)]
pub struct LexerError {
    pub error_kind: LexerErrorKind,
    pub position: SourcePosition,
}

pub struct TokenView {
    pub kind: TokenKind,
    pub text: Seq<char>,
    pub position: SourcePosition,
}

pub enum LexerErrorView {
    UnknownChar(char, SourcePosition),
    InvalidIdentifier(Seq<char>, SourcePosition),
}

impl View for Token {
    type V = TokenView;

    open spec fn view(&self) -> TokenView {
        TokenView { kind: self.kind, text: self.text@, position: self.position }
    }
}

impl View for LexerError {
    type V = LexerErrorView;

    open spec fn view(&self) -> LexerErrorView {
        match self.error_kind {
            LexerErrorKind::UnknownChar(c) => LexerErrorView::UnknownChar(c, self.position),
            LexerErrorKind::InvalidIdentifier(s) => LexerErrorView::InvalidIdentifier(
                s@,
                self.position,
            ),
        }
    }
}

impl Token {
    pub fn new(kind: TokenKind, text: String, position: SourcePosition) -> (r: Token)
        ensures
            r.kind == kind,
            r.text == text,
            r.position == position,
    {
        Token { kind, text, position }
    }

    pub fn kind(&self) -> (r: TokenKind)
        ensures
            r == self.kind,
    {
        self.kind
    }

    pub fn position(&self) -> (r: SourcePosition)
        ensures
            r == self.position,
    {
        self.position
    }

    /// A copy of the token.
    pub fn duplicate(&self) -> (r: Token)
        ensures
            r@ == self@,
    {
        Token { kind: self.kind, text: self.text.clone(), position: self.position }
    }
}

pub open spec fn tokens_view(ts: Seq<Token>) -> Seq<TokenView> {
    ts.map_values(|t: Token| t@)
}

pub open spec fn errors_view(es: Seq<LexerError>) -> Seq<LexerErrorView> {
    es.map_values(|e: LexerError| e@)
}

/// A white-space character of Unicode other than the line feed, which ends a line.
pub open spec fn is_blank(c: char) -> bool {
    ('\u{9}' <= c && c <= '\u{d}' && c != '\n') || c == ' ' || c == '\u{85}' || c == '\u{a0}'
        || c == '\u{1680}' || ('\u{2000}' <= c && c <= '\u{200a}') || c == '\u{2028}' || c
        == '\u{2029}' || c == '\u{202f}' || c == '\u{205f}' || c == '\u{3000}'
}

pub open spec fn is_letter(c: char) -> bool {
    ('a' <= c && c <= 'z') || ('A' <= c && c <= 'Z') || c == '_'
}

pub open spec fn is_digit(c: char) -> bool {
    '0' <= c && c <= '9'
}

/// The kind of a one-character token, if `c` is one.
pub open spec fn sign_kind(c: char) -> Option<TokenKind> {
    if c == '$' {
        Some(TokenKind::Port)
    } else if c == '>' {
        Some(TokenKind::Charge)
    } else if c == '.' {
        Some(TokenKind::Block)
    } else if c == ';' {
        Some(TokenKind::Semicolon)
    } else if c == ',' {
        Some(TokenKind::Comma)
    } else if c == '{' {
        Some(TokenKind::OpenBrace)
    } else if c == '}' {
        Some(TokenKind::CloseBrace)
    } else {
        None
    }
}

/// What the pending run of characters is.
#[derive(Clone, Copy, Debug, PartialEq, Eq, Structural)]
pub enum RunKind {
    Empty,
    Space,
    Ident,
    InvalidIdent,
    Comment,
}

/// The lexer's state after a prefix of the source.
pub struct LexState {
    pub tokens: Seq<TokenView>,
    pub errors: Seq<LexerErrorView>,
    /// The pending run, not yet emitted.
    pub run: Seq<char>,
    pub run_kind: RunKind,
    pub line: nat,
    /// The column where the pending run starts.
    pub col: nat,
}

impl LexState {
    pub open spec fn initial() -> LexState {
        LexState {
            tokens: Seq::empty(),
            errors: Seq::empty(),
            run: Seq::empty(),
            run_kind: RunKind::Empty,
            line: 0,
            col: 0,
        }
    }

    pub open spec fn pos(self) -> SourcePosition {
        SourcePosition { line: self.line as usize, ch: self.col as usize }
    }

    /// The state with the pending run emitted: a blank run or a comment as a token, a valid
    /// identifier as an identifier token (or the reserved word `mod`), an invalid one as an
    /// error; the column moves past it.
    pub open spec fn flushed(self) -> LexState {
        let tok = |k: TokenKind| TokenView { kind: k, text: self.run, position: self.pos() };
        let next = LexState {
            run: Seq::empty(),
            run_kind: RunKind::Empty,
            col: self.col + self.run.len(),
            ..self
        };
        match self.run_kind {
            RunKind::Empty => self,
            RunKind::Space => LexState { tokens: self.tokens.push(tok(TokenKind::Space)), ..next },
            RunKind::Comment => LexState {
                tokens: self.tokens.push(tok(TokenKind::Comment)),
                ..next
            },
            RunKind::Ident => LexState {
                tokens: self.tokens.push(
                    tok(
                        if self.run == seq!['m', 'o', 'd'] {
                            TokenKind::Mod
                        } else {
                            TokenKind::Identifier
                        },
                    ),
                ),
                ..next
            },
            RunKind::InvalidIdent => LexState {
                errors: self.errors.push(LexerErrorView::InvalidIdentifier(self.run, self.pos())),
                ..next
            },
        }
    }

    /// The state after one more character.
    pub open spec fn step(self, c: char) -> LexState {
        if self.run_kind == RunKind::Comment && c != '\n' {
            LexState { run: self.run.push(c), ..self }
        } else if is_blank(c) {
            if self.run_kind == RunKind::Space {
                LexState { run: self.run.push(c), ..self }
            } else {
                LexState { run: seq![c], run_kind: RunKind::Space, ..self.flushed() }
            }
        } else if is_letter(c) || is_digit(c) {
            if self.run_kind == RunKind::Ident || self.run_kind == RunKind::InvalidIdent {
                LexState { run: self.run.push(c), ..self }
            } else {
                LexState {
                    run: seq![c],
                    run_kind: if is_digit(c) {
                        RunKind::InvalidIdent
                    } else {
                        RunKind::Ident
                    },
                    ..self.flushed()
                }
            }
        } else if c == '\n' {
            let f = self.flushed();
            LexState {
                tokens: f.tokens.push(
                    TokenView { kind: TokenKind::EndLine, text: seq![c], position: f.pos() },
                ),
                line: f.line + 1,
                col: 0,
                ..f
            }
        } else if c == '#' {
            LexState { run: seq![c], run_kind: RunKind::Comment, ..self.flushed() }
        } else if sign_kind(c) is Some {
            let f = self.flushed();
            LexState {
                tokens: f.tokens.push(
                    TokenView { kind: sign_kind(c)->0, text: seq![c], position: f.pos() },
                ),
                col: f.col + 1,
                ..f
            }
        } else {
            let f = self.flushed();
            LexState {
                errors: f.errors.push(LexerErrorView::UnknownChar(c, f.pos())),
                col: f.col + 1,
                ..f
            }
        }
    }
}

/// The lexer's state after the characters of `s`, taken in order.
pub open spec fn lexed(s: Seq<char>) -> LexState
    decreases s.len(),
{
    if s.len() == 0 {
        LexState::initial()
    } else {
        lexed(s.drop_last()).step(s.last())
    }
}

/// A non-empty run of letters, digits and underscores.
pub open spec fn word(r: Seq<char>) -> bool {
    r.len() > 0 && forall|j: int| 0 <= j < r.len() ==> is_letter(#[trigger] r[j]) || is_digit(r[j])
}

/// Identifier tokens are words that start with a letter; invalid identifiers are words that
/// start with a digit.
pub open spec fn words_well_split(st: LexState) -> bool {
    &&& forall|i: int|
        0 <= i < st.tokens.len() && (#[trigger] st.tokens[i]).kind == TokenKind::Identifier
            ==> word(st.tokens[i].text) && is_letter(st.tokens[i].text[0])
    &&& forall|i: int|
        0 <= i < st.errors.len() ==> match #[trigger] st.errors[i] {
            LexerErrorView::InvalidIdentifier(r, _) => word(r) && is_digit(r[0]),
            _ => true,
        }
    &&& st.run_kind == RunKind::Ident ==> word(st.run) && is_letter(st.run[0])
    &&& st.run_kind == RunKind::InvalidIdent ==> word(st.run) && is_digit(st.run[0])
}

proof fn lemma_flushed_well_split(st: LexState)
    requires
        words_well_split(st),
    ensures
        words_well_split(st.flushed()),
{
    let f = st.flushed();
    assert forall|i: int|
        0 <= i < f.tokens.len() && (#[trigger] f.tokens[i]).kind == TokenKind::Identifier implies word(
        f.tokens[i].text,
    ) && is_letter(f.tokens[i].text[0]) by {
        if i < st.tokens.len() {
            assert(f.tokens[i] == st.tokens[i]);
        }
    }
    assert forall|i: int| 0 <= i < f.errors.len() implies match #[trigger] f.errors[i] {
        LexerErrorView::InvalidIdentifier(r, _) => word(r) && is_digit(r[0]),
        _ => true,
    } by {
        if i < st.errors.len() {
            assert(f.errors[i] == st.errors[i]);
        }
    }
}

proof fn lemma_step_well_split(st: LexState, c: char)
    requires
        words_well_split(st),
    ensures
        words_well_split(st.step(c)),
{
    lemma_flushed_well_split(st);
    let f = st.flushed();
    let t = st.step(c);
    if (st.run_kind == RunKind::Ident || st.run_kind == RunKind::InvalidIdent) && (is_letter(c)
        || is_digit(c)) && !(st.run_kind == RunKind::Comment) && !is_blank(c) {
        assert(t.run == st.run.push(c));
        assert(t.run[0] == st.run[0]);
        assert forall|j: int| 0 <= j < t.run.len() implies is_letter(#[trigger] t.run[j]) || is_digit(
            t.run[j],
        ) by {
            if j < st.run.len() {
                assert(t.run[j] == st.run[j]);
            }
        }
    }
    assert forall|i: int|
        0 <= i < t.tokens.len() && (#[trigger] t.tokens[i]).kind == TokenKind::Identifier implies word(
        t.tokens[i].text,
    ) && is_letter(t.tokens[i].text[0]) by {
        if i < f.tokens.len() {
            assert(t.tokens[i] == f.tokens[i] || t.tokens == st.tokens);
        }
    }
    assert forall|i: int| 0 <= i < t.errors.len() implies match #[trigger] t.errors[i] {
        LexerErrorView::InvalidIdentifier(r, _) => word(r) && is_digit(r[0]),
        _ => true,
    } by {
        if i < f.errors.len() {
            assert(t.errors[i] == f.errors[i] || t.errors == st.errors);
        }
    }
}

proof fn lemma_lexed_well_split(s: Seq<char>)
    ensures
        words_well_split(lexed(s)),
    decreases s.len(),
{
    if s.len() > 0 {
        lemma_lexed_well_split(s.drop_last());
        lemma_step_well_split(lexed(s.drop_last()), s.last());
    }
}

/// No identifier token starts with a digit: a run of letters, digits and underscores that
/// starts with a digit is reported whole as an invalid identifier and gives no token, and
/// every identifier token is a run that starts with a letter.
pub proof fn lemma_invalid_identifiers(s: Seq<char>)
    ensures
        words_well_split(lexed(s).flushed()),
        lexed(s).flushed().run_kind == RunKind::Empty,
{
    lemma_lexed_well_split(s);
    lemma_flushed_well_split(lexed(s));
}

/// The lexer's state after the characters of `t`, starting from `st`.
pub open spec fn lex_from(st: LexState, t: Seq<char>) -> LexState
    decreases t.len(),
{
    if t.len() == 0 {
        st
    } else {
        lex_from(st.step(t[0]), t.skip(1))
    }
}

/// The state without what it has emitted so far.
pub open spec fn pending(st: LexState) -> LexState {
    LexState { tokens: Seq::empty(), errors: Seq::empty(), ..st }
}

/// `st` with `tokens` and `errors` emitted before what it has emitted itself.
pub open spec fn after(tokens: Seq<TokenView>, errors: Seq<LexerErrorView>, st: LexState) -> LexState {
    LexState { tokens: tokens + st.tokens, errors: errors + st.errors, ..st }
}

proof fn lemma_lexed_concat(s: Seq<char>, t: Seq<char>)
    ensures
        lexed(s + t) == lex_from(lexed(s), t),
    decreases t.len(),
{
    if t.len() == 0 {
        assert(s + t =~= s);
    } else {
        let s1 = s.push(t[0]);
        assert(s1.drop_last() =~= s);
        assert(s + t =~= s1 + t.skip(1));
        lemma_lexed_concat(s1, t.skip(1));
    }
}

proof fn lemma_flushed_frame(st: LexState)
    ensures
        st.flushed() == after(st.tokens, st.errors, pending(st).flushed()),
{
    let f = st.flushed();
    let g = after(st.tokens, st.errors, pending(st).flushed());
    assert(f.tokens =~= g.tokens);
    assert(f.errors =~= g.errors);
}

proof fn lemma_step_frame(st: LexState, c: char)
    ensures
        st.step(c) == after(st.tokens, st.errors, pending(st).step(c)),
{
    lemma_flushed_frame(st);
    let f = st.step(c);
    let g = after(st.tokens, st.errors, pending(st).step(c));
    assert(f.tokens =~= g.tokens);
    assert(f.errors =~= g.errors);
}

/// The lexer only appends to what it has emitted: going on from any state emits the same as
/// going on from its pending part.
proof fn lemma_from_frame(st: LexState, t: Seq<char>)
    ensures
        lex_from(st, t) == after(st.tokens, st.errors, lex_from(pending(st), t)),
    decreases t.len(),
{
    if t.len() == 0 {
        assert(st.tokens + Seq::<TokenView>::empty() =~= st.tokens);
        assert(st.errors + Seq::<LexerErrorView>::empty() =~= st.errors);
    } else {
        let c = t[0];
        let a = st.step(c);
        let b = pending(st).step(c);
        lemma_step_frame(st, c);
        lemma_from_frame(a, t.skip(1));
        lemma_from_frame(b, t.skip(1));
        assert(pending(a) == pending(b));
        let l = lex_from(pending(b), t.skip(1));
        assert(st.tokens + (b.tokens + l.tokens) =~= (st.tokens + b.tokens) + l.tokens);
        assert(st.errors + (b.errors + l.errors) =~= (st.errors + b.errors) + l.errors);
    }
}

/// A word read from a state with no pending word or comment starts a run of its own.
proof fn lemma_word_run(st: LexState, r: Seq<char>)
    requires
        st.run_kind == RunKind::Empty || st.run_kind == RunKind::Space,
        word(r),
    ensures
        lex_from(st, r) == (LexState {
            run: r,
            run_kind: if is_digit(r[0]) {
                RunKind::InvalidIdent
            } else {
                RunKind::Ident
            },
            ..st.flushed()
        }),
    decreases r.len(),
{
    let c = r[0];
    assert(is_letter(r[0]) || is_digit(r[0]));
    let a = st.step(c);
    assert(lex_from(st, r) == lex_from(a, r.skip(1)));
    assert(a.run == seq![c]);
    assert forall|j: int| 0 <= j < r.skip(1).len() implies is_letter(#[trigger] r.skip(1)[j])
        || is_digit(r.skip(1)[j]) by {
        assert(r.skip(1)[j] == r[j + 1]);
    }
    lemma_word_tail(a, r.skip(1), seq![c]);
    assert(seq![c] + r.skip(1) =~= r);
}

/// Letters and digits read while a word is pending extend it.
proof fn lemma_word_tail(st: LexState, t: Seq<char>, run: Seq<char>)
    requires
        st.run_kind == RunKind::Ident || st.run_kind == RunKind::InvalidIdent,
        st.run == run,
        forall|j: int| 0 <= j < t.len() ==> is_letter(#[trigger] t[j]) || is_digit(t[j]),
    ensures
        lex_from(st, t) == (LexState { run: run + t, ..st }),
    decreases t.len(),
{
    if t.len() == 0 {
        assert(run + t =~= run);
    } else {
        assert(is_letter(t[0]) || is_digit(t[0]));
        let a = st.step(t[0]);
        assert forall|j: int| 0 <= j < t.skip(1).len() implies is_letter(#[trigger] t.skip(1)[j])
            || is_digit(t.skip(1)[j]) by {
            assert(t.skip(1)[j] == t[j + 1]);
        }
        lemma_word_tail(a, t.skip(1), run.push(t[0]));
        assert(run.push(t[0]) + t.skip(1) =~= run + t);
    }
}

/// A character that is no letter or digit ends a pending word before anything else.
proof fn lemma_word_end(st: LexState, c: char)
    requires
        st.run_kind == RunKind::Ident || st.run_kind == RunKind::InvalidIdent,
        !is_letter(c) && !is_digit(c),
    ensures
        st.step(c) == st.flushed().step(c),
{
}

/// An invalid identifier takes nothing else with it: putting a run that starts with a digit
/// where a valid identifier of the same length stood, both as whole runs outside a comment,
/// drops that identifier's token and adds an invalid-identifier error at its position; every
/// other token and error, with its text and position, stays the same.
pub proof fn lemma_invalid_identifier_in_place(p: Seq<char>, r: Seq<char>, r2: Seq<char>, q: Seq<char>)
    requires
        lexed(p).run_kind == RunKind::Empty || lexed(p).run_kind == RunKind::Space,
        word(r),
        is_digit(r[0]),
        word(r2),
        is_letter(r2[0]),
        r2 != seq!['m', 'o', 'd'],
        r2.len() == r.len(),
        q.len() == 0 || (!is_letter(q[0]) && !is_digit(q[0])),
    ensures
        ({
            let a = lexed(p + r + q).flushed();
            let b = lexed(p + r2 + q).flushed();
            let f = lexed(p).flushed();
            exists|ts: Seq<TokenView>, es: Seq<LexerErrorView>|
                {
                    &&& a.tokens == f.tokens + ts
                    &&& b.tokens == f.tokens.push(
                        TokenView { kind: TokenKind::Identifier, text: r2, position: f.pos() },
                    ) + ts
                    &&& a.errors == f.errors.push(LexerErrorView::InvalidIdentifier(r, f.pos())) + es
                    &&& b.errors == f.errors + es
                }
        }),
{
    let l = lexed(p);
    let f = l.flushed();
    lemma_lexed_concat(p + r, q);
    lemma_lexed_concat(p + r2, q);
    lemma_lexed_concat(p, r);
    lemma_lexed_concat(p, r2);
    lemma_word_run(l, r);
    lemma_word_run(l, r2);
    let x = LexState { run: r, run_kind: RunKind::InvalidIdent, ..f };
    let y = LexState { run: r2, run_kind: RunKind::Ident, ..f };
    assert(lexed(p + r) == x);
    assert(lexed(p + r2) == y);
    let xf = x.flushed();
    let yf = y.flushed();
    assert(pending(xf) == pending(yf));
    if q.len() == 0 {
        assert(p + r + q =~= p + r);
        assert(p + r2 + q =~= p + r2);
        assert(lexed(p + r + q).flushed() == xf);
        assert(lexed(p + r2 + q).flushed() == yf);
        let ts = Seq::<TokenView>::empty();
        let es = Seq::<LexerErrorView>::empty();
        assert(xf.tokens =~= f.tokens + ts);
        assert(yf.tokens =~= yf.tokens + ts);
        assert(xf.errors =~= xf.errors + es);
        assert(yf.errors =~= f.errors + es);
    } else {
        lemma_word_end(x, q[0]);
        lemma_word_end(y, q[0]);
        assert(lex_from(x, q) == lex_from(xf, q));
        assert(lex_from(y, q) == lex_from(yf, q));
        lemma_from_frame(xf, q);
        lemma_from_frame(yf, q);
        let d = lex_from(pending(xf), q);
        assert(lex_from(pending(yf), q) == d);
        lemma_flushed_frame(lex_from(xf, q));
        lemma_flushed_frame(lex_from(yf, q));
        lemma_flushed_frame(d);
        assert(pending(lex_from(xf, q)) == pending(d));
        assert(pending(lex_from(yf, q)) == pending(d));
        let ts = d.tokens + pending(d).flushed().tokens;
        let es = d.errors + pending(d).flushed().errors;
        assert(lexed(p + r + q).flushed().tokens =~= xf.tokens + ts);
        assert(lexed(p + r2 + q).flushed().tokens =~= yf.tokens + ts);
        assert(lexed(p + r + q).flushed().errors =~= xf.errors + es);
        assert(lexed(p + r2 + q).flushed().errors =~= yf.errors + es);
    }
}

/// Relies on String::push: appends one character.
#[verifier::external_body]
pub(crate) fn push_char(s: &mut String, c: char)
    ensures
        final(s)@ == old(s)@.push(c),
{
    s.push(c)
}

fn one_char_string(c: char) -> (r: String)
    ensures
        r@ == seq![c],
{
    let mut s = String::new();
    push_char(&mut s, c);
    proof {
        assert(s@ =~= seq![c]);
    }
    s
}

struct Lexer {
    tokens: Vec<Token>,
    errors: Vec<LexerError>,
    run: String,
    run_len: usize,
    run_kind: RunKind,
    line: usize,
    col: usize,
}

impl View for Lexer {
    type V = LexState;

    closed spec fn view(&self) -> LexState {
        LexState {
            tokens: tokens_view(self.tokens@),
            errors: errors_view(self.errors@),
            run: self.run@,
            run_kind: self.run_kind,
            line: self.line as nat,
            col: self.col as nat,
        }
    }
}

impl Lexer {
    closed spec fn wf(&self) -> bool {
        &&& self.run_len == self.run@.len()
        &&& (self.run_kind == RunKind::Empty <==> self.run@.len() == 0)
    }

    /// Room for `n` more characters in the counters.
    closed spec fn room(&self, n: nat) -> bool {
        self.line + self.col + self.run_len + n < usize::MAX
    }

    fn is_blank(c: char) -> (r: bool)
        ensures
            r == is_blank(c),
    {
        ('\u{9}' <= c && c <= '\u{d}' && c != '\n') || c == ' ' || c == '\u{85}' || c == '\u{a0}'
            || c == '\u{1680}' || ('\u{2000}' <= c && c <= '\u{200a}') || c == '\u{2028}' || c
            == '\u{2029}' || c == '\u{202f}' || c == '\u{205f}' || c == '\u{3000}'
    }

    fn is_letter(c: char) -> (r: bool)
        ensures
            r == is_letter(c),
    {
        ('a' <= c && c <= 'z') || ('A' <= c && c <= 'Z') || c == '_'
    }

    fn is_digit(c: char) -> (r: bool)
        ensures
            r == is_digit(c),
    {
        '0' <= c && c <= '9'
    }

    fn sign_kind(c: char) -> (r: Option<TokenKind>)
        ensures
            r == sign_kind(c),
    {
        if c == '$' {
            Some(TokenKind::Port)
        } else if c == '>' {
            Some(TokenKind::Charge)
        } else if c == '.' {
            Some(TokenKind::Block)
        } else if c == ';' {
            Some(TokenKind::Semicolon)
        } else if c == ',' {
            Some(TokenKind::Comma)
        } else if c == '{' {
            Some(TokenKind::OpenBrace)
        } else if c == '}' {
            Some(TokenKind::CloseBrace)
        } else {
            None
        }
    }

    fn is_mod(s: &String) -> (r: bool)
        ensures
            r == (s@ == seq!['m', 'o', 'd']),
    {
        let m = String::from_str("mod");
        proof {
            reveal_strlit("mod");
            assert(m@ =~= seq!['m', 'o', 'd']);
        }
        *s == m
    }

    /// Emits the pending run.
    fn flush(&mut self)
        requires
            old(self).wf(),
            old(self).room(0),
        ensures
            final(self).wf(),
            final(self)@ == old(self)@.flushed(),
            final(self).line == old(self).line,
            final(self).col + final(self).run_len == old(self).col + old(self).run_len,
    {
        let ghost s0 = self@;
        let pos = SourcePosition::new(self.line, self.col);
        match self.run_kind {
            RunKind::Empty => {
                return ;
            },
            RunKind::Space => {
                let text = self.take_run();
                self.tokens.push(Token::new(TokenKind::Space, text, pos));
            },
            RunKind::Comment => {
                let text = self.take_run();
                self.tokens.push(Token::new(TokenKind::Comment, text, pos));
            },
            RunKind::Ident => {
                let kind = if Self::is_mod(&self.run) {
                    TokenKind::Mod
                } else {
                    TokenKind::Identifier
                };
                let text = self.take_run();
                self.tokens.push(Token::new(kind, text, pos));
            },
            RunKind::InvalidIdent => {
                let text = self.take_run();
                self.errors.push(
                    LexerError { error_kind: LexerErrorKind::InvalidIdentifier(text), position: pos },
                );
            },
        }
        proof {
            let f = s0.flushed();
            assert(self@.tokens =~= f.tokens);
            assert(self@.errors =~= f.errors);
            assert(self@.run =~= f.run);
        }
    }

    /// Takes the pending run out, moving the column past it.
    fn take_run(&mut self) -> (text: String)
        requires
            old(self).wf(),
            old(self).room(0),
        ensures
            text@ == old(self).run@,
            final(self).run@.len() == 0,
            final(self).run_len == 0,
            final(self).run_kind == RunKind::Empty,
            final(self).col == old(self).col + old(self).run_len,
            final(self).line == old(self).line,
            final(self).tokens == old(self).tokens,
            final(self).errors == old(self).errors,
    {
        let mut text = String::new();
        core::mem::swap(&mut text, &mut self.run);
        self.col = self.col + self.run_len;
        self.run_len = 0;
        self.run_kind = RunKind::Empty;
        text
    }

    /// Takes one character.
    fn step(&mut self, c: char)
        requires
            old(self).wf(),
            old(self).room(1),
        ensures
            final(self).wf(),
            final(self)@ == old(self)@.step(c),
            final(self).line + final(self).col + final(self).run_len <= old(self).line
                + old(self).col + old(self).run_len + 1,
    {
        if self.run_kind == RunKind::Comment && c != '\n' {
            push_char(&mut self.run, c);
            self.run_len = self.run_len + 1;
        } else if Self::is_blank(c) {
            if self.run_kind == RunKind::Space {
                push_char(&mut self.run, c);
                self.run_len = self.run_len + 1;
            } else {
                self.flush();
                self.start_run(c, RunKind::Space);
            }
        } else if Self::is_letter(c) || Self::is_digit(c) {
            if self.run_kind == RunKind::Ident || self.run_kind == RunKind::InvalidIdent {
                push_char(&mut self.run, c);
                self.run_len = self.run_len + 1;
            } else {
                self.flush();
                let kind = if Self::is_digit(c) {
                    RunKind::InvalidIdent
                } else {
                    RunKind::Ident
                };
                self.start_run(c, kind);
            }
        } else if c == '\n' {
            self.flush();
            let pos = SourcePosition::new(self.line, self.col);
            self.tokens.push(Token::new(TokenKind::EndLine, one_char_string(c), pos));
            self.line = self.line + 1;
            self.col = 0;
        } else if c == '#' {
            self.flush();
            self.start_run(c, RunKind::Comment);
        } else {
            self.flush();
            let pos = SourcePosition::new(self.line, self.col);
            match Self::sign_kind(c) {
                Some(kind) => {
                    self.tokens.push(Token::new(kind, one_char_string(c), pos));
                },
                None => {
                    self.errors.push(
                        LexerError { error_kind: LexerErrorKind::UnknownChar(c), position: pos },
                    );
                },
            }
            self.col = self.col + 1;
        }
        proof {
            let t = old(self)@.step(c);
            assert(self@.tokens =~= t.tokens);
            assert(self@.errors =~= t.errors);
            assert(self@.run =~= t.run);
        }
    }

    /// Starts a new run with `c`; the pending run is empty.
    fn start_run(&mut self, c: char, kind: RunKind)
        requires
            old(self).wf(),
            old(self).run_len == 0,
            kind != RunKind::Empty,
        ensures
            final(self).wf(),
            final(self)@ == (LexState { run: seq![c], run_kind: kind, ..old(self)@ }),
            final(self).run_len == 1,
            final(self).line == old(self).line,
            final(self).col == old(self).col,
    {
        self.run = one_char_string(c);
        self.run_len = 1;
        self.run_kind = kind;
    }
}

/// Splits `source` into tokens, and reports the characters it cannot take.
///
/// Scanning never stops at an error. Blanks merge into one token, a comment runs to the end of
/// its line, a run that starts with a digit is reported as an invalid identifier and gives no
/// token, and an unknown character is reported and dropped.
pub fn lex(source: &str) -> (r: (Vec<Token>, Vec<LexerError>))
    requires
        source@.len() < usize::MAX - 1,
    ensures
        tokens_view(r.0@) == lexed(source@).flushed().tokens,
        errors_view(r.1@) == lexed(source@).flushed().errors,
{
    broadcast use vstd::string::group_string_axioms;

    let mut lexer = Lexer {
        tokens: Vec::new(),
        errors: Vec::new(),
        run: String::new(),
        run_len: 0,
        run_kind: RunKind::Empty,
        line: 0,
        col: 0,
    };
    proof {
        assert(lexer@.tokens =~= Seq::<TokenView>::empty());
        assert(lexer@.errors =~= Seq::<LexerErrorView>::empty());
        assert(lexer@.run =~= Seq::<char>::empty());
    }
    for c in it: source.chars()
        invariant
            it.seq() == source@,
            source@.len() < usize::MAX - 1,
            lexer.wf(),
            lexer.line + lexer.col + lexer.run_len <= it.index(),
            lexer@ == lexed(source@.subrange(0, it.index() as int)),
    {
        proof {
            let pre = source@.subrange(0, it.index() as int);
            let post = source@.subrange(0, it.index() as int + 1);
            assert(post.drop_last() =~= pre);
            assert(post.last() == c);
        }
        lexer.step(c);
    }
    proof {
        assert(source@.subrange(0, source@.len() as int) =~= source@);
    }
    lexer.flush();
    (lexer.tokens, lexer.errors)
}

} // verus!
