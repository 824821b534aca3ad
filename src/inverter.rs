use vstd::prelude::*;
use crate::lex::{tokens_view, Token, TokenKind, TokenView};

verus! {

/// What the normalizer has just passed on, as far as its next decision depends on it.
#[derive(Debug)]
pub enum InverterState {
    Normal,
    /// A port sign: a blank right after it is kept, so that the parser sees it.
    WasPort,
    /// An identifier: a line break right after it may end the statement.
    WasIdent,
    /// A line break after an identifier, held until the next token decides its fate.
    WasEndl(Token),
}

pub enum HeldView {
    Normal,
    WasPort,
    WasIdent,
    WasEndl(TokenView),
}

/// The normalizer's state: the raw tokens, how far it has read them, what it holds, and the
/// tokens ready to hand out (the last one first).
pub struct InverterView {
    pub tokens: Seq<TokenView>,
    pub index: nat,
    pub state: HeldView,
    pub stack: Seq<TokenView>,
}

pub open spec fn is_separator(k: TokenKind) -> bool {
    k == TokenKind::Semicolon || k == TokenKind::EndLine
}

impl InverterView {
    pub open spec fn initial(tokens: Seq<TokenView>) -> InverterView {
        InverterView { tokens, index: 0, state: HeldView::Normal, stack: Seq::empty() }
    }

    /// Reads one raw token. Operators and delimiters pass; blanks and comments are dropped but
    /// directly after a port sign; an identifier, a reserved word or a port sign releases a held
    /// line break before itself; a line break right after an identifier is held, one after a
    /// held line break is merged into it, and any other is dropped and ends what it follows.
    pub open spec fn read_one(self) -> InverterView {
        let t = self.tokens[self.index as int];
        let v = InverterView { index: self.index + 1, ..self };
        let released = |s: Seq<TokenView>|
            match self.state {
                HeldView::WasEndl(e) => s.push(e),
                _ => s,
            };
        match t.kind {
            TokenKind::Space | TokenKind::Comment => match self.state {
                HeldView::WasPort => InverterView {
                    state: HeldView::Normal,
                    stack: self.stack.push(t),
                    ..v
                },
                _ => v,
            },
            TokenKind::EndLine => match self.state {
                HeldView::WasIdent => InverterView { state: HeldView::WasEndl(t), ..v },
                HeldView::WasEndl(_) => v,
                _ => InverterView { state: HeldView::Normal, ..v },
            },
            TokenKind::Port => InverterView {
                state: HeldView::WasPort,
                stack: released(self.stack.push(t)),
                ..v
            },
            TokenKind::Identifier | TokenKind::Mod => InverterView {
                state: HeldView::WasIdent,
                stack: released(self.stack.push(t)),
                ..v
            },
            _ => InverterView { state: HeldView::Normal, stack: self.stack.push(t), ..v },
        }
    }

    /// Reads raw tokens until one is ready to hand out or the raw tokens are exhausted.
    pub open spec fn filled(self) -> InverterView
        decreases self.tokens.len() - self.index,
    {
        if self.stack.len() == 0 && self.index < self.tokens.len() {
            self.read_one().filled()
        } else {
            self
        }
    }

    /// The next token handed out, if any.
    pub open spec fn next_token(self) -> Option<TokenView> {
        let f = self.filled();
        if f.stack.len() > 0 {
            Some(f.stack.last())
        } else {
            None
        }
    }

    /// The state after handing out the next token.
    pub open spec fn advanced(self) -> InverterView {
        let f = self.filled();
        if f.stack.len() > 0 {
            InverterView { stack: f.stack.drop_last(), ..f }
        } else {
            f
        }
    }

    /// Drops the ready tokens through the first separator among them; if there is none, drops
    /// raw tokens up to the next separator, which stays to be read, and forgets what is held.
    pub open spec fn recovered(self) -> InverterView
        decreases self.stack.len(),
    {
        if self.stack.len() > 0 {
            let rest = InverterView { stack: self.stack.drop_last(), ..self };
            if is_separator(self.stack.last().kind) {
                rest
            } else {
                rest.recovered()
            }
        } else {
            InverterView {
                index: skip_to_separator(self.tokens, self.index),
                state: HeldView::Normal,
                ..self
            }
        }
    }
}

impl InverterView {
    /// Work left: raw tokens count twice, ready and held tokens once.
    pub open spec fn measure(self) -> int {
        2 * (self.tokens.len() - self.index) + self.stack.len() + match self.state {
            HeldView::WasEndl(_) => 1int,
            _ => 0int,
        }
    }
}

proof fn lemma_read_one(v: InverterView)
    requires
        v.index < v.tokens.len(),
    ensures
        v.read_one().measure() < v.measure(),
        v.read_one().tokens == v.tokens,
        v.read_one().index == v.index + 1,
{
}

/// Filling stops with a token ready or the raw tokens exhausted, and does not add work.
pub proof fn lemma_filled(v: InverterView)
    requires
        v.index <= v.tokens.len(),
    ensures
        v.filled().stack.len() > 0 || v.filled().index >= v.tokens.len(),
        v.filled().tokens == v.tokens,
        v.filled().index <= v.tokens.len(),
        v.filled().measure() <= v.measure(),
        v.filled().filled() == v.filled(),
        v.filled().next_token() == v.next_token(),
        v.filled().advanced() == v.advanced(),
    decreases v.tokens.len() - v.index,
{
    if v.stack.len() == 0 && v.index < v.tokens.len() {
        lemma_read_one(v);
        lemma_filled(v.read_one());
    }
}

/// Handing out a token removes work.
pub proof fn lemma_advanced(v: InverterView)
    requires
        v.index <= v.tokens.len(),
        v.next_token() is Some,
    ensures
        v.advanced().measure() < v.measure(),
        v.advanced().tokens == v.tokens,
        v.advanced().index <= v.tokens.len(),
{
    lemma_filled(v);
}

proof fn lemma_skip(tokens: Seq<TokenView>, i: nat)
    requires
        i <= tokens.len(),
    ensures
        i <= skip_to_separator(tokens, i) <= tokens.len(),
    decreases tokens.len() - i,
{
    if i < tokens.len() && !is_separator(tokens[i as int].kind) {
        lemma_skip(tokens, i + 1);
    }
}

/// Recovery does not add work.
pub proof fn lemma_recovered(v: InverterView)
    requires
        v.index <= v.tokens.len(),
    ensures
        v.recovered().measure() <= v.measure(),
        v.recovered().tokens == v.tokens,
        v.recovered().index <= v.tokens.len(),
    decreases v.stack.len(),
{
    if v.stack.len() > 0 {
        let rest = InverterView { stack: v.stack.drop_last(), ..v };
        if !is_separator(v.stack.last().kind) {
            lemma_recovered(rest);
        }
    } else {
        lemma_skip(v.tokens, v.index);
    }
}

/// The first position at or after `i` that holds a separator, or the end.
pub open spec fn skip_to_separator(tokens: Seq<TokenView>, i: nat) -> nat
    decreases tokens.len() - i,
{
    if i >= tokens.len() || is_separator(tokens[i as int].kind) {
        i
    } else {
        skip_to_separator(tokens, i + 1)
    }
}

/// Sits between lexer and parser: drops layout, and decides of each line break whether it ends
/// a statement, which needs one token of lookahead.
pub struct Inverter {
    tokens: Vec<Token>,
    index: usize,
    state: InverterState,
    stack: Vec<Token>,
}

impl View for InverterState {
    type V = HeldView;

    open spec fn view(&self) -> HeldView {
        match self {
            InverterState::Normal => HeldView::Normal,
            InverterState::WasPort => HeldView::WasPort,
            InverterState::WasIdent => HeldView::WasIdent,
            InverterState::WasEndl(t) => HeldView::WasEndl(t@),
        }
    }
}

impl View for Inverter {
    type V = InverterView;

    closed spec fn view(&self) -> InverterView {
        InverterView {
            tokens: tokens_view(self.tokens@),
            index: self.index as nat,
            state: self.state@,
            stack: tokens_view(self.stack@),
        }
    }
}

impl Inverter {
    /// The read position stays within the raw tokens.
    pub closed spec fn wf(&self) -> bool {
        self.index <= self.tokens@.len()
    }

    /// The read position of a well-formed normalizer lies within its raw tokens.
    pub proof fn lemma_index_in_range(&self)
        requires
            self.wf(),
        ensures
            self@.index <= self@.tokens.len(),
    {
    }

    pub fn new(tokens: Vec<Token>) -> (r: Inverter)
        ensures
            r.wf(),
            r@ == InverterView::initial(tokens_view(tokens@)),
    {
        let r = Inverter { tokens, index: 0, state: InverterState::Normal, stack: Vec::new() };
        assert(r@.stack =~= Seq::<TokenView>::empty());
        r
    }

    fn read_one(&mut self)
        requires
            old(self).wf(),
            old(self).index < old(self).tokens@.len(),
        ensures
            final(self).wf(),
            final(self)@ == old(self)@.read_one(),
    {
        let ghost v0 = self@;
        let n = self.tokens.len();
        assert(self.index < n);
        let token = self.tokens[self.index].duplicate();
        self.index = self.index + 1;
        match token.kind {
            TokenKind::Space | TokenKind::Comment => {
                if let InverterState::WasPort = self.state {
                    self.stack.push(token);
                    self.state = InverterState::Normal;
                }
            },
            TokenKind::EndLine => {
                match self.state {
                    InverterState::WasIdent => {
                        self.state = InverterState::WasEndl(token);
                    },
                    InverterState::WasEndl(_) => {},
                    _ => {
                        self.state = InverterState::Normal;
                    },
                }
            },
            TokenKind::Port | TokenKind::Identifier | TokenKind::Mod => {
                let next = if token.kind == TokenKind::Port {
                    InverterState::WasPort
                } else {
                    InverterState::WasIdent
                };
                self.stack.push(token);
                let held = replace_state(&mut self.state, next);
                if let InverterState::WasEndl(e) = held {
                    self.stack.push(e);
                }
            },
            _ => {
                self.stack.push(token);
                self.state = InverterState::Normal;
            },
        }
        proof {
            let r = v0.read_one();
            assert(self@.stack =~= r.stack);
        }
    }

    /// Reads raw tokens until one is ready or none is left.
    fn fill(&mut self)
        requires
            old(self).wf(),
        ensures
            final(self).wf(),
            final(self)@ == old(self)@.filled(),
    {
        while self.stack.len() == 0 && self.index < self.tokens.len()
            invariant
                self.wf(),
                self@.filled() == old(self)@.filled(),
            decreases self.tokens@.len() - self.index,
        {
            self.read_one();
        }
    }

    /// The next token, without taking it.
    pub fn peek(&mut self) -> (r: Option<Token>)
        requires
            old(self).wf(),
        ensures
            final(self).wf(),
            final(self)@ == old(self)@.filled(),
            match r {
                Some(t) => old(self)@.next_token() == Some(t@),
                None => old(self)@.next_token() is None,
            },
    {
        self.fill();
        let n = self.stack.len();
        if n > 0 {
            Some(self.stack[n - 1].duplicate())
        } else {
            None
        }
    }

    /// Takes the next token.
    pub fn expect(&mut self) -> (r: Option<Token>)
        requires
            old(self).wf(),
        ensures
            final(self).wf(),
            final(self)@ == old(self)@.advanced(),
            match r {
                Some(t) => old(self)@.next_token() == Some(t@),
                None => old(self)@.next_token() is None,
            },
    {
        self.fill();
        let ghost st = self.stack@;
        let r = self.stack.pop();
        proof {
            if st.len() > 0 {
                assert(tokens_view(self.stack@) =~= tokens_view(st).drop_last());
            }
        }
        r
    }

    /// Error recovery: drops tokens through the next statement separator.
    pub fn consume_end(&mut self)
        requires
            old(self).wf(),
        ensures
            final(self).wf(),
            final(self)@ == old(self)@.recovered(),
    {
        while self.stack.len() > 0
            invariant
                self.wf(),
                self@.recovered() == old(self)@.recovered(),
            decreases self.stack@.len(),
        {
            let ghost v = self@;
            let t = self.stack.pop();
            proof {
                assert(self@.stack =~= v.stack.drop_last());
            }
            match t {
                Some(t) => {
                    if t.kind == TokenKind::Semicolon || t.kind == TokenKind::EndLine {
                        return ;
                    }
                },
                None => {},
            }
        }
        while self.index < self.tokens.len() && !(self.tokens[self.index].kind
            == TokenKind::Semicolon || self.tokens[self.index].kind == TokenKind::EndLine)
            invariant
                self.wf(),
                self@.stack.len() == 0,
                old(self)@.recovered() == (InverterView {
                    index: skip_to_separator(self@.tokens, self@.index),
                    state: HeldView::Normal,
                    ..self@
                }),
            decreases self.tokens@.len() - self.index,
        {
            self.index = self.index + 1;
        }
        self.state = InverterState::Normal;
    }
}

/// Puts `next` in place of the state and returns the state it replaced.
fn replace_state(state: &mut InverterState, next: InverterState) -> (r: InverterState)
    ensures
        r == *old(state),
        *final(state) == next,
{
    let mut n = next;
    core::mem::swap(state, &mut n);
    n
}

} // verus!
