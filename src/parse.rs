use vstd::prelude::*;
use crate::inverter::{
    is_separator, lemma_advanced, lemma_filled, lemma_recovered, Inverter, InverterView,
};
use crate::lex::{tokens_view, SourcePosition, Token, TokenKind, TokenView};
use crate::translate::{ConVec, Connection, ConnectionView, IdentKind, IdentView, Identifier};

verus! {

#[derive(Clone, Debug, PartialEq, Eq)]
pub enum ParserError {
    /// A token that the grammar does not allow where it stands.
    UnexpectedToken(SourcePosition),
    /// The input ended inside a statement.
    UnexpectedEnd,
    /// No input port, or no output port, was declared.
    IOMin,
    /// An output port is the target of a block connection.
    OutPortBlock(String),
    /// A name used with a kind other than the one it first had: name, kind here, first kind.
    InconstIdKind(String, IdentKind, IdentKind),
}

pub enum ParserErrorView {
    UnexpectedToken(SourcePosition),
    UnexpectedEnd,
    IOMin,
    OutPortBlock(Seq<char>),
    InconstIdKind(Seq<char>, IdentKind, IdentKind),
}

impl View for ParserError {
    type V = ParserErrorView;

    open spec fn view(&self) -> ParserErrorView {
        match self {
            ParserError::UnexpectedToken(p) => ParserErrorView::UnexpectedToken(*p),
            ParserError::UnexpectedEnd => ParserErrorView::UnexpectedEnd,
            ParserError::IOMin => ParserErrorView::IOMin,
            ParserError::OutPortBlock(n) => ParserErrorView::OutPortBlock(n@),
            ParserError::InconstIdKind(n, k, k0) => ParserErrorView::InconstIdKind(n@, *k, *k0),
        }
    }
}

pub open spec fn parser_errors_view(es: Seq<ParserError>) -> Seq<ParserErrorView> {
    es.map_values(|e: ParserError| e@)
}

/// The operator that introduced the batch in progress.
#[derive(Clone, Copy, Debug, PartialEq, Eq, Structural)]
pub enum Role {
    /// The first batch of a statement.
    First,
    Charge,
    Block,
    /// A further identifier of the same batch.
    Comma,
}

/// Where the parser stands in the grammar.
#[derive(Clone, Copy, Debug, PartialEq, Eq, Structural)]
pub enum Phase {
    /// At the start of a statement.
    Statement,
    /// Expecting an identifier, possibly after a port sign.
    Id(Role),
    /// After a port sign, expecting its identifier.
    PortId(Role),
    /// After an identifier of a batch.
    AfterId,
    Done,
}

/// An identifier as written in a batch: its name and whether a port sign preceded it.
pub type IdPairView = (Seq<char>, bool);

/// The parser's state.
pub struct ParseState {
    pub inv: InverterView,
    pub phase: Phase,
    /// The batch before the last operator.
    pub from: Seq<IdPairView>,
    /// The batch after the last operator.
    pub to: Seq<IdPairView>,
    pub is_charge: bool,
    pub connections: Seq<ConnectionView>,
    pub errors: Seq<ParserErrorView>,
    /// Each name with the kind it had first.
    pub kinds: Seq<(Seq<char>, IdentKind)>,
}

/// The kind first recorded for `name`.
pub open spec fn kind_of(kinds: Seq<(Seq<char>, IdentKind)>, name: Seq<char>) -> Option<IdentKind> {
    if exists|i: int| 0 <= i < kinds.len() && kinds[i].0 == name {
        let i = choose|i: int| 0 <= i < kinds.len() && kinds[i].0 == name;
        Some(kinds[i].1)
    } else {
        None
    }
}

pub open spec fn names_distinct(kinds: Seq<(Seq<char>, IdentKind)>) -> bool {
    forall|i: int, j: int| 0 <= i < j < kinds.len() ==> kinds[i].0 != kinds[j].0
}

/// `name` may be used with kind `k`: it is new, or it was first used with `k`.
pub open spec fn consistent(kinds: Seq<(Seq<char>, IdentKind)>, name: Seq<char>, k: IdentKind) -> bool {
    match kind_of(kinds, name) {
        Some(k0) => k0 == k,
        None => true,
    }
}

/// An end's kind: a port sign makes the source an input port and the target an output port.
pub open spec fn end_kind(port: bool, is_from: bool) -> IdentKind {
    if !port {
        IdentKind::Node
    } else if is_from {
        IdentKind::InPort
    } else {
        IdentKind::OutPort
    }
}

pub open spec fn at_statement_start(st: ParseState, inv: InverterView) -> ParseState {
    ParseState { inv, phase: Phase::Statement, from: Seq::empty(), to: Seq::empty(), ..st }
}

impl ParseState {
    pub open spec fn initial(tokens: Seq<TokenView>) -> ParseState {
        ParseState {
            inv: InverterView::initial(tokens),
            phase: Phase::Statement,
            from: Seq::empty(),
            to: Seq::empty(),
            is_charge: true,
            connections: Seq::empty(),
            errors: Seq::empty(),
            kinds: Seq::empty(),
        }
    }

    /// Records the first kind of `name`, or reports a use with another kind.
    pub open spec fn checked(self, name: Seq<char>, k: IdentKind) -> ParseState {
        match kind_of(self.kinds, name) {
            Some(k0) => if k0 == k {
                self
            } else {
                ParseState {
                    errors: self.errors.push(ParserErrorView::InconstIdKind(name, k, k0)),
                    ..self
                }
            },
            None => ParseState { kinds: self.kinds.push((name, k)), ..self },
        }
    }

    /// The connection from `f` to `t`: both ends are checked for kind, and the connection is
    /// kept only if both are consistent.
    pub open spec fn paired(self, f: IdPairView, t: IdPairView) -> ParseState {
        let fk = end_kind(f.1, true);
        let tk = end_kind(t.1, false);
        let s1 = self.checked(f.0, fk);
        let s2 = s1.checked(t.0, tk);
        if consistent(self.kinds, f.0, fk) && consistent(s1.kinds, t.0, tk) {
            ParseState {
                connections: s2.connections.push(
                    ConnectionView {
                        from: IdentView { name: f.0, kind: fk },
                        to: IdentView { name: t.0, kind: tk },
                        is_charge: self.is_charge,
                    },
                ),
                ..s2
            }
        } else {
            s2
        }
    }

    /// The connections from `f` to each of `to`, in order.
    pub open spec fn row(self, f: IdPairView, to: Seq<IdPairView>) -> ParseState
        decreases to.len(),
    {
        if to.len() == 0 {
            self
        } else {
            self.row(f, to.drop_last()).paired(f, to.last())
        }
    }

    /// The connections from each of `from` to each of `to`, source by source.
    pub open spec fn cross(self, from: Seq<IdPairView>, to: Seq<IdPairView>) -> ParseState
        decreases from.len(),
    {
        if from.len() == 0 {
            self
        } else {
            self.cross(from.drop_last(), to).row(from.last(), to)
        }
    }

    /// The pending cross product of the last operator, emitted.
    pub open spec fn flushed(self) -> ParseState {
        self.cross(self.from, self.to)
    }

    /// An identifier of a batch: a comma adds it to the batch; an operator first emits the
    /// pending cross product, then makes the last batch the sources and starts a new one.
    pub open spec fn with_ident(self, id: IdPairView, role: Role) -> ParseState {
        if role == Role::Comma {
            ParseState { to: self.to.push(id), ..self }
        } else {
            let s1 = if self.from.len() > 0 {
                self.flushed()
            } else {
                self
            };
            ParseState { from: self.to, to: seq![id], is_charge: role != Role::Block, ..s1 }
        }
    }

    /// A token that the grammar does not allow: reported, and the rest of the statement
    /// skipped; the statement's pending connections are dropped.
    pub open spec fn failed(self, pos: SourcePosition, inv: InverterView) -> ParseState {
        at_statement_start(
            ParseState { errors: self.errors.push(ParserErrorView::UnexpectedToken(pos)), ..self },
            inv.recovered(),
        )
    }

    /// The input ended inside a statement.
    pub open spec fn ended_early(self) -> ParseState {
        ParseState {
            errors: self.errors.push(ParserErrorView::UnexpectedEnd),
            phase: Phase::Done,
            ..self
        }
    }

    /// One move of the parser.
    pub open spec fn step(self) -> ParseState {
        let tok = self.inv.next_token();
        let adv = self.inv.advanced();
        match self.phase {
            Phase::Done => self,
            Phase::Statement => match tok {
                None => ParseState { inv: self.inv.filled(), phase: Phase::Done, ..self },
                Some(t) => if is_separator(t.kind) {
                    ParseState { inv: adv, ..self }
                } else if t.kind == TokenKind::Identifier || t.kind == TokenKind::Port {
                    ParseState { inv: self.inv.filled(), phase: Phase::Id(Role::First), ..self }
                } else if t.kind == TokenKind::Mod {
                    ParseState { inv: adv.recovered(), ..self }
                } else {
                    self.failed(t.position, adv)
                },
            },
            Phase::Id(role) => match tok {
                None => ParseState { inv: adv, ..self }.ended_early(),
                Some(t) => if t.kind == TokenKind::Identifier {
                    ParseState {
                        phase: Phase::AfterId,
                        ..ParseState { inv: adv, ..self }.with_ident((t.text, false), role)
                    }
                } else if t.kind == TokenKind::Port {
                    ParseState { inv: adv, phase: Phase::PortId(role), ..self }
                } else {
                    self.failed(t.position, adv)
                },
            },
            Phase::PortId(role) => match tok {
                None => ParseState { inv: adv, ..self }.ended_early(),
                Some(t) => if t.kind == TokenKind::Identifier {
                    ParseState {
                        phase: Phase::AfterId,
                        ..ParseState { inv: adv, ..self }.with_ident((t.text, true), role)
                    }
                } else {
                    self.failed(t.position, adv)
                },
            },
            Phase::AfterId => match tok {
                None => if self.from.len() == 0 {
                    ParseState { inv: self.inv.filled(), ..self }.ended_early()
                } else {
                    at_statement_start(self.flushed(), self.inv.filled())
                },
                Some(t) => if t.kind == TokenKind::Comma {
                    ParseState { inv: adv, phase: Phase::Id(Role::Comma), ..self }
                } else if t.kind == TokenKind::Charge {
                    ParseState { inv: adv, phase: Phase::Id(Role::Charge), ..self }
                } else if t.kind == TokenKind::Block {
                    ParseState { inv: adv, phase: Phase::Id(Role::Block), ..self }
                } else if is_separator(t.kind) && self.from.len() > 0 {
                    at_statement_start(self.flushed(), self.inv.filled())
                } else {
                    self.failed(t.position, adv)
                },
            },
        }
    }

    /// The state after `k` moves.
    pub open spec fn run(self, k: nat) -> ParseState
        decreases k,
    {
        if k == 0 {
            self
        } else {
            self.run((k - 1) as nat).step()
        }
    }
}

/// Whether some name was first used as an input port and some as an output port.
pub open spec fn has_ports(kinds: Seq<(Seq<char>, IdentKind)>) -> bool {
    (exists|i: int| 0 <= i < kinds.len() && kinds[i].1 == IdentKind::InPort) && (exists|i: int|
        0 <= i < kinds.len() && kinds[i].1 == IdentKind::OutPort)
}

/// The names of output ports that are targets of block connections, each once, in order of
/// first such connection.
pub open spec fn blocked_outports(cons: Seq<ConnectionView>) -> Seq<Seq<char>>
    decreases cons.len(),
{
    if cons.len() == 0 {
        Seq::empty()
    } else {
        let acc = blocked_outports(cons.drop_last());
        let c = cons.last();
        if !c.is_charge && c.to.kind == IdentKind::OutPort && !acc.contains(c.to.name) {
            acc.push(c.to.name)
        } else {
            acc
        }
    }
}

/// An error in the structure of a statement, as opposed to one in the use of names.
pub open spec fn is_structural(e: ParserErrorView) -> bool {
    e is UnexpectedToken || e is UnexpectedEnd
}

pub open spec fn has_structural_error(errs: Seq<ParserErrorView>) -> bool {
    exists|i: int| 0 <= i < errs.len() && is_structural(#[trigger] errs[i])
}

/// The errors of a finished parse: with no structural error, the checks on ports follow the
/// errors found so far.
pub open spec fn final_errors(st: ParseState, io_min: bool) -> Seq<ParserErrorView> {
    if !has_structural_error(st.errors) {
        let io = if io_min && !has_ports(st.kinds) {
            seq![ParserErrorView::IOMin]
        } else {
            Seq::empty()
        };
        st.errors + io + blocked_outports(st.connections).map_values(
            |n: Seq<char>| ParserErrorView::OutPortBlock(n),
        )
    } else {
        st.errors
    }
}

/// More moves than any parse of `tokens` takes: each move removes work.
pub open spec fn move_bound(tokens: Seq<TokenView>) -> nat {
    10 * tokens.len() + 2
}

/// The parser's state once it has finished with `tokens`.
pub open spec fn parsed(tokens: Seq<TokenView>) -> ParseState {
    ParseState::initial(tokens).run(move_bound(tokens))
}

/// A finished parse stays finished.
proof fn lemma_run_done(s: ParseState, k: nat, k2: nat)
    requires
        s.run(k).phase == Phase::Done,
        k <= k2,
    ensures
        s.run(k2) == s.run(k),
    decreases k2,
{
    if k2 > k {
        lemma_run_done(s, k, (k2 - 1) as nat);
    }
}

/// No error in `errs` reports the end of input.
pub open spec fn no_end(errs: Seq<ParserErrorView>) -> bool {
    forall|i: int| 0 <= i < errs.len() ==> !(#[trigger] errs[i] is UnexpectedEnd)
}

/// The end of input is reported at most once, as the last error.
pub open spec fn end_last(errs: Seq<ParserErrorView>) -> bool {
    forall|i: int| 0 <= i < errs.len() && (#[trigger] errs[i] is UnexpectedEnd) ==> i == errs.len() - 1
}

/// What every state reached from the start satisfies.
pub open spec fn end_inv(st: ParseState) -> bool {
    &&& st.inv.index <= st.inv.tokens.len()
    &&& st.phase != Phase::Done ==> no_end(st.errors)
    &&& end_last(st.errors)
    &&& st.phase == Phase::Done ==> st.inv.next_token() is None
}

proof fn lemma_checked_no_end(st: ParseState, name: Seq<char>, k: IdentKind)
    requires
        no_end(st.errors),
    ensures
        no_end(st.checked(name, k).errors),
{
}

proof fn lemma_row_no_end(st: ParseState, f: IdPairView, to: Seq<IdPairView>)
    requires
        no_end(st.errors),
    ensures
        no_end(st.row(f, to).errors),
    decreases to.len(),
{
    if to.len() > 0 {
        lemma_row_no_end(st, f, to.drop_last());
        let s = st.row(f, to.drop_last());
        lemma_checked_no_end(s, f.0, end_kind(f.1, true));
        lemma_checked_no_end(s.checked(f.0, end_kind(f.1, true)), to.last().0, end_kind(to.last().1, false));
    }
}

proof fn lemma_cross_no_end(st: ParseState, from: Seq<IdPairView>, to: Seq<IdPairView>)
    requires
        no_end(st.errors),
    ensures
        no_end(st.cross(from, to).errors),
    decreases from.len(),
{
    if from.len() > 0 {
        lemma_cross_no_end(st, from.drop_last(), to);
        lemma_row_no_end(st.cross(from.drop_last(), to), from.last(), to);
    }
}

proof fn lemma_no_end_push(errs: Seq<ParserErrorView>, e: ParserErrorView)
    requires
        no_end(errs),
    ensures
        end_last(errs.push(e)),
        !(e is UnexpectedEnd) ==> no_end(errs.push(e)),
{
    assert forall|i: int| 0 <= i < errs.len() + 1 && (#[trigger] errs.push(e)[i] is UnexpectedEnd) implies i
        == errs.len() by {
        if i < errs.len() {
            assert(errs.push(e)[i] == errs[i]);
        }
    }
    assert forall|i: int| 0 <= i < errs.len() + 1 implies !(#[trigger] errs.push(e)[i] is UnexpectedEnd)
        || e is UnexpectedEnd by {
        if i < errs.len() {
            assert(errs.push(e)[i] == errs[i]);
        }
    }
}

proof fn lemma_step_end_inv(st: ParseState)
    requires
        end_inv(st),
    ensures
        end_inv(st.step()),
{
    if st.phase != Phase::Done {
        lemma_filled(st.inv);
        lemma_cross_no_end(st, st.from, st.to);
        lemma_cross_keeps(st, st.from, st.to);
        lemma_no_end_push(st.errors, ParserErrorView::UnexpectedEnd);
        let tok = st.inv.next_token();
        let adv = st.inv.advanced();
        if tok is Some {
            lemma_advanced(st.inv);
            lemma_recovered(adv);
            lemma_no_end_push(st.errors, ParserErrorView::UnexpectedToken(tok->0.position));
            let s1 = ParseState { inv: adv, ..st };
            lemma_cross_no_end(s1, s1.from, s1.to);
            lemma_cross_keeps(s1, s1.from, s1.to);
        }
    }
}

proof fn lemma_run_end_inv(tokens: Seq<TokenView>, k: nat)
    ensures
        end_inv(ParseState::initial(tokens).run(k)),
    decreases k,
{
    if k > 0 {
        lemma_run_end_inv(tokens, (k - 1) as nat);
        lemma_step_end_inv(ParseState::initial(tokens).run((k - 1) as nat));
    }
}

/// The end of input inside a statement is reported at most once, as the last error, and only
/// when every token has been read.
pub proof fn lemma_unexpected_end(tokens: Seq<TokenView>, io_min: bool)
    ensures
        end_last(final_errors(parsed(tokens), io_min)),
        (exists|i: int|
            0 <= i < final_errors(parsed(tokens), io_min).len() && #[trigger] final_errors(
                parsed(tokens),
                io_min,
            )[i] is UnexpectedEnd) ==> parsed(tokens).inv.next_token() is None,
{
    let st = parsed(tokens);
    lemma_run_end_inv(tokens, move_bound(tokens));
    if !has_structural_error(st.errors) {
        let fe = final_errors(st, io_min);
        assert forall|i: int| 0 <= i < fe.len() implies !(#[trigger] fe[i] is UnexpectedEnd) by {
            if i < st.errors.len() {
                assert(fe[i] == st.errors[i]);
                if st.errors[i] is UnexpectedEnd {
                    assert(is_structural(st.errors[i]));
                }
            } else {
                let io = if io_min && !has_ports(st.kinds) {
                    seq![ParserErrorView::IOMin]
                } else {
                    Seq::empty()
                };
                let rest = blocked_outports(st.connections).map_values(
                    |n: Seq<char>| ParserErrorView::OutPortBlock(n),
                );
                assert(fe == st.errors + io + rest);
                if i < st.errors.len() + io.len() {
                    assert(fe[i] == io[i - st.errors.len()]);
                } else {
                    assert(fe[i] == rest[i - st.errors.len() - io.len()]);
                }
            }
        }
    }
}

/// No error in `errs` comes from the port checks.
pub open spec fn no_checks(errs: Seq<ParserErrorView>) -> bool {
    forall|i: int|
        0 <= i < errs.len() ==> !(#[trigger] errs[i] is IOMin) && !(errs[i] is OutPortBlock)
}

proof fn lemma_push_no_checks(errs: Seq<ParserErrorView>, e: ParserErrorView)
    requires
        no_checks(errs),
        !(e is IOMin),
        !(e is OutPortBlock),
    ensures
        no_checks(errs.push(e)),
{
    assert forall|i: int| 0 <= i < errs.len() + 1 implies !(#[trigger] errs.push(e)[i] is IOMin)
        && !(errs.push(e)[i] is OutPortBlock) by {
        if i < errs.len() {
            assert(errs.push(e)[i] == errs[i]);
        }
    }
}

proof fn lemma_checked_no_checks(st: ParseState, name: Seq<char>, k: IdentKind)
    requires
        no_checks(st.errors),
    ensures
        no_checks(st.checked(name, k).errors),
{
    match kind_of(st.kinds, name) {
        Some(k0) => if k0 != k {
            lemma_push_no_checks(st.errors, ParserErrorView::InconstIdKind(name, k, k0));
        },
        None => {},
    }
}

proof fn lemma_row_no_checks(st: ParseState, f: IdPairView, to: Seq<IdPairView>)
    requires
        no_checks(st.errors),
    ensures
        no_checks(st.row(f, to).errors),
    decreases to.len(),
{
    if to.len() > 0 {
        lemma_row_no_checks(st, f, to.drop_last());
        let s = st.row(f, to.drop_last());
        lemma_checked_no_checks(s, f.0, end_kind(f.1, true));
        lemma_checked_no_checks(
            s.checked(f.0, end_kind(f.1, true)),
            to.last().0,
            end_kind(to.last().1, false),
        );
    }
}

proof fn lemma_cross_no_checks(st: ParseState, from: Seq<IdPairView>, to: Seq<IdPairView>)
    requires
        no_checks(st.errors),
    ensures
        no_checks(st.cross(from, to).errors),
    decreases from.len(),
{
    if from.len() > 0 {
        lemma_cross_no_checks(st, from.drop_last(), to);
        lemma_row_no_checks(st.cross(from.drop_last(), to), from.last(), to);
    }
}

proof fn lemma_step_no_checks(st: ParseState)
    requires
        no_checks(st.errors),
    ensures
        no_checks(st.step().errors),
{
    lemma_cross_no_checks(st, st.from, st.to);
    lemma_push_no_checks(st.errors, ParserErrorView::UnexpectedEnd);
    let tok = st.inv.next_token();
    if tok is Some {
        lemma_push_no_checks(st.errors, ParserErrorView::UnexpectedToken(tok->0.position));
        let s1 = ParseState { inv: st.inv.advanced(), ..st };
        lemma_cross_no_checks(s1, s1.from, s1.to);
    }
}

proof fn lemma_run_no_checks(tokens: Seq<TokenView>, k: nat)
    ensures
        no_checks(ParseState::initial(tokens).run(k).errors),
    decreases k,
{
    if k > 0 {
        lemma_run_no_checks(tokens, (k - 1) as nat);
        lemma_step_no_checks(ParseState::initial(tokens).run((k - 1) as nat));
    }
}

/// Once a statement was malformed or the input ended inside one, the port checks are skipped:
/// no error of the parse comes from them.
pub proof fn lemma_structural_error_skips_checks(tokens: Seq<TokenView>, io_min: bool)
    requires
        has_structural_error(parsed(tokens).errors),
    ensures
        final_errors(parsed(tokens), io_min) == parsed(tokens).errors,
        no_checks(final_errors(parsed(tokens), io_min)),
{
    lemma_run_no_checks(tokens, move_bound(tokens));
}

/// A name is in `blocked_outports(cons)` exactly when some connection blocks it as an output
/// port, and no name is in it twice.
pub proof fn lemma_blocked_outports(cons: Seq<ConnectionView>)
    ensures
        blocked_outports(cons).no_duplicates(),
        forall|n: Seq<char>|
            #[trigger] blocked_outports(cons).contains(n) <==> exists|k: int|
                0 <= k < cons.len() && !cons[k].is_charge && cons[k].to.kind == IdentKind::OutPort
                    && cons[k].to.name == n,
    decreases cons.len(),
{
    if cons.len() > 0 {
        let pre = cons.drop_last();
        lemma_blocked_outports(pre);
        let acc = blocked_outports(pre);
        let c = cons.last();
        let r = blocked_outports(cons);
        assert forall|n: Seq<char>| #[trigger] r.contains(n) <==> exists|k: int|
            0 <= k < cons.len() && !cons[k].is_charge && cons[k].to.kind == IdentKind::OutPort
                && cons[k].to.name == n by {
            if r.contains(n) {
                if acc.contains(n) {
                    let k = choose|k: int|
                        0 <= k < pre.len() && !pre[k].is_charge && pre[k].to.kind
                            == IdentKind::OutPort && pre[k].to.name == n;
                    assert(cons[k] == pre[k]);
                } else {
                    let q = choose|q: int| 0 <= q < r.len() && r[q] == n;
                    if q < acc.len() {
                        assert(r[q] == acc[q]);
                    }
                    assert(cons[cons.len() - 1] == c);
                }
            }
            if exists|k: int|
                0 <= k < cons.len() && !cons[k].is_charge && cons[k].to.kind == IdentKind::OutPort
                    && cons[k].to.name == n {
                let k = choose|k: int|
                    0 <= k < cons.len() && !cons[k].is_charge && cons[k].to.kind
                        == IdentKind::OutPort && cons[k].to.name == n;
                if k < pre.len() {
                    assert(pre[k] == cons[k]);
                    assert(acc.contains(n));
                    let q = choose|q: int| 0 <= q < acc.len() && acc[q] == n;
                    assert(r[q] == n);
                } else {
                    if acc.contains(n) {
                        let q = choose|q: int| 0 <= q < acc.len() && acc[q] == n;
                        assert(r[q] == n);
                    } else {
                        assert(r[acc.len() as int] == n);
                    }
                }
            }
        }
        assert forall|a: int, b: int| 0 <= a < r.len() && 0 <= b < r.len() && a != b implies r[a]
            != r[b] by {
            if r.len() > acc.len() {
                if a == acc.len() {
                    assert(acc.contains(acc[b]));
                } else if b == acc.len() {
                    assert(acc.contains(acc[a]));
                }
            }
        }
    }
}

/// With no structural error, the port check on blocks reports each output port that is the
/// target of a block connection exactly once, and nothing else.
pub proof fn lemma_outport_block_once(tokens: Seq<TokenView>, io_min: bool)
    requires
        !has_structural_error(parsed(tokens).errors),
    ensures
        forall|i: int, j: int|
            0 <= i < j < final_errors(parsed(tokens), io_min).len() && (
            #[trigger] final_errors(parsed(tokens), io_min)[i] is OutPortBlock) ==> final_errors(
                parsed(tokens),
                io_min,
            )[i] != #[trigger] final_errors(parsed(tokens), io_min)[j],
        forall|n: Seq<char>|
            #[trigger] final_errors(parsed(tokens), io_min).contains(
                ParserErrorView::OutPortBlock(n),
            ) <==> exists|k: int|
                0 <= k < parsed(tokens).connections.len() && !parsed(tokens).connections[k].is_charge
                    && parsed(tokens).connections[k].to.kind == IdentKind::OutPort
                    && parsed(tokens).connections[k].to.name == n,
{
    let st = parsed(tokens);
    lemma_run_no_checks(tokens, move_bound(tokens));
    lemma_blocked_outports(st.connections);
    let fe = final_errors(st, io_min);
    let io = if io_min && !has_ports(st.kinds) {
        seq![ParserErrorView::IOMin]
    } else {
        Seq::empty()
    };
    let names = blocked_outports(st.connections);
    let rest = names.map_values(|n: Seq<char>| ParserErrorView::OutPortBlock(n));
    let head = st.errors + io;
    assert(fe == head + rest);
    assert forall|i: int| 0 <= i < head.len() implies !(#[trigger] fe[i] is OutPortBlock) by {
        assert(fe[i] == head[i]);
        if i < st.errors.len() {
            assert(head[i] == st.errors[i]);
        } else {
            assert(head[i] == io[i - st.errors.len()]);
        }
    }
    assert forall|i: int, j: int|
        0 <= i < j < fe.len() && (#[trigger] fe[i] is OutPortBlock) implies fe[i] != #[trigger] fe[j] by {
        assert(i >= head.len());
        assert(fe[i] == rest[i - head.len()]);
        assert(fe[j] == rest[j - head.len()]);
        assert(names[i - head.len()] != names[j - head.len()]);
    }
    assert forall|n: Seq<char>| #[trigger] fe.contains(ParserErrorView::OutPortBlock(n))
        <==> names.contains(n) by {
        if fe.contains(ParserErrorView::OutPortBlock(n)) {
            let i = choose|i: int| 0 <= i < fe.len() && fe[i] == ParserErrorView::OutPortBlock(n);
            assert(i >= head.len());
            assert(fe[i] == rest[i - head.len()]);
            assert(names[i - head.len()] == n);
        }
        if names.contains(n) {
            let q = choose|q: int| 0 <= q < names.len() && names[q] == n;
            assert(fe[head.len() + q] == rest[q]);
        }
    }
}

/// With no structural error, `IOMin` is reported exactly when the check is asked for and no
/// name was first used as an input port, or none as an output port.
pub proof fn lemma_io_min(tokens: Seq<TokenView>, io_min: bool)
    requires
        !has_structural_error(parsed(tokens).errors),
    ensures
        final_errors(parsed(tokens), io_min).contains(ParserErrorView::IOMin) <==> (io_min
            && !has_ports(parsed(tokens).kinds)),
{
    let st = parsed(tokens);
    lemma_run_no_checks(tokens, move_bound(tokens));
    let fe = final_errors(st, io_min);
    let io = if io_min && !has_ports(st.kinds) {
        seq![ParserErrorView::IOMin]
    } else {
        Seq::empty()
    };
    let names = blocked_outports(st.connections);
    let rest = names.map_values(|n: Seq<char>| ParserErrorView::OutPortBlock(n));
    assert(fe == st.errors + io + rest);
    if io_min && !has_ports(st.kinds) {
        assert(fe[st.errors.len() as int] == ParserErrorView::IOMin);
    } else {
        assert forall|i: int| 0 <= i < fe.len() implies fe[i] != ParserErrorView::IOMin by {
            if i < st.errors.len() {
                assert(fe[i] == st.errors[i]);
            } else {
                assert(fe[i] == rest[i - st.errors.len()]);
            }
        }
    }
}

/// No identifier of `ids` carries a port sign.
pub open spec fn plain(ids: Seq<IdPairView>) -> bool {
    forall|j: int| 0 <= j < ids.len() ==> !(#[trigger] ids[j]).1
}

/// Every name of `ids` that has a recorded kind was recorded as a plain node.
pub open spec fn node_only(kinds: Seq<(Seq<char>, IdentKind)>, ids: Seq<IdPairView>) -> bool {
    forall|i: int, j: int|
        0 <= i < kinds.len() && 0 <= j < ids.len() && (#[trigger] kinds[i]).0 == (#[trigger] ids[j]).0
            ==> kinds[i].1 == IdentKind::Node
}

/// The connections from node `f` to each node of `to`, in order.
pub open spec fn row_pairs(f: IdPairView, to: Seq<IdPairView>, is_charge: bool) -> Seq<ConnectionView>
    decreases to.len(),
{
    if to.len() == 0 {
        Seq::empty()
    } else {
        row_pairs(f, to.drop_last(), is_charge).push(
            ConnectionView {
                from: IdentView { name: f.0, kind: IdentKind::Node },
                to: IdentView { name: to.last().0, kind: IdentKind::Node },
                is_charge,
            },
        )
    }
}

/// The connections from each node of `from` to each node of `to`, source by source.
pub open spec fn cross_pairs(from: Seq<IdPairView>, to: Seq<IdPairView>, is_charge: bool) -> Seq<
    ConnectionView,
>
    decreases from.len(),
{
    if from.len() == 0 {
        Seq::empty()
    } else {
        cross_pairs(from.drop_last(), to, is_charge) + row_pairs(from.last(), to, is_charge)
    }
}

proof fn lemma_checked_node(st: ParseState, name: Seq<char>, ids: Seq<IdPairView>, j: int)
    requires
        node_only(st.kinds, ids),
        0 <= j < ids.len(),
        ids[j].0 == name,
    ensures
        consistent(st.kinds, name, IdentKind::Node),
        st.checked(name, IdentKind::Node).errors == st.errors,
        st.checked(name, IdentKind::Node).connections == st.connections,
        st.checked(name, IdentKind::Node).is_charge == st.is_charge,
        node_only(st.checked(name, IdentKind::Node).kinds, ids),
{
    if exists|i: int| 0 <= i < st.kinds.len() && st.kinds[i].0 == name {
        let i = choose|i: int| 0 <= i < st.kinds.len() && st.kinds[i].0 == name;
        assert(st.kinds[i].1 == IdentKind::Node);
    } else {
        let k2 = st.kinds.push((name, IdentKind::Node));
        assert forall|i: int, q: int|
            0 <= i < k2.len() && 0 <= q < ids.len() && (#[trigger] k2[i]).0 == (#[trigger] ids[q]).0
                implies k2[i].1 == IdentKind::Node by {
            if i < st.kinds.len() {
                assert(k2[i] == st.kinds[i]);
            }
        }
    }
}

proof fn lemma_row_pairs(st: ParseState, f: IdPairView, to: Seq<IdPairView>, ids: Seq<IdPairView>, jf: int)
    requires
        node_only(st.kinds, ids),
        !f.1,
        plain(to),
        0 <= jf < ids.len(),
        ids[jf] == f,
        forall|q: int| 0 <= q < to.len() ==> ids.contains(#[trigger] to[q]),
    ensures
        st.row(f, to).connections == st.connections + row_pairs(f, to, st.is_charge),
        st.row(f, to).errors == st.errors,
        st.row(f, to).is_charge == st.is_charge,
        node_only(st.row(f, to).kinds, ids),
    decreases to.len(),
{
    if to.len() > 0 {
        let pre = to.drop_last();
        assert forall|q: int| 0 <= q < pre.len() implies ids.contains(#[trigger] pre[q]) by {
            assert(pre[q] == to[q]);
        }
        lemma_row_pairs(st, f, pre, ids, jf);
        let s = st.row(f, pre);
        let t = to.last();
        assert(ids.contains(to[to.len() - 1]));
        let jt = choose|q: int| 0 <= q < ids.len() && ids[q] == t;
        assert(!t.1);
        lemma_checked_node(s, f.0, ids, jf);
        let s1 = s.checked(f.0, IdentKind::Node);
        lemma_checked_node(s1, t.0, ids, jt);
        assert(st.row(f, to).connections =~= st.connections + row_pairs(f, to, st.is_charge));
    }
}

proof fn lemma_cross_pairs(st: ParseState, from: Seq<IdPairView>, to: Seq<IdPairView>, ids: Seq<IdPairView>)
    requires
        node_only(st.kinds, ids),
        plain(from),
        plain(to),
        forall|q: int| 0 <= q < from.len() ==> ids.contains(#[trigger] from[q]),
        forall|q: int| 0 <= q < to.len() ==> ids.contains(#[trigger] to[q]),
    ensures
        st.cross(from, to).connections == st.connections + cross_pairs(from, to, st.is_charge),
        st.cross(from, to).errors == st.errors,
        st.cross(from, to).is_charge == st.is_charge,
        node_only(st.cross(from, to).kinds, ids),
    decreases from.len(),
{
    if from.len() > 0 {
        let pre = from.drop_last();
        assert forall|q: int| 0 <= q < pre.len() implies ids.contains(#[trigger] pre[q]) by {
            assert(pre[q] == from[q]);
        }
        lemma_cross_pairs(st, pre, to, ids);
        let f = from.last();
        assert(ids.contains(from[from.len() - 1]));
        let jf = choose|q: int| 0 <= q < ids.len() && ids[q] == f;
        lemma_row_pairs(st.cross(pre, to), f, to, ids, jf);
        assert(st.cross(from, to).connections =~= st.connections + cross_pairs(
            from,
            to,
            st.is_charge,
        ));
    }
}

/// Batching: when no identifier of the two pending batches carries a port sign and none of
/// their names was first used as a port, emitting the pending operator connects each source to
/// each target, source by source, and reports nothing.
pub proof fn lemma_cross_product(st: ParseState)
    requires
        plain(st.from),
        plain(st.to),
        node_only(st.kinds, st.from + st.to),
    ensures
        st.flushed().connections == st.connections + cross_pairs(st.from, st.to, st.is_charge),
        st.flushed().errors == st.errors,
{
    let ids = st.from + st.to;
    assert forall|q: int| 0 <= q < st.from.len() implies ids.contains(#[trigger] st.from[q]) by {
        assert(ids[q] == st.from[q]);
    }
    assert forall|q: int| 0 <= q < st.to.len() implies ids.contains(#[trigger] st.to[q]) by {
        assert(ids[st.from.len() + q] == st.to[q]);
    }
    lemma_cross_pairs(st, st.from, st.to, ids);
}

/// Chaining: a further operator first emits the pending cross product; then the batch that
/// was the target becomes the only source, so the earlier sources take no part in the new
/// operator's connections.
pub proof fn lemma_chain(st: ParseState, id: IdPairView, role: Role)
    requires
        role != Role::Comma,
        st.from.len() > 0,
    ensures
        st.with_ident(id, role).connections == st.flushed().connections,
        st.with_ident(id, role).from == st.to,
        st.with_ident(id, role).to == seq![id],
        st.with_ident(id, role).is_charge == (role != Role::Block),
{
}

/// An identifier as written in a batch: its name and whether a port sign preceded it.
struct IdPair {
    name: String,
    port: bool,
}

impl View for IdPair {
    type V = IdPairView;

    closed spec fn view(&self) -> IdPairView {
        (self.name@, self.port)
    }
}

impl IdPair {
    fn duplicate(&self) -> (r: IdPair)
        ensures
            r@ == self@,
    {
        IdPair { name: self.name.clone(), port: self.port }
    }
}

spec fn pairs_view(v: Seq<IdPair>) -> Seq<IdPairView> {
    v.map_values(|p: IdPair| p@)
}

pub open spec fn kinds_view(v: Seq<(String, IdentKind)>) -> Seq<(Seq<char>, IdentKind)> {
    v.map_values(|p: (String, IdentKind)| (p.0@, p.1))
}

pub open spec fn connections_view(v: Seq<Connection>) -> Seq<ConnectionView> {
    v.map_values(|c: Connection| c@)
}

impl ParseState {
    /// Ranks the phases so that every move that reads nothing still brings the parse closer
    /// to its end.
    pub open spec fn measure(self) -> int {
        5 * self.inv.measure() + match self.phase {
            Phase::Done => 0int,
            Phase::Id(_) => 1int,
            Phase::PortId(_) => 1int,
            Phase::Statement => 2int,
            Phase::AfterId => 3int,
        }
    }
}

proof fn lemma_kind_of(kinds: Seq<(Seq<char>, IdentKind)>, name: Seq<char>, i: int)
    requires
        names_distinct(kinds),
        0 <= i < kinds.len(),
        kinds[i].0 == name,
    ensures
        kind_of(kinds, name) == Some(kinds[i].1),
{
    let c = choose|c: int| 0 <= c < kinds.len() && kinds[c].0 == name;
    assert(0 <= c < kinds.len() && kinds[c].0 == name);
}

proof fn lemma_row_keeps(st: ParseState, f: IdPairView, to: Seq<IdPairView>)
    ensures
        st.row(f, to).inv == st.inv,
        st.row(f, to).phase == st.phase,
        st.row(f, to).from == st.from,
        st.row(f, to).to == st.to,
        st.row(f, to).is_charge == st.is_charge,
    decreases to.len(),
{
    if to.len() > 0 {
        lemma_row_keeps(st, f, to.drop_last());
    }
}

proof fn lemma_cross_keeps(st: ParseState, from: Seq<IdPairView>, to: Seq<IdPairView>)
    ensures
        st.cross(from, to).inv == st.inv,
        st.cross(from, to).phase == st.phase,
        st.cross(from, to).from == st.from,
        st.cross(from, to).to == st.to,
        st.cross(from, to).is_charge == st.is_charge,
    decreases from.len(),
{
    if from.len() > 0 {
        lemma_cross_keeps(st, from.drop_last(), to);
        lemma_row_keeps(st.cross(from.drop_last(), to), from.last(), to);
    }
}

proof fn lemma_row_inv(st: ParseState, f: IdPairView, to: Seq<IdPairView>, inv: InverterView)
    ensures
        (ParseState { inv, ..st }).row(f, to) == (ParseState { inv, ..st.row(f, to) }),
    decreases to.len(),
{
    if to.len() > 0 {
        lemma_row_inv(st, f, to.drop_last(), inv);
    }
}

proof fn lemma_cross_inv(
    st: ParseState,
    from: Seq<IdPairView>,
    to: Seq<IdPairView>,
    inv: InverterView,
)
    ensures
        (ParseState { inv, ..st }).cross(from, to) == (ParseState { inv, ..st.cross(from, to) }),
    decreases from.len(),
{
    if from.len() > 0 {
        lemma_cross_inv(st, from.drop_last(), to, inv);
        lemma_row_inv(st.cross(from.drop_last(), to), from.last(), to, inv);
    }
}

/// Turns the normalized tokens into connections, statement by statement.
struct Parser {
    inv: Inverter,
    phase: Phase,
    from: Vec<IdPair>,
    to: Vec<IdPair>,
    is_charge: bool,
    connections: Vec<Connection>,
    errors: Vec<ParserError>,
    kinds: Vec<(String, IdentKind)>,
}

impl View for Parser {
    type V = ParseState;

    closed spec fn view(&self) -> ParseState {
        ParseState {
            inv: self.inv@,
            phase: self.phase,
            from: pairs_view(self.from@),
            to: pairs_view(self.to@),
            is_charge: self.is_charge,
            connections: connections_view(self.connections@),
            errors: parser_errors_view(self.errors@),
            kinds: kinds_view(self.kinds@),
        }
    }
}

impl Parser {
    closed spec fn wf(&self) -> bool {
        &&& self.inv.wf()
        &&& self@.inv.index <= self@.inv.tokens.len()
        &&& names_distinct(kinds_view(self.kinds@))
    }

    /// The kind first recorded for `name`.
    fn lookup_kind(&self, name: &String) -> (r: Option<IdentKind>)
        requires
            self.wf(),
        ensures
            r == kind_of(self@.kinds, name@),
    {
        let ghost kv = kinds_view(self.kinds@);
        let mut i: usize = 0;
        while i < self.kinds.len()
            invariant
                self.wf(),
                kv == kinds_view(self.kinds@),
                i <= self.kinds@.len(),
                forall|q: int| 0 <= q < i ==> kv[q].0 != name@,
            decreases self.kinds@.len() - i,
        {
            if self.kinds[i].0 == *name {
                proof {
                    lemma_kind_of(kv, name@, i as int);
                }
                return Some(self.kinds[i].1);
            }
            i = i + 1;
        }
        None
    }

    /// Records the first kind of `name`, or reports a use with another kind; tells whether the
    /// use is consistent.
    fn check_kind(&mut self, name: &String, k: IdentKind) -> (ok: bool)
        requires
            old(self).wf(),
        ensures
            final(self).wf(),
            final(self)@ == old(self)@.checked(name@, k),
            ok == consistent(old(self)@.kinds, name@, k),
            final(self).from@ == old(self).from@,
            final(self).to@ == old(self).to@,
    {
        match self.lookup_kind(name) {
            Some(k0) => {
                if k0 == k {
                    true
                } else {
                    self.errors.push(ParserError::InconstIdKind(name.clone(), k, k0));
                    proof {
                        assert(self@.errors =~= old(self)@.errors.push(
                            ParserErrorView::InconstIdKind(name@, k, k0),
                        ));
                    }
                    false
                }
            },
            None => {
                let ghost kv = kinds_view(self.kinds@);
                self.kinds.push((name.clone(), k));
                proof {
                    assert(kinds_view(self.kinds@) =~= kv.push((name@, k)));
                    assert forall|i: int, j: int|
                        0 <= i < j < kv.len() + 1 implies kinds_view(self.kinds@)[i].0
                        != kinds_view(self.kinds@)[j].0 by {
                        if j == kv.len() {
                            assert(kv[i].0 != name@);
                        }
                    }
                }
                true
            },
        }
    }

    /// Emits the connection from `f` to `t`.
    fn connect_pair(&mut self, f: &IdPair, t: &IdPair)
        requires
            old(self).wf(),
        ensures
            final(self).wf(),
            final(self)@ == old(self)@.paired(f@, t@),
            final(self).from@ == old(self).from@,
            final(self).to@ == old(self).to@,
    {
        let fk = if f.port {
            IdentKind::InPort
        } else {
            IdentKind::Node
        };
        let tk = if t.port {
            IdentKind::OutPort
        } else {
            IdentKind::Node
        };
        let ok_from = self.check_kind(&f.name, fk);
        let ok_to = self.check_kind(&t.name, tk);
        if ok_from && ok_to {
            let ghost cv = connections_view(self.connections@);
            let c = Connection::new(
                Identifier::new(f.name.clone(), fk),
                Identifier::new(t.name.clone(), tk),
                self.is_charge,
            );
            self.connections.push(c);
            proof {
                assert(connections_view(self.connections@) =~= cv.push(c@));
            }
        }
    }

    /// Emits the cross product of the two batches.
    fn flush(&mut self)
        requires
            old(self).wf(),
        ensures
            final(self).wf(),
            final(self)@ == old(self)@.flushed(),
    {
        let ghost s0 = self@;
        let mut i: usize = 0;
        while i < self.from.len()
            invariant
                self.wf(),
                i <= self.from@.len(),
                pairs_view(self.from@) == s0.from,
                pairs_view(self.to@) == s0.to,
                self@ == s0.cross(s0.from.subrange(0, i as int), s0.to),
            decreases self.from@.len() - i,
        {
            let f = self.from[i].duplicate();
            let ghost s1 = self@;
            let mut j: usize = 0;
            while j < self.to.len()
                invariant
                    self.wf(),
                    j <= self.to@.len(),
                    i < self.from@.len(),
                    f@ == s0.from[i as int],
                    pairs_view(self.from@) == s0.from,
                    pairs_view(self.to@) == s0.to,
                    self@ == s1.row(f@, s0.to.subrange(0, j as int)),
                decreases self.to@.len() - j,
            {
                let t = self.to[j].duplicate();
                self.connect_pair(&f, &t);
                proof {
                    assert(s0.to.subrange(0, j as int + 1).drop_last() =~= s0.to.subrange(
                        0,
                        j as int,
                    ));
                }
                j = j + 1;
            }
            proof {
                assert(s0.to.subrange(0, s0.to.len() as int) =~= s0.to);
                assert(s0.from.subrange(0, i as int + 1).drop_last() =~= s0.from.subrange(
                    0,
                    i as int,
                ));
            }
            i = i + 1;
        }
        proof {
            assert(s0.from.subrange(0, s0.from.len() as int) =~= s0.from);
        }
    }

    /// Takes an identifier of a batch introduced by `role`.
    fn add_ident(&mut self, id: IdPair, role: Role)
        requires
            old(self).wf(),
        ensures
            final(self).wf(),
            final(self)@ == old(self)@.with_ident(id@, role),
            final(self)@.inv == old(self)@.inv,
    {
        let ghost s0 = self@;
        if role == Role::Comma {
            self.to.push(id);
            proof {
                assert(pairs_view(self.to@) =~= s0.to.push(id@));
            }
        } else {
            if self.from.len() > 0 {
                self.flush();
                proof {
                    lemma_cross_keeps(s0, s0.from, s0.to);
                }
            }
            let mut batch: Vec<IdPair> = Vec::new();
            batch.push(id);
            core::mem::swap(&mut self.to, &mut batch);
            self.from = batch;
            self.is_charge = role != Role::Block;
            proof {
                assert(pairs_view(self.to@) =~= seq![id@]);
            }
        }
    }

    /// Reports a token out of place and skips the rest of the statement.
    fn fail(&mut self, pos: SourcePosition)
        requires
            old(self).wf(),
        ensures
            final(self).wf(),
            final(self)@ == at_statement_start(
                ParseState {
                    errors: old(self)@.errors.push(ParserErrorView::UnexpectedToken(pos)),
                    ..old(self)@
                },
                old(self)@.inv.recovered(),
            ),
            final(self)@.inv.measure() <= old(self)@.inv.measure(),
            final(self)@.inv.tokens == old(self)@.inv.tokens,
    {
        let ghost s0 = self@;
        self.errors.push(ParserError::UnexpectedToken(pos));
        proof {
            lemma_recovered(s0.inv);
        }
        self.inv.consume_end();
        self.from = Vec::new();
        self.to = Vec::new();
        self.phase = Phase::Statement;
        proof {
            assert(self@.errors =~= s0.errors.push(ParserErrorView::UnexpectedToken(pos)));
            assert(self@.from =~= Seq::<IdPairView>::empty());
            assert(self@.to =~= Seq::<IdPairView>::empty());
        }
    }

    /// Reports the end of input inside a statement.
    fn end_early(&mut self)
        requires
            old(self).wf(),
        ensures
            final(self).wf(),
            final(self)@ == old(self)@.ended_early(),
    {
        let ghost s0 = self@;
        self.errors.push(ParserError::UnexpectedEnd);
        self.phase = Phase::Done;
        proof {
            assert(self@.errors =~= s0.errors.push(ParserErrorView::UnexpectedEnd));
        }
    }

    /// Ends the statement: emits its last cross product and clears both batches.
    fn end_statement(&mut self)
        requires
            old(self).wf(),
        ensures
            final(self).wf(),
            final(self)@ == at_statement_start(old(self)@.flushed(), old(self)@.inv),
    {
        self.flush();
        proof {
            lemma_cross_keeps(old(self)@, old(self)@.from, old(self)@.to);
        }
        self.from = Vec::new();
        self.to = Vec::new();
        self.phase = Phase::Statement;
        proof {
            assert(self@.from =~= Seq::<IdPairView>::empty());
            assert(self@.to =~= Seq::<IdPairView>::empty());
        }
    }

    /// One move.
    fn step(&mut self)
        requires
            old(self).wf(),
            old(self).phase != Phase::Done,
        ensures
            final(self).wf(),
            final(self)@ == old(self)@.step(),
            final(self)@.measure() < old(self)@.measure(),
            final(self)@.inv.tokens == old(self)@.inv.tokens,
    {
        let ghost s0 = self@;
        proof {
            lemma_filled(s0.inv);
            lemma_cross_inv(s0, s0.from, s0.to, s0.inv.filled());
            lemma_cross_keeps(s0, s0.from, s0.to);
        }
        match self.phase {
            Phase::Statement => {
                match self.inv.peek() {
                    None => {
                        self.phase = Phase::Done;
                    },
                    Some(t) => {
                        proof {
                            lemma_advanced(s0.inv);
                        }
                        if t.kind == TokenKind::Semicolon || t.kind == TokenKind::EndLine {
                            self.inv.expect();
                        } else if t.kind == TokenKind::Identifier || t.kind == TokenKind::Port {
                            self.phase = Phase::Id(Role::First);
                        } else if t.kind == TokenKind::Mod {
                            self.inv.expect();
                            proof {
                                lemma_recovered(s0.inv.advanced());
                            }
                            self.inv.consume_end();
                        } else {
                            self.inv.expect();
                            self.fail(t.position);
                        }
                    },
                }
            },
            Phase::Id(role) => {
                match self.inv.expect() {
                    None => {
                        self.end_early();
                    },
                    Some(t) => {
                        proof {
                            lemma_advanced(s0.inv);
                        }
                        if t.kind == TokenKind::Identifier {
                            self.add_ident(IdPair { name: t.text, port: false }, role);
                            self.phase = Phase::AfterId;
                        } else if t.kind == TokenKind::Port {
                            self.phase = Phase::PortId(role);
                        } else {
                            self.fail(t.position);
                        }
                    },
                }
            },
            Phase::PortId(role) => {
                match self.inv.expect() {
                    None => {
                        self.end_early();
                    },
                    Some(t) => {
                        proof {
                            lemma_advanced(s0.inv);
                        }
                        if t.kind == TokenKind::Identifier {
                            self.add_ident(IdPair { name: t.text, port: true }, role);
                            self.phase = Phase::AfterId;
                        } else {
                            self.fail(t.position);
                        }
                    },
                }
            },
            Phase::AfterId => {
                match self.inv.peek() {
                    None => {
                        if self.from.len() == 0 {
                            self.end_early();
                        } else {
                            self.end_statement();
                        }
                    },
                    Some(t) => {
                        proof {
                            lemma_advanced(s0.inv);
                        }
                        if t.kind == TokenKind::Comma {
                            self.inv.expect();
                            self.phase = Phase::Id(Role::Comma);
                        } else if t.kind == TokenKind::Charge {
                            self.inv.expect();
                            self.phase = Phase::Id(Role::Charge);
                        } else if t.kind == TokenKind::Block {
                            self.inv.expect();
                            self.phase = Phase::Id(Role::Block);
                        } else if (t.kind == TokenKind::Semicolon || t.kind == TokenKind::EndLine)
                            && self.from.len() > 0 {
                            self.end_statement();
                        } else {
                            self.inv.expect();
                            self.fail(t.position);
                        }
                    },
                }
            },
            Phase::Done => {},
        }
    }

    /// The names of output ports that are targets of block connections, each once.
    fn blocked_outports(&self) -> (r: Vec<String>)
        ensures
            r@.map_values(|s: String| s@) == blocked_outports(self@.connections),
    {
        let ghost cv = self@.connections;
        let mut names: Vec<String> = Vec::new();
        let mut i: usize = 0;
        proof {
            assert(names@.map_values(|s: String| s@) =~= blocked_outports(cv.subrange(0, 0)));
        }
        while i < self.connections.len()
            invariant
                i <= self.connections@.len(),
                cv == connections_view(self.connections@),
                names@.map_values(|s: String| s@) == blocked_outports(cv.subrange(0, i as int)),
            decreases self.connections@.len() - i,
        {
            let c = &self.connections[i];
            let ghost acc = names@.map_values(|s: String| s@);
            proof {
                assert(cv.subrange(0, i as int + 1).drop_last() =~= cv.subrange(0, i as int));
                assert(cv.subrange(0, i as int + 1).last() == c@);
            }
            if !c.is_charge && c.to.kind == IdentKind::OutPort {
                let mut seen = false;
                let mut j: usize = 0;
                while j < names.len()
                    invariant
                        j <= names@.len(),
                        acc == names@.map_values(|s: String| s@),
                        seen == exists|q: int| 0 <= q < j && acc[q] == c.to.name@,
                    decreases names@.len() - j,
                {
                    assert(acc[j as int] == names@[j as int]@);
                    if names[j] == c.to.name {
                        seen = true;
                    }
                    j = j + 1;
                }
                if !seen {
                    names.push(c.to.name.clone());
                    proof {
                        assert(names@.map_values(|s: String| s@) =~= acc.push(c.to.name@));
                    }
                }
            }
            i = i + 1;
        }
        proof {
            assert(cv.subrange(0, cv.len() as int) =~= cv);
        }
        names
    }

    /// Whether some name was first used as an input port and some as an output port.
    fn has_ports(&self) -> (r: bool)
        ensures
            r == has_ports(self@.kinds),
    {
        let ghost kv = self@.kinds;
        let mut inport = false;
        let mut outport = false;
        let mut i: usize = 0;
        while i < self.kinds.len()
            invariant
                i <= self.kinds@.len(),
                kv == kinds_view(self.kinds@),
                inport == exists|q: int| 0 <= q < i && kv[q].1 == IdentKind::InPort,
                outport == exists|q: int| 0 <= q < i && kv[q].1 == IdentKind::OutPort,
            decreases self.kinds@.len() - i,
        {
            assert(kv[i as int] == (self.kinds@[i as int].0@, self.kinds@[i as int].1));
            if self.kinds[i].1 == IdentKind::InPort {
                inport = true;
            }
            if self.kinds[i].1 == IdentKind::OutPort {
                outport = true;
            }
            i = i + 1;
        }
        inport && outport
    }

    /// Whether a structural error was reported.
    fn has_structural_error(&self) -> (r: bool)
        ensures
            r == has_structural_error(self@.errors),
    {
        let ghost ev = self@.errors;
        let mut i: usize = 0;
        while i < self.errors.len()
            invariant
                i <= self.errors@.len(),
                ev == parser_errors_view(self.errors@),
                forall|q: int| 0 <= q < i ==> !is_structural(#[trigger] ev[q]),
            decreases self.errors@.len() - i,
        {
            assert(ev[i as int] == self.errors@[i as int]@);
            match &self.errors[i] {
                ParserError::UnexpectedToken(_) | ParserError::UnexpectedEnd => {
                    assert(is_structural(ev[i as int]));
                    return true;
                },
                _ => {},
            }
            i = i + 1;
        }
        false
    }

    /// The errors of the finished parse.
    fn final_errors(&mut self, io_min: bool)
        requires
            old(self).wf(),
        ensures
            parser_errors_view(final(self).errors@) == final_errors(old(self)@, io_min),
            final(self).connections == old(self).connections,
    {
        if !self.has_structural_error() {
            let ghost s0 = self@;
            if io_min && !self.has_ports() {
                self.errors.push(ParserError::IOMin);
            }
            let names = self.blocked_outports();
            let ghost head = parser_errors_view(self.errors@);
            let mut i: usize = 0;
            while i < names.len()
                invariant
                    i <= names@.len(),
                    self.connections == old(self).connections,
                    parser_errors_view(self.errors@) == head + names@.map_values(
                        |s: String| s@,
                    ).subrange(0, i as int).map_values(
                        |n: Seq<char>| ParserErrorView::OutPortBlock(n),
                    ),
                decreases names@.len() - i,
            {
                let ghost pre = parser_errors_view(self.errors@);
                self.errors.push(ParserError::OutPortBlock(names[i].clone()));
                proof {
                    let nv = names@.map_values(|s: String| s@);
                    assert(nv.subrange(0, i as int + 1).map_values(
                        |n: Seq<char>| ParserErrorView::OutPortBlock(n),
                    ) =~= nv.subrange(0, i as int).map_values(
                        |n: Seq<char>| ParserErrorView::OutPortBlock(n),
                    ).push(ParserErrorView::OutPortBlock(nv[i as int])));
                    assert(parser_errors_view(self.errors@) =~= pre.push(
                        ParserErrorView::OutPortBlock(nv[i as int]),
                    ));
                }
                i = i + 1;
            }
            proof {
                let nv = names@.map_values(|s: String| s@);
                assert(nv.subrange(0, nv.len() as int) =~= nv);
                if io_min && !has_ports(s0.kinds) {
                    assert(head =~= s0.errors + seq![ParserErrorView::IOMin]);
                } else {
                    assert(head =~= s0.errors + Seq::<ParserErrorView>::empty());
                }
            }
        }
    }
}

/// Parses the tokens of a program into its connections, in order, and its errors.
///
/// A statement is a batch of identifiers followed by one or more operators, each with its
/// batch; it ends at a separator or at the end of input. A malformed statement is reported and
/// skipped up to the next separator; the end of input inside a statement ends the parse. A
/// statement that starts with the reserved word `mod` is skipped without effect. When no such error was found, the port checks follow:
/// with `io_min`, at least one input and one output port must be declared, and no output port
/// may be the target of a block connection.
pub fn parse(tokens: Vec<Token>, io_min: bool) -> (r: (ConVec, Vec<ParserError>))
    ensures
        parsed(tokens_view(tokens@)).phase == Phase::Done,
        r.0@ == parsed(tokens_view(tokens@)).connections,
        parser_errors_view(r.1@) == final_errors(parsed(tokens_view(tokens@)), io_min),
{
    let ghost tv = tokens_view(tokens@);
    let mut p = Parser {
        inv: Inverter::new(tokens),
        phase: Phase::Statement,
        from: Vec::new(),
        to: Vec::new(),
        is_charge: true,
        connections: Vec::new(),
        errors: Vec::new(),
        kinds: Vec::new(),
    };
    proof {
        assert(p@.from =~= Seq::<IdPairView>::empty());
        assert(p@.to =~= Seq::<IdPairView>::empty());
        assert(p@.connections =~= Seq::<ConnectionView>::empty());
        assert(p@.errors =~= Seq::<ParserErrorView>::empty());
        assert(p@.kinds =~= Seq::<(Seq<char>, IdentKind)>::empty());
        assert(p@ == ParseState::initial(tv).run(0));
    }
    let ghost mut k: nat = 0;
    while p.phase != Phase::Done
        invariant
            p.wf(),
            p@ == ParseState::initial(tv).run(k),
            k + p@.measure() <= move_bound(tv),
            p@.inv.tokens == tv,
        decreases p@.measure(),
    {
        p.step();
        proof {
            k = k + 1;
        }
    }
    proof {
        assert(p@.inv.measure() >= 0);
        lemma_run_done(ParseState::initial(tv), k, move_bound(tv));
    }
    p.final_errors(io_min);
    (ConVec(p.connections), p.errors)
}

} // verus!
