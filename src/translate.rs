use vstd::prelude::*;
use crate::lex::push_char;
use crate::module::{lemma_with_edge_present, Module, ModuleBuilder, ModuleView};

verus! {

/// What an identifier stands for; fixed at its first occurrence in a program.
#[derive(Clone, Copy, Debug, PartialEq, Eq, Structural)]
pub enum IdentKind {
    Node,
    InPort,
    OutPort,
}

/// A named endpoint of a connection.
#[derive(Clone, Debug, PartialEq, Eq)]
pub struct Identifier {
    pub name: String,
    pub kind: IdentKind,
}

/// One directed relation between two identifiers: a charge if `is_charge`, else a block.
#[derive(Clone, Debug, PartialEq, Eq)]
pub struct Connection {
    pub from: Identifier,
    pub to: Identifier,
    pub is_charge: bool,
}

/// The connections of a program, in the order the parser produced them.
#[derive(Clone, Debug, PartialEq, Eq)]
pub struct ConVec(pub Vec<Connection>);

/// The module built from a list of connections, and optionally the names bound to its input
/// and output positions, in position order.
pub struct TranslationResult {
    pub module: Module,
    pub identifiers: Option<(Vec<String>, Vec<String>)>,
}

pub struct IdentView {
    pub name: Seq<char>,
    pub kind: IdentKind,
}

pub struct ConnectionView {
    pub from: IdentView,
    pub to: IdentView,
    pub is_charge: bool,
}

impl View for Identifier {
    type V = IdentView;

    open spec fn view(&self) -> IdentView {
        IdentView { name: self.name@, kind: self.kind }
    }
}

impl View for Connection {
    type V = ConnectionView;

    open spec fn view(&self) -> ConnectionView {
        ConnectionView { from: self.from@, to: self.to@, is_charge: self.is_charge }
    }
}

impl View for ConVec {
    type V = Seq<ConnectionView>;

    open spec fn view(&self) -> Seq<ConnectionView> {
        self.0@.map_values(|c: Connection| c@)
    }
}

impl Identifier {
    pub fn new(name: String, kind: IdentKind) -> (r: Identifier)
        ensures
            r.name == name,
            r.kind == kind,
    {
        Identifier { name, kind }
    }
}

impl Connection {
    pub fn new(from: Identifier, to: Identifier, is_charge: bool) -> (r: Connection)
        ensures
            r.from == from,
            r.to == to,
            r.is_charge == is_charge,
    {
        Connection { from, to, is_charge }
    }
}

/// One connection as text: a `!` marks a port end, `>` a charge and `.` a block; one line.
pub open spec fn connection_text(c: ConnectionView) -> Seq<char> {
    (if c.from.kind == IdentKind::InPort {
        seq!['!']
    } else {
        Seq::empty()
    }) + c.from.name + (if c.is_charge {
        seq!['>']
    } else {
        seq!['.']
    }) + (if c.to.kind == IdentKind::OutPort {
        seq!['!']
    } else {
        Seq::empty()
    }) + c.to.name + seq!['\n']
}

/// The connections as text, one line each, in order.
pub open spec fn connections_text(cs: Seq<ConnectionView>) -> Seq<char>
    decreases cs.len(),
{
    if cs.len() == 0 {
        Seq::empty()
    } else {
        connections_text(cs.drop_last()) + connection_text(cs.last())
    }
}

impl ConVec {
    /// The connections as text, one line each: `a>b` for a charge, `a.b` for a block, with
    /// `!` before an end that is a port.
    pub fn describe(&self) -> (r: String)
        ensures
            r@ == connections_text(self@),
    {
        let mut out = String::new();
        let mut i: usize = 0;
        let ghost cv = self@;
        proof {
            assert(cv.subrange(0, 0) =~= Seq::<ConnectionView>::empty());
        }
        while i < self.0.len()
            invariant
                i <= self.0@.len(),
                cv == self@,
                out@ == connections_text(cv.subrange(0, i as int)),
            decreases self.0@.len() - i,
        {
            let c = &self.0[i];
            let ghost before = out@;
            if c.from.kind == IdentKind::InPort {
                push_char(&mut out, '!');
            }
            out.append(c.from.name.as_str());
            push_char(&mut out, if c.is_charge { '>' } else { '.' });
            if c.to.kind == IdentKind::OutPort {
                push_char(&mut out, '!');
            }
            out.append(c.to.name.as_str());
            push_char(&mut out, '\n');
            proof {
                assert(cv.subrange(0, i as int + 1).drop_last() =~= cv.subrange(0, i as int));
                assert(cv.subrange(0, i as int + 1).last() == c@);
                assert(out@ =~= before + connection_text(c@));
            }
            i = i + 1;
        }
        proof {
            assert(cv.subrange(0, cv.len() as int) =~= cv);
        }
        out
    }
}

/// The node id of `name`: its position among the names seen so far, or the next free id.
pub open spec fn id_of(names: Seq<Seq<char>>, name: Seq<char>) -> nat {
    if names.contains(name) {
        choose|i: nat| i < names.len() && names[i as int] == name
    } else {
        names.len()
    }
}

/// Names without repetition.
pub open spec fn distinct(names: Seq<Seq<char>>) -> bool {
    forall|i: int, j: int| 0 <= i < j < names.len() ==> names[i] != names[j]
}

/// What the translator knows after a prefix of the connections.
pub struct TranslateState {
    /// Names in order of first sighting; a name's position is its node id.
    pub names: Seq<Seq<char>>,
    pub module: ModuleView,
    pub input_names: Seq<Seq<char>>,
    pub output_names: Seq<Seq<char>>,
}

impl TranslateState {
    pub open spec fn initial() -> TranslateState {
        TranslateState {
            names: Seq::empty(),
            module: ModuleView::empty(),
            input_names: Seq::empty(),
            output_names: Seq::empty(),
        }
    }

    /// The names with `name` added if it is new.
    pub open spec fn interned(names: Seq<Seq<char>>, name: Seq<char>) -> Seq<Seq<char>> {
        if names.contains(name) {
            names
        } else {
            names.push(name)
        }
    }

    /// One connection: ids for both ends, the edge, and a port binding for each end whose name
    /// is seen for the first time and is typed as a port, at whichever end it stands.
    pub open spec fn step(self, c: ConnectionView) -> TranslateState {
        let from_new = !self.names.contains(c.from.name);
        let n1 = Self::interned(self.names, c.from.name);
        let to_new = !n1.contains(c.to.name);
        let n2 = Self::interned(n1, c.to.name);
        let fi = id_of(n2, c.from.name) as usize;
        let ti = id_of(n2, c.to.name) as usize;
        let s0 = TranslateState { names: n2, module: self.module.with_edge(fi, ti, c.is_charge), ..self };
        let s1 = if from_new {
            s0.bound(fi, c.from.name, c.from.kind)
        } else {
            s0
        };
        if to_new {
            s1.bound(ti, c.to.name, c.to.kind)
        } else {
            s1
        }
    }

    /// Node `id`, named `name` and seen for the first time with kind `kind`: an input port is
    /// bound to the next input position, an output port to the next output position.
    pub open spec fn bound(self, id: usize, name: Seq<char>, kind: IdentKind) -> TranslateState {
        match kind {
            IdentKind::InPort => TranslateState {
                module: self.module.with_input(id),
                input_names: self.input_names.push(name),
                ..self
            },
            IdentKind::OutPort => TranslateState {
                module: self.module.with_output(id),
                output_names: self.output_names.push(name),
                ..self
            },
            IdentKind::Node => self,
        }
    }
}

/// The translator's state after all of `cons`, taken in order.
pub open spec fn translated(cons: Seq<ConnectionView>) -> TranslateState
    decreases cons.len(),
{
    if cons.len() == 0 {
        TranslateState::initial()
    } else {
        translated(cons.drop_last()).step(cons.last())
    }
}

proof fn lemma_id_of(names: Seq<Seq<char>>, name: Seq<char>, i: int)
    requires
        distinct(names),
        0 <= i < names.len(),
        names[i] == name,
    ensures
        id_of(names, name) == i,
{
    assert(names.contains(name));
    let c = choose|c: nat| c < names.len() && names[c as int] == name;
    assert(c < names.len() && names[c as int] == name);
}

/// The translation `st` holds the edge of `c`: both names are numbered, and the edge between
/// their ids is in the charge or block relation as `c` says.
pub open spec fn holds_connection(st: TranslateState, c: ConnectionView) -> bool {
    let fi = id_of(st.names, c.from.name) as int;
    let ti = id_of(st.names, c.to.name) as usize;
    &&& st.names.contains(c.from.name)
    &&& st.names.contains(c.to.name)
    &&& c.is_charge ==> st.module.charging[fi].contains(ti)
    &&& !c.is_charge ==> st.module.blocking[fi].contains(ti)
}

/// Every bound position names a node below `bound`, and no node is bound twice.
pub open spec fn ports_below(m: ModuleView, bound: nat) -> bool {
    &&& forall|k: int| 0 <= k < m.inputs.len() ==> #[trigger] m.inputs[k] < bound
    &&& forall|k: int| 0 <= k < m.outputs.len() ==> #[trigger] m.outputs[k] < bound
    &&& m.inputs.no_duplicates()
    &&& m.outputs.no_duplicates()
}

/// Binding a fresh id keeps the bound positions distinct, and leaves the edges alone.
proof fn lemma_bound(st: TranslateState, id: usize, name: Seq<char>, kind: IdentKind, low: nat)
    requires
        ports_below(st.module, low),
        low <= id,
        id < st.module.node_count(),
        st.module.blocking.len() == st.module.charging.len(),
    ensures
        ports_below(st.bound(id, name, kind).module, id as nat + 1),
        st.bound(id, name, kind).module.charging == st.module.charging,
        st.bound(id, name, kind).module.blocking == st.module.blocking,
        st.bound(id, name, kind).names == st.names,
{
    let m = st.module;
    let b = st.bound(id, name, kind).module;
    let g = m.grown(id as nat + 1);
    assert(g.charging =~= m.charging);
    assert(g.blocking =~= m.blocking);
    assert forall|a: int, c: int|
        0 <= a < b.inputs.len() && 0 <= c < b.inputs.len() && a != c implies b.inputs[a]
        != b.inputs[c] by {
        if b.inputs.len() > m.inputs.len() {
            assert(b.inputs == m.inputs.push(id));
            if a == m.inputs.len() {
                assert(m.inputs[c] < low);
            } else if c == m.inputs.len() {
                assert(m.inputs[a] < low);
            }
        }
    }
    assert forall|a: int, c: int|
        0 <= a < b.outputs.len() && 0 <= c < b.outputs.len() && a != c implies b.outputs[a]
        != b.outputs[c] by {
        if b.outputs.len() > m.outputs.len() {
            assert(b.outputs == m.outputs.push(id));
            if a == m.outputs.len() {
                assert(m.outputs[c] < low);
            } else if c == m.outputs.len() {
                assert(m.outputs[a] < low);
            }
        }
    }
    assert forall|k: int| 0 <= k < b.inputs.len() implies #[trigger] b.inputs[k] < id as nat + 1 by {
        if k < m.inputs.len() {
            assert(b.inputs[k] == m.inputs[k]);
        }
    }
    assert forall|k: int| 0 <= k < b.outputs.len() implies #[trigger] b.outputs[k] < id as nat
        + 1 by {
        if k < m.outputs.len() {
            assert(b.outputs[k] == m.outputs[k]);
        }
    }
}

proof fn lemma_ports_below_weaken(m: ModuleView, a: nat, b: nat)
    requires
        ports_below(m, a),
        a <= b,
    ensures
        ports_below(m, b),
{
}

/// What holds after any prefix of the connections: names are distinct, there is one node per
/// name, and every bound position names a numbered node, at most once.
/// The translator's invariant on one state.
pub open spec fn translate_wf(st: TranslateState) -> bool {
    &&& distinct(st.names)
    &&& st.module.node_count() == st.names.len()
    &&& st.module.blocking.len() == st.module.charging.len()
    &&& ports_below(st.module, st.names.len())
}

/// The names after connection `c`.
pub open spec fn step_names(names: Seq<Seq<char>>, c: ConnectionView) -> Seq<Seq<char>> {
    TranslateState::interned(TranslateState::interned(names, c.from.name), c.to.name)
}

/// One step keeps the invariant; its names extend the old ones, and its edges are those of
/// the old module with the edge of `c` added.
proof fn lemma_step_wf(st: TranslateState, c: ConnectionView)
    requires
        translate_wf(st),
        st.names.len() + 2 < usize::MAX,
    ensures
        translate_wf(st.step(c)),
        st.step(c).names == step_names(st.names, c),
        st.step(c).names.len() <= st.names.len() + 2,
        forall|x: int| 0 <= x < st.names.len() ==> st.step(c).names[x] == st.names[x],
        st.step(c).names.contains(c.from.name),
        st.step(c).names.contains(c.to.name),
        st.step(c).module.charging == st.module.with_edge(
            id_of(step_names(st.names, c), c.from.name) as usize,
            id_of(step_names(st.names, c), c.to.name) as usize,
            c.is_charge,
        ).charging,
        st.step(c).module.blocking == st.module.with_edge(
            id_of(step_names(st.names, c), c.from.name) as usize,
            id_of(step_names(st.names, c), c.to.name) as usize,
            c.is_charge,
        ).blocking,
        id_of(step_names(st.names, c), c.from.name) < step_names(st.names, c).len(),
        id_of(step_names(st.names, c), c.to.name) < step_names(st.names, c).len(),
{
    let n1 = TranslateState::interned(st.names, c.from.name);
    let n2 = TranslateState::interned(n1, c.to.name);
    let from_new = !st.names.contains(c.from.name);
    let to_new = !n1.contains(c.to.name);
    assert(distinct(n1));
    assert(distinct(n2));
    assert(n1.contains(c.from.name)) by {
        if from_new {
            assert(n1[st.names.len() as int] == c.from.name);
        }
    }
    assert(n2.contains(c.from.name)) by {
        let k = choose|k: int| 0 <= k < n1.len() && n1[k] == c.from.name;
        assert(n2[k] == c.from.name);
    }
    assert(n2.contains(c.to.name)) by {
        if n1.contains(c.to.name) {
            let k = choose|k: int| 0 <= k < n1.len() && n1[k] == c.to.name;
            assert(n2[k] == c.to.name);
        } else {
            assert(n2[n1.len() as int] == c.to.name);
        }
    }
    let k = choose|k: int| 0 <= k < n2.len() && n2[k] == c.from.name;
    lemma_id_of(n2, c.from.name, k);
    let q = choose|q: int| 0 <= q < n2.len() && n2[q] == c.to.name;
    lemma_id_of(n2, c.to.name, q);
    if from_new {
        lemma_id_of(n2, c.from.name, st.names.len() as int);
    }
    if to_new {
        lemma_id_of(n2, c.to.name, n1.len() as int);
    }
    let fi = id_of(n2, c.from.name) as usize;
    let ti = id_of(n2, c.to.name) as usize;
    let s0 = TranslateState { names: n2, module: st.module.with_edge(fi, ti, c.is_charge), ..st };
    assert(s0.module.node_count() == n2.len());
    assert(ports_below(s0.module, st.names.len()));
    let s1 = if from_new {
        s0.bound(fi, c.from.name, c.from.kind)
    } else {
        s0
    };
    if from_new {
        lemma_bound(s0, fi, c.from.name, c.from.kind, st.names.len());
    }
    assert(ports_below(s1.module, n1.len()));
    assert(s1.module.node_count() == n2.len());
    if to_new {
        lemma_bound(s1, ti, c.to.name, c.to.kind, n1.len());
    } else {
        lemma_ports_below_weaken(s1.module, n1.len(), n2.len());
    }
}

/// A connection that the translation holds stays held after one more step.
proof fn lemma_step_holds(st: TranslateState, c: ConnectionView, d: ConnectionView)
    requires
        translate_wf(st),
        st.names.len() + 2 < usize::MAX,
        holds_connection(st, d),
    ensures
        holds_connection(st.step(c), d),
{
    lemma_step_wf(st, c);
    let t = st.step(c);
    let n2 = step_names(st.names, c);
    let fi = id_of(n2, c.from.name) as usize;
    let ti = id_of(n2, c.to.name) as usize;
    let g = st.module.grown((if fi < ti {
        ti
    } else {
        fi
    }) as nat + 1);
    let ka = choose|x: int| 0 <= x < st.names.len() && st.names[x] == d.from.name;
    lemma_id_of(st.names, d.from.name, ka);
    lemma_id_of(n2, d.from.name, ka);
    let kb = choose|x: int| 0 <= x < st.names.len() && st.names[x] == d.to.name;
    lemma_id_of(st.names, d.to.name, kb);
    lemma_id_of(n2, d.to.name, kb);
    assert(n2[ka] == d.from.name);
    assert(n2[kb] == d.to.name);
    assert(g.charging[ka] == st.module.charging[ka]);
    assert(g.blocking[ka] == st.module.blocking[ka]);
    if d.is_charge {
        assert(t.module.charging[ka].contains(kb as usize));
    } else {
        assert(t.module.blocking[ka].contains(kb as usize));
    }
}

/// After a step, its own connection is held.
proof fn lemma_step_adds(st: TranslateState, c: ConnectionView)
    requires
        translate_wf(st),
        st.names.len() + 2 < usize::MAX,
    ensures
        holds_connection(st.step(c), c),
{
    lemma_step_wf(st, c);
}

/// What holds after any prefix of the connections: the invariant, a bound on the names, and
/// every connection seen so far is held.
proof fn lemma_translated_wf(cons: Seq<ConnectionView>)
    requires
        cons.len() < usize::MAX / 4,
    ensures
        translate_wf(translated(cons)),
        translated(cons).names.len() <= 2 * cons.len(),
        forall|j: int|
            0 <= j < cons.len() ==> #[trigger] holds_connection(translated(cons), cons[j]),
    decreases cons.len(),
{
    if cons.len() > 0 {
        let pre = cons.drop_last();
        lemma_translated_wf(pre);
        let st = translated(pre);
        let c = cons.last();
        lemma_step_wf(st, c);
        lemma_step_adds(st, c);
        assert forall|j: int| 0 <= j < cons.len() implies #[trigger] holds_connection(
            translated(cons),
            cons[j],
        ) by {
            if j < pre.len() {
                assert(cons[j] == pre[j]);
                assert(holds_connection(st, pre[j]));
                lemma_step_holds(st, c, pre[j]);
            }
        }
    } else {
        assert(translate_wf(translated(cons))) by {
            assert(ModuleView::empty().charging.len() == 0);
        }
    }
}

/// Repeating any earlier connection has no effect: edges form sets, and a name's id and port
/// binding are fixed at its first sighting.
pub proof fn lemma_connection_repeated(cons: Seq<ConnectionView>, c: ConnectionView)
    requires
        cons.len() + 1 < usize::MAX / 4,
        cons.contains(c),
    ensures
        translated(cons.push(c)) == translated(cons),
{
    let st = translated(cons);
    lemma_translated_wf(cons);
    let j = choose|j: int| 0 <= j < cons.len() && cons[j] == c;
    assert(holds_connection(st, cons[j]));
    assert(cons.push(c).drop_last() =~= cons);
    assert(translated(cons.push(c)) == st.step(c));
    let ka = choose|x: int| 0 <= x < st.names.len() && st.names[x] == c.from.name;
    lemma_id_of(st.names, c.from.name, ka);
    let kb = choose|x: int| 0 <= x < st.names.len() && st.names[x] == c.to.name;
    lemma_id_of(st.names, c.to.name, kb);
    assert(TranslateState::interned(st.names, c.from.name) == st.names);
    assert(TranslateState::interned(st.names, c.to.name) == st.names);
    lemma_with_edge_present(st.module, ka as usize, kb as usize, c.is_charge);
}

/// Every end in `cons` has the kind `kind` gives its name: each name has a single kind.
pub open spec fn typed_by(cons: Seq<ConnectionView>, kind: spec_fn(Seq<char>) -> IdentKind) -> bool {
    forall|k: int|
        0 <= k < cons.len() ==> kind((#[trigger] cons[k]).from.name) == cons[k].from.kind && kind(
            cons[k].to.name,
        ) == cons[k].to.kind
}

/// The ports of kind `k` among `names`, in the order of `names`.
pub open spec fn names_of_kind(
    names: Seq<Seq<char>>,
    kind: spec_fn(Seq<char>) -> IdentKind,
    k: IdentKind,
) -> Seq<Seq<char>> {
    names.filter(of_kind(kind, k))
}

/// Whether a name has kind `k`.
pub open spec fn of_kind(kind: spec_fn(Seq<char>) -> IdentKind, k: IdentKind) -> spec_fn(
    Seq<char>,
) -> bool {
    |n: Seq<char>| kind(n) == k
}

/// The bound positions of `st` follow its names: the input (output) names are the names of
/// input (output) ports in order of first sighting, and each position holds its name's id.
pub open spec fn ports_follow_names(st: TranslateState, kind: spec_fn(Seq<char>) -> IdentKind) -> bool {
    &&& st.input_names == names_of_kind(st.names, kind, IdentKind::InPort)
    &&& st.output_names == names_of_kind(st.names, kind, IdentKind::OutPort)
    &&& st.module.inputs.len() == st.input_names.len()
    &&& st.module.outputs.len() == st.output_names.len()
    &&& forall|q: int|
        0 <= q < st.module.inputs.len() ==> #[trigger] st.module.inputs[q] == id_of(
            st.names,
            st.input_names[q],
        )
    &&& forall|q: int|
        0 <= q < st.module.outputs.len() ==> #[trigger] st.module.outputs[q] == id_of(
            st.names,
            st.output_names[q],
        )
}

/// Binding the newly numbered last name keeps the positions following the names.
proof fn lemma_bound_follows(
    st: TranslateState,
    names: Seq<Seq<char>>,
    name: Seq<char>,
    kind: spec_fn(Seq<char>) -> IdentKind,
)
    requires
        ports_follow_names(st, kind),
        st.names == names,
        distinct(names.push(name)),
        names.len() + 1 < usize::MAX,
    ensures
        ports_follow_names(
            TranslateState { names: names.push(name), ..st }.bound(
                names.len() as usize,
                name,
                kind(name),
            ),
            kind,
        ),
{
    let n2 = names.push(name);
    let s0 = TranslateState { names: n2, ..st };
    let b = s0.bound(names.len() as usize, name, kind(name));
    assert(n2.drop_last() =~= names);
    lemma_id_of(n2, name, names.len() as int);
    assert forall|x: Seq<char>| names.contains(x) implies id_of(n2, x) == id_of(names, x) by {
        let i = choose|i: int| 0 <= i < names.len() && names[i] == x;
        lemma_id_of(names, x, i);
        lemma_id_of(n2, x, i);
    }
    let pi = of_kind(kind, IdentKind::InPort);
    let po = of_kind(kind, IdentKind::OutPort);
    names.lemma_filter_push(name, pi);
    names.lemma_filter_push(name, po);
    assert(n2.filter(pi) == if pi(name) {
        names.filter(pi).push(name)
    } else {
        names.filter(pi)
    });
    assert(n2.filter(po) == if po(name) {
        names.filter(po).push(name)
    } else {
        names.filter(po)
    });
    assert forall|q: int| 0 <= q < b.module.inputs.len() implies #[trigger] b.module.inputs[q]
        == id_of(n2, b.input_names[q]) by {
        if q < st.module.inputs.len() {
            assert(b.module.inputs[q] == st.module.inputs[q]);
            assert(b.input_names[q] == st.input_names[q]);
            assert(names.filter(pi)[q] == st.input_names[q]);
            names.lemma_filter_contains_rev(pi, st.input_names[q]);
        }
    }
    assert forall|q: int| 0 <= q < b.module.outputs.len() implies #[trigger] b.module.outputs[q]
        == id_of(n2, b.output_names[q]) by {
        if q < st.module.outputs.len() {
            assert(b.module.outputs[q] == st.module.outputs[q]);
            assert(b.output_names[q] == st.output_names[q]);
            assert(names.filter(po)[q] == st.output_names[q]);
            names.lemma_filter_contains_rev(po, st.output_names[q]);
        }
    }
}

/// Each name has a single kind: then the input positions hold, in order of first sighting,
/// exactly the names of input ports, each once however often it is referenced, and each
/// position holds its name's node id; likewise for output positions.
pub proof fn lemma_ports_in_first_seen_order(
    cons: Seq<ConnectionView>,
    kind: spec_fn(Seq<char>) -> IdentKind,
)
    requires
        cons.len() < usize::MAX / 4,
        typed_by(cons, kind),
    ensures
        ports_follow_names(translated(cons), kind),
    decreases cons.len(),
{
    if cons.len() == 0 {
        assert(translated(cons).input_names =~= names_of_kind(Seq::empty(), kind, IdentKind::InPort));
        assert(translated(cons).output_names =~= names_of_kind(
            Seq::empty(),
            kind,
            IdentKind::OutPort,
        ));
    } else {
        let pre = cons.drop_last();
        assert forall|k: int| 0 <= k < pre.len() implies kind((#[trigger] pre[k]).from.name)
            == pre[k].from.kind && kind(pre[k].to.name) == pre[k].to.kind by {
            assert(pre[k] == cons[k]);
        }
        lemma_ports_in_first_seen_order(pre, kind);
        lemma_translated_wf(pre);
        let st = translated(pre);
        let c = cons.last();
        assert(cons[cons.len() - 1] == c);
        lemma_step_wf(st, c);
        let n1 = TranslateState::interned(st.names, c.from.name);
        let n2 = TranslateState::interned(n1, c.to.name);
        let fi = id_of(n2, c.from.name) as usize;
        let ti = id_of(n2, c.to.name) as usize;
        let e = TranslateState { names: st.names, module: st.module.with_edge(fi, ti, c.is_charge), ..st };
        assert(ports_follow_names(e, kind));
        let s0 = TranslateState { names: n2, ..e };
        let from_new = !st.names.contains(c.from.name);
        let to_new = !n1.contains(c.to.name);
        assert(distinct(n1) && distinct(n2));
        let s1 = if from_new {
            s0.bound(fi, c.from.name, c.from.kind)
        } else {
            s0
        };
        if from_new {
            lemma_id_of(n2, c.from.name, st.names.len() as int);
            lemma_bound_follows(e, st.names, c.from.name, kind);
            assert(ports_follow_names(TranslateState { names: n1, ..e }.bound(fi, c.from.name, c.from.kind), kind));
        } else {
            assert(n1 == st.names);
        }
        let m1 = if from_new {
            TranslateState { names: n1, ..e }.bound(fi, c.from.name, c.from.kind)
        } else {
            TranslateState { names: n1, ..e }
        };
        assert(ports_follow_names(m1, kind));
        if to_new {
            lemma_id_of(n2, c.to.name, n1.len() as int);
            lemma_bound_follows(m1, n1, c.to.name, kind);
            assert(s1 == TranslateState { names: n2, ..m1 });
        } else {
            assert(n2 == n1);
            assert(s1 == m1);
        }
        assert(translated(cons) == st.step(c));
    }
}

/// Each port is bound to one position only, however often it is referenced: no node id
/// appears twice among the inputs, nor among the outputs.
pub proof fn lemma_ports_bound_once(cons: Seq<ConnectionView>)
    requires
        cons.len() < usize::MAX / 4,
    ensures
        translated(cons).module.inputs.no_duplicates(),
        translated(cons).module.outputs.no_duplicates(),
{
    lemma_translated_wf(cons);
}

/// Looks `name` up among the interned names, adding it if new; returns its id and whether it
/// was new.
fn intern(names: &mut Vec<String>, name: &String) -> (r: (usize, bool))
    requires
        distinct(old(names)@.map_values(|s: String| s@)),
        old(names)@.len() < usize::MAX,
    ensures
        ({
            let v0 = old(names)@.map_values(|s: String| s@);
            let v1 = final(names)@.map_values(|s: String| s@);
            &&& v1 == TranslateState::interned(v0, name@)
            &&& distinct(v1)
            &&& r.0 == id_of(v1, name@)
            &&& r.0 < v1.len()
            &&& r.1 == !v0.contains(name@)
        }),
{
    let ghost v0 = names@.map_values(|s: String| s@);
    let mut i: usize = 0;
    while i < names.len()
        invariant
            i <= names@.len(),
            v0 == names@.map_values(|s: String| s@),
            names@ == old(names)@,
            distinct(v0),
            forall|k: int| 0 <= k < i ==> v0[k] != name@,
        decreases names@.len() - i,
    {
        if names[i] == *name {
            proof {
                lemma_id_of(v0, name@, i as int);
                assert(v0.contains(name@));
            }
            return (i, false);
        }
        i = i + 1;
    }
    names.push(name.clone());
    proof {
        let v1 = names@.map_values(|s: String| s@);
        assert(!v0.contains(name@));
        assert(v1 =~= v0.push(name@));
        lemma_id_of(v1, name@, i as int);
    }
    (i, true)
}

/// Binds node `id`, named by `ident`, to the next position of its kind if it is a port.
fn bind_port(
    builder: &mut ModuleBuilder,
    input_ids: &mut Vec<String>,
    output_ids: &mut Vec<String>,
    idents: bool,
    id: usize,
    ident: &Identifier,
)
    requires
        old(builder).wf(),
        id < usize::MAX,
    ensures
        final(builder).wf(),
        ({
            let st = TranslateState {
                names: Seq::empty(),
                module: old(builder)@,
                input_names: old(input_ids)@.map_values(|s: String| s@),
                output_names: old(output_ids)@.map_values(|s: String| s@),
            };
            let b = st.bound(id, ident.name@, ident.kind);
            &&& final(builder)@ == b.module
            &&& idents ==> final(input_ids)@.map_values(|s: String| s@) == b.input_names
            &&& idents ==> final(output_ids)@.map_values(|s: String| s@) == b.output_names
        }),
{
    let ghost ins = input_ids@.map_values(|s: String| s@);
    let ghost outs = output_ids@.map_values(|s: String| s@);
    match ident.kind {
        IdentKind::InPort => {
            if idents {
                input_ids.push(ident.name.clone());
                assert(input_ids@.map_values(|s: String| s@) =~= ins.push(ident.name@));
            }
            builder.input(id);
        },
        IdentKind::OutPort => {
            if idents {
                output_ids.push(ident.name.clone());
                assert(output_ids@.map_values(|s: String| s@) =~= outs.push(ident.name@));
            }
            builder.output(id);
        },
        IdentKind::Node => {},
    }
}

/// Builds the module of a list of connections.
///
/// Node ids are given in order of first sighting of each name; each connection adds its edge
/// to the charge or block set of its source; a name typed as an input (output) port is bound
/// to the next input (output) position when it is first seen, at either end of a connection. With `idents`, the names bound to the input
/// and output positions are returned as well.
pub fn translate(connections: ConVec, idents: bool) -> (r: TranslationResult)
    requires
        connections.0@.len() < usize::MAX / 4,
    ensures
        r.module.wf(),
        r.module@ == translated(connections@).module,
        idents ==> (r.identifiers matches Some((ins, outs)) && ins@.map_values(|s: String| s@)
            == translated(connections@).input_names && outs@.map_values(|s: String| s@)
            == translated(connections@).output_names),
        !idents ==> r.identifiers is None,
{
    let mut names: Vec<String> = Vec::new();
    let mut input_ids: Vec<String> = Vec::new();
    let mut output_ids: Vec<String> = Vec::new();
    let mut builder = ModuleBuilder::default();
    let cons = &connections.0;
    let ghost cv = connections@;
    let mut k: usize = 0;
    proof {
        assert(names@.map_values(|s: String| s@) =~= Seq::<Seq<char>>::empty());
        assert(input_ids@.map_values(|s: String| s@) =~= Seq::<Seq<char>>::empty());
        assert(output_ids@.map_values(|s: String| s@) =~= Seq::<Seq<char>>::empty());
    }
    while k < cons.len()
        invariant
            k <= cons@.len(),
            cons@.len() < usize::MAX / 4,
            cv == cons@.map_values(|c: Connection| c@),
            builder.wf(),
            names@.map_values(|s: String| s@) == translated(cv.subrange(0, k as int)).names,
            builder@ == translated(cv.subrange(0, k as int)).module,
            idents ==> input_ids@.map_values(|s: String| s@) == translated(
                cv.subrange(0, k as int),
            ).input_names,
            idents ==> output_ids@.map_values(|s: String| s@) == translated(
                cv.subrange(0, k as int),
            ).output_names,
            distinct(translated(cv.subrange(0, k as int)).names),
            translated(cv.subrange(0, k as int)).names.len() <= 2 * k,
        decreases cons@.len() - k,
    {
        let con = &cons[k];
        let ghost st = translated(cv.subrange(0, k as int));
        let (from_idx, from_new) = intern(&mut names, &con.from.name);
        let (to_idx, to_new) = intern(&mut names, &con.to.name);
        builder.connect(from_idx, to_idx, con.is_charge);
        if from_new {
            bind_port(&mut builder, &mut input_ids, &mut output_ids, idents, from_idx, &con.from);
        }
        if to_new {
            bind_port(&mut builder, &mut input_ids, &mut output_ids, idents, to_idx, &con.to);
        }
        proof {
            let pre = cv.subrange(0, k as int);
            let post = cv.subrange(0, k as int + 1);
            assert(post.drop_last() =~= pre);
            assert(post.last() == con@);
            let n1 = TranslateState::interned(st.names, con.from.name@);
            let n2 = TranslateState::interned(n1, con.to.name@);
            assert(id_of(n1, con.from.name@) == id_of(n2, con.from.name@)) by {
                let i = id_of(n1, con.from.name@) as int;
                assert(n2[i] == n1[i]);
                lemma_id_of(n2, con.from.name@, i);
            }
        }
        k = k + 1;
    }
    proof {
        assert(cv.subrange(0, cons@.len() as int) =~= cv);
    }
    let module = builder.build();
    TranslationResult {
        module,
        identifiers: if idents {
            Some((input_ids, output_ids))
        } else {
            None
        },
    }
}

} // verus!
