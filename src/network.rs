use vstd::prelude::*;
use crate::module::{Module, ModuleView};

verus! {

/// The flags of one node: those of the current tick and the shadow flags that the tick in
/// progress sets for the next one.
#[derive(Clone, Copy, Debug, PartialEq, Eq)]
struct NodeState {
    charged: bool,
    blocked: bool,
    being_charged: bool,
    being_blocked: bool,
}

/// The observable state of a simulation: the module it runs and each node's current flags.
pub struct NetworkView {
    pub module: ModuleView,
    pub charged: Seq<bool>,
    pub blocked: Seq<bool>,
}

impl NetworkView {
    /// The module is well formed and every node has one charge flag and one block flag.
    pub open spec fn wf(self) -> bool {
        &&& self.module.wf()
        &&& self.charged.len() == self.module.node_count()
        &&& self.blocked.len() == self.charged.len()
    }

    /// Node `i` propagates during a tick: it is charged and not blocked.
    pub open spec fn fires(self, i: int) -> bool {
        self.charged[i] && !self.blocked[i]
    }

    /// Some node that fires has a charge edge to `j`.
    pub open spec fn charge_driven(self, j: usize) -> bool {
        exists|i: int|
            0 <= i < self.charged.len() && self.fires(i) && #[trigger] self.module.charging[i].contains(
                j,
            )
    }

    /// Some node that fires has a block edge to `j`.
    pub open spec fn block_driven(self, j: usize) -> bool {
        exists|i: int|
            0 <= i < self.charged.len() && self.fires(i) && #[trigger] self.module.blocking[i].contains(
                j,
            )
    }

    /// The state after one tick: a node is charged (blocked) exactly when some node that fired
    /// drove it through a charge (block) edge; nothing else carries over.
    pub open spec fn tick(self) -> NetworkView {
        NetworkView {
            module: self.module,
            charged: Seq::new(self.charged.len(), |j: int| self.charge_driven(j as usize)),
            blocked: Seq::new(self.blocked.len(), |j: int| self.block_driven(j as usize)),
        }
    }

    /// The state right after construction: no node charged or blocked.
    pub open spec fn initial(module: ModuleView) -> NetworkView {
        NetworkView {
            module,
            charged: Seq::new(module.node_count(), |j: int| false),
            blocked: Seq::new(module.node_count(), |j: int| false),
        }
    }
}

/// A charge lasts one tick unless something drives it again: a node none of whose charge
/// sources has a charge source of its own is discharged two ticks after any state.
pub proof fn lemma_pulse(v: NetworkView, j: usize)
    requires
        v.blocked.len() == v.charged.len(),
        v.module.node_count() == v.charged.len(),
        j < v.charged.len(),
        forall|i: int, k: int|
            0 <= i < v.charged.len() && 0 <= k < v.charged.len() && #[trigger] v.module.charging[i].contains(j)
                ==> !#[trigger] v.module.charging[k].contains(i as usize),
    ensures
        !v.tick().tick().charged[j as int],
{
    let t = v.tick();
    if t.tick().charged[j as int] {
        let i = choose|i: int|
            0 <= i < t.charged.len() && t.fires(i) && #[trigger] t.module.charging[i].contains(j);
        assert(t.charged[i]);
        assert(v.charge_driven(i as usize));
        let k = choose|k: int|
            0 <= k < v.charged.len() && v.fires(k) && #[trigger] v.module.charging[k].contains(
                i as usize,
            );
        assert(v.module.charging[k].contains(i as usize));
    }
}

/// Blocking silences only the blocked node: during a tick it drives nothing, exactly as if it
/// were not charged, while what other nodes drive into it is unaffected.
pub proof fn lemma_blocked_is_silent(v: NetworkView, i: int)
    requires
        v.blocked.len() == v.charged.len(),
        0 <= i < v.charged.len(),
        v.blocked[i],
    ensures
        v.tick() == (NetworkView { charged: v.charged.update(i, false), ..v }).tick(),
{
    let w = NetworkView { charged: v.charged.update(i, false), ..v };
    assert forall|k: int| 0 <= k < v.charged.len() implies v.fires(k) == w.fires(k) by {
        if k == i {
        } else {
            assert(w.charged[k] == v.charged[k]);
        }
    }
    assert forall|j: int| 0 <= j < v.charged.len() implies #[trigger] v.charge_driven(j as usize)
        == w.charge_driven(j as usize) && v.block_driven(j as usize) == w.block_driven(
        j as usize,
    ) by {
        if v.charge_driven(j as usize) {
            let k = choose|k: int|
                0 <= k < v.charged.len() && v.fires(k) && #[trigger] v.module.charging[k].contains(
                    j as usize,
                );
            assert(w.fires(k));
        }
        if w.charge_driven(j as usize) {
            let k = choose|k: int|
                0 <= k < w.charged.len() && w.fires(k) && #[trigger] w.module.charging[k].contains(
                    j as usize,
                );
            assert(v.fires(k));
        }
        if v.block_driven(j as usize) {
            let k = choose|k: int|
                0 <= k < v.charged.len() && v.fires(k) && #[trigger] v.module.blocking[k].contains(
                    j as usize,
                );
            assert(w.fires(k));
        }
        if w.block_driven(j as usize) {
            let k = choose|k: int|
                0 <= k < w.charged.len() && w.fires(k) && #[trigger] w.module.blocking[k].contains(
                    j as usize,
                );
            assert(v.fires(k));
        }
    }
    assert(v.tick().charged =~= w.tick().charged);
    assert(v.tick().blocked =~= w.tick().blocked);
}

/// Sets the shadow flag of every target in `targets`, the charge one if `charge`.
fn drive(states: &mut Vec<NodeState>, targets: &Vec<usize>, charge: bool)
    requires
        forall|e: int| 0 <= e < targets@.len() ==> #[trigger] targets@[e] < old(states)@.len(),
    ensures
        final(states)@.len() == old(states)@.len(),
        forall|j: int|
            0 <= j < old(states)@.len() ==> {
                let s = #[trigger] final(states)@[j];
                let s0 = old(states)@[j];
                &&& s.charged == s0.charged
                &&& s.blocked == s0.blocked
                &&& s.being_charged == (s0.being_charged || (charge && targets@.contains(
                    j as usize,
                )))
                &&& s.being_blocked == (s0.being_blocked || (!charge && targets@.contains(
                    j as usize,
                )))
            },
{
    let ghost s0 = states@;
    let n = states.len();
    let mut e: usize = 0;
    while e < targets.len()
        invariant
            e <= targets@.len(),
            s0 == old(states)@,
            states@.len() == s0.len(),
            n == s0.len(),
            forall|q: int| 0 <= q < targets@.len() ==> #[trigger] targets@[q] < s0.len(),
            forall|j: int|
                0 <= j < s0.len() ==> {
                    let s = #[trigger] states@[j];
                    &&& s.charged == s0[j].charged
                    &&& s.blocked == s0[j].blocked
                    &&& s.being_charged == (s0[j].being_charged || (charge
                        && targets@.subrange(0, e as int).contains(j as usize)))
                    &&& s.being_blocked == (s0[j].being_blocked || (!charge
                        && targets@.subrange(0, e as int).contains(j as usize)))
                },
        decreases targets@.len() - e,
    {
        let j = targets[e];
        let ghost before = states@;
        let mut s = states[j];
        if charge {
            s.being_charged = true;
        } else {
            s.being_blocked = true;
        }
        states.set(j, s);
        proof {
            let pre = targets@.subrange(0, e as int);
            let post = targets@.subrange(0, e as int + 1);
            assert(post =~= pre.push(j));
            assert forall|x: usize| post.contains(x) <==> (pre.contains(x) || x == j) by {
                if post.contains(x) {
                    let q = choose|q: int| 0 <= q < post.len() && post[q] == x;
                    if q < pre.len() {
                        assert(pre[q] == x);
                    }
                }
                if pre.contains(x) {
                    let q = choose|q: int| 0 <= q < pre.len() && pre[q] == x;
                    assert(post[q] == x);
                }
                if x == j {
                    assert(post[e as int] == x);
                }
            }
            assert forall|q: int| 0 <= q < s0.len() implies {
                let t = #[trigger] states@[q];
                &&& t.charged == s0[q].charged
                &&& t.blocked == s0[q].blocked
                &&& t.being_charged == (s0[q].being_charged || (charge && post.contains(q as usize)))
                &&& t.being_blocked == (s0[q].being_blocked || (!charge && post.contains(q as usize)))
            } by {
                if q != j as int {
                    assert(states@[q] == before[q]);
                    assert(q as usize != j);
                } else {
                    assert(before[q] == before[j as int]);
                }
            }
        }
        e = e + 1;
    }
    assert(targets@.subrange(0, targets@.len() as int) =~= targets@);
}

/// A running simulation of one module.
pub struct Network {
    module: Module,
    states: Vec<NodeState>,
}

impl View for Network {
    type V = NetworkView;

    closed spec fn view(&self) -> NetworkView {
        NetworkView {
            module: self.module@,
            charged: self.states@.map_values(|s: NodeState| s.charged),
            blocked: self.states@.map_values(|s: NodeState| s.blocked),
        }
    }
}

impl Network {
    /// One state per node, and no shadow flag set between ticks.
    pub closed spec fn wf(&self) -> bool {
        &&& self.module.wf()
        &&& self.states@.len() == self.module@.node_count()
        &&& forall|j: int|
            0 <= j < self.states@.len() ==> !(#[trigger] self.states@[j]).being_charged
                && !self.states@[j].being_blocked
    }

    /// A well-formed network has a well-formed view: one charge and one block flag per node of
    /// a well-formed module.
    pub proof fn lemma_view_wf(&self)
        requires
            self.wf(),
        ensures
            self@.wf(),
    {
    }

    /// Starts a simulation of `module` with every node discharged and unblocked.
    pub fn new(module: Module) -> (r: Network)
        requires
            module.wf(),
        ensures
            r.wf(),
            r@.wf(),
            r@ == NetworkView::initial(module@),
    {
        let mut states: Vec<NodeState> = Vec::new();
        let n = module.connections.len();
        let mut i: usize = 0;
        while i < n
            invariant
                i <= n,
                n == module.connections@.len(),
                states@.len() == i,
                forall|j: int|
                    0 <= j < i ==> #[trigger] states@[j] == (NodeState {
                        charged: false,
                        blocked: false,
                        being_charged: false,
                        being_blocked: false,
                    }),
            decreases n - i,
        {
            states.push(
                NodeState {
                    charged: false,
                    blocked: false,
                    being_charged: false,
                    being_blocked: false,
                },
            );
            i = i + 1;
        }
        let r = Network { module, states };
        assert(r@.charged =~= NetworkView::initial(module@).charged);
        assert(r@.blocked =~= NetworkView::initial(module@).blocked);
        r
    }

    /// Charges node `index` for the coming tick, whether or not it is bound to an input.
    pub fn charge_node(&mut self, index: usize)
        requires
            old(self).wf(),
            index < old(self)@.charged.len(),
        ensures
            final(self).wf(),
            final(self)@.wf(),
            final(self)@ == (NetworkView {
                charged: old(self)@.charged.update(index as int, true),
                ..old(self)@
            }),
    {
        let mut s = self.states[index];
        s.charged = true;
        self.states.set(index, s);
        proof {
            let v = self@;
            let o = old(self)@;
            assert(v.charged =~= o.charged.update(index as int, true));
            assert(v.blocked =~= o.blocked);
        }
    }

    /// Whether node `index` is charged as of the last completed tick.
    pub fn seek_node(&self, index: usize) -> (r: bool)
        requires
            self.wf(),
            index < self@.charged.len(),
        ensures
            r == self@.charged[index as int],
    {
        self.states[index].charged
    }

    /// Charges the node bound to input position `input` for the coming tick.
    pub fn charge(&mut self, input: usize)
        requires
            old(self).wf(),
            input < old(self)@.module.inputs.len(),
        ensures
            final(self).wf(),
            final(self)@.wf(),
            final(self)@ == (NetworkView {
                charged: old(self)@.charged.update(
                    old(self)@.module.inputs[input as int] as int,
                    true,
                ),
                ..old(self)@
            }),
    {
        let index = self.module.inputs[input];
        assert(self@.module.inputs[input as int] < self@.charged.len());
        self.charge_node(index);
    }

    /// Whether the node bound to output position `output` is charged as of the last completed
    /// tick.
    pub fn seek(&self, output: usize) -> (r: bool)
        requires
            self.wf(),
            output < self@.module.outputs.len(),
        ensures
            r == self@.charged[self@.module.outputs[output as int] as int],
    {
        let index = self.module.outputs[output];
        assert(self@.module.outputs[output as int] < self@.charged.len());
        self.seek_node(index)
    }

    /// Charges the node bound to each input position whose bit is set.
    pub fn charge_inputs(&mut self, bits: &Vec<bool>)
        requires
            old(self).wf(),
            bits@.len() == old(self)@.module.inputs.len(),
        ensures
            final(self).wf(),
            final(self)@.wf(),
            final(self)@.module == old(self)@.module,
            final(self)@.blocked == old(self)@.blocked,
            final(self)@.charged.len() == old(self)@.charged.len(),
            forall|j: int|
                0 <= j < old(self)@.charged.len() ==> #[trigger] final(self)@.charged[j] == (old(
                    self,
                )@.charged[j] || exists|k: int|
                    0 <= k < bits@.len() && bits@[k] && old(self)@.module.inputs[k] == j),
    {
        let ghost o = self@;
        let mut k: usize = 0;
        while k < bits.len()
            invariant
                self.wf(),
                k <= bits@.len(),
                bits@.len() == o.module.inputs.len(),
                self@.module == o.module,
                self@.blocked == o.blocked,
                self@.charged.len() == o.charged.len(),
                forall|j: int|
                    0 <= j < o.charged.len() ==> #[trigger] self@.charged[j] == (o.charged[j]
                        || exists|q: int| 0 <= q < k && bits@[q] && o.module.inputs[q] == j),
            decreases bits@.len() - k,
        {
            if bits[k] {
                self.charge(k);
            }
            proof {
                assert forall|j: int| 0 <= j < o.charged.len() implies #[trigger] self@.charged[j]
                    == (o.charged[j] || exists|q: int|
                    0 <= q < k + 1 && bits@[q] && o.module.inputs[q] == j) by {
                    if bits@[k as int] && o.module.inputs[k as int] == j {
                        assert(0 <= k < k + 1 && bits@[k as int] && o.module.inputs[k as int] == j);
                    }
                }
            }
            k = k + 1;
        }
    }

    /// The charge of the node bound to each output position.
    pub fn output_bits(&self) -> (r: Vec<bool>)
        requires
            self.wf(),
        ensures
            r@.len() == self@.module.outputs.len(),
            forall|k: int|
                0 <= k < r@.len() ==> #[trigger] r@[k] == self@.charged[self@.module.outputs[k] as int],
    {
        let mut r: Vec<bool> = Vec::new();
        let mut k: usize = 0;
        while k < self.module.outputs.len()
            invariant
                self.wf(),
                k <= self.module.outputs@.len(),
                r@.len() == k,
                forall|q: int|
                    0 <= q < k ==> #[trigger] r@[q] == self@.charged[self@.module.outputs[q] as int],
            decreases self.module.outputs@.len() - k,
        {
            r.push(self.seek(k));
            k = k + 1;
        }
        r
    }

    /// Advances the simulation by one tick.
    ///
    /// First every node that is charged and not blocked sets the shadow flags of its charge
    /// and block targets, reading only the current flags; then every node takes its shadow
    /// flags as its current ones and clears them.
    pub fn next(&mut self)
        requires
            old(self).wf(),
        ensures
            final(self).wf(),
            final(self)@.wf(),
            final(self)@ == old(self)@.tick(),
    {
        let ghost o = self@;
        let ghost s0 = self.states@;
        let n = self.states.len();
        let mut i: usize = 0;
        while i < n
            invariant
                i <= n,
                n == s0.len(),
                self.module.wf(),
                self.module@ == o.module,
                o.charged.len() == n,
                o.charged == s0.map_values(|s: NodeState| s.charged),
                o.blocked == s0.map_values(|s: NodeState| s.blocked),
                self.states@.len() == n,
                n == self.module@.node_count(),
                forall|j: int|
                    0 <= j < n ==> {
                        let s = #[trigger] self.states@[j];
                        &&& s.charged == s0[j].charged
                        &&& s.blocked == s0[j].blocked
                        &&& s.being_charged == exists|k: int|
                            0 <= k < i && o.fires(k) && #[trigger] o.module.charging[k].contains(
                                j as usize,
                            )
                        &&& s.being_blocked == exists|k: int|
                            0 <= k < i && o.fires(k) && #[trigger] o.module.blocking[k].contains(
                                j as usize,
                            )
                    },
            decreases n - i,
        {
            let st = self.states[i];
            if st.charged && !st.blocked {
                assert(self.module.connections@[i as int].wf());
                assert forall|e: int|
                    0 <= e < self.module.connections@[i as int].charging@.len() implies #[trigger] self.module.connections@[i as int].charging@[e]
                    < n by {
                    let t = self.module.connections@[i as int].charging@[e];
                    assert(self.module@.charging[i as int].contains(t));
                }
                assert forall|e: int|
                    0 <= e < self.module.connections@[i as int].blocking@.len() implies #[trigger] self.module.connections@[i as int].blocking@[e]
                    < n by {
                    let t = self.module.connections@[i as int].blocking@[e];
                    assert(self.module@.blocking[i as int].contains(t));
                }
                drive(&mut self.states, &self.module.connections[i].charging, true);
                drive(&mut self.states, &self.module.connections[i].blocking, false);
            }
            proof {
                assert(o.charged[i as int] == s0[i as int].charged);
                assert(o.blocked[i as int] == s0[i as int].blocked);
                assert forall|j: int| 0 <= j < n implies {
                    let s = #[trigger] self.states@[j];
                    &&& s.being_charged == exists|k: int|
                        0 <= k < i + 1 && o.fires(k) && #[trigger] o.module.charging[k].contains(
                            j as usize,
                        )
                    &&& s.being_blocked == exists|k: int|
                        0 <= k < i + 1 && o.fires(k) && #[trigger] o.module.blocking[k].contains(
                            j as usize,
                        )
                } by {
                    if o.fires(i as int) && o.module.charging[i as int].contains(j as usize) {
                        assert(0 <= i < i + 1 && o.fires(i as int));
                    }
                    if o.fires(i as int) && o.module.blocking[i as int].contains(j as usize) {
                        assert(0 <= i < i + 1 && o.fires(i as int));
                    }
                }
            }
            i = i + 1;
        }
        let mut j: usize = 0;
        while j < n
            invariant
                j <= n,
                n == s0.len(),
                self.module.wf(),
                self.module@ == o.module,
                o.charged.len() == n,
                o.blocked.len() == n,
                self.states@.len() == n,
                n == self.module@.node_count(),
                forall|q: int|
                    0 <= q < j ==> {
                        let s = #[trigger] self.states@[q];
                        &&& s.charged == o.charge_driven(q as usize)
                        &&& s.blocked == o.block_driven(q as usize)
                        &&& !s.being_charged
                        &&& !s.being_blocked
                    },
                forall|q: int|
                    j <= q < n ==> {
                        let s = #[trigger] self.states@[q];
                        &&& s.being_charged == o.charge_driven(q as usize)
                        &&& s.being_blocked == o.block_driven(q as usize)
                    },
            decreases n - j,
        {
            let s = self.states[j];
            self.states.set(
                j,
                NodeState {
                    charged: s.being_charged,
                    blocked: s.being_blocked,
                    being_charged: false,
                    being_blocked: false,
                },
            );
            j = j + 1;
        }
        proof {
            let v = self@;
            let t = o.tick();
            assert(v.charged =~= t.charged);
            assert(v.blocked =~= t.blocked);
        }
    }
}

} // verus!
