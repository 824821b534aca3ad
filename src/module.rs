use vstd::prelude::*;

verus! {

/// A sequence in strictly increasing order: the canonical form of a finite set of node ids.
pub open spec fn strictly_sorted(s: Seq<usize>) -> bool {
    forall|i: int, j: int| 0 <= i < j < s.len() ==> s[i] < s[j]
}

/// The outgoing edges of one node, each kept as a strictly increasing list of target ids.
#[derive(Clone, Debug, PartialEq, Eq)]
pub struct NodeConnections {
    pub charging: Vec<usize>,
    pub blocking: Vec<usize>,
}

/// A compiled graph: edge sets per node id, and the node ids bound to input and output positions.
#[derive(Clone, Debug, PartialEq, Eq)]
pub struct Module {
    pub connections: Vec<NodeConnections>,
    pub inputs: Vec<usize>,
    pub outputs: Vec<usize>,
}

/// The mathematical content of a module: for each node id its charge and block target sets.
pub struct ModuleView {
    pub charging: Seq<Set<usize>>,
    pub blocking: Seq<Set<usize>>,
    pub inputs: Seq<usize>,
    pub outputs: Seq<usize>,
}

impl ModuleView {
    pub open spec fn node_count(self) -> nat {
        self.charging.len()
    }

    /// Every node has both sets, and every target and port names an existing node.
    pub open spec fn wf(self) -> bool {
        &&& self.blocking.len() == self.charging.len()
        &&& forall|i: int, j: usize|
            0 <= i < self.node_count() && #[trigger] self.charging[i].contains(j) ==> j
                < self.node_count()
        &&& forall|i: int, j: usize|
            0 <= i < self.node_count() && #[trigger] self.blocking[i].contains(j) ==> j
                < self.node_count()
        &&& forall|k: int| 0 <= k < self.inputs.len() ==> #[trigger] self.inputs[k] < self.node_count()
        &&& forall|k: int|
            0 <= k < self.outputs.len() ==> #[trigger] self.outputs[k] < self.node_count()
    }

    /// The same module with at least `n` nodes; new nodes have no edges.
    pub open spec fn grown(self, n: nat) -> ModuleView {
        let len = if self.node_count() < n {
            n
        } else {
            self.node_count()
        };
        ModuleView {
            charging: Seq::new(
                len,
                |i: int|
                    if i < self.node_count() {
                        self.charging[i]
                    } else {
                        Set::empty()
                    },
            ),
            blocking: Seq::new(
                len,
                |i: int|
                    if i < self.blocking.len() {
                        self.blocking[i]
                    } else {
                        Set::empty()
                    },
            ),
            inputs: self.inputs,
            outputs: self.outputs,
        }
    }

    /// The module with the edge `from -> to` added to the charge or the block relation.
    pub open spec fn with_edge(self, from: usize, to: usize, is_charge: bool) -> ModuleView {
        let g = self.grown((if from < to {
            to
        } else {
            from
        }) as nat + 1);
        if is_charge {
            ModuleView { charging: g.charging.update(from as int, g.charging[from as int].insert(to)), ..g }
        } else {
            ModuleView { blocking: g.blocking.update(from as int, g.blocking[from as int].insert(to)), ..g }
        }
    }

    /// The module with node `index` appended to the input positions.
    pub open spec fn with_input(self, index: usize) -> ModuleView {
        ModuleView { inputs: self.inputs.push(index), ..self.grown(index as nat + 1) }
    }

    /// The module with node `index` appended to the output positions.
    pub open spec fn with_output(self, index: usize) -> ModuleView {
        ModuleView { outputs: self.outputs.push(index), ..self.grown(index as nat + 1) }
    }

    pub open spec fn empty() -> ModuleView {
        ModuleView {
            charging: Seq::empty(),
            blocking: Seq::empty(),
            inputs: Seq::empty(),
            outputs: Seq::empty(),
        }
    }
}

/// Adding an edge that is already there changes nothing: edges form sets.
pub proof fn lemma_with_edge_idempotent(m: ModuleView, from: usize, to: usize, is_charge: bool)
    requires
        m.wf(),
    ensures
        m.with_edge(from, to, is_charge).with_edge(from, to, is_charge) == m.with_edge(
            from,
            to,
            is_charge,
        ),
{
    let n = (if from < to {
        to
    } else {
        from
    }) as nat + 1;
    let m1 = m.with_edge(from, to, is_charge);
    let g = m1.grown(n);
    assert(g.charging =~= m1.charging);
    assert(g.blocking =~= m1.blocking);
    let m2 = m1.with_edge(from, to, is_charge);
    if is_charge {
        assert(m1.charging[from as int].insert(to) =~= m1.charging[from as int]);
    } else {
        assert(m1.blocking[from as int].insert(to) =~= m1.blocking[from as int]);
    }
    assert(m2.charging =~= m1.charging);
    assert(m2.blocking =~= m1.blocking);
}

/// Adding an edge that is present changes nothing.
pub proof fn lemma_with_edge_present(m: ModuleView, from: usize, to: usize, is_charge: bool)
    requires
        m.blocking.len() == m.charging.len(),
        from < m.node_count(),
        to < m.node_count(),
        is_charge ==> m.charging[from as int].contains(to),
        !is_charge ==> m.blocking[from as int].contains(to),
    ensures
        m.with_edge(from, to, is_charge) == m,
{
    let n = (if from < to {
        to
    } else {
        from
    }) as nat + 1;
    let g = m.grown(n);
    assert(g.charging =~= m.charging);
    assert(g.blocking =~= m.blocking);
    if is_charge {
        assert(m.charging[from as int].insert(to) =~= m.charging[from as int]);
        assert(m.with_edge(from, to, is_charge).charging =~= m.charging);
    } else {
        assert(m.blocking[from as int].insert(to) =~= m.blocking[from as int]);
        assert(m.with_edge(from, to, is_charge).blocking =~= m.blocking);
    }
}

impl View for NodeConnections {
    type V = (Set<usize>, Set<usize>);

    open spec fn view(&self) -> (Set<usize>, Set<usize>) {
        (self.charging@.to_set(), self.blocking@.to_set())
    }
}

impl NodeConnections {
    pub open spec fn wf(&self) -> bool {
        strictly_sorted(self.charging@) && strictly_sorted(self.blocking@)
    }

    fn empty() -> (r: NodeConnections)
        ensures
            r.charging@.len() == 0,
            r.blocking@.len() == 0,
    {
        NodeConnections { charging: Vec::new(), blocking: Vec::new() }
    }
}

impl View for Module {
    type V = ModuleView;

    open spec fn view(&self) -> ModuleView {
        ModuleView {
            charging: self.connections@.map_values(|c: NodeConnections| c@.0),
            blocking: self.connections@.map_values(|c: NodeConnections| c@.1),
            inputs: self.inputs@,
            outputs: self.outputs@,
        }
    }
}

impl Module {
    /// Each edge list is strictly sorted, and the model is well formed.
    pub open spec fn wf(&self) -> bool {
        &&& forall|i: int| 0 <= i < self.connections@.len() ==> #[trigger] self.connections@[i].wf()
        &&& self@.wf()
    }
}

impl Default for Module {
    fn default() -> (r: Module)
        ensures
            r@ == ModuleView::empty(),
            r.wf(),
    {
        let r = Module { connections: Vec::new(), inputs: Vec::new(), outputs: Vec::new() };
        assert(r@.charging =~= Seq::empty());
        assert(r@.blocking =~= Seq::empty());
        r
    }
}

/// Inserts `x` into a strictly sorted list, keeping it strictly sorted.
fn insert_sorted(v: &mut Vec<usize>, x: usize)
    requires
        strictly_sorted(old(v)@),
    ensures
        strictly_sorted(final(v)@),
        final(v)@.to_set() == old(v)@.to_set().insert(x),
{
    let mut p: usize = 0;
    while p < v.len() && v[p] < x
        invariant
            p <= v@.len(),
            strictly_sorted(v@),
            forall|k: int| 0 <= k < p ==> v@[k] < x,
        decreases v@.len() - p,
    {
        p = p + 1;
    }
    let ghost s = v@;
    if p < v.len() && v[p] == x {
        assert(s.to_set().insert(x) =~= s.to_set());
        return ;
    }
    v.insert(p, x);
    proof {
        s.insert_ensures(p as int, x);
        let t = s.insert(p as int, x);
        assert(t == v@);
        assert forall|i: int, j: int| 0 <= i < j < t.len() implies t[i] < t[j] by {
            if j < p {
            } else if j == p {
            } else if i < p {
                assert(t[j] == s[j - 1]);
            } else if i == p {
                assert(t[j] == s[j - 1]);
                assert(s[p as int] > x || j - 1 == p || s[p as int] < s[j - 1]);
            } else {
                assert(t[j] == s[j - 1]);
                assert(t[i] == s[i - 1]);
            }
        }
        assert forall|y: usize| t.to_set().contains(y) <==> s.to_set().insert(x).contains(y) by {
            if s.contains(y) {
                let k = choose|k: int| 0 <= k < s.len() && s[k] == y;
                if k < p {
                    assert(t[k] == y);
                } else {
                    assert(t[k + 1] == y);
                }
            }
            if t.contains(y) {
                let k = choose|k: int| 0 <= k < t.len() && t[k] == y;
                if k < p {
                    assert(s[k] == y);
                } else if k > p {
                    assert(s[k - 1] == y);
                }
            }
            assert(t[p as int] == x);
        }
        assert(t.to_set() =~= s.to_set().insert(x));
    }
}

/// Builds a module edge by edge; nodes are created as ids are mentioned.
pub struct ModuleBuilder {
    module: Module,
}

impl View for ModuleBuilder {
    type V = ModuleView;

    closed spec fn view(&self) -> ModuleView {
        self.module@
    }
}

impl ModuleBuilder {
    /// The builder holds a well formed module.
    pub closed spec fn wf(&self) -> bool {
        self.module.wf()
    }

    fn expand(&mut self, count: usize)
        requires
            old(self).wf(),
        ensures
            final(self).wf(),
            final(self)@.wf(),
            final(self)@ == old(self)@.grown(count as nat),
    {
        let ghost m0 = self.module@;
        while self.module.connections.len() < count
            invariant
                self.module.wf(),
                m0.wf(),
                self.module.inputs@ == m0.inputs,
                self.module.outputs@ == m0.outputs,
                m0.node_count() <= self.module.connections@.len(),
                self.module.connections@.len() <= count || self.module.connections@.len()
                    == m0.node_count(),
                forall|i: int|
                    0 <= i < self.module.connections@.len() ==> #[trigger] self.module@.charging[i]
                        == (if i < m0.node_count() {
                        m0.charging[i]
                    } else {
                        Set::empty()
                    }),
                forall|i: int|
                    0 <= i < self.module.connections@.len() ==> #[trigger] self.module@.blocking[i]
                        == (if i < m0.node_count() {
                        m0.blocking[i]
                    } else {
                        Set::empty()
                    }),
            decreases count - self.module.connections@.len(),
        {
            let e = NodeConnections::empty();
            proof {
                assert(e@.0 =~= Set::empty());
                assert(e@.1 =~= Set::empty());
            }
            let ghost prev = self.module.connections@;
            let ghost pv = self.module@;
            self.module.connections.push(e);
            proof {
                let c = self.module.connections@;
                assert(c[c.len() - 1] == e);
                assert forall|i: int| 0 <= i < c.len() implies #[trigger] c[i].wf() by {
                    if i < prev.len() {
                        assert(c[i] == prev[i]);
                    }
                }
                let v = self.module@;
                assert forall|i: int| 0 <= i < prev.len() implies #[trigger] v.charging[i]
                    == pv.charging[i] by {
                    assert(c[i] == prev[i]);
                }
                assert forall|i: int| 0 <= i < prev.len() implies #[trigger] v.blocking[i]
                    == pv.blocking[i] by {
                    assert(c[i] == prev[i]);
                }
                let last = c.len() - 1;
                assert(v.charging[last] == Set::<usize>::empty());
                assert(v.blocking[last] == Set::<usize>::empty());
                assert forall|i: int, j: usize|
                    0 <= i < v.node_count() && #[trigger] v.charging[i].contains(j) implies j
                        < v.node_count() by {
                    if i < prev.len() {
                        assert(pv.charging[i].contains(j));
                    }
                }
                assert forall|i: int, j: usize|
                    0 <= i < v.node_count() && #[trigger] v.blocking[i].contains(j) implies j
                        < v.node_count() by {
                    if i < prev.len() {
                        assert(pv.blocking[i].contains(j));
                    }
                }
                assert(v.wf());
            }
        }
        assert(self.module@.charging =~= m0.grown(count as nat).charging);
        assert(self.module@.blocking =~= m0.grown(count as nat).blocking);
    }

    /// Adds the charge edge `from -> to`.
    pub fn charge(&mut self, from: usize, to: usize)
        requires
            old(self).wf(),
            from < usize::MAX,
            to < usize::MAX,
        ensures
            final(self).wf(),
            final(self)@.wf(),
            final(self)@ == old(self)@.with_edge(from, to, true),
    {
        self.connect(from, to, true)
    }

    /// Adds the block edge `from -> to`.
    pub fn block(&mut self, from: usize, to: usize)
        requires
            old(self).wf(),
            from < usize::MAX,
            to < usize::MAX,
        ensures
            final(self).wf(),
            final(self)@.wf(),
            final(self)@ == old(self)@.with_edge(from, to, false),
    {
        self.connect(from, to, false)
    }

    /// Adds the edge `from -> to` to the charge relation if `is_charge`, else to the block
    /// relation. Edges form sets: adding an edge twice has the effect of adding it once.
    pub fn connect(&mut self, from: usize, to: usize, is_charge: bool)
        requires
            old(self).wf(),
            from < usize::MAX,
            to < usize::MAX,
        ensures
            final(self).wf(),
            final(self)@.wf(),
            final(self)@ == old(self)@.with_edge(from, to, is_charge),
    {
        let ghost m0 = self.module@;
        let top = if from < to {
            to
        } else {
            from
        };
        self.expand(top + 1);
        assert(self.module.connections@[from as int].wf());
        if is_charge {
            insert_sorted(&mut self.module.connections[from].charging, to);
        } else {
            insert_sorted(&mut self.module.connections[from].blocking, to);
        }
        proof {
            let r = m0.with_edge(from, to, is_charge);
            assert(self.module@.charging =~= r.charging);
            assert(self.module@.blocking =~= r.blocking);
        }
    }

    /// Binds node `index` to the next input position, and returns that position.
    pub fn input(&mut self, index: usize) -> (pos: usize)
        requires
            old(self).wf(),
            index < usize::MAX,
        ensures
            final(self).wf(),
            final(self)@.wf(),
            final(self)@ == old(self)@.with_input(index),
            pos == old(self)@.inputs.len(),
    {
        self.expand(index + 1);
        self.module.inputs.push(index);
        self.module.inputs.len() - 1
    }

    /// Binds node `index` to the next output position, and returns that position.
    pub fn output(&mut self, index: usize) -> (pos: usize)
        requires
            old(self).wf(),
            index < usize::MAX,
        ensures
            final(self).wf(),
            final(self)@.wf(),
            final(self)@ == old(self)@.with_output(index),
            pos == old(self)@.outputs.len(),
    {
        self.expand(index + 1);
        self.module.outputs.push(index);
        self.module.outputs.len() - 1
    }

    /// Hands out the module built so far and starts over with an empty one.
    pub fn build(&mut self) -> (m: Module)
        requires
            old(self).wf(),
        ensures
            m.wf(),
            m@ == old(self)@,
            final(self).wf(),
            final(self)@.wf(),
            final(self)@ == ModuleView::empty(),
    {
        let mut m = Module::default();
        core::mem::swap(&mut m, &mut self.module);
        m
    }
}

impl Default for ModuleBuilder {
    fn default() -> (r: ModuleBuilder)
        ensures
            r.wf(),
            r@.wf(),
            r@ == ModuleView::empty(),
    {
        ModuleBuilder { module: Module::default() }
    }
}

} // verus!
