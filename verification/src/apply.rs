use vstd::prelude::*;

use crate::common::{exceeds, is_non_negative, magnitude, spec_exceeds, Value, Weight};
use crate::network::{cell, indices_sorted, Network};

verus! {

/// Propagation configuration: the cutoff threshold, a value of zero or
/// greater.  A pulse whose magnitude does not exceed it terminates
/// silently.
pub struct Conf {
    pub threshold: Value,
}

/// The pulses the initial input injection leaves pending, topmost last:
/// input position 0 ends on top of the stack, and positions whose value
/// does not exceed the threshold are cut immediately.
pub open spec fn initial_pulses(inputs: Seq<usize>, values: Seq<Value>, t: Value) -> Seq<
    (usize, Value),
>
    decreases inputs.len(),
{
    if inputs.len() == 0 {
        Seq::empty()
    } else {
        let rest = initial_pulses(inputs.drop_first(), values.drop_first(), t);
        if spec_exceeds(values[0], t) {
            rest.push((inputs[0], values[0]))
        } else {
            rest
        }
    }
}

/// The pulses one expansion of a pulse at `node` leaves pending, for
/// destinations `j` and up, topmost last: destination `j` ends highest.
/// A destination is spawned only when its arc weight is not zero and its
/// product exceeds the threshold (a zero weight always yields a zero or
/// NaN product, which never exceeds a threshold of zero or greater, so
/// the weight test does not change what a caller that supplies the true
/// products observes).
pub open spec fn spawned_from(
    w: Seq<Weight>,
    n: int,
    node: int,
    products: Seq<Value>,
    t: Value,
    j: int,
) -> Seq<(usize, Value)>
    decreases n - j,
{
    if j < 0 || j >= n {
        Seq::empty()
    } else {
        let rest = spawned_from(w, n, node, products, t, j + 1);
        if magnitude(cell(w, n, node, j)) != 0 && spec_exceeds(products[j], t) {
            rest.push((j as usize, products[j]))
        } else {
            rest
        }
    }
}

/// Applies a network to an input vector, one pulse at a time.  The
/// caller owns the arithmetic: it repeatedly takes the next pending
/// pulse with `next_pulse`, multiplies its magnitude with the pulse
/// node's weight row, and hands the products back through
/// `feed_products`; the machine decides everything else — which pulses
/// survive the threshold, where deposits land, and in what order.  When
/// `next_pulse` returns `None` the run is complete and `deposits` holds,
/// for each output in ascending index order, the magnitudes deposited
/// there in arrival order; their left-to-right sum (starting from zero)
/// is that output's result.
pub struct Application {
    column_len: usize,
    weights: Vec<Weight>,
    inputs: Vec<usize>,
    outputs: Vec<usize>,
    threshold: Value,
    stack: Vec<(usize, Value)>,
    current: Option<(usize, Value)>,
    deposits: Vec<Vec<Value>>,
}

impl Application {
    /// The matrix side length.
    pub closed spec fn n(self) -> int {
        self.column_len as int
    }

    /// The flat row-major weight matrix.
    pub closed spec fn weights_seq(self) -> Seq<Weight> {
        self.weights@
    }

    /// The input node indices, ascending.
    pub closed spec fn inputs_seq(self) -> Seq<usize> {
        self.inputs@
    }

    /// The output node indices, ascending.
    pub closed spec fn outputs_seq(self) -> Seq<usize> {
        self.outputs@
    }

    /// The cutoff threshold.
    pub closed spec fn spec_threshold(self) -> Value {
        self.threshold
    }

    /// The pending pulses, topmost last.
    pub closed spec fn stack_seq(self) -> Seq<(usize, Value)> {
        self.stack@
    }

    /// The pulse handed out by `next_pulse` and awaiting its products.
    pub closed spec fn current_pulse(self) -> Option<(usize, Value)> {
        self.current
    }

    /// The deposit lists, one per output in ascending index order.
    pub closed spec fn deposits_seq(self) -> Seq<Seq<Value>> {
        Seq::new(self.deposits@.len() as nat, |i: int| self.deposits@[i]@)
    }

    /// Structural invariant.
    pub open spec fn wf(self) -> bool {
        &&& is_non_negative(self.spec_threshold())
        &&& self.weights_seq().len() == self.n() * self.n()
        &&& indices_sorted(self.outputs_seq())
        &&& forall|i: int|
            0 <= i < self.outputs_seq().len() ==> (#[trigger] self.outputs_seq()[i]) < self.n()
        &&& forall|i: int|
            0 <= i < self.inputs_seq().len() ==> (#[trigger] self.inputs_seq()[i]) < self.n()
        &&& self.deposits_seq().len() == self.outputs_seq().len()
        &&& forall|i: int|
            0 <= i < self.stack_seq().len() ==> ((#[trigger] self.stack_seq()[i]).0 as int)
                < self.n()
        &&& match self.current_pulse() {
            Some(p) => (p.0 as int) < self.n(),
            None => true,
        }
    }

    /// A machine over the given network view and configuration, with no
    /// run in progress.
    pub fn new(network: &Network, conf: &Conf) -> (r: Application)
        requires
            network.wf(),
            is_non_negative(conf.threshold),
        ensures
            r.wf(),
            r.n() == network.nodes@.len(),
            r.weights_seq() == network.weights.spec_values(),
            r.inputs_seq() == network.inputs@,
            r.outputs_seq() == network.outputs@,
            r.spec_threshold() == conf.threshold,
            r.stack_seq() == Seq::<(usize, Value)>::empty(),
            r.current_pulse() is None,
            forall|i: int|
                0 <= i < r.deposits_seq().len() ==> (#[trigger] r.deposits_seq()[i]) == Seq::<
                    Value,
                >::empty(),
    {
        let column_len = network.nodes.len();
        let weights = vstd::slice::slice_to_vec(network.weights.values());
        let inputs = vstd::slice::slice_to_vec(network.inputs.as_slice());
        let outputs = vstd::slice::slice_to_vec(network.outputs.as_slice());
        let n_out = outputs.len();
        let mut deposits: Vec<Vec<Value>> = Vec::new();
        let mut i: usize = 0;
        while i < n_out
            invariant
                i <= n_out,
                deposits@.len() == i,
                forall|k: int| 0 <= k < i ==> (#[trigger] deposits@[k])@ == Seq::<Value>::empty(),
            decreases n_out - i,
        {
            deposits.push(Vec::new());
            i = i + 1;
        }
        Application {
            column_len,
            weights,
            inputs,
            outputs,
            threshold: conf.threshold,
            stack: Vec::new(),
            current: None,
            deposits,
        }
    }

    /// Starts a run: clears the deposit lists and injects one pulse per
    /// input, cut by the threshold.
    pub fn begin(&mut self, values: &Vec<Value>)
        requires
            old(self).wf(),
            old(self).current_pulse() is None,
            values@.len() >= old(self).inputs_seq().len(),
        ensures
            final(self).wf(),
            final(self).n() == old(self).n(),
            final(self).weights_seq() == old(self).weights_seq(),
            final(self).inputs_seq() == old(self).inputs_seq(),
            final(self).outputs_seq() == old(self).outputs_seq(),
            final(self).spec_threshold() == old(self).spec_threshold(),
            final(self).current_pulse() is None,
            final(self).stack_seq() == initial_pulses(
                old(self).inputs_seq(),
                values@,
                old(self).spec_threshold(),
            ),
            final(self).deposits_seq().len() == old(self).outputs_seq().len(),
            forall|i: int|
                0 <= i < final(self).deposits_seq().len()
                    ==> (#[trigger] final(self).deposits_seq()[i]) == Seq::<Value>::empty(),
    {
        let n_out = self.outputs.len();
        let mut deposits: Vec<Vec<Value>> = Vec::new();
        let mut i: usize = 0;
        while i < n_out
            invariant
                i <= n_out,
                deposits@.len() == i,
                forall|k: int| 0 <= k < i ==> (#[trigger] deposits@[k])@ == Seq::<Value>::empty(),
            decreases n_out - i,
        {
            deposits.push(Vec::new());
            i = i + 1;
        }
        self.deposits = deposits;
        proof {
            assert(self.stack_seq() == old(self).stack_seq());
            assert(self.inputs_seq() == old(self).inputs_seq());
            assert(self.outputs_seq() == old(self).outputs_seq());
            assert(self.weights_seq() == old(self).weights_seq());
            assert(self.wf());
        }
        let mut stack: Vec<(usize, Value)> = Vec::new();
        let m = self.inputs.len();
        let mut i: usize = m;
        while i > 0
            invariant
                i <= m,
                m == self.inputs@.len(),
                values@.len() >= m,
                self.wf(),
                stack@ == initial_pulses(
                    self.inputs@.skip(i as int),
                    values@.skip(i as int),
                    self.threshold,
                ),
                forall|k: int|
                    0 <= k < stack@.len() ==> ((#[trigger] stack@[k]).0 as int) < self.n(),
            decreases i,
        {
            i = i - 1;
            let v = values[i];
            proof {
                assert(self.inputs_seq()[i as int] == self.inputs@[i as int]);
                assert((self.inputs_seq()[i as int] as int) < self.n());
            }
            if exceeds(v, self.threshold) {
                stack.push((self.inputs[i], v));
            }
            proof {
                let ins = self.inputs@.skip(i as int);
                let vs = values@.skip(i as int);
                assert(ins.drop_first() =~= self.inputs@.skip(i as int + 1));
                assert(vs.drop_first() =~= values@.skip(i as int + 1));
                assert(ins[0] == self.inputs@[i as int] && vs[0] == values@[i as int]);
                assert(initial_pulses(ins, vs, self.threshold) == (if spec_exceeds(
                    vs[0],
                    self.threshold,
                ) {
                    initial_pulses(ins.drop_first(), vs.drop_first(), self.threshold).push(
                        (ins[0], vs[0]),
                    )
                } else {
                    initial_pulses(ins.drop_first(), vs.drop_first(), self.threshold)
                }));
            }
        }
        proof {
            assert(self.inputs@.skip(0) =~= self.inputs@);
            assert(values@.skip(0) =~= values@);
        }
        self.stack = stack;
    }

    /// Hands out the pulse to expand next, depositing its magnitude at
    /// its node's bucket first when the node is an output.  `None` means
    /// the run is complete.
    pub fn next_pulse(&mut self) -> (r: Option<(usize, Value)>)
        requires
            old(self).wf(),
            old(self).current_pulse() is None,
        ensures
            final(self).wf(),
            final(self).n() == old(self).n(),
            final(self).weights_seq() == old(self).weights_seq(),
            final(self).inputs_seq() == old(self).inputs_seq(),
            final(self).outputs_seq() == old(self).outputs_seq(),
            final(self).spec_threshold() == old(self).spec_threshold(),
            match r {
                None => {
                    &&& old(self).stack_seq().len() == 0
                    &&& final(self).stack_seq() == old(self).stack_seq()
                    &&& final(self).deposits_seq() == old(self).deposits_seq()
                    &&& final(self).current_pulse() is None
                },
                Some(p) => {
                    &&& old(self).stack_seq().len() > 0
                    &&& p == old(self).stack_seq().last()
                    &&& final(self).stack_seq() == old(self).stack_seq().drop_last()
                    &&& final(self).current_pulse() == Some(p)
                    &&& if old(self).outputs_seq().contains(p.0) {
                        final(self).deposits_seq() == old(self).deposits_seq().update(
                            old(self).outputs_seq().index_of(p.0),
                            old(self).deposits_seq()[old(self).outputs_seq().index_of(p.0)].push(
                                p.1,
                            ),
                        )
                    } else {
                        final(self).deposits_seq() == old(self).deposits_seq()
                    }
                },
            },
    {
        let popped = self.stack.pop();
        match popped {
            None => {
                proof {
                    assert(self.stack_seq() == old(self).stack_seq());
                    assert(self.deposits_seq() =~= old(self).deposits_seq());
                    assert(self.inputs_seq() == old(self).inputs_seq());
                    assert(self.outputs_seq() == old(self).outputs_seq());
                    assert(self.weights_seq() == old(self).weights_seq());
                    assert(self.deposits_seq() == old(self).deposits_seq());
                    assert(self.wf());
                }
                None
            },
            Some(p) => {
                proof {
                    assert(self.stack_seq() == old(self).stack_seq().drop_last());
                    assert(self.inputs_seq() == old(self).inputs_seq());
                    assert(self.outputs_seq() == old(self).outputs_seq());
                    assert(self.weights_seq() == old(self).weights_seq());
                    assert(forall|k: int|
                        0 <= k < self.stack_seq().len()
                            ==> (#[trigger] self.stack_seq()[k]) == old(self).stack_seq()[k]);
                    assert(p == old(self).stack_seq().last());
                }
                // Deposit at the node's bucket when it is an output.
                let ghost dep0 = self.deposits_seq();
                let pos = Self::find_index(&self.outputs, p.0);
                match pos {
                    Some(j) => {
                        proof {
                            crate::network::lemma_index_of_usize(self.outputs@, p.0, j as int);
                        }
                        let bucket: &mut Vec<Value> = &mut self.deposits[j];
                        bucket.push(p.1);
                        proof {
                            assert(self.deposits_seq() =~= dep0.update(
                                j as int,
                                dep0[j as int].push(p.1),
                            ));
                        }
                    },
                    None => {
                        proof {
                            assert(self.deposits_seq() =~= dep0);
                        }
                    },
                }
                self.current = Some(p);
                proof {
                    assert(self.stack_seq() == old(self).stack_seq().drop_last());
                    assert(forall|k: int|
                        0 <= k < self.stack_seq().len()
                            ==> (#[trigger] self.stack_seq()[k]) == old(self).stack_seq()[k]);
                    assert(self.wf());
                }
                Some(p)
            },
        }
    }

    /// Takes the products of the current pulse's magnitude with its
    /// node's weight row and queues the surviving destination pulses,
    /// highest destination index deepest.
    pub fn feed_products(&mut self, products: &Vec<Value>)
        requires
            old(self).wf(),
            old(self).current_pulse() is Some,
            products@.len() == old(self).n(),
        ensures
            final(self).wf(),
            final(self).n() == old(self).n(),
            final(self).weights_seq() == old(self).weights_seq(),
            final(self).inputs_seq() == old(self).inputs_seq(),
            final(self).outputs_seq() == old(self).outputs_seq(),
            final(self).spec_threshold() == old(self).spec_threshold(),
            final(self).deposits_seq() == old(self).deposits_seq(),
            final(self).current_pulse() is None,
            final(self).stack_seq() == old(self).stack_seq() + spawned_from(
                old(self).weights_seq(),
                old(self).n(),
                old(self).current_pulse()->Some_0.0 as int,
                products@,
                old(self).spec_threshold(),
                0,
            ),
    {
        let p = match self.current {
            Some(p) => p,
            None => {
                proof {
                    assert(false);
                }
                (0, 0)
            },
        };
        let node = p.0;
        let n = self.column_len;
        let ghost stack0 = self.stack@;
        proof {
            assert(self.stack_seq() == old(self).stack_seq());
            assert(spawned_from(
                self.weights_seq(),
                self.n(),
                node as int,
                products@,
                self.spec_threshold(),
                n as int,
            ) == Seq::<(usize, Value)>::empty());
            assert(stack0 + Seq::<(usize, Value)>::empty() =~= stack0);
        }
        let mut j: usize = n;
        while j > 0
            invariant
                j <= n,
                n == self.column_len,
                self.wf(),
                self.current_pulse() == old(self).current_pulse(),
                node == old(self).current_pulse()->Some_0.0,
                (node as int) < self.n(),
                products@.len() == self.n(),
                self.deposits_seq() == old(self).deposits_seq(),
                self.weights_seq() == old(self).weights_seq(),
                self.inputs_seq() == old(self).inputs_seq(),
                self.outputs_seq() == old(self).outputs_seq(),
                self.spec_threshold() == old(self).spec_threshold(),
                self.n() == old(self).n(),
                self.stack@ == stack0 + spawned_from(
                    self.weights_seq(),
                    self.n(),
                    node as int,
                    products@,
                    self.spec_threshold(),
                    j as int,
                ),
            decreases j,
        {
            let ghost self0 = *self;
            j = j - 1;
            proof {
                assert(node * n + j < n * n) by (nonlinear_arith)
                    requires
                        0 <= node < n,
                        0 <= j < n,
                ;
            }
            let total = self.weights.len();
            let w = self.weights[node * n + j];
            let keep = if w & crate::common::MAGNITUDE_MASK != 0 {
                exceeds(products[j], self.threshold)
            } else {
                false
            };
            let ghost stack_pre = self.stack@;
            if keep {
                self.stack.push((j, products[j]));
            }
            proof {
                assert(self0.wf());
                assert forall|k: int|
                    0 <= k < self.stack@.len() implies ((#[trigger] self.stack@[k]).0 as int)
                    < self.n() by {
                    if k < stack_pre.len() {
                        assert(self.stack@[k] == self0.stack_seq()[k]);
                    }
                }
                assert(cell(self.weights_seq(), self.n(), node as int, j as int) == w);
                assert(magnitude(w) == w & crate::common::MAGNITUDE_MASK);
                assert(spawned_from(
                    self.weights_seq(),
                    self.n(),
                    node as int,
                    products@,
                    self.spec_threshold(),
                    j as int,
                ) == (if magnitude(cell(self.weights_seq(), self.n(), node as int, j as int)) != 0
                    && spec_exceeds(products@[j as int], self.spec_threshold()) {
                    spawned_from(
                        self.weights_seq(),
                        self.n(),
                        node as int,
                        products@,
                        self.spec_threshold(),
                        j as int + 1,
                    ).push((j, products@[j as int]))
                } else {
                    spawned_from(
                        self.weights_seq(),
                        self.n(),
                        node as int,
                        products@,
                        self.spec_threshold(),
                        j as int + 1,
                    )
                }));
            }
        }
        let ghost self1 = *self;
        self.current = None;
        proof {
            assert(self1.wf());
            assert forall|k: int|
                0 <= k < self.stack_seq().len() implies ((#[trigger] self.stack_seq()[k]).0
                as int) < self.n() by {
                assert(self.stack_seq()[k] == self1.stack_seq()[k]);
            }
            assert(self.inputs_seq() == old(self).inputs_seq());
            assert(self.outputs_seq() == old(self).outputs_seq());
            assert(self.weights_seq() == old(self).weights_seq());
            assert(self.deposits_seq() == old(self).deposits_seq());
            assert(self.wf());
        }
    }

    /// The position of `x` in a strictly ascending index list.
    fn find_index(v: &Vec<usize>, x: usize) -> (r: Option<usize>)
        requires
            indices_sorted(v@),
        ensures
            match r {
                Some(j) => j < v@.len() && v@[j as int] == x,
                None => !v@.contains(x),
            },
    {
        let n = v.len();
        let mut i: usize = 0;
        while i < n
            invariant
                n == v@.len(),
                i <= n,
                forall|k: int| 0 <= k < i ==> (#[trigger] v@[k]) != x,
            decreases n - i,
        {
            if v[i] == x {
                return Some(i);
            }
            i = i + 1;
        }
        proof {
            if v@.contains(x) {
                let k = choose|k: int| 0 <= k < v@.len() && v@[k] == x;
            }
        }
        None
    }

    /// The deposit lists, one per output in ascending index order.
    pub fn deposits(&self) -> (r: &Vec<Vec<Value>>)
        ensures
            r@.len() == self.deposits_seq().len(),
            forall|i: int|
                0 <= i < r@.len() ==> (#[trigger] r@[i])@ == self.deposits_seq()[i],
    {
        &self.deposits
    }

    /// Whether the run is complete.
    pub fn is_done(&self) -> (r: bool)
        ensures
            r == (self.stack_seq().len() == 0 && self.current_pulse() is None),
    {
        self.stack.len() == 0 && self.current.is_none()
    }
}

/// In a network with no arcs the weight matrix is all zero, and an
/// expansion spawns nothing, whatever products the caller supplies.
pub proof fn lemma_no_arcs_spawns_nothing(
    w: Seq<Weight>,
    n: int,
    node: int,
    products: Seq<Value>,
    t: Value,
    j: int,
)
    requires
        forall|k: int| 0 <= k < w.len() ==> magnitude(#[trigger] w[k]) == 0,
        0 <= node < n,
        w.len() == n * n,
    ensures
        spawned_from(w, n, node, products, t, j) == Seq::<(usize, Value)>::empty(),
    decreases n - j,
{
    if j < 0 || j >= n {
    } else {
        lemma_no_arcs_spawns_nothing(w, n, node, products, t, j + 1);
        assert(0 <= node * n + j < n * n) by (nonlinear_arith)
            requires
                0 <= node < n,
                0 <= j < n,
        ;
        assert(magnitude(cell(w, n, node, j)) == 0);
    }
}

/// In a network with no arcs whose inputs and outputs are disjoint, a
/// whole run deposits nothing: every pending pulse sits at an input
/// node, expansions add no pulses, and no input node is an output — so
/// every output's sum is the sum of nothing, zero.  (The three lemmas
/// below walk the three machine steps.)
pub proof fn lemma_disconnected_begin(m: Application, values: Seq<Value>)
    requires
        m.wf(),
    ensures
        forall|i: int|
            0 <= i < initial_pulses(m.inputs_seq(), values, m.spec_threshold()).len()
                ==> m.inputs_seq().contains(
                (#[trigger] initial_pulses(m.inputs_seq(), values, m.spec_threshold())[i]).0,
            ),
{
    lemma_initial_pulses_at_inputs(m.inputs_seq(), values, m.spec_threshold());
}

/// With inputs disjoint from outputs, a pulse at an input node deposits
/// nothing: `next_pulse` deposits only at output nodes.  Together with
/// the two lemmas beside it this pins the disconnected case: with no
/// arcs, every pending pulse sits at an input node, expansions spawn
/// nothing, and so every deposit list stays empty — each output's sum is
/// the sum of nothing, zero.
pub proof fn lemma_disjoint_pulse_no_deposit(
    inputs: Seq<usize>,
    outputs: Seq<usize>,
    node: usize,
)
    requires
        inputs.contains(node),
        forall|i: int, j: int|
            0 <= i < inputs.len() && 0 <= j < outputs.len() ==> (#[trigger] inputs[i]) != (
            #[trigger] outputs[j]),
    ensures
        !outputs.contains(node),
{
    if outputs.contains(node) {
        let i = choose|i: int| 0 <= i < inputs.len() && inputs[i] == node;
        let j = choose|j: int| 0 <= j < outputs.len() && outputs[j] == node;
        assert(inputs[i] != outputs[j]);
    }
}

/// Every pulse the input injection leaves pending sits at an input node.
pub proof fn lemma_initial_pulses_at_inputs(inputs: Seq<usize>, values: Seq<Value>, t: Value)
    ensures
        forall|i: int|
            0 <= i < initial_pulses(inputs, values, t).len() ==> inputs.contains(
                (#[trigger] initial_pulses(inputs, values, t)[i]).0,
            ),
    decreases inputs.len(),
{
    if inputs.len() == 0 {
    } else {
        lemma_initial_pulses_at_inputs(inputs.drop_first(), values.drop_first(), t);
        let whole = initial_pulses(inputs, values, t);
        let rest = initial_pulses(inputs.drop_first(), values.drop_first(), t);
        assert forall|i: int| 0 <= i < whole.len() implies inputs.contains(
            (#[trigger] whole[i]).0,
        ) by {
            if i < rest.len() {
                assert(whole[i] == rest[i]);
                let k = choose|k: int|
                    0 <= k < inputs.drop_first().len() && inputs.drop_first()[k] == rest[i].0;
                assert(inputs[k + 1] == rest[i].0);
            } else {
                assert(whole[i] == (inputs[0], values[0]));
                assert(inputs[0] == whole[i].0);
            }
        }
    }
}

} // verus!
