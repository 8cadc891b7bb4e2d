use vstd::prelude::*;

use crate::common::{Node, Weight};
use crate::matrix::{Matrix, MatrixBuf, MatrixMut};

verus! {

/// One weighted arc, in the portable form the network compiler takes.
#[derive(Clone, Copy, Debug, PartialEq, Eq, Structural)]
pub struct Connection {
    pub src: Node,
    pub dst: Node,
    pub weight: Weight,
}

/// A read-only view of a compiled network: a dense weight matrix over
/// node indices, the index sets of the input and output nodes, and the
/// index → node tag table.
pub struct Network<'r> {
    pub inputs: &'r Vec<usize>,
    pub outputs: &'r Vec<usize>,
    pub weights: Matrix<'r, Weight>,
    pub nodes: &'r Vec<Node>,
}

/// The same view with the weight matrix writable: the trainer's window
/// into a `NetworkBuf`.
pub struct NetworkMut<'r> {
    pub inputs: &'r Vec<usize>,
    pub outputs: &'r Vec<usize>,
    pub weights: MatrixMut<'r, Weight>,
    pub nodes: &'r Vec<Node>,
}

/// A strictly ascending index list.
pub open spec fn indices_sorted(s: Seq<usize>) -> bool {
    forall|i: int, j: int| 0 <= i < j < s.len() ==> s[i] < s[j]
}

impl<'r> Network<'r> {
    /// Shape invariant of a network view: a square matrix over the node
    /// table, and sorted index lists that stay inside it.
    pub open spec fn wf(self) -> bool {
        &&& self.weights.spec_column_len() == self.nodes@.len()
        &&& self.weights.spec_values().len() == self.nodes@.len() * self.nodes@.len()
        &&& self.nodes@.no_duplicates()
        &&& indices_sorted(self.inputs@)
        &&& indices_sorted(self.outputs@)
        &&& forall|i: int| 0 <= i < self.inputs@.len() ==> (#[trigger] self.inputs@[i]) < self.nodes@.len()
        &&& forall|i: int|
            0 <= i < self.outputs@.len() ==> (#[trigger] self.outputs@[i]) < self.nodes@.len()
    }
}

/// Owned storage of a compiled network.
#[derive(Clone, Debug)]
pub struct NetworkBuf {
    inputs: Vec<usize>,
    outputs: Vec<usize>,
    weights: MatrixBuf<Weight>,
    nodes: Vec<Node>,
}

/// Cell (i, j) of a flat row-major matrix of side `n`.
pub open spec fn cell(w: Seq<Weight>, n: int, i: int, j: int) -> Weight {
    w[i * n + j]
}

/// Distinct rows and columns give distinct row-major positions.
pub proof fn lemma_flat_index_injective(n: int, i1: int, j1: int, i2: int, j2: int)
    requires
        0 <= i1 < n,
        0 <= j1 < n,
        0 <= i2 < n,
        0 <= j2 < n,
        !(i1 == i2 && j1 == j2),
    ensures
        i1 * n + j1 != i2 * n + j2,
{
    assert(i1 * n + j1 != i2 * n + j2) by (nonlinear_arith)
        requires
            0 <= i1 < n,
            0 <= j1 < n,
            0 <= i2 < n,
            0 <= j2 < n,
            !(i1 == i2 && j1 == j2),
    ;
}

impl NetworkBuf {
    /// The index → node tag table (position k holds the node with index
    /// k).
    pub closed spec fn node_seq(self) -> Seq<Node> {
        self.nodes@
    }

    /// The input node indices, ascending.
    pub closed spec fn inputs_seq(self) -> Seq<usize> {
        self.inputs@
    }

    /// The output node indices, ascending.
    pub closed spec fn outputs_seq(self) -> Seq<usize> {
        self.outputs@
    }

    /// The flat row-major weight matrix.
    pub closed spec fn weights_seq(self) -> Seq<Weight> {
        self.weights.spec_values()
    }

    /// Shape invariant, as for `Network`.
    pub open spec fn wf(self) -> bool {
        &&& self.node_seq().len() <= usize::MAX
        &&& self.weights_cl() == self.node_seq().len()
        &&& self.weights_seq().len() == self.node_seq().len() * self.node_seq().len()
        &&& self.node_seq().no_duplicates()
        &&& indices_sorted(self.inputs_seq())
        &&& indices_sorted(self.outputs_seq())
        &&& forall|i: int|
            0 <= i < self.inputs_seq().len() ==> (#[trigger] self.inputs_seq()[i])
                < self.node_seq().len()
        &&& forall|i: int|
            0 <= i < self.outputs_seq().len() ==> (#[trigger] self.outputs_seq()[i])
                < self.node_seq().len()
    }

    /// The matrix side length.
    pub closed spec fn weights_cl(self) -> int {
        self.weights.spec_column_len()
    }

    pub fn as_network<'r>(&'r self) -> (r: Network<'r>)
        ensures
            r.inputs@ == self.inputs_seq(),
            r.outputs@ == self.outputs_seq(),
            r.nodes@ == self.node_seq(),
            r.weights.spec_values() == self.weights_seq(),
            r.weights.spec_column_len() == self.weights_cl(),
            self.wf() ==> r.wf(),
    {
        Network {
            inputs: &self.inputs,
            outputs: &self.outputs,
            weights: self.weights.as_matrix(),
            nodes: &self.nodes,
        }
    }

    pub fn as_network_mut<'r>(&'r mut self) -> (r: NetworkMut<'r>)
        ensures
            r.inputs@ == old(self).inputs_seq(),
            r.outputs@ == old(self).outputs_seq(),
            r.nodes@ == old(self).node_seq(),
            r.weights.values@ == old(self).weights_seq(),
            r.weights.column_len == old(self).weights_cl(),
            final(self).inputs_seq() == old(self).inputs_seq(),
            final(self).outputs_seq() == old(self).outputs_seq(),
            final(self).node_seq() == old(self).node_seq(),
            final(self).weights_cl() == old(self).weights_cl(),
            final(self).weights_seq() == final(r.weights.values)@,
    {
        NetworkMut {
            inputs: &self.inputs,
            outputs: &self.outputs,
            weights: self.weights.as_matrix_mut(),
            nodes: &self.nodes,
        }
    }

    /// The position of `node` in an index table, if present.
    fn index_position(nodes: &Vec<Node>, node: &Node) -> (r: Option<usize>)
        ensures
            match r {
                Some(i) => i < nodes@.len() && nodes@[i as int] == *node,
                None => !nodes@.contains(*node),
            },
    {
        let n = nodes.len();
        let mut i: usize = 0;
        while i < n
            invariant
                n == nodes@.len(),
                i <= n,
                forall|j: int| 0 <= j < i ==> nodes@[j] != *node,
            decreases n - i,
        {
            if nodes[i] == *node {
                return Some(i);
            }
            i = i + 1;
        }
        None
    }

    /// Appends `node` to the index table unless it is already indexed.
    fn add_node_index(nodes: &mut Vec<Node>, node: Node)
        ensures
            old(nodes)@.contains(node) ==> final(nodes)@ == old(nodes)@,
            !old(nodes)@.contains(node) ==> final(nodes)@ == old(nodes)@.push(node),
    {
        if Self::index_position(nodes, &node).is_none() {
            nodes.push(node);
        }
    }

    /// Compiles connections and node sets into a dense network.  Indices
    /// are assigned by first-seen order over inputs, then arc endpoints,
    /// then outputs; cell (i, j) of the matrix holds the weight of the
    /// connection i → j, and zero where there is none.
    pub fn new(arcs: &Vec<Connection>, inputs: &Vec<Node>, outputs: &Vec<Node>) -> (r: NetworkBuf)
        requires
            inputs@.no_duplicates(),
            outputs@.no_duplicates(),
            forall|k1: int, k2: int|
                0 <= k1 < k2 < arcs@.len() ==> !((#[trigger] arcs@[k1]).src == (
                #[trigger] arcs@[k2]).src && arcs@[k1].dst == arcs@[k2].dst),
            (inputs@.len() + 2 * arcs@.len() + outputs@.len()) * (inputs@.len() + 2 * arcs@.len()
                + outputs@.len()) <= usize::MAX,
        ensures
            r.wf(),
            // Index table: inputs first and in order, then every arc
            // endpoint, then the outputs; nothing else.
            r.node_seq().no_duplicates(),
            inputs@.len() <= r.node_seq().len(),
            r.node_seq().take(inputs@.len() as int) == inputs@,
            r.node_seq().to_set() =~= inputs@.to_set().union(outputs@.to_set()).union(
                Set::new(
                    |n: Node|
                        exists|k: int|
                            0 <= k < arcs@.len() && ((#[trigger] arcs@[k]).src == n || arcs@[k].dst
                                == n),
                ),
            ),
            // Input indices are 0 .. inputs.len().
            r.inputs_seq().len() == inputs@.len(),
            forall|k: int| 0 <= k < inputs@.len() ==> (#[trigger] r.inputs_seq()[k]) == k,
            // Output indices are the table positions of the output nodes.
            r.outputs_seq().len() == outputs@.len(),
            forall|j: int|
                0 <= j < r.outputs_seq().len() ==> outputs@.contains(
                    r.node_seq()[(#[trigger] r.outputs_seq()[j]) as int],
                ),
            forall|x: Node|
                outputs@.contains(x) ==> r.outputs_seq().contains(
                    r.node_seq().index_of(x) as usize,
                ),
            // The matrix: each connection at its cell, zero elsewhere.
            forall|k: int|
                0 <= k < arcs@.len() ==> cell(
                    r.weights_seq(),
                    r.node_seq().len() as int,
                    r.node_seq().index_of((#[trigger] arcs@[k]).src),
                    r.node_seq().index_of(arcs@[k].dst),
                ) == arcs@[k].weight,
            forall|i: int, j: int|
                0 <= i < r.node_seq().len() && 0 <= j < r.node_seq().len() && !(exists|k: int|
                    0 <= k < arcs@.len() && r.node_seq().index_of((#[trigger] arcs@[k]).src) == i
                        && r.node_seq().index_of(arcs@[k].dst) == j) ==> #[trigger] cell(
                    r.weights_seq(),
                    r.node_seq().len() as int,
                    i,
                    j,
                ) == 0,
    {
        let ghost bound = inputs@.len() + 2 * arcs@.len() + outputs@.len();
        let mut nodes: Vec<Node> = Vec::new();
        // Inputs first: they take indices 0 .. inputs.len() in order.
        let n_in = inputs.len();
        let mut i: usize = 0;
        while i < n_in
            invariant
                n_in == inputs@.len(),
                i <= n_in,
                inputs@.no_duplicates(),
                nodes@ == inputs@.take(i as int),
            decreases n_in - i,
        {
            proof {
                if nodes@.contains(inputs@[i as int]) {
                    let j = choose|j: int| 0 <= j < i && inputs@.take(i as int)[j] == inputs@[i
                        as int];
                    assert(inputs@[j] == inputs@[i as int]);
                }
                lemma_take_push_node(inputs@, i as int);
            }
            Self::add_node_index(&mut nodes, inputs[i]);
            i = i + 1;
        }
        proof {
            assert(inputs@.take(n_in as int) =~= inputs@);
            assert(nodes@ == inputs@);
        }
        // Then both endpoints of every connection.
        let n_arcs = arcs.len();
        let mut i: usize = 0;
        while i < n_arcs
            invariant
                n_arcs == arcs@.len(),
                i <= n_arcs,
                nodes@.take(inputs@.len() as int) == inputs@,
                inputs@.len() <= nodes@.len(),
                nodes@.no_duplicates(),
                nodes@.len() <= inputs@.len() + 2 * i,
                forall|x: Node| inputs@.contains(x) ==> nodes@.contains(x),
                forall|k: int|
                    0 <= k < i ==> nodes@.contains((#[trigger] arcs@[k]).src) && nodes@.contains(
                        arcs@[k].dst,
                    ),
                forall|x: Node|
                    nodes@.contains(x) ==> inputs@.contains(x) || exists|k: int|
                        0 <= k < i && ((#[trigger] arcs@[k]).src == x || arcs@[k].dst == x),
            decreases n_arcs - i,
        {
            let ghost before = nodes@;
            Self::add_node_index(&mut nodes, arcs[i].src);
            proof {
                lemma_push_keeps(before, nodes@, arcs@[i as int].src, inputs@.len() as int);
            }
            let ghost before2 = nodes@;
            Self::add_node_index(&mut nodes, arcs[i].dst);
            proof {
                lemma_push_keeps(before2, nodes@, arcs@[i as int].dst, inputs@.len() as int);
            }
            i = i + 1;
        }
        // Then the outputs.
        let n_out = outputs.len();
        let mut i: usize = 0;
        while i < n_out
            invariant
                n_out == outputs@.len(),
                n_arcs == arcs@.len(),
                i <= n_out,
                nodes@.take(inputs@.len() as int) == inputs@,
                inputs@.len() <= nodes@.len(),
                nodes@.no_duplicates(),
                nodes@.len() <= inputs@.len() + 2 * arcs@.len() + i,
                forall|x: Node| inputs@.contains(x) ==> nodes@.contains(x),
                forall|k: int|
                    0 <= k < arcs@.len() ==> nodes@.contains((#[trigger] arcs@[k]).src)
                        && nodes@.contains(arcs@[k].dst),
                forall|j: int| 0 <= j < i ==> nodes@.contains(#[trigger] outputs@[j]),
                forall|x: Node|
                    nodes@.contains(x) ==> inputs@.contains(x) || outputs@.contains(x) || exists|
                        k: int,
                    |
                        0 <= k < arcs@.len() && ((#[trigger] arcs@[k]).src == x || arcs@[k].dst
                            == x),
            decreases n_out - i,
        {
            let ghost before = nodes@;
            Self::add_node_index(&mut nodes, outputs[i]);
            proof {
                lemma_push_keeps(before, nodes@, outputs@[i as int], inputs@.len() as int);
            }
            i = i + 1;
        }
        let n = nodes.len();
        proof {
            assert(n * n <= bound * bound) by (nonlinear_arith)
                requires
                    0 <= n <= bound,
            ;
        }
        // The dense matrix, zero-filled, then one cell per connection.
        let mut weights = MatrixBuf::new(n, 0);
        proof {
            assert forall|i2: int, j2: int|
                0 <= i2 < n && 0 <= j2 < n implies #[trigger] cell(
                weights.spec_values(),
                n as int,
                i2,
                j2,
            ) == 0 by {
                assert(0 <= i2 * (n as int) + j2 < (n as int) * (n as int)) by (nonlinear_arith)
                    requires
                        0 <= i2 < n,
                        0 <= j2 < n,
                ;
            }
        }
        let ghost node_tab = nodes@;
        let mut k: usize = 0;
        while k < n_arcs
            invariant
                n_arcs == arcs@.len(),
                k <= n_arcs,
                forall|k1: int, k2: int|
                    0 <= k1 < k2 < arcs@.len() ==> !((#[trigger] arcs@[k1]).src == (
                    #[trigger] arcs@[k2]).src && arcs@[k1].dst == arcs@[k2].dst),
                nodes@ == node_tab,
                nodes@.no_duplicates(),
                forall|k2: int|
                    0 <= k2 < arcs@.len() ==> nodes@.contains((#[trigger] arcs@[k2]).src)
                        && nodes@.contains(arcs@[k2].dst),
                weights.spec_column_len() == n,
                n == nodes@.len(),
                weights.spec_values().len() == n * n,
                forall|k2: int|
                    0 <= k2 < k ==> cell(
                        weights.spec_values(),
                        n as int,
                        node_tab.index_of((#[trigger] arcs@[k2]).src),
                        node_tab.index_of(arcs@[k2].dst),
                    ) == arcs@[k2].weight,
                forall|i2: int, j2: int|
                    0 <= i2 < n && 0 <= j2 < n && !(exists|k2: int|
                        0 <= k2 < k && node_tab.index_of((#[trigger] arcs@[k2]).src) == i2
                            && node_tab.index_of(arcs@[k2].dst) == j2) ==> #[trigger] cell(
                        weights.spec_values(),
                        n as int,
                        i2,
                        j2,
                    ) == 0,
            decreases n_arcs - k,
        {
            let src_idx = match Self::index_position(&nodes, &arcs[k].src) {
                Some(p) => p,
                None => {
                    proof {
                        assert(false);
                    }
                    0
                },
            };
            let dst_idx = match Self::index_position(&nodes, &arcs[k].dst) {
                Some(p) => p,
                None => {
                    proof {
                        assert(false);
                    }
                    0
                },
            };
            proof {
                lemma_first_index(node_tab, arcs@[k as int].src, src_idx as int);
                lemma_first_index(node_tab, arcs@[k as int].dst, dst_idx as int);
                assert(src_idx * n + dst_idx < n * n) by (nonlinear_arith)
                    requires
                        0 <= src_idx < n,
                        0 <= dst_idx < n,
                ;
            }
            let ghost w_before = weights.spec_values();
            weights.set_cell(src_idx, dst_idx, arcs[k].weight);
            proof {
                assert forall|k2: int|
                    0 <= k2 < k + 1 implies cell(
                    weights.spec_values(),
                    n as int,
                    node_tab.index_of((#[trigger] arcs@[k2]).src),
                    node_tab.index_of(arcs@[k2].dst),
                ) == arcs@[k2].weight by {
                    if k2 < k {
                        let i1 = node_tab.index_of(arcs@[k2].src);
                        let j1 = node_tab.index_of(arcs@[k2].dst);
                        lemma_index_of_bounds(node_tab, arcs@[k2].src);
                        lemma_index_of_bounds(node_tab, arcs@[k2].dst);
                        assert(0 <= i1 * (n as int) + j1 < (n as int) * (n as int))
                            by (nonlinear_arith)
                            requires
                                0 <= i1 < n,
                                0 <= j1 < n,
                        ;
                        if i1 == src_idx && j1 == dst_idx {
                            lemma_index_of_inverse(node_tab, arcs@[k2].src);
                            lemma_index_of_inverse(node_tab, arcs@[k2].dst);
                            assert(arcs@[k2].src == arcs@[k as int].src && arcs@[k2].dst
                                == arcs@[k as int].dst);
                            assert(false);
                        } else {
                            lemma_flat_index_injective(
                                n as int,
                                i1,
                                j1,
                                src_idx as int,
                                dst_idx as int,
                            );
                        }
                    }
                }
                assert forall|i2: int, j2: int|
                    0 <= i2 < n && 0 <= j2 < n && !(exists|k2: int|
                        0 <= k2 < k + 1 && node_tab.index_of((#[trigger] arcs@[k2]).src) == i2
                            && node_tab.index_of(arcs@[k2].dst) == j2) implies #[trigger] cell(
                    weights.spec_values(),
                    n as int,
                    i2,
                    j2,
                ) == 0 by {
                    assert(0 <= i2 * (n as int) + j2 < (n as int) * (n as int))
                        by (nonlinear_arith)
                        requires
                            0 <= i2 < n,
                            0 <= j2 < n,
                    ;
                    assert(cell(w_before, n as int, i2, j2) == 0);
                    if i2 == src_idx && j2 == dst_idx {
                        assert(node_tab.index_of(arcs@[k as int].src) == i2 as int
                            && node_tab.index_of(arcs@[k as int].dst) == j2);
                        assert(false);
                    } else {
                        lemma_flat_index_injective(
                            n as int,
                            i2,
                            j2,
                            src_idx as int,
                            dst_idx as int,
                        );
                    }
                }
            }
            k = k + 1;
        }
        // Input indices: the table position of each input, which is its
        // own position among the inputs.
        let mut inputs_idx: Vec<usize> = Vec::new();
        let mut i: usize = 0;
        while i < n_in
            invariant
                n_in == inputs@.len(),
                i <= n_in,
                nodes@ == node_tab,
                node_tab.take(inputs@.len() as int) == inputs@,
                node_tab.no_duplicates(),
                inputs@.len() <= node_tab.len(),
                inputs_idx@.len() == i,
                forall|k: int| 0 <= k < i ==> (#[trigger] inputs_idx@[k]) == k,
            decreases n_in - i,
        {
            let p = match Self::index_position(&nodes, &inputs[i]) {
                Some(p) => p,
                None => {
                    proof {
                        assert(node_tab.take(inputs@.len() as int)[i as int] == inputs@[i as int]);
                        assert(node_tab[i as int] == inputs@[i as int]);
                        assert(false);
                    }
                    0
                },
            };
            proof {
                assert(node_tab.take(inputs@.len() as int)[i as int] == inputs@[i as int]);
                assert(node_tab[i as int] == inputs@[i as int]);
                assert(p == i) by {
                    if p != i {
                        assert(node_tab[p as int] == node_tab[i as int]);
                    }
                }
            }
            inputs_idx.push(p);
            i = i + 1;
        }
        // Output indices, kept ascending.
        let mut outputs_idx: Vec<usize> = Vec::new();
        let mut i: usize = 0;
        while i < n_out
            invariant
                n_out == outputs@.len(),
                i <= n_out,
                nodes@ == node_tab,
                node_tab.no_duplicates(),
                outputs@.no_duplicates(),
                forall|j: int| 0 <= j < outputs@.len() ==> node_tab.contains(#[trigger] outputs@[j]),
                indices_sorted(outputs_idx@),
                outputs_idx@.len() == i,
                forall|j: int|
                    0 <= j < outputs_idx@.len() ==> (#[trigger] outputs_idx@[j]) < node_tab.len(),
                forall|j: int|
                    0 <= j < outputs_idx@.len() ==> outputs@.contains(
                        node_tab[(#[trigger] outputs_idx@[j]) as int],
                    ),
                forall|k: int|
                    0 <= k < i ==> outputs_idx@.contains(
                        node_tab.index_of(#[trigger] outputs@[k]) as usize,
                    ),
                forall|j: int|
                    0 <= j < outputs_idx@.len() ==> exists|k: int|
                        0 <= k < i && node_tab.index_of(#[trigger] outputs@[k]) == (
                        #[trigger] outputs_idx@[j]) as int,
            decreases n_out - i,
        {
            let p = match Self::index_position(&nodes, &outputs[i]) {
                Some(p) => p,
                None => {
                    proof {
                        assert(false);
                    }
                    0
                },
            };
            proof {
                lemma_first_index(node_tab, outputs@[i as int], p as int);
                assert(!outputs_idx@.contains(p)) by {
                    if outputs_idx@.contains(p) {
                        let j = choose|j: int|
                            0 <= j < outputs_idx@.len() && outputs_idx@[j] == p;
                        let k0 = choose|k0: int|
                            0 <= k0 < i && node_tab.index_of(outputs@[k0]) == (outputs_idx@[j])
                                as int;
                        lemma_index_of_bounds(node_tab, outputs@[k0]);
                        assert(node_tab[p as int] == outputs@[k0]);
                        assert(outputs@[k0] == outputs@[i as int]);
                    }
                }
            }
            let ghost idx_before = outputs_idx@;
            Self::insert_sorted(&mut outputs_idx, p);
            proof {
                assert forall|j: int|
                    0 <= j < outputs_idx@.len() implies (#[trigger] outputs_idx@[j])
                    < node_tab.len() by {
                    assert(outputs_idx@.contains(outputs_idx@[j]));
                    if !idx_before.contains(outputs_idx@[j]) {
                        assert(outputs_idx@[j] == p);
                    }
                }
                assert forall|j: int|
                    0 <= j < outputs_idx@.len() implies outputs@.contains(
                    node_tab[(#[trigger] outputs_idx@[j]) as int],
                ) by {
                    assert(outputs_idx@.contains(outputs_idx@[j]));
                    if !idx_before.contains(outputs_idx@[j]) {
                        assert(outputs_idx@[j] == p);
                        assert(node_tab[p as int] == outputs@[i as int]);
                    }
                }
                assert forall|j: int|
                    0 <= j < outputs_idx@.len() implies exists|k0: int|
                        0 <= k0 < i + 1 && node_tab.index_of(#[trigger] outputs@[k0]) == (
                        #[trigger] outputs_idx@[j]) as int by {
                    assert(outputs_idx@.contains(outputs_idx@[j]));
                    if idx_before.contains(outputs_idx@[j]) {
                        let k0 = choose|k0: int|
                            0 <= k0 < i && node_tab.index_of(outputs@[k0]) == (idx_before[choose|
                                jj: int,
                            | 0 <= jj < idx_before.len() && idx_before[jj] == outputs_idx@[j]])
                                as int;
                        assert(0 <= k0 < i + 1 && node_tab.index_of(outputs@[k0]) == (
                        outputs_idx@[j]) as int);
                    } else {
                        assert(outputs_idx@[j] == p);
                        assert(node_tab.index_of(outputs@[i as int]) == (outputs_idx@[j]) as int);
                    }
                }
                assert forall|k0: int|
                    0 <= k0 < i + 1 implies outputs_idx@.contains(
                    node_tab.index_of(#[trigger] outputs@[k0]) as usize,
                ) by {
                    if k0 < i {
                        assert(idx_before.contains(node_tab.index_of(outputs@[k0]) as usize));
                    } else {
                        assert(outputs_idx@.contains(p));
                    }
                }
            }
            i = i + 1;
        }
        let r = NetworkBuf { inputs: inputs_idx, outputs: outputs_idx, weights, nodes };
        proof {
            assert(r.node_seq().len() == n as int);
            assert(r.node_seq().to_set() =~= inputs@.to_set().union(outputs@.to_set()).union(
                Set::new(
                    |x: Node|
                        exists|k: int|
                            0 <= k < arcs@.len() && ((#[trigger] arcs@[k]).src == x || arcs@[k].dst
                                == x),
                ),
            )) by {
                assert forall|x: Node| r.node_seq().to_set().contains(x) implies inputs@.to_set().union(
                    outputs@.to_set(),
                ).union(
                    Set::new(
                        |y: Node|
                            exists|k: int|
                                0 <= k < arcs@.len() && ((#[trigger] arcs@[k]).src == y
                                    || arcs@[k].dst == y),
                    ),
                ).contains(x) by {
                    assert(node_tab.contains(x));
                }
                assert forall|x: Node|
                    inputs@.to_set().union(outputs@.to_set()).union(
                        Set::new(
                            |y: Node|
                                exists|k: int|
                                    0 <= k < arcs@.len() && ((#[trigger] arcs@[k]).src == y
                                        || arcs@[k].dst == y),
                        ),
                    ).contains(x) implies r.node_seq().to_set().contains(x) by {
                    assert(node_tab.contains(x));
                }
            }
        }
        r
    }

    /// Inserts an index into an ascending list that does not hold it.
    fn insert_sorted(v: &mut Vec<usize>, x: usize)
        requires
            indices_sorted(old(v)@),
            !old(v)@.contains(x),
        ensures
            indices_sorted(final(v)@),
            final(v)@.len() == old(v)@.len() + 1,
            final(v)@.to_set() =~= old(v)@.to_set().insert(x),
            forall|y: usize| #[trigger] final(v)@.contains(y) <==> (old(v)@.contains(y) || y == x),
    {
        let n = v.len();
        let mut i: usize = 0;
        while i < n && v[i] < x
            invariant
                n == v@.len(),
                i <= n,
                v@ == old(v)@,
                forall|j: int| 0 <= j < i ==> (#[trigger] v@[j]) < x,
                indices_sorted(old(v)@),
                !old(v)@.contains(x),
            decreases n - i,
        {
            i = i + 1;
        }
        proof {
            if i < n && v@[i as int] == x {
                assert(old(v)@.contains(x));
            }
        }
        let ghost olds = v@;
        v.insert(i, x);
        proof {
            let news = v@;
            assert(news == olds.insert(i as int, x));
            assert(i < olds.len() ==> olds[i as int] > x);
            assert(indices_sorted(news)) by {
                assert forall|p: int, q: int| 0 <= p < q < news.len() implies news[p]
                    < news[q] by {
                    if q < i {
                    } else if p < i && q == i {
                        assert(news[p] == olds[p]);
                    } else if p < i && q > i {
                        assert(news[p] == olds[p] && news[q] == olds[q - 1]);
                        assert(olds[q - 1] > x) by {
                            if q - 1 > i {
                                assert(olds[i as int] < olds[q - 1]);
                            }
                        }
                    } else if p == i {
                        assert(news[q] == olds[q - 1]);
                        assert(olds[q - 1] > x) by {
                            if q - 1 > i {
                                assert(olds[i as int] < olds[q - 1]);
                            }
                        }
                    } else {
                        assert(news[p] == olds[p - 1] && news[q] == olds[q - 1]);
                    }
                }
            }
            assert forall|y: usize| #[trigger] news.contains(y) implies (olds.contains(y) || y
                == x) by {
                let j = choose|j: int| 0 <= j < news.len() && news[j] == y;
                if j < i {
                    assert(olds[j] == y);
                } else if j > i {
                    assert(olds[j - 1] == y);
                }
            }
            assert forall|y: usize| (olds.contains(y) || y == x) implies #[trigger] news.contains(
                y,
            ) by {
                if y == x {
                    assert(news[i as int] == y);
                } else {
                    let j = choose|j: int| 0 <= j < olds.len() && olds[j] == y;
                    if j < i {
                        assert(news[j] == y);
                    } else {
                        assert(news[j + 1] == y);
                    }
                }
            }
            assert(news.to_set() =~= olds.to_set().insert(x));
        }
    }
}

/// Sortedness and the lower-bound loop invariant: the insert position
/// found for a sorted list keeps it sorted.  (Helper facts on sequences
/// used by the network compiler.)
pub proof fn lemma_take_push_node(s: Seq<Node>, i: int)
    requires
        0 <= i < s.len(),
    ensures
        s.take(i + 1) =~= s.take(i).push(s[i]),
{
}

/// After an `add_node_index` step the prefix, uniqueness and membership
/// facts carry over.
proof fn lemma_push_keeps(before: Seq<Node>, after: Seq<Node>, x: Node, prefix: int)
    requires
        0 <= prefix <= before.len(),
        before.no_duplicates(),
        (before.contains(x) && after == before) || (!before.contains(x) && after
            == before.push(x)),
    ensures
        after.no_duplicates(),
        after.take(prefix) == before.take(prefix),
        after.contains(x),
        forall|y: Node| before.contains(y) ==> after.contains(y),
        forall|y: Node| after.contains(y) ==> before.contains(y) || y == x,
{
    if before.contains(x) {
    } else {
        assert(after.no_duplicates()) by {
            assert forall|p: int, q: int| 0 <= p < q < after.len() implies after[p] != after[q] by {
                if q == after.len() - 1 {
                    assert(after[p] == before[p]);
                    assert(!before.contains(x));
                }
            }
        }
        assert(after.take(prefix) =~= before.take(prefix));
        assert(after[after.len() - 1] == x);
        assert forall|y: Node| before.contains(y) implies after.contains(y) by {
            let j = choose|j: int| 0 <= j < before.len() && before[j] == y;
            assert(after[j] == y);
        }
        assert forall|y: Node| after.contains(y) implies before.contains(y) || y == x by {
            let j = choose|j: int| 0 <= j < after.len() && after[j] == y;
            if j < before.len() {
                assert(before[j] == y);
            }
        }
    }
}

/// In a duplicate-free sequence, any position holding `x` is
/// `index_of(x)`.
pub proof fn lemma_first_index(s: Seq<Node>, x: Node, i: int)
    requires
        s.no_duplicates(),
        0 <= i < s.len(),
        s[i] == x,
    ensures
        s.index_of(x) == i,
        s.contains(x),
{
    assert(s.contains(x));
    let j = s.index_of(x);
    if j != i {
        assert(s[j] == x);
    }
}

/// In a strictly ascending index list, any position holding `x` is
/// `index_of(x)`.
pub proof fn lemma_index_of_usize(s: Seq<usize>, x: usize, i: int)
    requires
        indices_sorted(s),
        0 <= i < s.len(),
        s[i] == x,
    ensures
        s.index_of(x) == i,
        s.contains(x),
{
    assert(s.contains(x));
    let j = s.index_of(x);
    if j != i {
        assert(s[j] == x);
        if j < i {
            assert(s[j] < s[i]);
        } else {
            assert(s[i] < s[j]);
        }
    }
}

/// `index_of` of a contained element stays in bounds.
pub proof fn lemma_index_of_bounds(s: Seq<Node>, x: Node)
    requires
        s.contains(x),
    ensures
        0 <= s.index_of(x) < s.len(),
        s[s.index_of(x)] == x,
{
}

/// Two elements with the same `index_of` are the same element.
pub proof fn lemma_index_of_inverse(s: Seq<Node>, x: Node)
    requires
        s.contains(x),
    ensures
        s[s.index_of(x)] == x,
{
}

} // verus!
