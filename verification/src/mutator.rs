use vstd::prelude::*;

use crate::common::{is_positive, Node, Weight};
use crate::graph::{assoc_keys, assoc_map, union_weight, Graph};
use crate::id_generator::IdGenerator;
use crate::network::{cell, Connection, Network, NetworkBuf};

pub use crate::graph::Arc;

verus! {

/// The weight the add-arc mutation gives a fresh arc: the bit pattern
/// of the double 0.001.
pub const FRESH_ARC_WEIGHT: Weight = 0x3F50_624D_D2F1_A9FC;

/// All arcs from a node of `ins` to a node of `outs`.
pub open spec fn bipartite(ins: Set<Node>, outs: Set<Node>) -> Set<Arc> {
    Set::new(|a: Arc| ins.contains(a.0) && outs.contains(a.1))
}

/// The arcs a network rebuild has kept after scanning the weight matrix
/// in row-major order up to (but not including) cell (src, dst): the
/// positive-weight cells seen so far.
pub open spec fn kept_arcs_prefix(
    tab: Seq<Node>,
    w: Seq<Weight>,
    n: int,
    src: int,
    dst: int,
) -> Set<Arc> {
    Set::new(
        |a: Arc|
            tab.contains(a.0) && tab.contains(a.1) && is_positive(
                cell(w, n, tab.index_of(a.0), tab.index_of(a.1)),
            ) && (tab.index_of(a.0) < src || (tab.index_of(a.0) == src && tab.index_of(a.1)
                < dst)),
    )
}

/// A node list strictly ascending by tag.
pub open spec fn nodes_ascending(s: Seq<Node>) -> bool {
    forall|i: int, j: int| 0 <= i < j < s.len() ==> s[i].0 < s[j].0
}

/// A graph together with its designated input and output node sets,
/// supporting the topology edits of the evolutionary search.
#[derive(Clone, Debug, PartialEq)]
pub struct Mutator {
    inputs: Vec<Node>,
    outputs: Vec<Node>,
    graph: Graph,
}

impl Mutator {
    /// The underlying graph.
    pub closed spec fn spec_graph(self) -> Graph {
        self.graph
    }

    /// The input nodes, ascending by tag.
    pub closed spec fn inputs_seq(self) -> Seq<Node> {
        self.inputs@
    }

    /// The output nodes, ascending by tag.
    pub closed spec fn outputs_seq(self) -> Seq<Node> {
        self.outputs@
    }

    /// Structural invariant: a well-formed graph and strictly ascending
    /// input and output lists.
    pub open spec fn wf(self) -> bool {
        &&& self.spec_graph().wf()
        &&& nodes_ascending(self.inputs_seq())
        &&& nodes_ascending(self.outputs_seq())
    }

    /// Whether every input and output is a node of the graph (needed by
    /// the pruning and compiling operations; a construction with no
    /// inputs leaves the outputs outside the graph).
    pub open spec fn io_in_graph(self) -> bool {
        &&& forall|i: int|
            0 <= i < self.inputs_seq().len() ==> self.spec_graph().node_set().contains(
                #[trigger] self.inputs_seq()[i],
            )
        &&& forall|i: int|
            0 <= i < self.outputs_seq().len() ==> self.spec_graph().node_set().contains(
                #[trigger] self.outputs_seq()[i],
            )
    }

    /// A fresh fully bipartite network: `inputs_count` fresh input nodes,
    /// then `outputs_count` fresh output nodes, and an arc of weight
    /// `weight` from every input to every output.
    pub fn new(
        node_id: &mut IdGenerator,
        inputs_count: usize,
        outputs_count: usize,
        weight: Weight,
    ) -> (r: Mutator)
        requires
            is_positive(weight),
            old(node_id).next() + inputs_count + outputs_count <= usize::MAX,
        ensures
            r.wf(),
            final(node_id).next() == old(node_id).next() + inputs_count + outputs_count,
            r.inputs_seq().len() == inputs_count,
            forall|k: int|
                0 <= k < inputs_count ==> (#[trigger] r.inputs_seq()[k]).0 == old(node_id).next()
                    + k,
            r.outputs_seq().len() == outputs_count,
            forall|k: int|
                0 <= k < outputs_count ==> (#[trigger] r.outputs_seq()[k]).0 == old(
                    node_id,
                ).next() + inputs_count + k,
            inputs_count > 0 ==> r.spec_graph().node_set() =~= r.inputs_seq().to_set().union(
                r.outputs_seq().to_set(),
            ),
            inputs_count > 0 ==> r.spec_graph().arc_map().dom() =~= bipartite(
                r.inputs_seq().to_set(),
                r.outputs_seq().to_set(),
            ),
            inputs_count == 0 ==> r.spec_graph().node_set() =~= Set::<Node>::empty(),
            inputs_count == 0 ==> r.spec_graph().arc_map().dom() =~= Set::<Arc>::empty(),
            forall|a: Arc|
                #[trigger] r.spec_graph().arc_map().dom().contains(a)
                    ==> r.spec_graph().arc_map()[a] == weight,
            inputs_count > 0 ==> r.io_in_graph(),
    {
        let ghost first = node_id.next();
        let mut inputs: Vec<Node> = Vec::new();
        let mut i: usize = 0;
        while i < inputs_count
            invariant
                i <= inputs_count,
                node_id.next() == first + i,
                first + inputs_count + outputs_count <= usize::MAX,
                inputs@.len() == i,
                forall|k: int| 0 <= k < i ==> (#[trigger] inputs@[k]).0 == first + k,
            decreases inputs_count - i,
        {
            let id = node_id.generate();
            inputs.push(Node(id));
            i = i + 1;
        }
        let mut outputs: Vec<Node> = Vec::new();
        let mut i: usize = 0;
        while i < outputs_count
            invariant
                i <= outputs_count,
                node_id.next() == first + inputs_count + i,
                first + inputs_count + outputs_count <= usize::MAX,
                outputs@.len() == i,
                forall|k: int|
                    0 <= k < i ==> (#[trigger] outputs@[k]).0 == first + inputs_count + k,
            decreases outputs_count - i,
        {
            let id = node_id.generate();
            outputs.push(Node(id));
            i = i + 1;
        }
        let mut graph = Graph::new();
        let mut i: usize = 0;
        while i < inputs_count
            invariant
                i <= inputs_count,
                inputs_count == inputs@.len(),
                outputs_count == outputs@.len(),
                forall|k: int| 0 <= k < inputs_count ==> (#[trigger] inputs@[k]).0 == first + k,
                forall|k: int|
                    0 <= k < outputs_count ==> (#[trigger] outputs@[k]).0 == first + inputs_count
                        + k,
                graph.wf(),
                i == 0 ==> graph.node_set() =~= Set::<Node>::empty(),
                i == 0 ==> graph.arc_map().dom() =~= Set::<Arc>::empty(),
                i > 0 ==> graph.node_set() =~= inputs@.take(i as int).to_set().union(
                    outputs@.to_set(),
                ),
                i > 0 ==> graph.arc_map().dom() =~= bipartite(
                    inputs@.take(i as int).to_set(),
                    outputs@.to_set(),
                ),
                forall|a: Arc|
                    #[trigger] graph.arc_map().dom().contains(a) ==> graph.arc_map()[a] == weight,
            decreases inputs_count - i,
        {
            let input = inputs[i];
            proof {
                if graph.node_set().contains(input) {
                    if i > 0 {
                        if inputs@.take(i as int).to_set().contains(input) {
                            let k = choose|k: int|
                                0 <= k < i && inputs@.take(i as int)[k] == input;
                            assert(inputs@[k].0 == first + k);
                        } else {
                            let k = choose|k: int| 0 <= k < outputs@.len() && outputs@[k] == input;
                        }
                    }
                    assert(false);
                }
            }
            graph.add_node(input);
            proof {
                crate::graph::lemma_take_push(inputs@, i as int);
                crate::graph::lemma_push_to_set_generic(inputs@.take(i as int), input);
                assert(outputs@.take(0) =~= Seq::<Node>::empty());
                if i > 0 {
                    assert(outputs@.take(outputs_count as int) =~= outputs@);
                }
            }
            let mut j: usize = 0;
            while j < outputs_count
                invariant
                    j <= outputs_count,
                    i < inputs_count,
                    inputs_count == inputs@.len(),
                    outputs_count == outputs@.len(),
                    input == inputs@[i as int],
                    forall|k: int| 0 <= k < inputs_count ==> (#[trigger] inputs@[k]).0 == first + k,
                    forall|k: int|
                        0 <= k < outputs_count ==> (#[trigger] outputs@[k]).0 == first
                            + inputs_count + k,
                    graph.wf(),
                    graph.node_set() =~= inputs@.take(i as int + 1).to_set().union(
                        outputs@.take(
                            if i == 0 {
                                j as int
                            } else {
                                outputs_count as int
                            },
                        ).to_set(),
                    ),
                    graph.arc_map().dom() =~= bipartite(
                        inputs@.take(i as int).to_set(),
                        outputs@.to_set(),
                    ).union(bipartite(seq![input].to_set(), outputs@.take(j as int).to_set())),
                    forall|a: Arc|
                        #[trigger] graph.arc_map().dom().contains(a) ==> graph.arc_map()[a]
                            == weight,
                decreases outputs_count - j,
            {
                let output = outputs[j];
                let already = graph.contains_node(&output);
                if !already {
                    graph.add_node(output);
                }
                proof {
                    if i == 0 {
                        assert(!already) by {
                            if already {
                                if inputs@.take(i as int + 1).to_set().contains(output) {
                                    let k = choose|k: int|
                                        0 <= k < i + 1 && (#[trigger] inputs@.take(
                                            i as int + 1,
                                        )[k]) == output;
                                    assert(inputs@[k].0 == first + k);
                                } else {
                                    let k = choose|k: int|
                                        0 <= k < j && (#[trigger] outputs@.take(j as int)[k])
                                            == output;
                                    assert(outputs@[k].0 == first + inputs_count + k);
                                }
                            }
                        }
                        crate::graph::lemma_take_push(outputs@, j as int);
                        crate::graph::lemma_push_to_set_generic(outputs@.take(j as int), output);
                        assert(graph.node_set() =~= inputs@.take(i as int + 1).to_set().union(
                            outputs@.take(j as int + 1).to_set(),
                        ));
                    } else {
                        assert(outputs@.take(outputs_count as int)[j as int] == output);
                        assert(outputs@.take(outputs_count as int).to_set().contains(output));
                        assert(outputs@.take(outputs_count as int) =~= outputs@);
                        assert(outputs@.to_set().contains(output));
                        assert(already);
                        assert(graph.node_set() =~= inputs@.take(i as int + 1).to_set().union(
                            outputs@.to_set(),
                        ));
                    }
                    assert(inputs@.take(i as int + 1)[i as int] == input);
                    assert(graph.node_set().contains(input));
                    assert(seq![input][0] == input);
                    assert(seq![input].to_set().contains(input));
                    crate::graph::lemma_push_to_set_generic(outputs@.take(j as int), output);
                    assert(outputs@.take(j as int + 1) =~= outputs@.take(j as int).push(output));
                    assert(graph.node_set().contains(output));
                    assert(!graph.arc_map().dom().contains(Arc(input, output))) by {
                        if graph.arc_map().dom().contains(Arc(input, output)) {
                            if bipartite(
                                inputs@.take(i as int).to_set(),
                                outputs@.to_set(),
                            ).contains(Arc(input, output)) {
                                let k = choose|k: int|
                                    0 <= k < i && inputs@.take(i as int)[k] == input;
                                assert(inputs@[k].0 == first + k);
                            } else {
                                let k = choose|k: int|
                                    0 <= k < j && outputs@.take(j as int)[k] == output;
                                assert(outputs@[k].0 == first + inputs_count + k);
                            }
                        }
                    }
                }
                graph.add_arc(input, output, weight);
                proof {
                    assert(graph.arc_map().dom() =~= bipartite(
                        inputs@.take(i as int).to_set(),
                        outputs@.to_set(),
                    ).union(
                        bipartite(seq![input].to_set(), outputs@.take(j as int + 1).to_set()),
                    )) by {
                        assert(seq![input][0] == input);
                        assert(seq![input].to_set().contains(input));
                    }
                }
                j = j + 1;
            }
            proof {
                crate::graph::lemma_take_push(inputs@, i as int);
                crate::graph::lemma_push_to_set_generic(inputs@.take(i as int), input);
                assert(outputs@.take(outputs_count as int) =~= outputs@);
                assert(graph.node_set() =~= inputs@.take(i as int + 1).to_set().union(
                    outputs@.to_set(),
                ));
                assert(graph.arc_map().dom() =~= bipartite(
                    inputs@.take(i as int + 1).to_set(),
                    outputs@.to_set(),
                )) by {
                    assert forall|a: Arc|
                        graph.arc_map().dom().contains(a) implies bipartite(
                        inputs@.take(i as int + 1).to_set(),
                        outputs@.to_set(),
                    ).contains(a) by {
                        if bipartite(inputs@.take(i as int).to_set(), outputs@.to_set()).contains(
                            a,
                        ) {
                            let k = choose|k: int|
                                0 <= k < i && inputs@.take(i as int)[k] == a.0;
                            assert(inputs@.take(i as int + 1)[k] == a.0);
                        } else {
                            assert(a.0 == input);
                            assert(inputs@.take(i as int + 1)[i as int] == input);
                        }
                    }
                    assert forall|a: Arc|
                        bipartite(
                            inputs@.take(i as int + 1).to_set(),
                            outputs@.to_set(),
                        ).contains(a) implies graph.arc_map().dom().contains(a) by {
                        let k = choose|k: int|
                            0 <= k < i + 1 && (#[trigger] inputs@.take(i as int + 1)[k]) == a.0;
                        if k < i {
                            assert(inputs@.take(i as int)[k] == a.0);
                        } else {
                            assert(a.0 == input);
                            assert(seq![input][0] == input);
                            assert(seq![input].to_set().contains(a.0));
                        }
                    }
                }
            }
            i = i + 1;
        }
        proof {
            if inputs_count > 0 {
                assert(inputs@.take(inputs_count as int) =~= inputs@);
            }
            assert(nodes_ascending(inputs@));
            assert(nodes_ascending(outputs@));
        }
        Mutator { inputs, outputs, graph }
    }

    /// The underlying graph, for reading.
    pub fn graph(&self) -> (r: &Graph)
        ensures
            r == self.spec_graph(),
    {
        &self.graph
    }

    /// The graph's nodes, ascending by tag.
    pub fn nodes(&self) -> (r: Vec<Node>)
        ensures
            r@ == assoc_keys(self.spec_graph().entries()),
            r@.to_set() == self.spec_graph().node_set(),
    {
        let entries = self.graph.nodes();
        let n = entries.len();
        let mut r: Vec<Node> = Vec::new();
        let mut i: usize = 0;
        while i < n
            invariant
                n == entries@.len(),
                entries@ == self.spec_graph().entries(),
                i <= n,
                r@ == assoc_keys(self.spec_graph().entries()).take(i as int),
            decreases n - i,
        {
            r.push(entries[i].0);
            proof {
                assert(assoc_keys(self.spec_graph().entries())[i as int] == entries@[i as int].0);
                crate::graph::lemma_take_push(assoc_keys(self.spec_graph().entries()), i as int);
            }
            i = i + 1;
        }
        proof {
            assert(assoc_keys(self.spec_graph().entries()).take(n as int) =~= assoc_keys(
                self.spec_graph().entries(),
            ));
        }
        r
    }

    /// The graph's arcs, ascending.
    pub fn arcs(&self) -> (r: Vec<Arc>)
        ensures
            r@ == assoc_keys(self.spec_graph().arc_entries()),
            r@.to_set() == self.spec_graph().arc_map().dom(),
    {
        let entries = self.graph.arcs();
        let n = entries.len();
        let mut r: Vec<Arc> = Vec::new();
        let mut i: usize = 0;
        while i < n
            invariant
                n == entries@.len(),
                entries@ == self.spec_graph().arc_entries(),
                i <= n,
                r@ == assoc_keys(self.spec_graph().arc_entries()).take(i as int),
            decreases n - i,
        {
            r.push(entries[i].0);
            proof {
                assert(assoc_keys(self.spec_graph().arc_entries())[i as int] == entries@[i
                    as int].0);
                crate::graph::lemma_take_push(
                    assoc_keys(self.spec_graph().arc_entries()),
                    i as int,
                );
            }
            i = i + 1;
        }
        proof {
            assert(assoc_keys(self.spec_graph().arc_entries()).take(n as int) =~= assoc_keys(
                self.spec_graph().arc_entries(),
            ));
            crate::graph::lemma_assoc_dom(self.spec_graph().arc_entries());
        }
        r
    }

    /// Adds an arc, which must be new and join existing nodes.
    pub fn add_arc(&mut self, src: Node, dst: Node, weight: Weight)
        requires
            old(self).wf(),
            old(self).spec_graph().node_set().contains(src),
            old(self).spec_graph().node_set().contains(dst),
            !old(self).spec_graph().arc_map().dom().contains(Arc(src, dst)),
        ensures
            final(self).wf(),
            final(self).inputs_seq() == old(self).inputs_seq(),
            final(self).outputs_seq() == old(self).outputs_seq(),
            final(self).spec_graph().node_set() == old(self).spec_graph().node_set(),
            final(self).spec_graph().arc_map() =~= old(self).spec_graph().arc_map().insert(
                Arc(src, dst),
                weight,
            ),
    {
        self.graph.add_arc(src, dst, weight);
    }

    /// Removes an arc.  Nodes left without arcs stay (see `rm_useless`).
    pub fn rm_arc(&mut self, arc: &Arc)
        requires
            old(self).wf(),
            old(self).spec_graph().arc_map().dom().contains(*arc),
        ensures
            final(self).wf(),
            final(self).inputs_seq() == old(self).inputs_seq(),
            final(self).outputs_seq() == old(self).outputs_seq(),
            final(self).spec_graph().node_set() == old(self).spec_graph().node_set(),
            final(self).spec_graph().arc_map() =~= old(self).spec_graph().arc_map().remove(*arc),
    {
        self.graph.rm_arc(arc);
    }

    /// Splits an arc: a fresh middle node replaces the arc with a
    /// two-hop path, both hops carrying `half_weight` (the callers pass
    /// the square root of the old weight, so the hop weights compose to
    /// it).  Returns the middle node.
    pub fn split(&mut self, node_id: &mut IdGenerator, arc: &Arc, half_weight: Weight) -> (middle:
        Node)
        requires
            old(self).wf(),
            old(self).spec_graph().arc_map().dom().contains(*arc),
            old(self).spec_graph().max_tag() + 2 <= usize::MAX,
            old(node_id).next() < usize::MAX,
        ensures
            final(self).wf(),
            final(self).inputs_seq() == old(self).inputs_seq(),
            final(self).outputs_seq() == old(self).outputs_seq(),
            !old(self).spec_graph().node_set().contains(middle),
            final(self).spec_graph().node_set() =~= old(self).spec_graph().node_set().insert(
                middle,
            ),
            final(self).spec_graph().node_set().len() == old(self).spec_graph().node_set().len()
                + 1,
            final(self).spec_graph().arc_map() =~= old(self).spec_graph().arc_map().insert(
                Arc(arc.0, middle),
                half_weight,
            ).insert(Arc(middle, arc.1), half_weight).remove(*arc),
            final(node_id).next() > old(node_id).next(),
    {
        let ghost g = self.spec_graph();
        let mut middle = Node(node_id.generate());
        while self.graph.contains_node(&middle)
            invariant
                self.wf(),
                self.spec_graph() == g,
                g.max_tag() + 2 <= usize::MAX,
                middle.0 + 1 == node_id.next(),
                node_id.next() > old(node_id).next(),
            decreases
                    (if node_id.next() <= g.max_tag() + 1 {
                        g.max_tag() + 2 - node_id.next()
                    } else {
                        0
                    }),
        {
            proof {
                self.spec_graph().lemma_tag_le_max(middle);
            }
            middle = Node(node_id.generate());
        }
        let src = arc.0;
        let dst = arc.1;
        proof {
            assert(self.spec_graph().node_set().contains(src));
            assert(self.spec_graph().node_set().contains(dst));
        }
        self.graph.add_node(middle);
        self.graph.add_arc(src, middle, half_weight);
        self.graph.add_arc(middle, dst, half_weight);
        proof {
            assert(self.spec_graph().arc_map().dom().contains(*arc));
        }
        self.graph.rm_arc(arc);
        proof {
            broadcast use vstd::set::group_set_axioms;
            broadcast use vstd::seq_lib::seq_to_set_is_finite;

            assert(old(self).spec_graph().node_set().finite());
            assert(final (self).spec_graph().node_set() =~= old(
                self,
            ).spec_graph().node_set().insert(middle));
        }
        middle
    }

    /// The nodes `rm_useless` removes: those that no input reaches or
    /// that reach no output, the inputs and outputs themselves excepted.
    pub open spec fn removable_set(self) -> Set<Node> {
        self.spec_graph().node_set().difference(
            self.spec_graph().reach_any(crate::graph::ArcsType::Outgoing, self.inputs_seq()),
        ).union(
            self.spec_graph().node_set().difference(
                self.spec_graph().reach_any(crate::graph::ArcsType::Incoming, self.outputs_seq()),
            ),
        ).difference(self.inputs_seq().to_set().union(self.outputs_seq().to_set()))
    }

    /// Pruning never touches an input or an output node: the removable
    /// set excludes them outright.
    pub proof fn lemma_removable_excludes_io(self)
        ensures
            forall|k: int|
                0 <= k < self.inputs_seq().len() ==> !self.removable_set().contains(
                    #[trigger] self.inputs_seq()[k],
                ),
            forall|k: int|
                0 <= k < self.outputs_seq().len() ==> !self.removable_set().contains(
                    #[trigger] self.outputs_seq()[k],
                ),
    {
        assert forall|k: int|
            0 <= k < self.inputs_seq().len() implies !self.removable_set().contains(
            #[trigger] self.inputs_seq()[k],
        ) by {
            assert(self.inputs_seq().to_set().contains(self.inputs_seq()[k]));
        }
        assert forall|k: int|
            0 <= k < self.outputs_seq().len() implies !self.removable_set().contains(
            #[trigger] self.outputs_seq()[k],
        ) by {
            assert(self.outputs_seq().to_set().contains(self.outputs_seq()[k]));
        }
    }

    /// Whether the list holds the node.
    fn member(v: &Vec<Node>, x: &Node) -> (r: bool)
        ensures
            r == v@.to_set().contains(*x),
    {
        let n = v.len();
        let mut i: usize = 0;
        while i < n
            invariant
                n == v@.len(),
                i <= n,
                forall|j: int| 0 <= j < i ==> v@[j] != *x,
            decreases n - i,
        {
            if v[i] == *x {
                return true;
            }
            i = i + 1;
        }
        proof {
            if v@.to_set().contains(*x) {
                let j = choose|j: int| 0 <= j < v@.len() && v@[j] == *x;
            }
        }
        false
    }

    /// Whether the list holds the arc.
    fn member_arc(v: &Vec<Arc>, x: &Arc) -> (r: bool)
        ensures
            r == v@.to_set().contains(*x),
    {
        let n = v.len();
        let mut i: usize = 0;
        while i < n
            invariant
                n == v@.len(),
                i <= n,
                forall|j: int| 0 <= j < i ==> v@[j] != *x,
            decreases n - i,
        {
            if v[i] == *x {
                return true;
            }
            i = i + 1;
        }
        proof {
            if v@.to_set().contains(*x) {
                let j = choose|j: int| 0 <= j < v@.len() && v@[j] == *x;
            }
        }
        false
    }

    /// Removes every node that no input reaches or that reaches no
    /// output (inputs and outputs excepted), together with all arcs that
    /// touch such a node.
    pub fn rm_useless(&mut self)
        requires
            old(self).wf(),
            old(self).io_in_graph(),
        ensures
            final(self).wf(),
            final(self).io_in_graph(),
            final(self).inputs_seq() == old(self).inputs_seq(),
            final(self).outputs_seq() == old(self).outputs_seq(),
            final(self).spec_graph().node_set() =~= old(self).spec_graph().node_set().difference(
                old(self).removable_set(),
            ),
            final(self).spec_graph().arc_map().dom() =~= Set::new(
                |a: Arc|
                    old(self).spec_graph().arc_map().dom().contains(a)
                        && !old(self).removable_set().contains(a.0)
                        && !old(self).removable_set().contains(a.1),
            ),
            forall|a: Arc|
                #[trigger] final(self).spec_graph().arc_map().dom().contains(a)
                    ==> final(self).spec_graph().arc_map()[a]
                    == old(self).spec_graph().arc_map()[a],
    {
        let ghost g0 = self.spec_graph();
        let ghost removable = self.removable_set();
        let u1 = self.graph.unreachable_from(&self.inputs);
        let u2 = self.graph.unreachable_to(&self.outputs);
        // The residue: unreachable either way, minus inputs and outputs.
        let mut residue: Vec<Node> = Vec::new();
        let n1 = u1.len();
        let mut i: usize = 0;
        while i < n1
            invariant
                n1 == u1@.len(),
                i <= n1,
                u1@.to_set() =~= g0.node_set().difference(
                    g0.reach_any(crate::graph::ArcsType::Outgoing, self.inputs_seq()),
                ),
                self == old(self),
                residue@.no_duplicates(),
                residue@.to_set() =~= u1@.take(i as int).to_set().difference(
                    self.inputs_seq().to_set().union(self.outputs_seq().to_set()),
                ),
            decreases n1 - i,
        {
            let x = u1[i];
            proof {
                crate::graph::lemma_take_push(u1@, i as int);
                crate::graph::lemma_push_to_set_generic(u1@.take(i as int), x);
            }
            if !Self::member(&self.inputs, &x) && !Self::member(&self.outputs, &x)
                && !Self::member(&residue, &x) {
                let ghost before = residue@;
                residue.push(x);
                proof {
                    crate::graph::lemma_push_to_set_generic(before, x);
                    assert(residue@.no_duplicates());
                }
            }
            i = i + 1;
        }
        proof {
            assert(u1@.take(n1 as int) =~= u1@);
        }
        let n2 = u2.len();
        let mut i: usize = 0;
        while i < n2
            invariant
                n2 == u2@.len(),
                i <= n2,
                u1@.to_set() =~= g0.node_set().difference(
                    g0.reach_any(crate::graph::ArcsType::Outgoing, self.inputs_seq()),
                ),
                u2@.to_set() =~= g0.node_set().difference(
                    g0.reach_any(crate::graph::ArcsType::Incoming, self.outputs_seq()),
                ),
                self == old(self),
                residue@.no_duplicates(),
                residue@.to_set() =~= u1@.to_set().union(u2@.take(i as int).to_set()).difference(
                    self.inputs_seq().to_set().union(self.outputs_seq().to_set()),
                ),
            decreases n2 - i,
        {
            let x = u2[i];
            proof {
                crate::graph::lemma_take_push(u2@, i as int);
                crate::graph::lemma_push_to_set_generic(u2@.take(i as int), x);
            }
            if !Self::member(&self.inputs, &x) && !Self::member(&self.outputs, &x)
                && !Self::member(&residue, &x) {
                let ghost before = residue@;
                residue.push(x);
                proof {
                    crate::graph::lemma_push_to_set_generic(before, x);
                    assert(residue@.no_duplicates());
                }
            }
            i = i + 1;
        }
        proof {
            assert(u2@.take(n2 as int) =~= u2@);
            assert(residue@.to_set() =~= removable);
            assert forall|k: int|
                0 <= k < residue@.len() implies g0.node_set().contains(
                #[trigger] residue@[k],
            ) by {
                assert(residue@.to_set().contains(residue@[k]));
            }
        }
        // Every arc that touches the residue.
        let mut rm: Vec<Arc> = Vec::new();
        let nr = residue.len();
        let mut i: usize = 0;
        while i < nr
            invariant
                nr == residue@.len(),
                i <= nr,
                self == old(self),
                self.wf(),
                residue@.no_duplicates(),
                residue@.to_set() =~= removable,
                forall|k: int|
                    0 <= k < residue@.len() ==> g0.node_set().contains(#[trigger] residue@[k]),
                g0 == self.spec_graph(),
                rm@.no_duplicates(),
                forall|j: int|
                    0 <= j < rm@.len() ==> g0.arc_map().dom().contains(#[trigger] rm@[j]) && (
                    removable.contains(rm@[j].0) || removable.contains(rm@[j].1)),
                forall|a: Arc|
                    g0.arc_map().dom().contains(a) && (residue@.take(i as int).to_set().contains(
                        a.0,
                    ) || residue@.take(i as int).to_set().contains(a.1)) ==> rm@.to_set().contains(
                        a,
                    ),
            decreases nr - i,
        {
            let x = residue[i];
            let na = self.graph.node_arcs(&x);
            let m_out = na.outgoing.len();
            let mut j: usize = 0;
            while j < m_out
                invariant
                    m_out == na.outgoing@.len(),
                    j <= m_out,
                    self == old(self),
                    self.wf(),
                    g0 == self.spec_graph(),
                    x == residue@[i as int],
                    i < residue@.len(),
                    residue@.to_set() =~= removable,
                    na.outgoing@.to_set() == g0.outgoing_of(x),
                    na.incoming@.to_set() == g0.incoming_of(x),
                    rm@.no_duplicates(),
                    forall|j2: int|
                        0 <= j2 < rm@.len() ==> g0.arc_map().dom().contains(#[trigger] rm@[j2]) && (
                        removable.contains(rm@[j2].0) || removable.contains(rm@[j2].1)),
                    forall|a: Arc|
                        g0.arc_map().dom().contains(a) && (residue@.take(
                            i as int,
                        ).to_set().contains(a.0) || residue@.take(i as int).to_set().contains(a.1))
                            ==> rm@.to_set().contains(a),
                    forall|j2: int|
                        0 <= j2 < j ==> rm@.to_set().contains(#[trigger] na.outgoing@[j2]),
                decreases m_out - j,
            {
                let a = na.outgoing[j];
                proof {
                    assert(na.outgoing@.to_set().contains(a));
                    assert(g0.outgoing_of(x).contains(a));
                    assert(residue@.to_set().contains(x));
                }
                if !Self::member_arc(&rm, &a) {
                    let ghost before = rm@;
                    rm.push(a);
                    proof {
                        crate::graph::lemma_push_to_set_generic(before, a);
                        assert(rm@.no_duplicates());
                    }
                }
                j = j + 1;
            }
            let m_in = na.incoming.len();
            let mut j: usize = 0;
            while j < m_in
                invariant
                    m_in == na.incoming@.len(),
                    j <= m_in,
                    self == old(self),
                    self.wf(),
                    g0 == self.spec_graph(),
                    x == residue@[i as int],
                    i < residue@.len(),
                    residue@.to_set() =~= removable,
                    na.outgoing@.to_set() == g0.outgoing_of(x),
                    na.incoming@.to_set() == g0.incoming_of(x),
                    rm@.no_duplicates(),
                    forall|j2: int|
                        0 <= j2 < rm@.len() ==> g0.arc_map().dom().contains(#[trigger] rm@[j2]) && (
                        removable.contains(rm@[j2].0) || removable.contains(rm@[j2].1)),
                    forall|a: Arc|
                        g0.arc_map().dom().contains(a) && (residue@.take(
                            i as int,
                        ).to_set().contains(a.0) || residue@.take(i as int).to_set().contains(a.1))
                            ==> rm@.to_set().contains(a),
                    forall|j2: int|
                        0 <= j2 < na.outgoing@.len() ==> rm@.to_set().contains(
                            #[trigger] na.outgoing@[j2],
                        ),
                    forall|j2: int|
                        0 <= j2 < j ==> rm@.to_set().contains(#[trigger] na.incoming@[j2]),
                decreases m_in - j,
            {
                let a = na.incoming[j];
                proof {
                    assert(na.incoming@.to_set().contains(a));
                    assert(g0.incoming_of(x).contains(a));
                    assert(residue@.to_set().contains(x));
                }
                if !Self::member_arc(&rm, &a) {
                    let ghost before = rm@;
                    rm.push(a);
                    proof {
                        crate::graph::lemma_push_to_set_generic(before, a);
                        assert(rm@.no_duplicates());
                    }
                }
                j = j + 1;
            }
            proof {
                crate::graph::lemma_take_push(residue@, i as int);
                crate::graph::lemma_push_to_set_generic(residue@.take(i as int), x);
                assert forall|a: Arc|
                    g0.arc_map().dom().contains(a) && (residue@.take(
                        i as int + 1,
                    ).to_set().contains(a.0) || residue@.take(i as int + 1).to_set().contains(
                        a.1,
                    )) implies rm@.to_set().contains(a) by {
                    if residue@.take(i as int).to_set().contains(a.0) || residue@.take(
                        i as int,
                    ).to_set().contains(a.1) {
                    } else if a.0 == x {
                        assert(g0.outgoing_of(x).contains(a));
                        assert(na.outgoing@.to_set().contains(a));
                        let j2 = choose|j2: int|
                            0 <= j2 < na.outgoing@.len() && na.outgoing@[j2] == a;
                        assert(rm@.to_set().contains(na.outgoing@[j2]));
                    } else {
                        assert(a.1 == x);
                        assert(g0.incoming_of(x).contains(a));
                        assert(na.incoming@.to_set().contains(a));
                        let j2 = choose|j2: int|
                            0 <= j2 < na.incoming@.len() && na.incoming@[j2] == a;
                        assert(rm@.to_set().contains(na.incoming@[j2]));
                    }
                }
            }
            i = i + 1;
        }
        proof {
            assert(residue@.take(nr as int) =~= residue@);
        }
        // Remove the arcs, then the now-isolated nodes.
        let nrm = rm.len();
        let mut i: usize = 0;
        while i < nrm
            invariant
                nrm == rm@.len(),
                i <= nrm,
                self.wf(),
                self.inputs_seq() == old(self).inputs_seq(),
                self.outputs_seq() == old(self).outputs_seq(),
                self.spec_graph().node_set() == g0.node_set(),
                rm@.no_duplicates(),
                forall|j: int|
                    0 <= j < rm@.len() ==> g0.arc_map().dom().contains(#[trigger] rm@[j]),
                self.spec_graph().arc_map().dom() =~= g0.arc_map().dom().difference(
                    rm@.take(i as int).to_set(),
                ),
                forall|a: Arc|
                    #[trigger] self.spec_graph().arc_map().dom().contains(a)
                        ==> self.spec_graph().arc_map()[a] == g0.arc_map()[a],
            decreases nrm - i,
        {
            let a = rm[i];
            proof {
                crate::graph::lemma_take_push(rm@, i as int);
                crate::graph::lemma_push_to_set_generic(rm@.take(i as int), a);
                assert(!rm@.take(i as int).to_set().contains(a)) by {
                    if rm@.take(i as int).to_set().contains(a) {
                        let j = choose|j: int| 0 <= j < i && rm@.take(i as int)[j] == a;
                        assert(rm@[j] == rm@[i as int]);
                    }
                }
                assert(self.spec_graph().arc_map().dom().contains(a));
            }
            self.graph.rm_arc(&a);
            i = i + 1;
        }
        proof {
            assert(rm@.take(nrm as int) =~= rm@);
        }
        let ghost mid_map = self.spec_graph().arc_map();
        let mut i: usize = 0;
        while i < nr
            invariant
                nr == residue@.len(),
                i <= nr,
                self.wf(),
                self.inputs_seq() == old(self).inputs_seq(),
                self.outputs_seq() == old(self).outputs_seq(),
                residue@.no_duplicates(),
                residue@.to_set() =~= removable,
                forall|k: int|
                    0 <= k < residue@.len() ==> g0.node_set().contains(#[trigger] residue@[k]),
                self.spec_graph().node_set() =~= g0.node_set().difference(
                    residue@.take(i as int).to_set(),
                ),
                self.spec_graph().arc_map() == mid_map,
                self.spec_graph().arc_map().dom() =~= g0.arc_map().dom().difference(
                    rm@.to_set(),
                ),
                forall|a: Arc|
                    #[trigger] self.spec_graph().arc_map().dom().contains(a)
                        ==> self.spec_graph().arc_map()[a] == g0.arc_map()[a],
                forall|a: Arc|
                    g0.arc_map().dom().contains(a) && (removable.contains(a.0)
                        || removable.contains(a.1)) ==> rm@.to_set().contains(a),
                forall|j: int|
                    0 <= j < rm@.len() ==> g0.arc_map().dom().contains(#[trigger] rm@[j]) && (
                    removable.contains(rm@[j].0) || removable.contains(rm@[j].1)),
            decreases nr - i,
        {
            let x = residue[i];
            proof {
                crate::graph::lemma_take_push(residue@, i as int);
                crate::graph::lemma_push_to_set_generic(residue@.take(i as int), x);
                assert(!residue@.take(i as int).to_set().contains(x)) by {
                    if residue@.take(i as int).to_set().contains(x) {
                        let j = choose|j: int| 0 <= j < i && residue@.take(i as int)[j] == x;
                        assert(residue@[j] == residue@[i as int]);
                    }
                }
                assert(self.spec_graph().node_set().contains(x));
                assert(residue@.to_set().contains(x));
                assert(self.spec_graph().outgoing_of(x) =~= Set::<Arc>::empty()) by {
                    assert forall|a: Arc|
                        !(#[trigger] self.spec_graph().outgoing_of(x).contains(a)) by {
                        if self.spec_graph().outgoing_of(x).contains(a) {
                            assert(a.0 == x && self.spec_graph().arc_map().dom().contains(a));
                            assert(g0.arc_map().dom().contains(a));
                            assert(rm@.to_set().contains(a));
                        }
                    }
                }
                assert(self.spec_graph().incoming_of(x) =~= Set::<Arc>::empty()) by {
                    assert forall|a: Arc|
                        !(#[trigger] self.spec_graph().incoming_of(x).contains(a)) by {
                        if self.spec_graph().incoming_of(x).contains(a) {
                            assert(a.1 == x && self.spec_graph().arc_map().dom().contains(a));
                            assert(g0.arc_map().dom().contains(a));
                            assert(rm@.to_set().contains(a));
                        }
                    }
                }
            }
            self.graph.rm_node(&x);
            i = i + 1;
        }
        proof {
            assert(residue@.take(nr as int) =~= residue@);
            assert(final (self).spec_graph().node_set() =~= g0.node_set().difference(removable));
            assert(final (self).spec_graph().arc_map().dom() =~= Set::new(
                |a: Arc|
                    g0.arc_map().dom().contains(a) && !removable.contains(a.0)
                        && !removable.contains(a.1),
            )) by {
                assert forall|a: Arc|
                    final (self).spec_graph().arc_map().dom().contains(a) implies g0.arc_map().dom().contains(
                    a,
                ) && !removable.contains(a.0) && !removable.contains(a.1) by {
                    if removable.contains(a.0) || removable.contains(a.1) {
                        assert(rm@.to_set().contains(a));
                    }
                }
                assert forall|a: Arc|
                    g0.arc_map().dom().contains(a) && !removable.contains(a.0)
                        && !removable.contains(a.1) implies final (
                self).spec_graph().arc_map().dom().contains(a) by {
                    if rm@.to_set().contains(a) {
                        let j = choose|j: int| 0 <= j < rm@.len() && rm@[j] == a;
                    }
                }
            }
            // Inputs and outputs survive: the removable set excludes them.
            old(self).lemma_removable_excludes_io();
            assert forall|k: int|
                0 <= k < final (self).inputs_seq().len() implies final (
            self).spec_graph().node_set().contains(#[trigger] final (self).inputs_seq()[k]) by {
                assert(old(self).inputs_seq()[k] == final (self).inputs_seq()[k]);
            }
            assert forall|k: int|
                0 <= k < final (self).outputs_seq().len() implies final (
            self).spec_graph().node_set().contains(#[trigger] final (self).outputs_seq()[k]) by {
                assert(old(self).outputs_seq()[k] == final (self).outputs_seq()[k]);
            }
        }
    }

    /// Pruning is idempotent: with `m2` related to `m` as `rm_useless`
    /// ensures, `m2` has nothing removable left — every surviving node
    /// that is not an input or output still lies on some input-to-output
    /// walk, because such a walk's nodes all survive with it.
    pub proof fn lemma_rm_useless_idempotent(m: Mutator, m2: Mutator)
        requires
            m.wf(),
            m2.wf(),
            m2.inputs_seq() == m.inputs_seq(),
            m2.outputs_seq() == m.outputs_seq(),
            m2.spec_graph().node_set() == m.spec_graph().node_set().difference(
                m.removable_set(),
            ),
            m2.spec_graph().arc_map().dom() == Set::new(
                |a: Arc|
                    m.spec_graph().arc_map().dom().contains(a) && !m.removable_set().contains(
                        a.0,
                    ) && !m.removable_set().contains(a.1),
            ),
        ensures
            m2.removable_set() =~= Set::<Node>::empty(),
    {
        let g = m.spec_graph();
        let g2 = m2.spec_graph();
        let r = m.removable_set();
        let ins = m.inputs_seq();
        let outs = m.outputs_seq();
        assert forall|x: Node| !(#[trigger] m2.removable_set().contains(x)) by {
            if m2.removable_set().contains(x) {
                assert(g2.node_set().contains(x));
                assert(!ins.to_set().contains(x) && !outs.to_set().contains(x));
                assert(g.node_set().contains(x) && !r.contains(x));
                assert(g.reach_any(crate::graph::ArcsType::Outgoing, ins).contains(x));
                assert(g.reach_any(crate::graph::ArcsType::Incoming, outs).contains(x));
                let i = choose|i: int|
                    0 <= i < ins.len() && g.reaches(
                        crate::graph::ArcsType::Outgoing,
                        #[trigger] ins[i],
                        x,
                    );
                let o = choose|o: int|
                    0 <= o < outs.len() && g.reaches(
                        crate::graph::ArcsType::Incoming,
                        #[trigger] outs[o],
                        x,
                    );
                g.lemma_reverse_reaches(crate::graph::ArcsType::Incoming, outs[o], x);
                let p1 = choose|p1: Seq<Node>|
                    g.is_path(crate::graph::ArcsType::Outgoing, p1) && p1.first() == ins[i]
                        && p1.last() == x;
                let p2 = choose|p2: Seq<Node>|
                    g.is_path(crate::graph::ArcsType::Outgoing, p2) && p2.first() == x
                        && p2.last() == outs[o];
                g.lemma_path_concat(crate::graph::ArcsType::Outgoing, p1, p2);
                let w = p1 + p2.drop_first();
                // Every node of the walk is reachable from an input and
                // reaches an output, so none of it was removed.
                assert forall|k: int| 0 <= k < w.len() implies !r.contains(#[trigger] w[k]) by {
                    g.lemma_path_take(crate::graph::ArcsType::Outgoing, w, k + 1);
                    assert(g.reaches(crate::graph::ArcsType::Outgoing, ins[i], w[k]));
                    assert(g.reach_any(crate::graph::ArcsType::Outgoing, ins).contains(w[k]));
                    g.lemma_path_skip(crate::graph::ArcsType::Outgoing, w, k);
                    assert(g.reaches(crate::graph::ArcsType::Outgoing, w[k], outs[o]));
                    g.lemma_reverse_reaches(crate::graph::ArcsType::Outgoing, w[k], outs[o]);
                    assert(g.reaches(crate::graph::ArcsType::Incoming, outs[o], w[k]));
                    assert(g.reach_any(crate::graph::ArcsType::Incoming, outs).contains(w[k]));
                }
                // So the whole walk lives on in the pruned graph, and x
                // keeps its place on it.
                g.lemma_path_survives(g2, crate::graph::ArcsType::Outgoing, w, r);
                g2.lemma_path_take(crate::graph::ArcsType::Outgoing, w, p1.len() as int);
                assert(w[p1.len() - 1] == x);
                assert(g2.reaches(crate::graph::ArcsType::Outgoing, ins[i], x));
                assert(g2.reach_any(crate::graph::ArcsType::Outgoing, ins).contains(x));
                g2.lemma_path_skip(crate::graph::ArcsType::Outgoing, w, p1.len() - 1);
                assert(g2.reaches(crate::graph::ArcsType::Outgoing, x, outs[o]));
                g2.lemma_reverse_reaches(crate::graph::ArcsType::Outgoing, x, outs[o]);
                assert(g2.reach_any(crate::graph::ArcsType::Incoming, outs).contains(x));
                assert(false);
            }
        }
    }

    /// The union of two mutators: input sets, output sets and graphs are
    /// unioned; an arc present in both graphs takes the weight supplied
    /// for it in `means` (the callers pass the mean of the two weights).
    pub fn union(&self, other: &Mutator, means: &Vec<(Arc, Weight)>) -> (r: Mutator)
        requires
            self.wf(),
            other.wf(),
            assoc_keys(means@).no_duplicates(),
            assoc_map(means@).dom() =~= self.spec_graph().arc_map().dom().intersect(
                other.spec_graph().arc_map().dom(),
            ),
        ensures
            r.wf(),
            r.inputs_seq().to_set() =~= self.inputs_seq().to_set().union(
                other.inputs_seq().to_set(),
            ),
            r.outputs_seq().to_set() =~= self.outputs_seq().to_set().union(
                other.outputs_seq().to_set(),
            ),
            r.spec_graph().node_set() =~= self.spec_graph().node_set().union(
                other.spec_graph().node_set(),
            ),
            r.spec_graph().arc_map().dom() =~= self.spec_graph().arc_map().dom().union(
                other.spec_graph().arc_map().dom(),
            ),
            forall|x: Arc|
                #[trigger] r.spec_graph().arc_map().dom().contains(x)
                    ==> r.spec_graph().arc_map()[x] == union_weight(
                    self.spec_graph().arc_map(),
                    other.spec_graph().arc_map(),
                    assoc_map(means@),
                    x,
                ),
    {
        Mutator {
            inputs: Self::merge_sorted(&self.inputs, &other.inputs),
            outputs: Self::merge_sorted(&self.outputs, &other.outputs),
            graph: self.graph.union(&other.graph, means),
        }
    }

    /// Compiles this mutator into a dense network: one connection per
    /// arc, indices assigned over inputs, then arc endpoints, then
    /// outputs.
    pub fn as_network_buf(&self) -> (r: NetworkBuf)
        requires
            self.wf(),
            (self.inputs_seq().len() + 2 * self.spec_graph().arc_entries().len()
                + self.outputs_seq().len()) * (self.inputs_seq().len() + 2
                * self.spec_graph().arc_entries().len() + self.outputs_seq().len()) <= usize::MAX,
        ensures
            r.wf(),
            r.node_seq().no_duplicates(),
            self.inputs_seq().len() <= r.node_seq().len(),
            r.node_seq().take(self.inputs_seq().len() as int) == self.inputs_seq(),
            r.node_seq().to_set() =~= self.inputs_seq().to_set().union(
                self.outputs_seq().to_set(),
            ).union(
                Set::new(
                    |x: Node|
                        exists|a: Arc|
                            #[trigger] self.spec_graph().arc_map().dom().contains(a) && (a.0 == x
                                || a.1 == x),
                ),
            ),
            r.inputs_seq().len() == self.inputs_seq().len(),
            forall|k: int|
                0 <= k < self.inputs_seq().len() ==> (#[trigger] r.inputs_seq()[k]) == k,
            r.outputs_seq().len() == self.outputs_seq().len(),
            forall|j: int|
                0 <= j < r.outputs_seq().len() ==> self.outputs_seq().contains(
                    r.node_seq()[(#[trigger] r.outputs_seq()[j]) as int],
                ),
            forall|x: Node|
                self.outputs_seq().contains(x) ==> r.outputs_seq().contains(
                    r.node_seq().index_of(x) as usize,
                ),
            forall|a: Arc|
                #[trigger] self.spec_graph().arc_map().dom().contains(a) ==> cell(
                    r.weights_seq(),
                    r.node_seq().len() as int,
                    r.node_seq().index_of(a.0),
                    r.node_seq().index_of(a.1),
                ) == self.spec_graph().arc_map()[a],
            forall|i: int, j: int|
                0 <= i < r.node_seq().len() && 0 <= j < r.node_seq().len() && !(
                self.spec_graph().arc_map().dom().contains(
                    Arc(r.node_seq()[i], r.node_seq()[j]),
                )) ==> #[trigger] cell(r.weights_seq(), r.node_seq().len() as int, i, j) == 0,
    {
        let entries = self.graph.arcs();
        let n = entries.len();
        let mut connections: Vec<Connection> = Vec::new();
        let mut i: usize = 0;
        while i < n
            invariant
                n == entries@.len(),
                entries@ == self.spec_graph().arc_entries(),
                i <= n,
                connections@.len() == i,
                forall|k: int|
                    0 <= k < i ==> (#[trigger] connections@[k]) == (Connection {
                        src: entries@[k].0.0,
                        dst: entries@[k].0.1,
                        weight: entries@[k].1,
                    }),
            decreases n - i,
        {
            let e = &entries[i];
            connections.push(Connection { src: e.0.0, dst: e.0.1, weight: e.1 });
            i = i + 1;
        }
        proof {
            self.spec_graph().lemma_sorted_arcs_unique();
            crate::graph::lemma_assoc_dom(self.spec_graph().arc_entries());
            assert forall|k1: int, k2: int|
                0 <= k1 < k2 < connections@.len() implies !((#[trigger] connections@[k1]).src == (
            #[trigger] connections@[k2]).src && connections@[k1].dst == connections@[k2].dst) by {
                assert(assoc_keys(self.spec_graph().arc_entries())[k1] == entries@[k1].0);
                assert(assoc_keys(self.spec_graph().arc_entries())[k2] == entries@[k2].0);
            }
        }
        let r = NetworkBuf::new(&connections, &self.inputs, &self.outputs);
        proof {
            // Transcribe the compiler's contract from connections back to
            // the arc map.
            assert forall|a: Arc|
                #[trigger] self.spec_graph().arc_map().dom().contains(a) implies cell(
                r.weights_seq(),
                r.node_seq().len() as int,
                r.node_seq().index_of(a.0),
                r.node_seq().index_of(a.1),
            ) == self.spec_graph().arc_map()[a] by {
                let k = choose|k: int|
                    0 <= k < assoc_keys(self.spec_graph().arc_entries()).len() && assoc_keys(
                        self.spec_graph().arc_entries(),
                    )[k] == a;
                assert(entries@[k].0 == a);
                crate::graph::lemma_assoc_index(self.spec_graph().arc_entries(), k);
                assert(connections@[k].src == a.0 && connections@[k].dst == a.1
                    && connections@[k].weight == self.spec_graph().arc_map()[a]);
            }
            assert forall|i2: int, j2: int|
                0 <= i2 < r.node_seq().len() && 0 <= j2 < r.node_seq().len() && !(
                self.spec_graph().arc_map().dom().contains(
                    Arc(r.node_seq()[i2], r.node_seq()[j2]),
                )) implies #[trigger] cell(
                r.weights_seq(),
                r.node_seq().len() as int,
                i2,
                j2,
            ) == 0 by {
                if exists|k: int|
                    0 <= k < connections@.len() && r.node_seq().index_of(
                        (#[trigger] connections@[k]).src,
                    ) == i2 && r.node_seq().index_of(connections@[k].dst) == j2 {
                    let k = choose|k: int|
                        0 <= k < connections@.len() && r.node_seq().index_of(
                            (#[trigger] connections@[k]).src,
                        ) == i2 && r.node_seq().index_of(connections@[k].dst) == j2;
                    assert(r.node_seq().to_set().contains(connections@[k].src)) by {
                        assert(connections@[k].src == entries@[k].0.0);
                        assert(Set::new(
                            |x: Node|
                                exists|k2: int|
                                    0 <= k2 < connections@.len() && ((#[trigger] connections@[k2]).src
                                        == x || connections@[k2].dst == x),
                        ).contains(connections@[k].src));
                    }
                    assert(r.node_seq().to_set().contains(connections@[k].dst)) by {
                        assert(Set::new(
                            |x: Node|
                                exists|k2: int|
                                    0 <= k2 < connections@.len() && ((#[trigger] connections@[k2]).src
                                        == x || connections@[k2].dst == x),
                        ).contains(connections@[k].dst));
                    }
                    assert(r.node_seq().contains(connections@[k].src));
                    assert(r.node_seq().contains(connections@[k].dst));
                    crate::network::lemma_index_of_bounds(r.node_seq(), connections@[k].src);
                    crate::network::lemma_index_of_bounds(r.node_seq(), connections@[k].dst);
                    assert(r.node_seq()[i2] == connections@[k].src);
                    assert(r.node_seq()[j2] == connections@[k].dst);
                    assert(assoc_keys(self.spec_graph().arc_entries())[k] == entries@[k].0);
                    assert(self.spec_graph().arc_map().dom().contains(entries@[k].0));
                    assert(false);
                }
            }
            assert(r.node_seq().to_set() =~= self.inputs_seq().to_set().union(
                self.outputs_seq().to_set(),
            ).union(
                Set::new(
                    |x: Node|
                        exists|a: Arc|
                            #[trigger] self.spec_graph().arc_map().dom().contains(a) && (a.0 == x
                                || a.1 == x),
                ),
            )) by {
                let from_conn = Set::new(
                    |x: Node|
                        exists|k: int|
                            0 <= k < connections@.len() && ((#[trigger] connections@[k]).src == x
                                || connections@[k].dst == x),
                );
                let from_arcs = Set::new(
                    |x: Node|
                        exists|a: Arc|
                            #[trigger] self.spec_graph().arc_map().dom().contains(a) && (a.0 == x
                                || a.1 == x),
                );
                assert forall|x: Node| from_conn.contains(x) implies from_arcs.contains(x) by {
                    let k = choose|k: int|
                        0 <= k < connections@.len() && ((#[trigger] connections@[k]).src == x
                            || connections@[k].dst == x);
                    assert(assoc_keys(self.spec_graph().arc_entries())[k] == entries@[k].0);
                    assert(self.spec_graph().arc_map().dom().contains(entries@[k].0));
                }
                assert forall|x: Node| from_arcs.contains(x) implies from_conn.contains(x) by {
                    let a = choose|a: Arc|
                        #[trigger] self.spec_graph().arc_map().dom().contains(a) && (a.0 == x
                            || a.1 == x);
                    let k = choose|k: int|
                        0 <= k < assoc_keys(self.spec_graph().arc_entries()).len() && assoc_keys(
                            self.spec_graph().arc_entries(),
                        )[k] == a;
                    assert(entries@[k].0 == a);
                    assert(connections@[k].src == a.0 && connections@[k].dst == a.1);
                }
                assert(from_conn =~= from_arcs);
            }
        }
        r
    }

    /// Rebuilds a mutator from a compiled network, keeping every arc
    /// whose weight is positive.
    pub fn from_network(network: &Network) -> (r: Mutator)
        requires
            network.wf(),
        ensures
            r.wf(),
            r.io_in_graph(),
            r.spec_graph().node_set() =~= network.nodes@.to_set(),
            r.inputs_seq().to_set() =~= Set::new(
                |x: Node|
                    exists|k: int|
                        0 <= k < network.inputs@.len() && network.nodes@[(
                        #[trigger] network.inputs@[k]) as int] == x,
            ),
            r.outputs_seq().to_set() =~= Set::new(
                |x: Node|
                    exists|k: int|
                        0 <= k < network.outputs@.len() && network.nodes@[(
                        #[trigger] network.outputs@[k]) as int] == x,
            ),
            r.spec_graph().arc_map().dom() =~= Set::new(
                |a: Arc|
                    network.nodes@.contains(a.0) && network.nodes@.contains(a.1) && is_positive(
                        cell(
                            network.weights.spec_values(),
                            network.nodes@.len() as int,
                            network.nodes@.index_of(a.0),
                            network.nodes@.index_of(a.1),
                        ),
                    ),
            ),
            forall|a: Arc|
                #[trigger] r.spec_graph().arc_map().dom().contains(a)
                    ==> r.spec_graph().arc_map()[a] == cell(
                    network.weights.spec_values(),
                    network.nodes@.len() as int,
                    network.nodes@.index_of(a.0),
                    network.nodes@.index_of(a.1),
                ),
    {
        let ghost tab = network.nodes@;
        let ghost w = network.weights.spec_values();
        let n = network.nodes.len();
        let vals = network.weights.values();
        let mut graph = Graph::new();
        let mut i: usize = 0;
        while i < n
            invariant
                n == tab.len(),
                network.wf(),
                tab == network.nodes@,
                i <= n,
                graph.wf(),
                graph.node_set() =~= tab.take(i as int).to_set(),
                graph.arc_map().dom() =~= Set::<Arc>::empty(),
            decreases n - i,
        {
            let x = network.nodes[i];
            proof {
                if graph.node_set().contains(x) {
                    let j = choose|j: int| 0 <= j < i && tab.take(i as int)[j] == x;
                    assert(tab[j] == tab[i as int]);
                }
                crate::graph::lemma_take_push(tab, i as int);
                crate::graph::lemma_push_to_set_generic(tab.take(i as int), x);
            }
            graph.add_node(x);
            i = i + 1;
        }
        proof {
            assert(tab.take(n as int) =~= tab);
        }
        // Keep the positive-weight cells as arcs.
        let mut src: usize = 0;
        while src < n
            invariant
                n == tab.len(),
                network.wf(),
                tab == network.nodes@,
                w == network.weights.spec_values(),
                vals@ == w,
                src <= n,
                graph.wf(),
                graph.node_set() =~= tab.to_set(),
                graph.arc_map().dom() =~= kept_arcs_prefix(tab, w, n as int, src as int, 0),
                forall|a: Arc|
                    #[trigger] graph.arc_map().dom().contains(a) ==> graph.arc_map()[a] == cell(
                        w,
                        n as int,
                        tab.index_of(a.0),
                        tab.index_of(a.1),
                    ),
            decreases n - src,
        {
            let mut dst: usize = 0;
            while dst < n
                invariant
                    n == tab.len(),
                    network.wf(),
                    tab == network.nodes@,
                    w == network.weights.spec_values(),
                    vals@ == w,
                    src < n,
                    dst <= n,
                    graph.wf(),
                    graph.node_set() =~= tab.to_set(),
                    graph.arc_map().dom() =~= kept_arcs_prefix(
                        tab,
                        w,
                        n as int,
                        src as int,
                        dst as int,
                    ),
                    forall|a: Arc|
                        #[trigger] graph.arc_map().dom().contains(a) ==> graph.arc_map()[a] == cell(
                            w,
                            n as int,
                            tab.index_of(a.0),
                            tab.index_of(a.1),
                        ),
                decreases n - dst,
            {
                let total = vals.len();
                proof {
                    assert(src * n + dst < n * n) by (nonlinear_arith)
                        requires
                            0 <= src < n,
                            0 <= dst < n,
                    ;
                }
                let weight = *vstd::slice::slice_index_get(vals, src * n + dst);
                let ghost a = Arc(tab[src as int], tab[dst as int]);
                proof {
                    crate::network::lemma_first_index(tab, tab[src as int], src as int);
                    crate::network::lemma_first_index(tab, tab[dst as int], dst as int);
                    assert(weight == cell(w, n as int, src as int, dst as int));
                }
                if crate::common::positive(weight) {
                    proof {
                        assert(!graph.arc_map().dom().contains(a));
                        assert(graph.node_set().contains(tab[src as int])) by {
                            assert(tab.to_set().contains(tab[src as int]));
                        }
                        assert(graph.node_set().contains(tab[dst as int])) by {
                            assert(tab.to_set().contains(tab[dst as int]));
                        }
                    }
                    let s = network.nodes[src];
                    let d = network.nodes[dst];
                    graph.add_arc(s, d, weight);
                }
                proof {
                    let target = kept_arcs_prefix(tab, w, n as int, src as int, dst as int + 1);
                    assert(graph.arc_map().dom() =~= target) by {
                        assert forall|b: Arc|
                            target.contains(b) implies graph.arc_map().dom().contains(b) by {
                            if !(kept_arcs_prefix(
                                tab,
                                w,
                                n as int,
                                src as int,
                                dst as int,
                            ).contains(b)) {
                                crate::network::lemma_index_of_bounds(tab, b.0);
                                crate::network::lemma_index_of_bounds(tab, b.1);
                                assert(tab.index_of(b.0) == src && tab.index_of(b.1) == dst);
                                assert(b.0 == tab[src as int] && b.1 == tab[dst as int]);
                                assert(b == a);
                            }
                        }
                        assert forall|b: Arc|
                            graph.arc_map().dom().contains(b) implies target.contains(b) by {
                            if b != a {
                                assert(kept_arcs_prefix(
                                    tab,
                                    w,
                                    n as int,
                                    src as int,
                                    dst as int,
                                ).contains(b));
                            } else {
                                if graph.arc_map().dom().contains(a) {
                                    assert(tab.to_set().contains(tab[src as int]));
                                    assert(tab.contains(a.0) && tab.contains(a.1));
                                }
                            }
                        }
                    }
                }
                dst = dst + 1;
            }
            proof {
                let s1 = kept_arcs_prefix(tab, w, n as int, src as int, n as int);
                let s2 = kept_arcs_prefix(tab, w, n as int, src as int + 1, 0);
                assert(s1 =~= s2) by {
                    assert forall|b: Arc| s1.contains(b) implies s2.contains(b) by {
                        crate::network::lemma_index_of_bounds(tab, b.1);
                    }
                    assert forall|b: Arc| s2.contains(b) implies s1.contains(b) by {
                        crate::network::lemma_index_of_bounds(tab, b.1);
                    }
                }
            }
            src = src + 1;
        }
        // Input and output node sets, ascending by tag.
        let mut inputs: Vec<Node> = Vec::new();
        let ni = network.inputs.len();
        let mut i: usize = 0;
        while i < ni
            invariant
                n == tab.len(),
                network.wf(),
                tab == network.nodes@,
                ni == network.inputs@.len(),
                i <= ni,
                nodes_ascending(inputs@),
                inputs@.to_set() =~= Set::new(
                    |x: Node|
                        exists|k: int|
                            0 <= k < i && network.nodes@[(#[trigger] network.inputs@[k]) as int]
                                == x,
                ),
            decreases ni - i,
        {
            let idx = network.inputs[i];
            let x = network.nodes[idx];
            Self::insert_sorted_node(&mut inputs, x);
            proof {
                assert forall|y: Node|
                    inputs@.to_set().contains(y) implies Set::new(
                    |z: Node|
                        exists|k: int|
                            0 <= k < i + 1 && network.nodes@[(#[trigger] network.inputs@[k]) as int]
                                == z,
                ).contains(y) by {
                    if y != x {
                        let k = choose|k: int|
                            0 <= k < i && network.nodes@[(#[trigger] network.inputs@[k]) as int]
                                == y;
                    } else {
                        assert(network.nodes@[(network.inputs@[i as int]) as int] == y);
                    }
                }
                assert forall|y: Node|
                    Set::new(
                        |z: Node|
                            exists|k: int|
                                0 <= k < i + 1 && network.nodes@[(#[trigger] network.inputs@[k])
                                    as int] == z,
                    ).contains(y) implies inputs@.to_set().contains(y) by {
                    let k = choose|k: int|
                        0 <= k < i + 1 && network.nodes@[(#[trigger] network.inputs@[k]) as int]
                            == y;
                    if k < i {
                    } else {
                        assert(y == x);
                    }
                }
            }
            i = i + 1;
        }
        let mut outputs: Vec<Node> = Vec::new();
        let no = network.outputs.len();
        let mut i: usize = 0;
        while i < no
            invariant
                n == tab.len(),
                network.wf(),
                tab == network.nodes@,
                no == network.outputs@.len(),
                i <= no,
                nodes_ascending(outputs@),
                outputs@.to_set() =~= Set::new(
                    |x: Node|
                        exists|k: int|
                            0 <= k < i && network.nodes@[(#[trigger] network.outputs@[k]) as int]
                                == x,
                ),
            decreases no - i,
        {
            let idx = network.outputs[i];
            let x = network.nodes[idx];
            Self::insert_sorted_node(&mut outputs, x);
            proof {
                assert forall|y: Node|
                    outputs@.to_set().contains(y) implies Set::new(
                    |z: Node|
                        exists|k: int|
                            0 <= k < i + 1 && network.nodes@[(#[trigger] network.outputs@[k])
                                as int] == z,
                ).contains(y) by {
                    if y != x {
                        let k = choose|k: int|
                            0 <= k < i && network.nodes@[(#[trigger] network.outputs@[k]) as int]
                                == y;
                    } else {
                        assert(network.nodes@[(network.outputs@[i as int]) as int] == y);
                    }
                }
                assert forall|y: Node|
                    Set::new(
                        |z: Node|
                            exists|k: int|
                                0 <= k < i + 1 && network.nodes@[(#[trigger] network.outputs@[k])
                                    as int] == z,
                    ).contains(y) implies outputs@.to_set().contains(y) by {
                    let k = choose|k: int|
                        0 <= k < i + 1 && network.nodes@[(#[trigger] network.outputs@[k]) as int]
                            == y;
                    if k < i {
                    } else {
                        assert(y == x);
                    }
                }
            }
            i = i + 1;
        }
        let r = Mutator { inputs, outputs, graph };
        proof {
            assert forall|k: int|
                0 <= k < r.inputs_seq().len() implies r.spec_graph().node_set().contains(
                #[trigger] r.inputs_seq()[k],
            ) by {
                assert(r.inputs_seq().to_set().contains(r.inputs_seq()[k]));
                let k2 = choose|k2: int|
                    0 <= k2 < network.inputs@.len() && network.nodes@[(
                    #[trigger] network.inputs@[k2]) as int] == r.inputs_seq()[k];
                assert(tab.to_set().contains(tab[network.inputs@[k2] as int]));
            }
            assert forall|k: int|
                0 <= k < r.outputs_seq().len() implies r.spec_graph().node_set().contains(
                #[trigger] r.outputs_seq()[k],
            ) by {
                assert(r.outputs_seq().to_set().contains(r.outputs_seq()[k]));
                let k2 = choose|k2: int|
                    0 <= k2 < network.outputs@.len() && network.nodes@[(
                    #[trigger] network.outputs@[k2]) as int] == r.outputs_seq()[k];
                assert(tab.to_set().contains(tab[network.outputs@[k2] as int]));
            }
            assert(r.spec_graph().arc_map().dom() =~= Set::new(
                |a: Arc|
                    network.nodes@.contains(a.0) && network.nodes@.contains(a.1) && is_positive(
                        cell(
                            network.weights.spec_values(),
                            network.nodes@.len() as int,
                            network.nodes@.index_of(a.0),
                            network.nodes@.index_of(a.1),
                        ),
                    ),
            )) by {
                let done = kept_arcs_prefix(tab, w, n as int, n as int, 0);
                let target = Set::new(
                    |a: Arc|
                        network.nodes@.contains(a.0) && network.nodes@.contains(a.1)
                            && is_positive(
                            cell(
                                network.weights.spec_values(),
                                network.nodes@.len() as int,
                                network.nodes@.index_of(a.0),
                                network.nodes@.index_of(a.1),
                            ),
                        ),
                );
                assert forall|b: Arc| done.contains(b) implies target.contains(b) by {}
                assert forall|b: Arc| target.contains(b) implies done.contains(b) by {
                    crate::network::lemma_index_of_bounds(tab, b.0);
                }
                assert(done =~= target);
            }
        }
        r
    }

    /// Compiling a mutator to a network and rebuilding one from that
    /// network preserves the inputs, the outputs, and every
    /// positive-weight arc with its weight: with `nb` related to `m` as
    /// `as_network_buf` ensures, and `m2` related to `nb`'s view as
    /// `from_network` ensures.
    #[verifier::rlimit(50)]
    pub proof fn lemma_network_roundtrip(m: Mutator, nb: NetworkBuf, m2: Mutator)
        requires
            m.wf(),
            nb.wf(),
            nb.node_seq().no_duplicates(),
            m.inputs_seq().len() <= nb.node_seq().len(),
            nb.node_seq().take(m.inputs_seq().len() as int) == m.inputs_seq(),
            nb.node_seq().to_set() == m.inputs_seq().to_set().union(
                m.outputs_seq().to_set(),
            ).union(
                Set::new(
                    |x: Node|
                        exists|a: Arc|
                            #[trigger] m.spec_graph().arc_map().dom().contains(a) && (a.0 == x
                                || a.1 == x),
                ),
            ),
            nb.inputs_seq().len() == m.inputs_seq().len(),
            forall|k: int| 0 <= k < m.inputs_seq().len() ==> (#[trigger] nb.inputs_seq()[k]) == k,
            nb.outputs_seq().len() == m.outputs_seq().len(),
            forall|j: int|
                0 <= j < nb.outputs_seq().len() ==> m.outputs_seq().contains(
                    nb.node_seq()[(#[trigger] nb.outputs_seq()[j]) as int],
                ),
            forall|x: Node|
                m.outputs_seq().contains(x) ==> nb.outputs_seq().contains(
                    nb.node_seq().index_of(x) as usize,
                ),
            forall|a: Arc|
                #[trigger] m.spec_graph().arc_map().dom().contains(a) ==> cell(
                    nb.weights_seq(),
                    nb.node_seq().len() as int,
                    nb.node_seq().index_of(a.0),
                    nb.node_seq().index_of(a.1),
                ) == m.spec_graph().arc_map()[a],
            forall|i: int, j: int|
                0 <= i < nb.node_seq().len() && 0 <= j < nb.node_seq().len() && !(
                m.spec_graph().arc_map().dom().contains(
                    Arc(nb.node_seq()[i], nb.node_seq()[j]),
                )) ==> #[trigger] cell(nb.weights_seq(), nb.node_seq().len() as int, i, j) == 0,
            m2.spec_graph().node_set() == nb.node_seq().to_set(),
            m2.inputs_seq().to_set() == Set::new(
                |x: Node|
                    exists|k: int|
                        0 <= k < nb.inputs_seq().len() && nb.node_seq()[(
                        #[trigger] nb.inputs_seq()[k]) as int] == x,
            ),
            m2.outputs_seq().to_set() == Set::new(
                |x: Node|
                    exists|k: int|
                        0 <= k < nb.outputs_seq().len() && nb.node_seq()[(
                        #[trigger] nb.outputs_seq()[k]) as int] == x,
            ),
            m2.spec_graph().arc_map().dom() == Set::new(
                |a: Arc|
                    nb.node_seq().contains(a.0) && nb.node_seq().contains(a.1) && is_positive(
                        cell(
                            nb.weights_seq(),
                            nb.node_seq().len() as int,
                            nb.node_seq().index_of(a.0),
                            nb.node_seq().index_of(a.1),
                        ),
                    ),
            ),
            forall|a: Arc|
                #[trigger] m2.spec_graph().arc_map().dom().contains(a)
                    ==> m2.spec_graph().arc_map()[a] == cell(
                    nb.weights_seq(),
                    nb.node_seq().len() as int,
                    nb.node_seq().index_of(a.0),
                    nb.node_seq().index_of(a.1),
                ),
        ensures
            m2.inputs_seq().to_set() =~= m.inputs_seq().to_set(),
            m2.outputs_seq().to_set() =~= m.outputs_seq().to_set(),
            m2.spec_graph().arc_map().dom() =~= Set::new(
                |a: Arc|
                    m.spec_graph().arc_map().dom().contains(a) && is_positive(
                        m.spec_graph().arc_map()[a],
                    ),
            ),
            forall|a: Arc|
                #[trigger] m2.spec_graph().arc_map().dom().contains(a)
                    ==> m2.spec_graph().arc_map()[a] == m.spec_graph().arc_map()[a],
    {
        let tab = nb.node_seq();
        let n_in = m.inputs_seq().len() as int;
        // Inputs round-trip: they sit at table positions 0 .. n_in.
        assert forall|x: Node|
            m2.inputs_seq().to_set().contains(x) implies m.inputs_seq().to_set().contains(x) by {
            let k = choose|k: int|
                0 <= k < nb.inputs_seq().len() && tab[(#[trigger] nb.inputs_seq()[k]) as int] == x;
            assert(nb.inputs_seq()[k] == k);
            assert(tab.take(n_in).len() == m.inputs_seq().len());
            assert(n_in <= tab.len());
            assert(tab.take(n_in)[k] == tab[k]);
            assert(m.inputs_seq()[k] == x);
        }
        assert forall|x: Node|
            m.inputs_seq().to_set().contains(x) implies m2.inputs_seq().to_set().contains(x) by {
            let k = choose|k: int| 0 <= k < m.inputs_seq().len() && m.inputs_seq()[k] == x;
            assert(tab.take(n_in).len() == m.inputs_seq().len());
            assert(n_in <= tab.len());
            assert(tab.take(n_in)[k] == tab[k]);
            assert(tab[(nb.inputs_seq()[k]) as int] == x);
        }
        // Outputs round-trip: membership both ways through the index
        // table.
        assert forall|x: Node|
            m2.outputs_seq().to_set().contains(x) implies m.outputs_seq().to_set().contains(
            x,
        ) by {
            let k = choose|k: int|
                0 <= k < nb.outputs_seq().len() && tab[(#[trigger] nb.outputs_seq()[k]) as int]
                    == x;
            assert(m.outputs_seq().contains(tab[(nb.outputs_seq()[k]) as int]));
            let j = choose|j: int| 0 <= j < m.outputs_seq().len() && m.outputs_seq()[j] == x;
        }
        assert forall|x: Node|
            m.outputs_seq().to_set().contains(x) implies m2.outputs_seq().to_set().contains(
            x,
        ) by {
            let j = choose|j: int| 0 <= j < m.outputs_seq().len() && m.outputs_seq()[j] == x;
            assert(m.outputs_seq().contains(x));
            assert(nb.outputs_seq().contains(tab.index_of(x) as usize));
            let k = choose|k: int|
                0 <= k < nb.outputs_seq().len() && nb.outputs_seq()[k] == tab.index_of(x) as usize;
            assert(tab.to_set().contains(x)) by {
                assert(m.outputs_seq().to_set().contains(x));
            }
            assert(tab.contains(x));
            crate::network::lemma_index_of_bounds(tab, x);
            assert(tab[(nb.outputs_seq()[k]) as int] == x);
        }
        // Arcs round-trip: positive cells are exactly the positive arcs.
        assert forall|a: Arc|
            m2.spec_graph().arc_map().dom().contains(a) implies m.spec_graph().arc_map().dom().contains(
            a,
        ) && is_positive(m.spec_graph().arc_map()[a]) && m2.spec_graph().arc_map()[a]
            == m.spec_graph().arc_map()[a] by {
            assert(tab.contains(a.0) && tab.contains(a.1));
            crate::network::lemma_index_of_bounds(tab, a.0);
            crate::network::lemma_index_of_bounds(tab, a.1);
            let i = tab.index_of(a.0);
            let j = tab.index_of(a.1);
            if !m.spec_graph().arc_map().dom().contains(a) {
                assert(!m.spec_graph().arc_map().dom().contains(Arc(tab[i], tab[j])));
                assert(cell(nb.weights_seq(), tab.len() as int, i, j) == 0);
                assert(!is_positive(0)) by {
                    assert(crate::common::magnitude(0) == 0) by (bit_vector);
                }
                assert(false);
            }
        }
        assert forall|a: Arc|
            m.spec_graph().arc_map().dom().contains(a) && is_positive(
                m.spec_graph().arc_map()[a],
            ) implies m2.spec_graph().arc_map().dom().contains(a) by {
            assert(tab.to_set().contains(a.0)) by {
                assert(Set::new(
                    |x: Node|
                        exists|b: Arc|
                            #[trigger] m.spec_graph().arc_map().dom().contains(b) && (b.0 == x
                                || b.1 == x),
                ).contains(a.0));
            }
            assert(tab.to_set().contains(a.1)) by {
                assert(Set::new(
                    |x: Node|
                        exists|b: Arc|
                            #[trigger] m.spec_graph().arc_map().dom().contains(b) && (b.0 == x
                                || b.1 == x),
                ).contains(a.1));
            }
            assert(tab.contains(a.0) && tab.contains(a.1));
            assert(cell(
                nb.weights_seq(),
                tab.len() as int,
                tab.index_of(a.0),
                tab.index_of(a.1),
            ) == m.spec_graph().arc_map()[a]);
        }
        assert(m2.spec_graph().arc_map().dom() =~= Set::new(
            |a: Arc|
                m.spec_graph().arc_map().dom().contains(a) && is_positive(
                    m.spec_graph().arc_map()[a],
                ),
        ));
    }

    /// A node picked uniformly from the graph's node list.
    pub fn random_node(&self, rng: &mut rand::rngs::StdRng) -> (r: Node)
        requires
            self.spec_graph().entries().len() > 0,
        ensures
            self.spec_graph().node_set().contains(r),
    {
        let entries = self.graph.nodes();
        let nth = crate::rng::rand_below(rng, entries.len());
        let r = entries[nth].0;
        proof {
            assert(assoc_keys(self.spec_graph().entries())[nth as int] == r);
        }
        r
    }

    /// An arc picked uniformly from the graph's arc list.
    pub fn random_arc(&self, rng: &mut rand::rngs::StdRng) -> (r: Arc)
        requires
            self.spec_graph().arc_entries().len() > 0,
        ensures
            self.spec_graph().arc_map().dom().contains(r),
    {
        let entries = self.graph.arcs();
        let nth = crate::rng::rand_below(rng, entries.len());
        let r = entries[nth].0;
        proof {
            assert(assoc_keys(self.spec_graph().arc_entries())[nth as int] == r);
            crate::graph::lemma_assoc_dom(self.spec_graph().arc_entries());
        }
        r
    }

    /// One attempt at the add-arc mutation: draws a random source and
    /// destination, and adds a fresh arc of weight `FRESH_ARC_WEIGHT`
    /// between them unless that arc already exists.  Returns whether an
    /// arc was added; the caller retries until it succeeds.
    pub fn try_random_add_arc(&mut self, rng: &mut rand::rngs::StdRng) -> (r: bool)
        requires
            old(self).wf(),
            old(self).spec_graph().entries().len() > 0,
        ensures
            final(self).wf(),
            final(self).inputs_seq() == old(self).inputs_seq(),
            final(self).outputs_seq() == old(self).outputs_seq(),
            final(self).spec_graph().node_set() == old(self).spec_graph().node_set(),
            r ==> exists|s: Node, d: Node|
                old(self).spec_graph().node_set().contains(s) && old(
                    self,
                ).spec_graph().node_set().contains(d) && !old(self).spec_graph().arc_map().dom().contains(
                    Arc(s, d),
                ) && final(self).spec_graph().arc_map() =~= old(self).spec_graph().arc_map().insert(
                    Arc(s, d),
                    FRESH_ARC_WEIGHT,
                ),
            !r ==> final(self).spec_graph().arc_map() == old(self).spec_graph().arc_map(),
    {
        let src = self.random_node(rng);
        let dst = self.random_node(rng);
        let arc = Arc(src, dst);
        if !self.graph.contains_arc(&arc) {
            self.graph.add_arc(src, dst, FRESH_ARC_WEIGHT);
            true
        } else {
            false
        }
    }

    /// Merges two ascending node lists into their ascending union.
    fn merge_sorted(a: &Vec<Node>, b: &Vec<Node>) -> (r: Vec<Node>)
        requires
            nodes_ascending(a@),
            nodes_ascending(b@),
        ensures
            nodes_ascending(r@),
            r@.to_set() =~= a@.to_set().union(b@.to_set()),
    {
        let mut r: Vec<Node> = Vec::new();
        let na = a.len();
        let mut i: usize = 0;
        while i < na
            invariant
                na == a@.len(),
                i <= na,
                nodes_ascending(a@),
                nodes_ascending(r@),
                r@.to_set() =~= a@.take(i as int).to_set(),
            decreases na - i,
        {
            let ghost before = r@;
            Self::insert_sorted_node(&mut r, a[i]);
            proof {
                crate::graph::lemma_take_push(a@, i as int);
                crate::graph::lemma_push_to_set_generic(a@.take(i as int), a@[i as int]);
            }
            i = i + 1;
        }
        proof {
            assert(a@.take(na as int) =~= a@);
        }
        let nb = b.len();
        let mut i: usize = 0;
        while i < nb
            invariant
                nb == b@.len(),
                i <= nb,
                nodes_ascending(b@),
                nodes_ascending(r@),
                r@.to_set() =~= a@.to_set().union(b@.take(i as int).to_set()),
            decreases nb - i,
        {
            Self::insert_sorted_node(&mut r, b[i]);
            proof {
                crate::graph::lemma_take_push(b@, i as int);
                crate::graph::lemma_push_to_set_generic(b@.take(i as int), b@[i as int]);
            }
            i = i + 1;
        }
        proof {
            assert(b@.take(nb as int) =~= b@);
        }
        r
    }

    /// Inserts a node into an ascending list, keeping it a set.
    fn insert_sorted_node(v: &mut Vec<Node>, x: Node)
        requires
            nodes_ascending(old(v)@),
        ensures
            nodes_ascending(final(v)@),
            final(v)@.to_set() =~= old(v)@.to_set().insert(x),
    {
        let n = v.len();
        let mut i: usize = 0;
        while i < n && v[i].0 < x.0
            invariant
                n == v@.len(),
                i <= n,
                v@ == old(v)@,
                nodes_ascending(old(v)@),
                forall|j: int| 0 <= j < i ==> (#[trigger] v@[j]).0 < x.0,
            decreases n - i,
        {
            i = i + 1;
        }
        if i < n {
            let found = v[i];
            if found.0 == x.0 {
                proof {
                    assert(v@[i as int] == x);
                    assert(v@.to_set().contains(x));
                    assert(v@.to_set() =~= old(v)@.to_set().insert(x));
                }
                return;
            }
        }
        let ghost olds = v@;
        v.insert(i, x);
        proof {
            let news = v@;
            assert(news == olds.insert(i as int, x));
            assert(i < olds.len() ==> olds[i as int].0 > x.0);
            assert(nodes_ascending(news)) by {
                assert forall|p: int, q: int| 0 <= p < q < news.len() implies news[p].0
                    < news[q].0 by {
                    if q < i {
                    } else if p < i && q == i {
                        assert(news[p] == olds[p]);
                    } else if p < i && q > i {
                        assert(news[p] == olds[p] && news[q] == olds[q - 1]);
                        if q - 1 > i {
                            assert(olds[i as int].0 < olds[q - 1].0);
                        }
                    } else if p == i {
                        assert(news[q] == olds[q - 1]);
                        if q - 1 > i {
                            assert(olds[i as int].0 < olds[q - 1].0);
                        }
                    } else {
                        assert(news[p] == olds[p - 1] && news[q] == olds[q - 1]);
                    }
                }
            }
            assert(news.to_set() =~= olds.to_set().insert(x)) by {
                assert forall|y: Node| news.to_set().contains(y) implies olds.to_set().insert(
                    x,
                ).contains(y) by {
                    let j = choose|j: int| 0 <= j < news.len() && news[j] == y;
                    if j < i {
                        assert(olds[j] == y);
                    } else if j > i {
                        assert(olds[j - 1] == y);
                    }
                }
                assert forall|y: Node|
                    olds.to_set().insert(x).contains(y) implies news.to_set().contains(y) by {
                    if y == x {
                        assert(news[i as int] == y);
                    } else {
                        let j = choose|j: int| 0 <= j < olds.len() && olds[j] == y;
                        if j < i {
                            assert(news[j] == y);
                        } else {
                            assert(news[j + 1] == y);
                        }
                    }
                }
            }
        }
    }
}

} // verus!
