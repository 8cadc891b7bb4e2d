use vstd::prelude::*;

use crate::common::{Node, Weight};

verus! {

/// A directed arc from its first node to its second.  Distinct arcs with
/// swapped endpoints are distinct; self-loops are permitted.
#[derive(Clone, Copy, Debug, PartialEq, Eq, Hash, PartialOrd, Ord, Structural)]
pub struct Arc(pub Node, pub Node);

/// The arcs that touch one node, split by direction.  Both vectors carry
/// set semantics: no arc appears twice.
#[derive(Clone, Debug, PartialEq, Eq)]
pub struct NodeArcs {
    pub outgoing: Vec<Arc>,
    pub incoming: Vec<Arc>,
}

/// Which direction a traversal follows.
#[derive(Clone, Debug)]
pub enum ArcsType {
    Outgoing,
    Incoming,
}

impl ArcsType {
    /// The arcs of `node_arcs` that this direction follows.
    pub fn arcs<'r>(&self, node_arcs: &'r NodeArcs) -> (r: &'r Vec<Arc>)
        ensures
            r@ == (match self {
                ArcsType::Outgoing => node_arcs.outgoing@,
                ArcsType::Incoming => node_arcs.incoming@,
            }),
    {
        match *self {
            ArcsType::Outgoing => &node_arcs.outgoing,
            ArcsType::Incoming => &node_arcs.incoming,
        }
    }

    /// The endpoint of `arc` that this direction steps to.
    pub fn neighborhood(&self, arc: &Arc) -> (r: Node)
        ensures
            r == (match self {
                ArcsType::Outgoing => arc.1,
                ArcsType::Incoming => arc.0,
            }),
    {
        match *self {
            ArcsType::Outgoing => arc.1,
            ArcsType::Incoming => arc.0,
        }
    }
}

/// The keys of an association list, in order.
pub open spec fn assoc_keys<K, V>(s: Seq<(K, V)>) -> Seq<K> {
    s.map_values(|p: (K, V)| p.0)
}

/// The mapping an association list denotes (later entries win, though the
/// lists used here never repeat a key).
pub open spec fn assoc_map<K, V>(s: Seq<(K, V)>) -> Map<K, V>
    decreases s.len(),
{
    if s.len() == 0 {
        Map::empty()
    } else {
        assoc_map(s.drop_last()).insert(s.last().0, s.last().1)
    }
}

/// The domain of an association list's map is exactly its key set.
pub proof fn lemma_assoc_dom<K, V>(s: Seq<(K, V)>)
    ensures
        assoc_map(s).dom() =~= assoc_keys(s).to_set(),
    decreases s.len(),
{
    if s.len() == 0 {
        assert(assoc_keys(s).to_set() =~= Set::empty());
    } else {
        lemma_assoc_dom(s.drop_last());
        assert(assoc_keys(s) == assoc_keys(s.drop_last()).push(s.last().0));
        assert(assoc_keys(s).drop_last() == assoc_keys(s.drop_last()));
        assert(assoc_keys(s).to_set() =~= assoc_keys(s.drop_last()).to_set().insert(s.last().0))
            by {
            assert forall|k: K| assoc_keys(s).to_set().contains(k) implies assoc_keys(
                s.drop_last(),
            ).to_set().contains(k) || k == s.last().0 by {
                let i = choose|i: int|
                    0 <= i < assoc_keys(s).len() && assoc_keys(s)[i] == k;
                if i < s.len() - 1 {
                    assert(assoc_keys(s.drop_last())[i] == k);
                }
            }
            assert forall|k: K| assoc_keys(s.drop_last()).to_set().contains(k) implies assoc_keys(
                s,
            ).to_set().contains(k) by {
                let i = choose|i: int|
                    0 <= i < assoc_keys(s.drop_last()).len() && assoc_keys(s.drop_last())[i] == k;
                assert(assoc_keys(s)[i] == k);
            }
            assert(assoc_keys(s).to_set().contains(s.last().0)) by {
                assert(assoc_keys(s)[s.len() - 1] == s.last().0);
            }
        }
    }
}

/// In an association list with distinct keys, each entry is what the map
/// gives for its key.
pub proof fn lemma_assoc_index<K, V>(s: Seq<(K, V)>, i: int)
    requires
        assoc_keys(s).no_duplicates(),
        0 <= i < s.len(),
    ensures
        assoc_map(s).dom().contains(s[i].0),
        assoc_map(s)[s[i].0] == s[i].1,
    decreases s.len(),
{
    lemma_assoc_dom(s);
    assert(assoc_keys(s)[i] == s[i].0);
    if i == s.len() - 1 {
    } else {
        assert(assoc_keys(s.drop_last()) == assoc_keys(s).drop_last());
        lemma_assoc_index(s.drop_last(), i);
        assert(assoc_keys(s)[s.len() - 1] != assoc_keys(s)[i]);
        assert(s.last().0 != s[i].0);
    }
}

/// Inserting a fresh key anywhere in an association list inserts it in
/// the map.
pub proof fn lemma_assoc_insert<K, V>(s: Seq<(K, V)>, i: int, k: K, v: V)
    requires
        0 <= i <= s.len(),
        !assoc_keys(s).to_set().contains(k),
    ensures
        assoc_map(s.insert(i, (k, v))) =~= assoc_map(s).insert(k, v),
    decreases s.len(),
{
    lemma_assoc_dom(s);
    let t = s.insert(i, (k, v));
    if i == s.len() {
        assert(t.drop_last() == s);
        assert(t.last() == (k, v));
    } else {
        assert(t.len() == s.len() + 1);
        assert(t.last() == s.last());
        assert(t.drop_last() == s.drop_last().insert(i, (k, v)));
        assert(assoc_keys(s.drop_last()) == assoc_keys(s).drop_last());
        assert(!assoc_keys(s.drop_last()).to_set().contains(k)) by {
            lemma_assoc_dom(s.drop_last());
            if assoc_keys(s.drop_last()).to_set().contains(k) {
                let j = choose|j: int|
                    0 <= j < assoc_keys(s.drop_last()).len() && assoc_keys(s.drop_last())[j] == k;
                assert(assoc_keys(s)[j] == k);
            }
        }
        lemma_assoc_insert(s.drop_last(), i, k, v);
        assert(s.last().0 != k) by {
            assert(assoc_keys(s)[s.len() - 1] == s.last().0);
        }
    }
}

/// Removing an entry of an association list with distinct keys removes
/// its key from the map.
pub proof fn lemma_assoc_remove<K, V>(s: Seq<(K, V)>, i: int)
    requires
        assoc_keys(s).no_duplicates(),
        0 <= i < s.len(),
    ensures
        assoc_map(s.remove(i)) =~= assoc_map(s).remove(s[i].0),
    decreases s.len(),
{
    lemma_assoc_dom(s);
    lemma_assoc_dom(s.remove(i));
    let t = s.remove(i);
    if i == s.len() - 1 {
        assert(t == s.drop_last());
        assert(!assoc_keys(s.drop_last()).to_set().contains(s[i].0)) by {
            lemma_assoc_dom(s.drop_last());
            assert(assoc_keys(s.drop_last()) == assoc_keys(s).drop_last());
            if assoc_keys(s.drop_last()).to_set().contains(s[i].0) {
                let j = choose|j: int|
                    0 <= j < assoc_keys(s.drop_last()).len() && assoc_keys(s.drop_last())[j]
                        == s[i].0;
                assert(assoc_keys(s)[j] == assoc_keys(s)[i]);
            }
        }
    } else {
        assert(t.len() == s.len() - 1);
        assert(t.last() == s.last());
        assert(t.drop_last() == s.drop_last().remove(i));
        assert(assoc_keys(s.drop_last()) == assoc_keys(s).drop_last());
        assert(assoc_keys(s.drop_last()).no_duplicates());
        lemma_assoc_remove(s.drop_last(), i);
        assert(s.last().0 != s[i].0) by {
            assert(assoc_keys(s)[s.len() - 1] == s.last().0);
            assert(assoc_keys(s)[i] == s[i].0);
        }
        assert(s.drop_last()[i] == s[i]);
    }
}

/// Replacing the value of an entry (same key) updates the map at that key.
pub proof fn lemma_assoc_update<K, V>(s: Seq<(K, V)>, i: int, v: V)
    requires
        assoc_keys(s).no_duplicates(),
        0 <= i < s.len(),
    ensures
        assoc_map(s.update(i, (s[i].0, v))) =~= assoc_map(s).insert(s[i].0, v),
    decreases s.len(),
{
    lemma_assoc_dom(s);
    let t = s.update(i, (s[i].0, v));
    if i == s.len() - 1 {
        assert(t.drop_last() == s.drop_last());
        assert(t.last() == (s[i].0, v));
    } else {
        assert(t.last() == s.last());
        assert(t.drop_last() == s.drop_last().update(i, (s[i].0, v)));
        assert(assoc_keys(s.drop_last()) == assoc_keys(s).drop_last());
        assert(s.drop_last()[i] == s[i]);
        lemma_assoc_update(s.drop_last(), i, v);
        assert(s.last().0 != s[i].0) by {
            assert(assoc_keys(s)[s.len() - 1] == s.last().0);
            assert(assoc_keys(s)[i] == s[i].0);
        }
    }
}

/// Pushing an element inserts it into the element set.
pub proof fn lemma_push_to_set_generic<T>(s: Seq<T>, x: T)
    ensures
        s.push(x).to_set() =~= s.to_set().insert(x),
{
    assert forall|y: T| s.push(x).to_set().contains(y) implies s.to_set().insert(x).contains(
        y,
    ) by {
        let i = choose|i: int| 0 <= i < s.push(x).len() && s.push(x)[i] == y;
        if i < s.len() {
            assert(s[i] == y);
        }
    }
    assert forall|y: T| s.to_set().insert(x).contains(y) implies s.push(x).to_set().contains(
        y,
    ) by {
        if y == x {
            assert(s.push(x)[s.len() as int] == y);
        } else {
            let i = choose|i: int| 0 <= i < s.len() && s[i] == y;
            assert(s.push(x)[i] == y);
        }
    }
}

/// Taking one more element pushes that element onto the prefix.
pub proof fn lemma_take_push<T>(s: Seq<T>, i: int)
    requires
        0 <= i < s.len(),
    ensures
        s.take(i + 1) =~= s.take(i).push(s[i]),
{
}

/// How one arc's weight combines in a union: arcs present in both
/// operands take the caller-supplied mean, others keep their one weight.
pub open spec fn union_weight(
    a: Map<Arc, Weight>,
    b: Map<Arc, Weight>,
    means: Map<Arc, Weight>,
    x: Arc,
) -> Weight {
    if a.dom().contains(x) && b.dom().contains(x) {
        means[x]
    } else if a.dom().contains(x) {
        a[x]
    } else {
        b[x]
    }
}

/// Strict ordering of arcs: by source tag, then destination tag.
pub open spec fn arc_lt(a: Arc, b: Arc) -> bool {
    a.0.0 < b.0.0 || (a.0.0 == b.0.0 && a.1.0 < b.1.0)
}

/// A node list strictly ascending by tag.
pub open spec fn nodes_sorted(s: Seq<(Node, NodeArcs)>) -> bool {
    forall|i: int, j: int| 0 <= i < j < s.len() ==> s[i].0.0 < s[j].0.0
}

/// An arc list strictly ascending by `arc_lt`.
pub open spec fn arcs_sorted(s: Seq<(Arc, Weight)>) -> bool {
    forall|i: int, j: int| 0 <= i < j < s.len() ==> arc_lt(s[i].0, s[j].0)
}

/// A directed weighted graph: a mapping node → (outgoing, incoming) arc
/// sets beside a mapping arc → weight.  Every arc's endpoints are nodes
/// of the graph, and the two mappings list exactly the same arcs.
#[derive(Clone, Debug, PartialEq)]
pub struct Graph {
    nodes: Vec<(Node, NodeArcs)>,
    arcs: Vec<(Arc, Weight)>,
}

impl Graph {
    /// The node entries, ascending by tag.
    pub closed spec fn entries(self) -> Seq<(Node, NodeArcs)> {
        self.nodes@
    }

    /// The arc entries, ascending by `arc_lt`.
    pub closed spec fn arc_entries(self) -> Seq<(Arc, Weight)> {
        self.arcs@
    }

    /// The set of nodes.
    pub open spec fn node_set(self) -> Set<Node> {
        assoc_keys(self.entries()).to_set()
    }

    /// The arc → weight mapping.
    pub open spec fn arc_map(self) -> Map<Arc, Weight> {
        assoc_map(self.arc_entries())
    }

    /// The outgoing arc set recorded at node `n` (empty for strangers).
    pub open spec fn outgoing_of(self, n: Node) -> Set<Arc> {
        if assoc_map(self.entries()).dom().contains(n) {
            assoc_map(self.entries())[n].outgoing@.to_set()
        } else {
            Set::empty()
        }
    }

    /// The incoming arc set recorded at node `n` (empty for strangers).
    pub open spec fn incoming_of(self, n: Node) -> Set<Arc> {
        if assoc_map(self.entries()).dom().contains(n) {
            assoc_map(self.entries())[n].incoming@.to_set()
        } else {
            Set::empty()
        }
    }

    /// Structural invariant: both lists strictly sorted (hence keyed
    /// uniquely), per-node arc lists free of duplicates, every arc
    /// registered at both endpoints, and every registered arc present in
    /// the weight mapping with the matching endpoint.
    pub open spec fn wf(self) -> bool {
        &&& nodes_sorted(self.entries())
        &&& arcs_sorted(self.arc_entries())
        &&& forall|i: int|
            0 <= i < self.entries().len() ==> (#[trigger] self.entries()[i]).1.outgoing@.no_duplicates()
                && self.entries()[i].1.incoming@.no_duplicates()
        &&& forall|a: Arc|
            #[trigger] self.arc_map().dom().contains(a) ==> self.node_set().contains(a.0)
                && self.node_set().contains(a.1) && self.outgoing_of(a.0).contains(a)
                && self.incoming_of(a.1).contains(a)
        &&& forall|n: Node, a: Arc|
            #[trigger] self.outgoing_of(n).contains(a) ==> a.0 == n && self.arc_map().dom().contains(a)
        &&& forall|n: Node, a: Arc|
            #[trigger] self.incoming_of(n).contains(a) ==> a.1 == n && self.arc_map().dom().contains(a)
    }

    pub fn new() -> (r: Graph)
        ensures
            r.wf(),
            r.node_set() =~= Set::<Node>::empty(),
            r.arc_map() =~= Map::<Arc, Weight>::empty(),
    {
        let r = Graph { nodes: Vec::new(), arcs: Vec::new() };
        proof {
            lemma_assoc_dom(r.entries());
            assert(assoc_keys(r.entries()).to_set() =~= Set::<Node>::empty());
        }
        r
    }

    /// The node entries, for iteration: ascending by tag, one entry per
    /// node of `node_set`, each carrying that node's arc sets.
    pub fn nodes(&self) -> (r: &Vec<(Node, NodeArcs)>)
        ensures
            r@ == self.entries(),
            assoc_keys(r@).to_set() == self.node_set(),
    {
        &self.nodes
    }

    /// The arc entries, for iteration: ascending by `arc_lt`, one entry
    /// per arc of `arc_map`, each carrying that arc's weight.
    pub fn arcs(&self) -> (r: &Vec<(Arc, Weight)>)
        ensures
            r@ == self.arc_entries(),
            assoc_map(r@) == self.arc_map(),
    {
        &self.arcs
    }

    /// The position of node `id` among the entries, if it is a node.
    fn node_position(&self, id: Node) -> (r: Option<usize>)
        ensures
            match r {
                Some(i) => i < self.entries().len() && self.entries()[i as int].0 == id,
                None => !self.node_set().contains(id),
            },
    {
        let n = self.nodes.len();
        let mut i: usize = 0;
        while i < n
            invariant
                n == self.entries().len(),
                i <= n,
                forall|j: int| 0 <= j < i ==> (#[trigger] self.entries()[j]).0 != id,
            decreases n - i,
        {
            if self.nodes[i].0.0 == id.0 {
                return Some(i);
            }
            i = i + 1;
        }
        proof {
            if self.node_set().contains(id) {
                let j = choose|j: int|
                    0 <= j < assoc_keys(self.entries()).len() && assoc_keys(self.entries())[j]
                        == id;
                assert(self.entries()[j].0 == id);
            }
        }
        None
    }

    /// The position of arc `a` among the arc entries, if it is an arc.
    fn arc_position(&self, a: &Arc) -> (r: Option<usize>)
        ensures
            match r {
                Some(i) => i < self.arc_entries().len() && self.arc_entries()[i as int].0 == *a,
                None => !self.arc_map().dom().contains(*a),
            },
    {
        let n = self.arcs.len();
        let mut i: usize = 0;
        while i < n
            invariant
                n == self.arc_entries().len(),
                i <= n,
                forall|j: int| 0 <= j < i ==> (#[trigger] self.arc_entries()[j]).0 != *a,
            decreases n - i,
        {
            let c = &self.arcs[i].0;
            if c.0.0 == a.0.0 && c.1.0 == a.1.0 {
                return Some(i);
            }
            i = i + 1;
        }
        proof {
            lemma_assoc_dom(self.arc_entries());
            if self.arc_map().dom().contains(*a) {
                let j = choose|j: int|
                    0 <= j < assoc_keys(self.arc_entries()).len() && assoc_keys(
                        self.arc_entries(),
                    )[j] == *a;
                assert(self.arc_entries()[j].0 == *a);
            }
        }
        None
    }

    /// The arc sets of node `node`.
    pub fn node_arcs(&self, node: &Node) -> (r: &NodeArcs)
        requires
            self.wf(),
            self.node_set().contains(*node),
        ensures
            r.outgoing@.to_set() == self.outgoing_of(*node),
            r.incoming@.to_set() == self.incoming_of(*node),
            r.outgoing@.no_duplicates(),
            r.incoming@.no_duplicates(),
    {
        let pos = self.node_position(*node);
        proof {
            lemma_assoc_dom(self.entries());
        }
        match pos {
            Some(i) => {
                proof {
                    assert(assoc_keys(self.entries()).no_duplicates()) by {
                        self.lemma_sorted_nodes_unique();
                    }
                    lemma_assoc_index(self.entries(), i as int);
                }
                &self.nodes[i].1
            },
            None => {
                proof {
                    assert(false);
                }
                &self.nodes[0].1
            },
        }
    }

    /// The weight of arc `arc`.
    pub fn arc_weight(&self, arc: &Arc) -> (r: Weight)
        requires
            self.wf(),
            self.arc_map().dom().contains(*arc),
        ensures
            r == self.arc_map()[*arc],
    {
        let pos = self.arc_position(arc);
        match pos {
            Some(i) => {
                proof {
                    assert(assoc_keys(self.arc_entries()).no_duplicates()) by {
                        self.lemma_sorted_arcs_unique();
                    }
                    lemma_assoc_index(self.arc_entries(), i as int);
                }
                self.arcs[i].1
            },
            None => {
                proof {
                    assert(false);
                }
                0
            },
        }
    }

    /// Sorted node entries carry no duplicate key.
    pub proof fn lemma_sorted_nodes_unique(self)
        requires
            nodes_sorted(self.entries()),
        ensures
            assoc_keys(self.entries()).no_duplicates(),
    {
        let ks = assoc_keys(self.entries());
        assert forall|i: int, j: int| 0 <= i < j < ks.len() implies ks[i] != ks[j] by {
            assert(self.entries()[i].0.0 < self.entries()[j].0.0);
        }
    }

    /// Sorted arc entries carry no duplicate key.
    pub proof fn lemma_sorted_arcs_unique(self)
        requires
            arcs_sorted(self.arc_entries()),
        ensures
            assoc_keys(self.arc_entries()).no_duplicates(),
    {
        let ks = assoc_keys(self.arc_entries());
        assert forall|i: int, j: int| 0 <= i < j < ks.len() implies ks[i] != ks[j] by {
            assert(arc_lt(self.arc_entries()[i].0, self.arc_entries()[j].0));
        }
    }

    /// The first position whose node tag is `id.0` or more.
    fn node_lower_bound(&self, id: Node) -> (r: usize)
        requires
            nodes_sorted(self.entries()),
        ensures
            r <= self.entries().len(),
            forall|j: int| 0 <= j < r ==> (#[trigger] self.entries()[j]).0.0 < id.0,
            forall|j: int|
                r <= j < self.entries().len() ==> (#[trigger] self.entries()[j]).0.0 >= id.0,
    {
        let n = self.nodes.len();
        let mut i: usize = 0;
        while i < n
            invariant
                n == self.entries().len(),
                i <= n,
                forall|j: int| 0 <= j < i ==> (#[trigger] self.entries()[j]).0.0 < id.0,
                nodes_sorted(self.entries()),
            decreases n - i,
        {
            if self.nodes[i].0.0 >= id.0 {
                return i;
            }
            i = i + 1;
        }
        i
    }

    /// Adds a node that is not yet present, with empty arc sets.
    pub fn add_node(&mut self, id: Node)
        requires
            old(self).wf(),
            !old(self).node_set().contains(id),
        ensures
            final(self).wf(),
            final(self).node_set() =~= old(self).node_set().insert(id),
            final(self).arc_map() == old(self).arc_map(),
            forall|n: Node| final(self).outgoing_of(n) == old(self).outgoing_of(n),
            forall|n: Node| final(self).incoming_of(n) == old(self).incoming_of(n),
    {
        let ghost olds = self.entries();
        let pos = self.node_lower_bound(id);
        let fresh = NodeArcs { outgoing: Vec::new(), incoming: Vec::new() };
        proof {
            lemma_assoc_dom(olds);
            if pos < olds.len() {
                assert(olds[pos as int].0.0 >= id.0);
                if olds[pos as int].0.0 == id.0 {
                    assert(assoc_keys(olds)[pos as int] == olds[pos as int].0);
                    assert(self.node_set().contains(id));
                }
            }
        }
        self.nodes.insert(pos, (id, fresh));
        proof {
            let news = self.entries();
            assert(news == olds.insert(pos as int, (id, fresh)));
            lemma_assoc_insert(olds, pos as int, id, fresh);
            assert(assoc_keys(news).to_set() =~= assoc_keys(olds).to_set().insert(id)) by {
                lemma_assoc_dom(news);
                lemma_assoc_dom(olds);
                assert(assoc_map(news) == assoc_map(olds).insert(id, fresh));
            }
            assert(nodes_sorted(news)) by {
                assert forall|i: int, j: int| 0 <= i < j < news.len() implies news[i].0.0
                    < news[j].0.0 by {
                    if j < pos {
                    } else if i < pos && j == pos {
                        assert(news[i] == olds[i]);
                    } else if i < pos && j > pos {
                        assert(news[i] == olds[i]);
                        assert(news[j] == olds[j - 1]);
                        assert(olds[j - 1].0.0 >= id.0);
                        assert(pos <= j - 1);
                    } else if i == pos {
                        assert(news[j] == olds[j - 1]);
                        assert(olds[j - 1].0.0 >= id.0);
                        assert(olds[j - 1].0.0 != id.0) by {
                            if olds[j - 1].0.0 == id.0 {
                                assert(assoc_keys(olds)[j - 1] == olds[j - 1].0);
                                assert(self.node_set().contains(id));
                            }
                        }
                    } else {
                        assert(news[i] == olds[i - 1]);
                        assert(news[j] == olds[j - 1]);
                    }
                }
            }
            assert(forall|n: Node|
                n != id ==> final (self).outgoing_of(n) == old(self).outgoing_of(n)) by {
                assert(assoc_map(news) == assoc_map(olds).insert(id, fresh));
            }
            assert(final (self).outgoing_of(id) =~= Set::<Arc>::empty()) by {
                assert(assoc_map(news) == assoc_map(olds).insert(id, fresh));
                assert(fresh.outgoing@.to_set() =~= Set::<Arc>::empty());
            }
            assert(final (self).incoming_of(id) =~= Set::<Arc>::empty()) by {
                assert(assoc_map(news) == assoc_map(olds).insert(id, fresh));
                assert(fresh.incoming@.to_set() =~= Set::<Arc>::empty());
            }
            assert(old(self).outgoing_of(id) =~= Set::<Arc>::empty()) by {
                lemma_assoc_dom(olds);
            }
            assert(old(self).incoming_of(id) =~= Set::<Arc>::empty()) by {
                lemma_assoc_dom(olds);
            }
            assert forall|i: int| 0 <= i < news.len() implies (#[trigger] news[i]).1.outgoing@.no_duplicates()
                && news[i].1.incoming@.no_duplicates() by {
                if i < pos {
                    assert(news[i] == olds[i]);
                } else if i > pos {
                    assert(news[i] == olds[i - 1]);
                }
            }
            assert forall|a: Arc| #[trigger]
                final (self).arc_map().dom().contains(a) implies final (self).node_set().contains(
                a.0,
            ) && final (self).node_set().contains(a.1) && final (self).outgoing_of(a.0).contains(a)
                && final (self).incoming_of(a.1).contains(a) by {
                assert(old(self).arc_map().dom().contains(a));
                assert(a.0 != id && a.1 != id) by {
                    if a.0 == id || a.1 == id {
                        assert(old(self).node_set().contains(id));
                    }
                }
            }
            assert forall|n: Node, a: Arc| #[trigger]
                final (self).outgoing_of(n).contains(a) implies a.0 == n && final (
            self).arc_map().dom().contains(a) by {
                if n != id {
                    assert(old(self).outgoing_of(n).contains(a));
                }
            }
            assert forall|n: Node, a: Arc| #[trigger]
                final (self).incoming_of(n).contains(a) implies a.1 == n && final (
            self).arc_map().dom().contains(a) by {
                if n != id {
                    assert(old(self).incoming_of(n).contains(a));
                }
            }
        }
    }

    /// A mutable borrow of the `i`-th node entry.
    fn entry_mut<'a>(v: &'a mut Vec<(Node, NodeArcs)>, i: usize) -> (r: &'a mut (Node, NodeArcs))
        requires
            i < old(v)@.len(),
        ensures
            *r == old(v)@[i as int],
            final(v)@ == old(v)@.update(i as int, *final(r)),
    {
        &mut v[i]
    }

    /// Removes one occurrence of `a` from a duplicate-free arc list.
    fn remove_arc_value(v: &mut Vec<Arc>, a: &Arc)
        requires
            old(v)@.no_duplicates(),
            old(v)@.to_set().contains(*a),
        ensures
            final(v)@.no_duplicates(),
            final(v)@.to_set() =~= old(v)@.to_set().remove(*a),
    {
        let n = v.len();
        let mut i: usize = 0;
        while i < n
            invariant
                n == v@.len(),
                i <= n,
                v@ == old(v)@,
                old(v)@.no_duplicates(),
                old(v)@.to_set().contains(*a),
                forall|j: int| 0 <= j < i ==> v@[j] != *a,
            decreases n - i,
        {
            if v[i] == *a {
                let ghost olds = v@;
                v.remove(i);
                proof {
                    let news = v@;
                    assert(news == olds.remove(i as int));
                    assert(olds.no_duplicates());
                    assert(news.no_duplicates()) by {
                        assert forall|p: int, q: int| 0 <= p < q < news.len() implies news[p]
                            != news[q] by {
                            let p0 = if p < i { p } else { p + 1 };
                            let q0 = if q < i { q } else { q + 1 };
                            assert(news[p] == olds[p0]);
                            assert(news[q] == olds[q0]);
                            assert(olds[p0] != olds[q0]);
                        }
                    }
                    assert(news.to_set() =~= olds.to_set().remove(*a)) by {
                        assert forall|x: Arc| news.to_set().contains(x) implies olds.to_set().remove(
                            *a,
                        ).contains(x) by {
                            let p = choose|p: int| 0 <= p < news.len() && news[p] == x;
                            let p0 = if p < i { p } else { p + 1 };
                            assert(olds[p0] == x);
                            assert(x != *a) by {
                                if p0 != i && olds[p0] == olds[i as int] {
                                    assert(false);
                                }
                            }
                        }
                        assert forall|x: Arc|
                            olds.to_set().remove(*a).contains(x) implies news.to_set().contains(
                            x,
                        ) by {
                            let p0 = choose|p0: int| 0 <= p0 < olds.len() && olds[p0] == x;
                            assert(p0 != i);
                            let p = if p0 < i { p0 } else { p0 - 1 };
                            assert(news[p] == x);
                        }
                    }
                }
                return;
            }
            i = i + 1;
        }
        proof {
            assert(old(v)@.contains(*a));
            let j = choose|j: int| 0 <= j < old(v)@.len() && old(v)@[j] == *a;
            assert(v@[j] != *a);
            assert(false);
        }
    }

    /// Pushing a fresh element inserts it into the element set.
    proof fn lemma_push_to_set(s: Seq<Arc>, x: Arc)
        ensures
            s.push(x).to_set() =~= s.to_set().insert(x),
    {
        lemma_push_to_set_generic(s, x);
    }

    /// The first position whose arc key is `a` or more in `arc_lt` order.
    fn arc_lower_bound(&self, a: &Arc) -> (r: usize)
        requires
            arcs_sorted(self.arc_entries()),
        ensures
            r <= self.arc_entries().len(),
            forall|j: int|
                0 <= j < r ==> arc_lt((#[trigger] self.arc_entries()[j]).0, *a),
            forall|j: int|
                r <= j < self.arc_entries().len() ==> !arc_lt(
                    (#[trigger] self.arc_entries()[j]).0,
                    *a,
                ),
    {
        let n = self.arcs.len();
        let mut i: usize = 0;
        while i < n
            invariant
                n == self.arc_entries().len(),
                i <= n,
                forall|j: int| 0 <= j < i ==> arc_lt((#[trigger] self.arc_entries()[j]).0, *a),
                arcs_sorted(self.arc_entries()),
            decreases n - i,
        {
            let c = &self.arcs[i].0;
            if !(c.0.0 < a.0.0 || (c.0.0 == a.0.0 && c.1.0 < a.1.0)) {
                proof {
                    assert forall|j: int|
                        i <= j < self.arc_entries().len() implies !arc_lt(
                        (#[trigger] self.arc_entries()[j]).0,
                        *a,
                    ) by {
                        if j != i {
                            assert(arc_lt(
                                self.arc_entries()[i as int].0,
                                self.arc_entries()[j].0,
                            ));
                        }
                    }
                }
                return i;
            }
            i = i + 1;
        }
        i
    }

    /// Adds an arc from `src` to `dst` that is not yet present, with the
    /// given weight, and returns it.
    pub fn add_arc(&mut self, src: Node, dst: Node, weight: Weight) -> (r: Arc)
        requires
            old(self).wf(),
            old(self).node_set().contains(src),
            old(self).node_set().contains(dst),
            !old(self).arc_map().dom().contains(Arc(src, dst)),
        ensures
            final(self).wf(),
            r == Arc(src, dst),
            final(self).node_set() == old(self).node_set(),
            final(self).arc_map() =~= old(self).arc_map().insert(r, weight),
            forall|n: Node|
                final(self).outgoing_of(n) =~= (if n == src {
                    old(self).outgoing_of(n).insert(r)
                } else {
                    old(self).outgoing_of(n)
                }),
            forall|n: Node|
                final(self).incoming_of(n) =~= (if n == dst {
                    old(self).incoming_of(n).insert(r)
                } else {
                    old(self).incoming_of(n)
                }),
    {
        let arc = Arc(src, dst);
        let ghost olda = self.arc_entries();
        let ghost oldn = self.entries();
        proof {
            self.lemma_sorted_nodes_unique();
            self.lemma_sorted_arcs_unique();
            lemma_assoc_dom(olda);
            lemma_assoc_dom(oldn);
        }
        // Insert the weighted arc at its sorted position.
        let pos = self.arc_lower_bound(&arc);
        self.arcs.insert(pos, (arc, weight));
        proof {
            let newa = self.arc_entries();
            assert(newa == olda.insert(pos as int, (arc, weight)));
            assert(!assoc_keys(olda).to_set().contains(arc));
            lemma_assoc_insert(olda, pos as int, arc, weight);
            assert(assoc_map(newa) == assoc_map(olda).insert(arc, weight));
            assert(arcs_sorted(newa)) by {
                assert forall|p: int, q: int| 0 <= p < q < newa.len() implies arc_lt(
                    newa[p].0,
                    newa[q].0,
                ) by {
                    if q < pos {
                    } else if p < pos && q == pos {
                        assert(newa[p] == olda[p]);
                    } else if p < pos && q > pos {
                        assert(newa[p] == olda[p]);
                        assert(newa[q] == olda[q - 1]);
                    } else if p == pos {
                        assert(newa[q] == olda[q - 1]);
                        assert(!arc_lt(olda[q - 1].0, arc));
                        assert(olda[q - 1].0 != arc) by {
                            if olda[q - 1].0 == arc {
                                assert(assoc_keys(olda)[q - 1] == arc);
                            }
                        }
                    } else {
                        assert(newa[p] == olda[p - 1]);
                        assert(newa[q] == olda[q - 1]);
                    }
                }
            }
        }
        // Register the arc at its source.
        let src_pos = match self.node_position(src) {
            Some(i) => i,
            None => {
                proof {
                    assert(false);
                }
                0
            },
        };
        let ghost mid0 = self.entries();
        proof {
            assert(mid0 == oldn);
            lemma_assoc_index(oldn, src_pos as int);
            assert(!oldn[src_pos as int].1.outgoing@.contains(arc)) by {
                if oldn[src_pos as int].1.outgoing@.contains(arc) {
                    assert(old(self).outgoing_of(src).contains(arc));
                }
            }
        }
        let entry = Self::entry_mut(&mut self.nodes, src_pos);
        entry.1.outgoing.push(arc);
        let ghost mid1 = self.entries();
        proof {
            assert(mid1[src_pos as int].0 == src);
            assert(mid1[src_pos as int].1.outgoing@ == oldn[src_pos as int].1.outgoing@.push(arc));
            assert(mid1[src_pos as int].1.incoming@ == oldn[src_pos as int].1.incoming@);
            assert(forall|j: int|
                0 <= j < mid1.len() && j != src_pos ==> mid1[j] == oldn[j]);
            assert(assoc_keys(mid1) =~= assoc_keys(oldn));
            assert(mid1 =~= oldn.update(src_pos as int, mid1[src_pos as int]));
            lemma_assoc_update(oldn, src_pos as int, mid1[src_pos as int].1);
            assert(assoc_map(mid1) == assoc_map(oldn).insert(src, mid1[src_pos as int].1));
            Self::lemma_push_to_set(oldn[src_pos as int].1.outgoing@, arc);
        }
        // Register the arc at its destination.
        let dst_pos = match self.node_position(dst) {
            Some(i) => i,
            None => {
                proof {
                    lemma_assoc_dom(mid1);
                    assert(assoc_keys(mid1).to_set().contains(dst));
                    assert(false);
                }
                0
            },
        };
        proof {
            assert(assoc_keys(mid1).no_duplicates()) by {
                assert forall|p: int, q: int|
                    0 <= p < q < assoc_keys(mid1).len() implies assoc_keys(mid1)[p] != assoc_keys(
                    mid1,
                )[q] by {
                    assert(assoc_keys(oldn)[p] == oldn[p].0);
                    assert(assoc_keys(oldn)[q] == oldn[q].0);
                    assert(oldn[p].0.0 < oldn[q].0.0);
                }
            }
            lemma_assoc_index(mid1, dst_pos as int);
            assert(!mid1[dst_pos as int].1.incoming@.contains(arc)) by {
                if mid1[dst_pos as int].1.incoming@.contains(arc) {
                    assert(mid1[dst_pos as int].1.incoming@ == oldn[dst_pos as int].1.incoming@);
                    assert(assoc_map(oldn).dom().contains(dst));
                    assert(assoc_map(oldn)[dst].incoming@.contains(arc)) by {
                        lemma_assoc_index(oldn, dst_pos as int);
                        assert(oldn[dst_pos as int].0 == dst) by {
                            assert(assoc_keys(mid1)[dst_pos as int] == mid1[dst_pos as int].0);
                        }
                    }
                    assert(old(self).incoming_of(dst).contains(arc));
                }
            }
        }
        let entry2 = Self::entry_mut(&mut self.nodes, dst_pos);
        entry2.1.incoming.push(arc);
        proof {
            let news = self.entries();
            assert(news[dst_pos as int].0 == dst) by {
                assert(mid1[dst_pos as int].0 == dst);
            }
            assert(news[dst_pos as int].1.incoming@ == mid1[dst_pos as int].1.incoming@.push(arc));
            assert(news[dst_pos as int].1.outgoing@ == mid1[dst_pos as int].1.outgoing@);
            assert(forall|j: int|
                0 <= j < news.len() && j != dst_pos ==> news[j] == mid1[j]);
            assert(assoc_keys(news) =~= assoc_keys(mid1));
            assert(news =~= mid1.update(dst_pos as int, news[dst_pos as int]));
            assert(assoc_keys(mid1).no_duplicates());
            lemma_assoc_update(mid1, dst_pos as int, news[dst_pos as int].1);
            assert(assoc_map(news) == assoc_map(mid1).insert(dst, news[dst_pos as int].1));
            Self::lemma_push_to_set(mid1[dst_pos as int].1.incoming@, arc);

            // The maps before and after, spelled out.
            lemma_assoc_index(oldn, src_pos as int);
            assert(oldn[src_pos as int].0 == src);
            assert(final (self).node_set() =~= old(self).node_set()) by {
                lemma_assoc_dom(news);
                lemma_assoc_dom(oldn);
                assert(assoc_keys(news) =~= assoc_keys(oldn));
            }
            assert(final (self).node_set() == old(self).node_set());

            assert forall|n: Node|
                final (self).outgoing_of(n) =~= (if n == src {
                    old(self).outgoing_of(n).insert(arc)
                } else {
                    old(self).outgoing_of(n)
                }) by {
                lemma_assoc_dom(news);
                lemma_assoc_dom(mid1);
                lemma_assoc_dom(oldn);
                if n == dst {
                    assert(assoc_map(news)[n] == news[dst_pos as int].1);
                    if n == src {
                        assert(assoc_map(mid1)[n] == mid1[src_pos as int].1);
                        assert(mid1[dst_pos as int].0 == dst && mid1[src_pos as int].0 == src);
                        assert(dst_pos == src_pos) by {
                            if dst_pos != src_pos {
                                assert(assoc_keys(mid1)[dst_pos as int] == assoc_keys(
                                    mid1,
                                )[src_pos as int]);
                            }
                        }
                        assert(news[dst_pos as int].1.outgoing@ == oldn[src_pos as int].1.outgoing@.push(
                            arc,
                        ));
                        Self::lemma_push_to_set(oldn[src_pos as int].1.outgoing@, arc);
                        lemma_assoc_index(oldn, src_pos as int);
                    } else {
                        assert(news[dst_pos as int].1.outgoing@ == mid1[dst_pos as int].1.outgoing@);
                        assert(mid1[dst_pos as int] == oldn[dst_pos as int]);
                        lemma_assoc_index(oldn, dst_pos as int);
                    }
                } else if n == src {
                    assert(assoc_map(news)[n] == assoc_map(mid1)[n]);
                    assert(assoc_map(mid1)[n] == mid1[src_pos as int].1);
                    lemma_assoc_index(oldn, src_pos as int);
                } else {
                    assert(assoc_map(news).dom().contains(n) == assoc_map(oldn).dom().contains(n));
                    if assoc_map(oldn).dom().contains(n) {
                        assert(assoc_map(news)[n] == assoc_map(oldn)[n]);
                    }
                }
            }
            assert forall|n: Node|
                final (self).incoming_of(n) =~= (if n == dst {
                    old(self).incoming_of(n).insert(arc)
                } else {
                    old(self).incoming_of(n)
                }) by {
                lemma_assoc_dom(news);
                lemma_assoc_dom(mid1);
                lemma_assoc_dom(oldn);
                if n == dst {
                    assert(assoc_map(news)[n] == news[dst_pos as int].1);
                    assert(mid1[dst_pos as int].1.incoming@ == oldn[dst_pos as int].1.incoming@);
                    Self::lemma_push_to_set(oldn[dst_pos as int].1.incoming@, arc);
                    lemma_assoc_index(oldn, dst_pos as int);
                    assert(oldn[dst_pos as int].0 == dst) by {
                        assert(assoc_keys(mid1)[dst_pos as int] == mid1[dst_pos as int].0);
                    }
                } else if n == src {
                    assert(assoc_map(news)[n] == assoc_map(mid1)[n]);
                    assert(assoc_map(mid1)[n] == mid1[src_pos as int].1);
                    assert(mid1[src_pos as int].1.incoming@ == oldn[src_pos as int].1.incoming@);
                    lemma_assoc_index(oldn, src_pos as int);
                } else {
                    assert(assoc_map(news).dom().contains(n) == assoc_map(oldn).dom().contains(n));
                    if assoc_map(oldn).dom().contains(n) {
                        assert(assoc_map(news)[n] == assoc_map(oldn)[n]);
                    }
                }
            }

            // Well-formedness of the result.
            assert(nodes_sorted(news)) by {
                assert forall|p: int, q: int| 0 <= p < q < news.len() implies news[p].0.0
                    < news[q].0.0 by {
                    assert(assoc_keys(news)[p] == news[p].0 && assoc_keys(oldn)[p] == oldn[p].0);
                    assert(assoc_keys(news)[q] == news[q].0 && assoc_keys(oldn)[q] == oldn[q].0);
                }
            }
            assert forall|i: int| 0 <= i < news.len() implies (#[trigger] news[i]).1.outgoing@.no_duplicates()
                && news[i].1.incoming@.no_duplicates() by {
                assert(oldn[i].1.outgoing@.no_duplicates() && oldn[i].1.incoming@.no_duplicates());
                if news[i].1.outgoing@ != oldn[i].1.outgoing@ {
                    assert(i == src_pos);
                    assert(news[i].1.outgoing@ == oldn[i].1.outgoing@.push(arc));
                    assert(!oldn[i].1.outgoing@.contains(arc));
                    let s = oldn[i].1.outgoing@.push(arc);
                    assert forall|p: int, q: int| 0 <= p < q < s.len() implies s[p] != s[q] by {
                        if q == s.len() - 1 {
                            assert(s[p] == oldn[i].1.outgoing@[p]);
                        }
                    }
                }
                if news[i].1.incoming@ != oldn[i].1.incoming@ {
                    assert(i == dst_pos);
                    assert(news[i].1.incoming@ == oldn[i].1.incoming@.push(arc));
                    assert(!oldn[i].1.incoming@.contains(arc)) by {
                        if oldn[i].1.incoming@.contains(arc) {
                            lemma_assoc_index(oldn, i);
                            assert(old(self).incoming_of(oldn[i].0).contains(arc));
                        }
                    }
                    let s = oldn[i].1.incoming@.push(arc);
                    assert forall|p: int, q: int| 0 <= p < q < s.len() implies s[p] != s[q] by {
                        if q == s.len() - 1 {
                            assert(s[p] == oldn[i].1.incoming@[p]);
                        }
                    }
                }
            }
            assert forall|a: Arc| #[trigger]
                final (self).arc_map().dom().contains(a) implies final (self).node_set().contains(
                a.0,
            ) && final (self).node_set().contains(a.1) && final (self).outgoing_of(a.0).contains(a)
                && final (self).incoming_of(a.1).contains(a) by {
                if a == arc {
                } else {
                    assert(old(self).arc_map().dom().contains(a));
                }
            }
            assert forall|n: Node, a: Arc| #[trigger]
                final (self).outgoing_of(n).contains(a) implies a.0 == n && final (
            self).arc_map().dom().contains(a) by {
                if n == src && a == arc {
                } else {
                    assert(old(self).outgoing_of(n).contains(a));
                }
            }
            assert forall|n: Node, a: Arc| #[trigger]
                final (self).incoming_of(n).contains(a) implies a.1 == n && final (
            self).arc_map().dom().contains(a) by {
                if n == dst && a == arc {
                } else {
                    assert(old(self).incoming_of(n).contains(a));
                }
            }
        }
        arc
    }

    /// Removes an arc: from the weight mapping and from both endpoints'
    /// arc sets.
    pub fn rm_arc(&mut self, arc: &Arc)
        requires
            old(self).wf(),
            old(self).arc_map().dom().contains(*arc),
        ensures
            final(self).wf(),
            final(self).node_set() == old(self).node_set(),
            final(self).arc_map() =~= old(self).arc_map().remove(*arc),
            forall|n: Node|
                final(self).outgoing_of(n) =~= old(self).outgoing_of(n).remove(*arc),
            forall|n: Node|
                final(self).incoming_of(n) =~= old(self).incoming_of(n).remove(*arc),
    {
        let ghost olda = self.arc_entries();
        let ghost oldn = self.entries();
        proof {
            self.lemma_sorted_nodes_unique();
            self.lemma_sorted_arcs_unique();
            lemma_assoc_dom(olda);
            lemma_assoc_dom(oldn);
        }
        let src = arc.0;
        let dst = arc.1;
        // Remove the weighted arc entry.
        let pos = match self.arc_position(arc) {
            Some(i) => i,
            None => {
                proof {
                    assert(false);
                }
                0
            },
        };
        self.arcs.remove(pos);
        proof {
            let newa = self.arc_entries();
            assert(newa == olda.remove(pos as int));
            lemma_assoc_remove(olda, pos as int);
            assert(assoc_map(newa) == assoc_map(olda).remove(*arc));
            assert(arcs_sorted(newa)) by {
                assert forall|p: int, q: int| 0 <= p < q < newa.len() implies arc_lt(
                    newa[p].0,
                    newa[q].0,
                ) by {
                    let p0 = if p < pos { p } else { p + 1 };
                    let q0 = if q < pos { q } else { q + 1 };
                    assert(newa[p] == olda[p0]);
                    assert(newa[q] == olda[q0]);
                }
            }
        }
        // Unregister at the source.
        let src_pos = match self.node_position(src) {
            Some(i) => i,
            None => {
                proof {
                    assert(false);
                }
                0
            },
        };
        proof {
            lemma_assoc_index(oldn, src_pos as int);
            assert(old(self).outgoing_of(src).contains(*arc));
            assert(oldn[src_pos as int].1.outgoing@.to_set().contains(*arc));
        }
        let entry = Self::entry_mut(&mut self.nodes, src_pos);
        Self::remove_arc_value(&mut entry.1.outgoing, arc);
        let ghost mid1 = self.entries();
        proof {
            assert(mid1[src_pos as int].0 == src);
            assert(mid1[src_pos as int].1.outgoing@.to_set() =~= oldn[src_pos as int].1.outgoing@.to_set().remove(
                *arc,
            ));
            assert(mid1[src_pos as int].1.outgoing@.no_duplicates());
            assert(mid1[src_pos as int].1.incoming@ == oldn[src_pos as int].1.incoming@);
            assert(forall|j: int|
                0 <= j < mid1.len() && j != src_pos ==> mid1[j] == oldn[j]);
            assert(assoc_keys(mid1) =~= assoc_keys(oldn));
            assert(mid1 =~= oldn.update(src_pos as int, mid1[src_pos as int]));
            lemma_assoc_update(oldn, src_pos as int, mid1[src_pos as int].1);
            assert(assoc_map(mid1) == assoc_map(oldn).insert(src, mid1[src_pos as int].1));
            assert(assoc_keys(mid1).no_duplicates()) by {
                assert forall|p: int, q: int|
                    0 <= p < q < assoc_keys(mid1).len() implies assoc_keys(mid1)[p] != assoc_keys(
                    mid1,
                )[q] by {
                    assert(assoc_keys(oldn)[p] == oldn[p].0);
                    assert(assoc_keys(oldn)[q] == oldn[q].0);
                    assert(oldn[p].0.0 < oldn[q].0.0);
                }
            }
        }
        // Unregister at the destination.
        let dst_pos = match self.node_position(dst) {
            Some(i) => i,
            None => {
                proof {
                    lemma_assoc_dom(mid1);
                    assert(assoc_keys(mid1).to_set().contains(dst));
                    assert(false);
                }
                0
            },
        };
        proof {
            lemma_assoc_index(mid1, dst_pos as int);
            assert(mid1[dst_pos as int].0 == dst) by {
                assert(assoc_keys(mid1)[dst_pos as int] == mid1[dst_pos as int].0);
            }
            assert(old(self).incoming_of(dst).contains(*arc)) by {
                lemma_assoc_dom(oldn);
            }
            lemma_assoc_index(oldn, dst_pos as int);
            assert(oldn[dst_pos as int].0 == dst) by {
                assert(assoc_keys(mid1)[dst_pos as int] == mid1[dst_pos as int].0);
            }
            assert(mid1[dst_pos as int].1.incoming@ == oldn[dst_pos as int].1.incoming@);
            assert(mid1[dst_pos as int].1.incoming@.to_set().contains(*arc));
            assert(mid1[dst_pos as int].1.incoming@.no_duplicates());
        }
        let entry2 = Self::entry_mut(&mut self.nodes, dst_pos);
        Self::remove_arc_value(&mut entry2.1.incoming, arc);
        proof {
            let news = self.entries();
            assert(news[dst_pos as int].0 == dst);
            assert(news[dst_pos as int].1.incoming@.to_set() =~= mid1[dst_pos as int].1.incoming@.to_set().remove(
                *arc,
            ));
            assert(news[dst_pos as int].1.incoming@.no_duplicates());
            assert(news[dst_pos as int].1.outgoing@ == mid1[dst_pos as int].1.outgoing@);
            assert(forall|j: int|
                0 <= j < news.len() && j != dst_pos ==> news[j] == mid1[j]);
            assert(assoc_keys(news) =~= assoc_keys(mid1));
            assert(news =~= mid1.update(dst_pos as int, news[dst_pos as int]));
            lemma_assoc_update(mid1, dst_pos as int, news[dst_pos as int].1);
            assert(assoc_map(news) == assoc_map(mid1).insert(dst, news[dst_pos as int].1));

            assert(final (self).node_set() =~= old(self).node_set()) by {
                lemma_assoc_dom(news);
                lemma_assoc_dom(oldn);
                assert(assoc_keys(news) =~= assoc_keys(oldn));
            }
            assert(final (self).node_set() == old(self).node_set());

            assert forall|n: Node|
                final (self).outgoing_of(n) =~= old(self).outgoing_of(n).remove(*arc) by {
                lemma_assoc_dom(news);
                lemma_assoc_dom(mid1);
                lemma_assoc_dom(oldn);
                if n == dst && n == src {
                    assert(dst_pos == src_pos) by {
                        if dst_pos != src_pos {
                            assert(assoc_keys(mid1)[dst_pos as int] == assoc_keys(
                                mid1,
                            )[src_pos as int]);
                        }
                    }
                    assert(assoc_map(news)[n] == news[dst_pos as int].1);
                } else if n == dst {
                    assert(assoc_map(news)[n] == news[dst_pos as int].1);
                    assert(news[dst_pos as int].1.outgoing@ == oldn[dst_pos as int].1.outgoing@);
                    assert(!old(self).outgoing_of(n).contains(*arc)) by {
                        if old(self).outgoing_of(n).contains(*arc) {
                            assert(arc.0 == n);
                        }
                    }
                } else if n == src {
                    assert(assoc_map(news)[n] == assoc_map(mid1)[n]);
                    assert(assoc_map(mid1)[n] == mid1[src_pos as int].1);
                } else {
                    assert(assoc_map(news).dom().contains(n) == assoc_map(oldn).dom().contains(n));
                    if assoc_map(oldn).dom().contains(n) {
                        assert(assoc_map(news)[n] == assoc_map(oldn)[n]);
                    }
                    assert(!old(self).outgoing_of(n).contains(*arc)) by {
                        if old(self).outgoing_of(n).contains(*arc) {
                            assert(arc.0 == n);
                        }
                    }
                }
            }
            assert forall|n: Node|
                final (self).incoming_of(n) =~= old(self).incoming_of(n).remove(*arc) by {
                lemma_assoc_dom(news);
                lemma_assoc_dom(mid1);
                lemma_assoc_dom(oldn);
                if n == dst {
                    assert(assoc_map(news)[n] == news[dst_pos as int].1);
                    assert(mid1[dst_pos as int].1.incoming@ == oldn[dst_pos as int].1.incoming@);
                } else if n == src {
                    assert(assoc_map(news)[n] == assoc_map(mid1)[n]);
                    assert(assoc_map(mid1)[n] == mid1[src_pos as int].1);
                    assert(mid1[src_pos as int].1.incoming@ == oldn[src_pos as int].1.incoming@);
                    assert(!old(self).incoming_of(n).contains(*arc)) by {
                        if old(self).incoming_of(n).contains(*arc) {
                            assert(arc.1 == n);
                        }
                    }
                } else {
                    assert(assoc_map(news).dom().contains(n) == assoc_map(oldn).dom().contains(n));
                    if assoc_map(oldn).dom().contains(n) {
                        assert(assoc_map(news)[n] == assoc_map(oldn)[n]);
                    }
                    assert(!old(self).incoming_of(n).contains(*arc)) by {
                        if old(self).incoming_of(n).contains(*arc) {
                            assert(arc.1 == n);
                        }
                    }
                }
            }

            assert(nodes_sorted(news)) by {
                assert forall|p: int, q: int| 0 <= p < q < news.len() implies news[p].0.0
                    < news[q].0.0 by {
                    assert(assoc_keys(news)[p] == news[p].0 && assoc_keys(oldn)[p] == oldn[p].0);
                    assert(assoc_keys(news)[q] == news[q].0 && assoc_keys(oldn)[q] == oldn[q].0);
                }
            }
            assert forall|i: int| 0 <= i < news.len() implies (#[trigger] news[i]).1.outgoing@.no_duplicates()
                && news[i].1.incoming@.no_duplicates() by {
                assert(oldn[i].1.outgoing@.no_duplicates() && oldn[i].1.incoming@.no_duplicates());
                if i != src_pos && i != dst_pos {
                    assert(news[i] == oldn[i]);
                }
            }
            assert forall|a: Arc| #[trigger]
                final (self).arc_map().dom().contains(a) implies final (self).node_set().contains(
                a.0,
            ) && final (self).node_set().contains(a.1) && final (self).outgoing_of(a.0).contains(a)
                && final (self).incoming_of(a.1).contains(a) by {
                assert(a != *arc);
                assert(old(self).arc_map().dom().contains(a));
            }
            assert forall|n: Node, a: Arc| #[trigger]
                final (self).outgoing_of(n).contains(a) implies a.0 == n && final (
            self).arc_map().dom().contains(a) by {
                assert(old(self).outgoing_of(n).contains(a));
                assert(a != *arc);
            }
            assert forall|n: Node, a: Arc| #[trigger]
                final (self).incoming_of(n).contains(a) implies a.1 == n && final (
            self).arc_map().dom().contains(a) by {
                assert(old(self).incoming_of(n).contains(a));
                assert(a != *arc);
            }
        }
    }

    /// Removes a node that has no arcs in either direction.

    /// Removes a node that has no arcs in either direction.
    pub fn rm_node(&mut self, id: &Node)
        requires
            old(self).wf(),
            old(self).node_set().contains(*id),
            old(self).outgoing_of(*id) =~= Set::<Arc>::empty(),
            old(self).incoming_of(*id) =~= Set::<Arc>::empty(),
        ensures
            final(self).wf(),
            final(self).node_set() =~= old(self).node_set().remove(*id),
            final(self).arc_map() == old(self).arc_map(),
            forall|n: Node|
                n != *id ==> final(self).outgoing_of(n) == old(self).outgoing_of(n),
            forall|n: Node|
                n != *id ==> final(self).incoming_of(n) == old(self).incoming_of(n),
    {
        let ghost olds = self.entries();
        let pos = self.node_position(*id);
        proof {
            self.lemma_sorted_nodes_unique();
        }
        match pos {
            Some(i) => {
                self.nodes.remove(i);
                proof {
                    let news = self.entries();
                    assert(news == olds.remove(i as int));
                    lemma_assoc_remove(olds, i as int);
                    assert(assoc_map(news) == assoc_map(olds).remove(*id));
                    lemma_assoc_dom(olds);
                    lemma_assoc_dom(news);
                    assert(assoc_keys(news).to_set() =~= assoc_keys(olds).to_set().remove(*id));
                    assert(nodes_sorted(news)) by {
                        assert forall|p: int, q: int| 0 <= p < q < news.len() implies news[p].0.0
                            < news[q].0.0 by {
                            let p0 = if p < i { p } else { p + 1 };
                            let q0 = if q < i { q } else { q + 1 };
                            assert(news[p] == olds[p0]);
                            assert(news[q] == olds[q0]);
                        }
                    }
                    assert forall|p: int| 0 <= p < news.len() implies (#[trigger] news[p]).1.outgoing@.no_duplicates()
                        && news[p].1.incoming@.no_duplicates() by {
                        let p0 = if p < i { p } else { p + 1 };
                        assert(news[p] == olds[p0]);
                    }
                    assert(forall|n: Node|
                        n != *id ==> final (self).outgoing_of(n) == old(self).outgoing_of(n));
                    assert(forall|n: Node|
                        n != *id ==> final (self).incoming_of(n) == old(self).incoming_of(n));
                    assert(final (self).outgoing_of(*id) =~= Set::<Arc>::empty());
                    assert(final (self).incoming_of(*id) =~= Set::<Arc>::empty());
                    assert forall|a: Arc| #[trigger]
                        final (self).arc_map().dom().contains(a) implies final (
                    self).node_set().contains(a.0) && final (self).node_set().contains(a.1)
                        && final (self).outgoing_of(a.0).contains(a) && final (
                    self).incoming_of(a.1).contains(a) by {
                        assert(old(self).arc_map().dom().contains(a));
                        assert(a.0 != *id && a.1 != *id) by {
                            if a.0 == *id {
                                assert(old(self).outgoing_of(*id).contains(a));
                            }
                            if a.1 == *id {
                                assert(old(self).incoming_of(*id).contains(a));
                            }
                        }
                    }
                    assert forall|n: Node, a: Arc| #[trigger]
                        final (self).outgoing_of(n).contains(a) implies a.0 == n && final (
                    self).arc_map().dom().contains(a) by {
                        if n != *id {
                            assert(old(self).outgoing_of(n).contains(a));
                        }
                    }
                    assert forall|n: Node, a: Arc| #[trigger]
                        final (self).incoming_of(n).contains(a) implies a.1 == n && final (
                    self).arc_map().dom().contains(a) by {
                        if n != *id {
                            assert(old(self).incoming_of(n).contains(a));
                        }
                    }
                }
            },
            None => {
                proof {
                    assert(false);
                }
            },
        }
    }

    /// Whether `id` is a node of this graph.
    pub fn contains_node(&self, id: &Node) -> (r: bool)
        ensures
            r == self.node_set().contains(*id),
    {
        match self.node_position(*id) {
            Some(i) => {
                proof {
                    assert(assoc_keys(self.entries())[i as int] == self.entries()[i as int].0);
                }
                true
            },
            None => false,
        }
    }

    /// Whether `a` is an arc of this graph.
    pub fn contains_arc(&self, a: &Arc) -> (r: bool)
        ensures
            r == self.arc_map().dom().contains(*a),
    {
        match self.arc_position(a) {
            Some(i) => {
                proof {
                    lemma_assoc_dom(self.arc_entries());
                    assert(assoc_keys(self.arc_entries())[i as int] == self.arc_entries()[i
                        as int].0);
                }
                true
            },
            None => false,
        }
    }

    /// Looks an arc's combined weight up in a caller-supplied table.
    fn find_weight(means: &Vec<(Arc, Weight)>, a: &Arc) -> (r: Weight)
        requires
            assoc_keys(means@).no_duplicates(),
            assoc_map(means@).dom().contains(*a),
        ensures
            r == assoc_map(means@)[*a],
    {
        let n = means.len();
        let mut i: usize = 0;
        while i < n
            invariant
                n == means@.len(),
                i <= n,
                assoc_keys(means@).no_duplicates(),
                assoc_map(means@).dom().contains(*a),
                forall|j: int| 0 <= j < i ==> (#[trigger] means@[j]).0 != *a,
            decreases n - i,
        {
            if means[i].0 == *a {
                proof {
                    lemma_assoc_index(means@, i as int);
                }
                return means[i].1;
            }
            i = i + 1;
        }
        proof {
            lemma_assoc_dom(means@);
            let j = choose|j: int|
                0 <= j < assoc_keys(means@).len() && assoc_keys(means@)[j] == *a;
            assert(means@[j].0 == *a);
            assert(false);
        }
        0
    }

    /// The union of two graphs: node set and arc set are unioned, and an
    /// arc present in both operands takes the weight the caller supplies
    /// for it in `means` (the callers pass the arithmetic mean of the two
    /// operand weights).
    pub fn union(&self, other: &Graph, means: &Vec<(Arc, Weight)>) -> (r: Graph)
        requires
            self.wf(),
            other.wf(),
            assoc_keys(means@).no_duplicates(),
            assoc_map(means@).dom() =~= self.arc_map().dom().intersect(other.arc_map().dom()),
        ensures
            r.wf(),
            r.node_set() =~= self.node_set().union(other.node_set()),
            r.arc_map().dom() =~= self.arc_map().dom().union(other.arc_map().dom()),
            forall|x: Arc|
                #[trigger] r.arc_map().dom().contains(x) ==> r.arc_map()[x] == union_weight(
                    self.arc_map(),
                    other.arc_map(),
                    assoc_map(means@),
                    x,
                ),
    {
        let mut g = Graph::new();
        let ghost skeys = assoc_keys(self.entries());
        // All nodes of the first operand.
        let n1 = self.nodes.len();
        let mut i: usize = 0;
        while i < n1
            invariant
                n1 == self.entries().len(),
                i <= n1,
                self.wf(),
                g.wf(),
                g.node_set() =~= assoc_keys(self.entries()).take(i as int).to_set(),
                g.arc_map().dom() =~= Set::<Arc>::empty(),
            decreases n1 - i,
        {
            let id = self.nodes[i].0;
            proof {
                assert(assoc_keys(self.entries())[i as int] == id);
                if g.node_set().contains(id) {
                    let j = choose|j: int|
                        0 <= j < i && assoc_keys(self.entries()).take(i as int)[j] == id;
                    assert(self.entries()[j].0.0 < self.entries()[i as int].0.0);
                }
                lemma_take_push(assoc_keys(self.entries()), i as int);
            }
            g.add_node(id);
            proof {
                lemma_push_to_set_generic(assoc_keys(self.entries()).take(i as int), id);
                assert(g.node_set() =~= assoc_keys(self.entries()).take(i as int + 1).to_set());
            }
            i = i + 1;
        }
        proof {
            assert(assoc_keys(self.entries()).take(n1 as int) == assoc_keys(self.entries()));
            assert(g.node_set() =~= self.node_set());
        }
        // Nodes of the second operand that are new.
        let ghost okeys = assoc_keys(other.entries());
        let n2 = other.nodes.len();
        let mut i: usize = 0;
        while i < n2
            invariant
                n2 == other.entries().len(),
                i <= n2,
                other.wf(),
                g.wf(),
                g.node_set() =~= self.node_set().union(
                    assoc_keys(other.entries()).take(i as int).to_set(),
                ),
                g.arc_map().dom() =~= Set::<Arc>::empty(),
            decreases n2 - i,
        {
            let id = other.nodes[i].0;
            proof {
                assert(assoc_keys(other.entries())[i as int] == id);
                lemma_take_push(assoc_keys(other.entries()), i as int);
            }
            if !g.contains_node(&id) {
                g.add_node(id);
            }
            proof {
                lemma_push_to_set_generic(assoc_keys(other.entries()).take(i as int), id);
                assert(g.node_set() =~= self.node_set().union(
                    assoc_keys(other.entries()).take(i as int).to_set().insert(id),
                ));
                assert(g.node_set() =~= self.node_set().union(
                    assoc_keys(other.entries()).take(i as int + 1).to_set(),
                ));
            }
            i = i + 1;
        }
        proof {
            assert(assoc_keys(other.entries()).take(n2 as int) == assoc_keys(other.entries()));
            assert(g.node_set() =~= self.node_set().union(other.node_set()));
        }
        // Arcs of the first operand, averaging where shared.
        let ghost sarcs = assoc_keys(self.arc_entries());
        let m1 = self.arcs.len();
        let mut i: usize = 0;
        while i < m1
            invariant
                m1 == self.arc_entries().len(),
                i <= m1,
                self.wf(),
                other.wf(),
                g.wf(),
                assoc_keys(means@).no_duplicates(),
                assoc_map(means@).dom() =~= self.arc_map().dom().intersect(other.arc_map().dom()),
                g.node_set() =~= self.node_set().union(other.node_set()),
                g.arc_map().dom() =~= assoc_keys(self.arc_entries()).take(i as int).to_set(),
                forall|x: Arc|
                    #[trigger] g.arc_map().dom().contains(x) ==> g.arc_map()[x] == union_weight(
                        self.arc_map(),
                        other.arc_map(),
                        assoc_map(means@),
                        x,
                    ),
            decreases m1 - i,
        {
            let a = self.arcs[i].0;
            let w = self.arcs[i].1;
            proof {
                self.lemma_sorted_arcs_unique();
                assert(assoc_keys(self.arc_entries())[i as int] == a);
                lemma_assoc_index(self.arc_entries(), i as int);
                assert(self.arc_map().dom().contains(a) && self.arc_map()[a] == w);
                if g.arc_map().dom().contains(a) {
                    let j = choose|j: int|
                        0 <= j < i && assoc_keys(self.arc_entries()).take(i as int)[j] == a;
                    assert(arc_lt(self.arc_entries()[j].0, self.arc_entries()[i as int].0));
                }
                lemma_take_push(assoc_keys(self.arc_entries()), i as int);
            }
            let weight: Weight = if other.contains_arc(&a) {
                Self::find_weight(means, &a)
            } else {
                w
            };
            g.add_arc(a.0, a.1, weight);
            proof {
                lemma_push_to_set_generic(assoc_keys(self.arc_entries()).take(i as int), a);
                assert(g.arc_map().dom() =~= assoc_keys(self.arc_entries()).take(
                    i as int + 1,
                ).to_set());
            }
            i = i + 1;
        }
        proof {
            assert(assoc_keys(self.arc_entries()).take(m1 as int) =~= assoc_keys(
                self.arc_entries(),
            ));
            lemma_assoc_dom(self.arc_entries());
            assert(g.arc_map().dom() =~= self.arc_map().dom());
        }
        // Arcs only the second operand has.
        let m2 = other.arcs.len();
        let mut i: usize = 0;
        while i < m2
            invariant
                m2 == other.arc_entries().len(),
                i <= m2,
                self.wf(),
                other.wf(),
                g.wf(),
                assoc_keys(means@).no_duplicates(),
                assoc_map(means@).dom() =~= self.arc_map().dom().intersect(other.arc_map().dom()),
                g.node_set() =~= self.node_set().union(other.node_set()),
                g.arc_map().dom() =~= self.arc_map().dom().union(
                    assoc_keys(other.arc_entries()).take(i as int).to_set(),
                ),
                forall|x: Arc|
                    #[trigger] g.arc_map().dom().contains(x) ==> g.arc_map()[x] == union_weight(
                        self.arc_map(),
                        other.arc_map(),
                        assoc_map(means@),
                        x,
                    ),
            decreases m2 - i,
        {
            let a = other.arcs[i].0;
            let w = other.arcs[i].1;
            proof {
                other.lemma_sorted_arcs_unique();
                assert(assoc_keys(other.arc_entries())[i as int] == a);
                lemma_assoc_index(other.arc_entries(), i as int);
                assert(other.arc_map().dom().contains(a) && other.arc_map()[a] == w);
                lemma_take_push(assoc_keys(other.arc_entries()), i as int);
                if g.arc_map().dom().contains(a) && !self.arc_map().dom().contains(a) {
                    let j = choose|j: int|
                        0 <= j < i && assoc_keys(other.arc_entries()).take(i as int)[j] == a;
                    assert(arc_lt(other.arc_entries()[j].0, other.arc_entries()[i as int].0));
                }
            }
            if !self.contains_arc(&a) {
                g.add_arc(a.0, a.1, w);
            }
            proof {
                lemma_push_to_set_generic(assoc_keys(other.arc_entries()).take(i as int), a);
                assert(g.arc_map().dom() =~= self.arc_map().dom().union(
                    assoc_keys(other.arc_entries()).take(i as int).to_set().insert(a),
                ));
                assert(g.arc_map().dom() =~= self.arc_map().dom().union(
                    assoc_keys(other.arc_entries()).take(i as int + 1).to_set(),
                ));
            }
            i = i + 1;
        }
        proof {
            assert(assoc_keys(other.arc_entries()).take(m2 as int) =~= assoc_keys(
                other.arc_entries(),
            ));
            lemma_assoc_dom(other.arc_entries());
            assert(g.arc_map().dom() =~= self.arc_map().dom().union(other.arc_map().dom()));
        }
        g
    }

    /// Removing a node straight after adding it returns the graph to its
    /// prior state: with `g1` related to `g` as `add_node` ensures and
    /// `g2` related to `g1` as `rm_node` ensures, every view of `g2`
    /// agrees with `g`.
    pub proof fn lemma_add_rm_node_roundtrip(g: Graph, g1: Graph, g2: Graph, id: Node)
        requires
            !g.node_set().contains(id),
            g1.node_set() == g.node_set().insert(id),
            g1.arc_map() == g.arc_map(),
            forall|n: Node| g1.outgoing_of(n) == g.outgoing_of(n),
            forall|n: Node| g1.incoming_of(n) == g.incoming_of(n),
            g2.node_set() == g1.node_set().remove(id),
            g2.arc_map() == g1.arc_map(),
            forall|n: Node| n != id ==> g2.outgoing_of(n) == g1.outgoing_of(n),
            forall|n: Node| n != id ==> g2.incoming_of(n) == g1.incoming_of(n),
            !g2.node_set().contains(id),
        ensures
            g2.node_set() =~= g.node_set(),
            g2.arc_map() == g.arc_map(),
            forall|n: Node| #[trigger] g2.outgoing_of(n) =~= g.outgoing_of(n),
            forall|n: Node| #[trigger] g2.incoming_of(n) =~= g.incoming_of(n),
    {
        assert forall|n: Node| #[trigger] g2.outgoing_of(n) =~= g.outgoing_of(n) by {
            if n == id {
                lemma_assoc_dom(g.entries());
                lemma_assoc_dom(g2.entries());
                assert(g.outgoing_of(n) =~= Set::<Arc>::empty());
                assert(g2.outgoing_of(n) =~= Set::<Arc>::empty());
            }
        }
        assert forall|n: Node| #[trigger] g2.incoming_of(n) =~= g.incoming_of(n) by {
            if n == id {
                lemma_assoc_dom(g.entries());
                lemma_assoc_dom(g2.entries());
                assert(g.incoming_of(n) =~= Set::<Arc>::empty());
                assert(g2.incoming_of(n) =~= Set::<Arc>::empty());
            }
        }
    }

    /// Removing an arc straight after adding it restores the weight map
    /// and both endpoints' arc sets: with `g1` related to `g` as
    /// `add_arc` ensures and `g2` related to `g1` as `rm_arc` ensures,
    /// every view of `g2` agrees with `g`.
    pub proof fn lemma_add_rm_arc_roundtrip(
        g: Graph,
        g1: Graph,
        g2: Graph,
        src: Node,
        dst: Node,
        weight: Weight,
    )
        requires
            g.wf(),
            !g.arc_map().dom().contains(Arc(src, dst)),
            g1.node_set() == g.node_set(),
            g1.arc_map() == g.arc_map().insert(Arc(src, dst), weight),
            forall|n: Node|
                #[trigger] g1.outgoing_of(n) == (if n == src {
                    g.outgoing_of(n).insert(Arc(src, dst))
                } else {
                    g.outgoing_of(n)
                }),
            forall|n: Node|
                #[trigger] g1.incoming_of(n) == (if n == dst {
                    g.incoming_of(n).insert(Arc(src, dst))
                } else {
                    g.incoming_of(n)
                }),
            g2.node_set() == g1.node_set(),
            g2.arc_map() == g1.arc_map().remove(Arc(src, dst)),
            forall|n: Node|
                #[trigger] g2.outgoing_of(n) == g1.outgoing_of(n).remove(Arc(src, dst)),
            forall|n: Node|
                #[trigger] g2.incoming_of(n) == g1.incoming_of(n).remove(Arc(src, dst)),
        ensures
            g2.node_set() == g.node_set(),
            g2.arc_map() =~= g.arc_map(),
            forall|n: Node| #[trigger] g2.outgoing_of(n) =~= g.outgoing_of(n),
            forall|n: Node| #[trigger] g2.incoming_of(n) =~= g.incoming_of(n),
    {
        let arc = Arc(src, dst);
        assert(g2.arc_map() =~= g.arc_map());
        assert forall|n: Node| #[trigger] g2.outgoing_of(n) =~= g.outgoing_of(n) by {
            assert(!g.outgoing_of(n).contains(arc)) by {
                if g.outgoing_of(n).contains(arc) {
                    assert(g.arc_map().dom().contains(arc));
                }
            }
        }
        assert forall|n: Node| #[trigger] g2.incoming_of(n) =~= g.incoming_of(n) by {
            assert(!g.incoming_of(n).contains(arc)) by {
                if g.incoming_of(n).contains(arc) {
                    assert(g.arc_map().dom().contains(arc));
                }
            }
        }
    }

    /// Union is commutative: with `u1` related to `(a, b)` as `union`
    /// ensures and `u2` to `(b, a)` over the same mean table, the two
    /// results have the same node set, the same arc set, and the same
    /// weights.
    pub proof fn lemma_union_commutes(
        a: Graph,
        b: Graph,
        means: Map<Arc, Weight>,
        u1: Graph,
        u2: Graph,
    )
        requires
            u1.node_set() == a.node_set().union(b.node_set()),
            u1.arc_map().dom() == a.arc_map().dom().union(b.arc_map().dom()),
            forall|x: Arc|
                #[trigger] u1.arc_map().dom().contains(x) ==> u1.arc_map()[x] == union_weight(
                    a.arc_map(),
                    b.arc_map(),
                    means,
                    x,
                ),
            u2.node_set() == b.node_set().union(a.node_set()),
            u2.arc_map().dom() == b.arc_map().dom().union(a.arc_map().dom()),
            forall|x: Arc|
                #[trigger] u2.arc_map().dom().contains(x) ==> u2.arc_map()[x] == union_weight(
                    b.arc_map(),
                    a.arc_map(),
                    means,
                    x,
                ),
        ensures
            u1.node_set() =~= u2.node_set(),
            u1.arc_map().dom() =~= u2.arc_map().dom(),
            forall|x: Arc|
                #[trigger] u1.arc_map().dom().contains(x) ==> u1.arc_map()[x] == u2.arc_map()[x],
    {
        assert forall|x: Arc|
            #[trigger] u1.arc_map().dom().contains(x) implies u1.arc_map()[x]
            == u2.arc_map()[x] by {
            assert(u2.arc_map().dom().contains(x));
        }
    }

    /// The largest node tag (0 for an empty graph).
    pub open spec fn max_tag(self) -> int {
        if self.entries().len() == 0 {
            0
        } else {
            self.entries().last().0.0 as int
        }
    }

    /// Every node's tag is bounded by `max_tag`.
    pub proof fn lemma_tag_le_max(self, n: Node)
        requires
            nodes_sorted(self.entries()),
            self.node_set().contains(n),
        ensures
            n.0 <= self.max_tag(),
    {
        let j = choose|j: int|
            0 <= j < assoc_keys(self.entries()).len() && assoc_keys(self.entries())[j] == n;
        assert(self.entries()[j].0 == n);
        if j < self.entries().len() - 1 {
            assert(self.entries()[j].0.0 < self.entries()[self.entries().len() - 1].0.0);
        }
    }

    /// One step of a traversal: an arc from `a` to `b` when following
    /// outgoing arcs, or from `b` to `a` when following incoming ones.
    pub open spec fn spec_step(self, t: ArcsType, a: Node, b: Node) -> bool {
        match t {
            ArcsType::Outgoing => self.arc_map().dom().contains(Arc(a, b)),
            ArcsType::Incoming => self.arc_map().dom().contains(Arc(b, a)),
        }
    }

    /// A walk through the graph along direction `t`, starting at a node
    /// of the graph.
    pub open spec fn is_path(self, t: ArcsType, p: Seq<Node>) -> bool {
        &&& p.len() >= 1
        &&& self.node_set().contains(p[0])
        &&& forall|i: int| 0 <= i < p.len() - 1 ==> self.spec_step(t, #[trigger] p[i], p[i + 1])
    }

    /// Whether some walk along direction `t` leads from `from` to `to`.
    pub open spec fn reaches(self, t: ArcsType, from: Node, to: Node) -> bool {
        exists|p: Seq<Node>| self.is_path(t, p) && p.first() == from && p.last() == to
    }

    /// Every node reachable from `from` along direction `t` (including
    /// `from` itself when it is a node of the graph).
    pub open spec fn reach_set(self, t: ArcsType, from: Node) -> Set<Node> {
        Set::new(|n: Node| self.reaches(t, from, n))
    }

    /// Every node reachable from any of the `seeds`.
    pub open spec fn reach_any(self, t: ArcsType, seeds: Seq<Node>) -> Set<Node> {
        Set::new(
            |n: Node| exists|i: int| 0 <= i < seeds.len() && self.reaches(t, #[trigger] seeds[i], n),
        )
    }

    /// A node set that no step of direction `t` leaves.
    pub open spec fn closed_under(self, t: ArcsType, s: Set<Node>) -> bool {
        forall|a: Node, b: Node|
            s.contains(a) && #[trigger] self.spec_step(t, a, b) ==> s.contains(b)
    }

    /// A node of the graph reaches itself.
    pub proof fn lemma_reaches_self(self, t: ArcsType, n: Node)
        requires
            self.node_set().contains(n),
        ensures
            self.reaches(t, n, n),
    {
        let p = seq![n];
        assert(self.is_path(t, p));
        assert(p.first() == n && p.last() == n);
    }

    /// Reachability extends along one more step.
    pub proof fn lemma_reaches_step(self, t: ArcsType, from: Node, v: Node, n: Node)
        requires
            self.reaches(t, from, v),
            self.spec_step(t, v, n),
        ensures
            self.reaches(t, from, n),
    {
        let p = choose|p: Seq<Node>| self.is_path(t, p) && p.first() == from && p.last() == v;
        let q = p.push(n);
        assert(self.is_path(t, q)) by {
            assert(q[0] == p[0]);
            assert forall|i: int| 0 <= i < q.len() - 1 implies self.spec_step(
                t,
                #[trigger] q[i],
                q[i + 1],
            ) by {
                if i < p.len() - 1 {
                    assert(q[i] == p[i] && q[i + 1] == p[i + 1]);
                } else {
                    assert(q[i] == p.last() && q[i + 1] == n);
                }
            }
        }
        assert(q.first() == from && q.last() == n);
    }

    /// A closed set containing a path's start contains its end.
    pub proof fn lemma_closed_path(self, t: ArcsType, s: Set<Node>, p: Seq<Node>)
        requires
            self.wf(),
            self.is_path(t, p),
            self.closed_under(t, s),
            s.contains(p.first()),
        ensures
            s.contains(p.last()),
        decreases p.len(),
    {
        if p.len() == 1 {
        } else {
            assert(self.spec_step(t, p[0], p[1]));
            assert(s.contains(p[1]));
            let q = p.drop_first();
            assert(self.is_path(t, q)) by {
                assert(self.node_set().contains(q[0])) by {
                    match t {
                        ArcsType::Outgoing => {
                            assert(self.arc_map().dom().contains(Arc(p[0], p[1])));
                        },
                        ArcsType::Incoming => {
                            assert(self.arc_map().dom().contains(Arc(p[1], p[0])));
                        },
                    }
                }
                assert forall|i: int| 0 <= i < q.len() - 1 implies self.spec_step(
                    t,
                    #[trigger] q[i],
                    q[i + 1],
                ) by {
                    assert(q[i] == p[i + 1] && q[i + 1] == p[i + 2]);
                    assert(self.spec_step(t, p[i + 1], p[i + 2]));
                }
            }
            self.lemma_closed_path(t, s, q);
        }
    }

    /// A closed set containing `from` contains everything `from` reaches.
    pub proof fn lemma_closed_reach(self, t: ArcsType, s: Set<Node>, from: Node)
        requires
            self.wf(),
            self.closed_under(t, s),
            s.contains(from),
        ensures
            forall|n: Node| self.reaches(t, from, n) ==> s.contains(n),
    {
        assert forall|n: Node| self.reaches(t, from, n) implies s.contains(n) by {
            let p = choose|p: Seq<Node>|
                self.is_path(t, p) && p.first() == from && p.last() == n;
            self.lemma_closed_path(t, s, p);
        }
    }

    /// A prefix of a path is a path, from the same start.
    pub proof fn lemma_path_take(self, t: ArcsType, p: Seq<Node>, k: int)
        requires
            self.is_path(t, p),
            1 <= k <= p.len(),
        ensures
            self.is_path(t, p.take(k)),
            p.take(k).first() == p.first(),
            p.take(k).last() == p[k - 1],
    {
        assert(p.take(k)[0] == p[0]);
        assert forall|i: int| 0 <= i < k - 1 implies self.spec_step(
            t,
            #[trigger] p.take(k)[i],
            p.take(k)[i + 1],
        ) by {
            assert(p.take(k)[i] == p[i] && p.take(k)[i + 1] == p[i + 1]);
            assert(self.spec_step(t, p[i], p[i + 1]));
        }
    }

    /// Every node on a path is a node of the graph.
    pub proof fn lemma_path_nodes(self, t: ArcsType, p: Seq<Node>, k: int)
        requires
            self.wf(),
            self.is_path(t, p),
            0 <= k < p.len(),
        ensures
            self.node_set().contains(p[k]),
    {
        if k > 0 {
            assert(self.spec_step(t, p[k - 1], p[k]));
            match t {
                ArcsType::Outgoing => {
                    assert(self.arc_map().dom().contains(Arc(p[k - 1], p[k])));
                },
                ArcsType::Incoming => {
                    assert(self.arc_map().dom().contains(Arc(p[k], p[k - 1])));
                },
            }
        }
    }

    /// A suffix of a path is a path, to the same end.
    pub proof fn lemma_path_skip(self, t: ArcsType, p: Seq<Node>, k: int)
        requires
            self.wf(),
            self.is_path(t, p),
            0 <= k < p.len(),
        ensures
            self.is_path(t, p.skip(k)),
            p.skip(k).first() == p[k],
            p.skip(k).last() == p.last(),
    {
        self.lemma_path_nodes(t, p, k);
        assert(p.skip(k)[0] == p[k]);
        assert forall|i: int| 0 <= i < p.skip(k).len() - 1 implies self.spec_step(
            t,
            #[trigger] p.skip(k)[i],
            p.skip(k)[i + 1],
        ) by {
            assert(p.skip(k)[i] == p[k + i] && p.skip(k)[i + 1] == p[k + i + 1]);
            assert(self.spec_step(t, p[k + i], p[k + i + 1]));
        }
    }

    /// Two paths that meet end to start concatenate to a path.
    pub proof fn lemma_path_concat(self, t: ArcsType, p: Seq<Node>, q: Seq<Node>)
        requires
            self.is_path(t, p),
            self.is_path(t, q),
            p.last() == q.first(),
        ensures
            self.is_path(t, p + q.drop_first()),
            (p + q.drop_first()).first() == p.first(),
            (p + q.drop_first()).last() == q.last(),
            (p + q.drop_first()).len() == p.len() + q.len() - 1,
            (p + q.drop_first())[p.len() - 1] == p.last(),
    {
        let w = p + q.drop_first();
        assert(w[0] == p[0]);
        assert(w[p.len() - 1] == p[p.len() - 1]);
        if q.len() == 1 {
            assert(w =~= p);
        } else {
            assert(w.last() == q.drop_first().last());
            assert(q.drop_first().last() == q.last());
        }
        assert forall|i: int| 0 <= i < w.len() - 1 implies self.spec_step(
            t,
            #[trigger] w[i],
            w[i + 1],
        ) by {
            if i < p.len() - 1 {
                assert(w[i] == p[i]);
                if i + 1 < p.len() {
                    assert(w[i + 1] == p[i + 1]);
                }
                assert(self.spec_step(t, p[i], p[i + 1]));
            } else if i == p.len() - 1 {
                assert(w[i] == p.last());
                assert(w[i + 1] == q.drop_first()[0]);
                assert(q.drop_first()[0] == q[1]);
                assert(self.spec_step(t, q[0], q[1]));
            } else {
                assert(w[i] == q.drop_first()[i - p.len()]);
                assert(w[i + 1] == q.drop_first()[i + 1 - p.len()]);
                assert(q.drop_first()[i - p.len()] == q[i - p.len() + 1]);
                assert(q.drop_first()[i + 1 - p.len()] == q[i - p.len() + 2]);
                assert(self.spec_step(t, q[i - p.len() + 1], q[i - p.len() + 2]));
            }
        }
    }

    /// A walk along incoming arcs, reversed, is a walk along outgoing
    /// arcs: reachability in the two directions mirrors.
    pub proof fn lemma_reverse_reaches(self, t: ArcsType, from: Node, to: Node)
        requires
            self.wf(),
            self.reaches(t, from, to),
        ensures
            match t {
                ArcsType::Outgoing => self.reaches(ArcsType::Incoming, to, from),
                ArcsType::Incoming => self.reaches(ArcsType::Outgoing, to, from),
            },
    {
        let p = choose|p: Seq<Node>| self.is_path(t, p) && p.first() == from && p.last() == to;
        let n = p.len() as int;
        let q = Seq::new(p.len(), |i: int| p[n - 1 - i]);
        self.lemma_path_nodes(t, p, n - 1);
        assert(q[0] == p[n - 1]);
        let t2 = match t {
            ArcsType::Outgoing => ArcsType::Incoming,
            ArcsType::Incoming => ArcsType::Outgoing,
        };
        assert forall|i: int| 0 <= i < q.len() - 1 implies self.spec_step(
            t2,
            #[trigger] q[i],
            q[i + 1],
        ) by {
            assert(q[i] == p[n - 1 - i] && q[i + 1] == p[n - 2 - i]);
            assert(self.spec_step(t, p[n - 2 - i], p[n - 1 - i]));
        }
        assert(self.is_path(t2, q));
        assert(q.first() == to && q.last() == from);
    }

    /// A path whose nodes all survive a pruning lives on in the pruned
    /// graph.
    pub proof fn lemma_path_survives(
        self,
        pruned: Graph,
        t: ArcsType,
        p: Seq<Node>,
        removed: Set<Node>,
    )
        requires
            self.wf(),
            self.is_path(t, p),
            forall|k: int| 0 <= k < p.len() ==> !removed.contains(#[trigger] p[k]),
            pruned.node_set() == self.node_set().difference(removed),
            pruned.arc_map().dom() == Set::new(
                |a: Arc|
                    self.arc_map().dom().contains(a) && !removed.contains(a.0)
                        && !removed.contains(a.1),
            ),
        ensures
            pruned.is_path(t, p),
    {
        assert(pruned.node_set().contains(p[0]));
        assert forall|i: int| 0 <= i < p.len() - 1 implies pruned.spec_step(
            t,
            #[trigger] p[i],
            p[i + 1],
        ) by {
            assert(self.spec_step(t, p[i], p[i + 1]));
            match t {
                ArcsType::Outgoing => {
                    assert(pruned.arc_map().dom().contains(Arc(p[i], p[i + 1])));
                },
                ArcsType::Incoming => {
                    assert(pruned.arc_map().dom().contains(Arc(p[i + 1], p[i])));
                },
            }
        }
    }

    /// Whether the list holds the node.
    fn contains_value(v: &Vec<Node>, x: &Node) -> (r: bool)
        ensures
            r == v@.to_set().contains(*x),
    {
        let n = v.len();
        let mut i: usize = 0;
        while i < n
            invariant
                n == v@.len(),
                i <= n,
                forall|j: int| 0 <= j < i ==> v@[j] != *x,
            decreases n - i,
        {
            if v[i] == *x {
                return true;
            }
            i = i + 1;
        }
        proof {
            if v@.to_set().contains(*x) {
                let j = choose|j: int| 0 <= j < v@.len() && v@[j] == *x;
            }
        }
        false
    }

    /// Accumulates into `visited` every node reachable from `initial`
    /// along `arcs_type`, by an iterative traversal with an explicit
    /// work stack.  The set handed in must already be closed (as the
    /// sets this traversal produces are), so seeds may be fed one
    /// after another into the same set.
    pub fn connected_component(&self, initial: &Node, arcs_type: ArcsType, visited: &mut Vec<Node>)
        requires
            self.wf(),
            self.node_set().contains(*initial),
            old(visited)@.no_duplicates(),
            old(visited)@.to_set().subset_of(self.node_set()),
            self.closed_under(arcs_type, old(visited)@.to_set()),
        ensures
            final(visited)@.no_duplicates(),
            final(visited)@.to_set().subset_of(self.node_set()),
            final(visited)@.to_set() =~= old(visited)@.to_set().union(
                self.reach_set(arcs_type, *initial),
            ),
            self.closed_under(arcs_type, final(visited)@.to_set()),
    {
        broadcast use vstd::seq_lib::group_seq_properties;

        if Self::contains_value(visited, initial) {
            proof {
                self.lemma_closed_reach(arcs_type, visited@.to_set(), *initial);
                assert(visited@.to_set() =~= old(visited)@.to_set().union(
                    self.reach_set(arcs_type, *initial),
                ));
            }
            return;
        }
        let mut stack: Vec<Node> = Vec::new();
        stack.push(*initial);
        proof {
            self.lemma_reaches_self(arcs_type, *initial);
        }
        while stack.len() > 0
            invariant
                self.wf(),
                self.node_set().contains(*initial),
                visited@.no_duplicates(),
                visited@.to_set().subset_of(self.node_set()),
                old(visited)@.to_set().subset_of(visited@.to_set()),
                self.closed_under(arcs_type, old(visited)@.to_set()),
                forall|i: int|
                    0 <= i < stack@.len() ==> self.node_set().contains(#[trigger] stack@[i])
                        && self.reaches(arcs_type, *initial, stack@[i]),
                forall|n: Node|
                    visited@.to_set().contains(n) ==> old(visited)@.to_set().contains(n)
                        || self.reaches(arcs_type, *initial, n),
                forall|a: Node, b: Node|
                    visited@.to_set().contains(a) && #[trigger] self.spec_step(arcs_type, a, b)
                        ==> visited@.to_set().contains(b) || stack@.to_set().contains(b),
                visited@.to_set().contains(*initial) || stack@.to_set().contains(*initial),
            decreases
                    self.node_set().len() - visited@.to_set().len(),
                    stack@.len(),
        {
            proof {
                vstd::set_lib::lemma_len_subset(visited@.to_set(), self.node_set());
            }
            let ghost stack_top = stack@;
            let node = match stack.pop() {
                Some(n) => n,
                None => {
                    proof {
                        assert(false);
                    }
                    *initial
                },
            };
            let ghost stack_before = stack@.push(node);
            proof {
                assert(stack_before =~= stack_top);
            }
            if !Self::contains_value(visited, &node) {
                // A node not yet visited: record it and queue its
                // unvisited neighbours.
                let ghost visited_before = visited@;
                visited.push(node);
                proof {
                    broadcast use vstd::set::group_set_axioms;
                    broadcast use vstd::seq_lib::seq_to_set_is_finite;

                    lemma_push_to_set_generic(visited_before, node);
                    assert(visited@.to_set() =~= visited_before.to_set().insert(node));
                    assert(visited@.no_duplicates());
                    vstd::set_lib::lemma_len_subset(visited_before.to_set(), self.node_set());
                    assert(visited_before.to_set().finite());
                    assert(visited@.to_set().len() == visited_before.to_set().len() + 1);
                    assert(visited@.to_set().subset_of(self.node_set()));
                    vstd::set_lib::lemma_len_subset(visited@.to_set(), self.node_set());
                    lemma_push_to_set_generic(stack@, node);
                    assert(stack_before.to_set() =~= stack@.to_set().insert(node));
                    assert forall|a: Node, b: Node|
                        visited@.to_set().remove(node).contains(a) && #[trigger] self.spec_step(
                            arcs_type,
                            a,
                            b,
                        ) implies visited@.to_set().contains(b) || stack@.to_set().contains(
                        b,
                    ) by {
                        assert(visited_before.to_set().contains(a));
                        assert(visited_before.to_set().contains(b) || stack_before.to_set().contains(
                            b,
                        ));
                        if !visited_before.to_set().contains(b) && b == node {
                            assert(visited@.to_set().contains(b));
                        }
                    }
                }
                let na = self.node_arcs(&node);
                let arcs_vec = arcs_type.arcs(na);
                let m = arcs_vec.len();
                let mut j: usize = 0;
                while j < m
                    invariant
                        self.wf(),
                        self.node_set().contains(*initial),
                        m == arcs_vec@.len(),
                        j <= m,
                        arcs_vec@.to_set() == (match arcs_type {
                            ArcsType::Outgoing => self.outgoing_of(node),
                            ArcsType::Incoming => self.incoming_of(node),
                        }),
                        forall|k: int|
                            0 <= k < arcs_vec@.len() ==> (match arcs_type {
                                ArcsType::Outgoing => self.outgoing_of(node).contains(
                                    #[trigger] arcs_vec@[k],
                                ),
                                ArcsType::Incoming => self.incoming_of(node).contains(
                                    #[trigger] arcs_vec@[k],
                                ),
                            }),
                        visited@.no_duplicates(),
                        visited@.to_set().subset_of(self.node_set()),
                        old(visited)@.to_set().subset_of(visited@.to_set()),
                        self.closed_under(arcs_type, old(visited)@.to_set()),
                        visited@.to_set().contains(node),
                        self.reaches(arcs_type, *initial, node),
                        forall|i: int|
                            0 <= i < stack@.len() ==> self.node_set().contains(#[trigger] stack@[i])
                                && self.reaches(arcs_type, *initial, stack@[i]),
                        forall|n: Node|
                            visited@.to_set().contains(n) ==> old(visited)@.to_set().contains(n)
                                || self.reaches(arcs_type, *initial, n),
                        forall|a: Node, b: Node|
                            visited@.to_set().remove(node).contains(a) && #[trigger] self.spec_step(
                                arcs_type,
                                a,
                                b,
                            ) ==> visited@.to_set().contains(b) || stack@.to_set().contains(b),
                        forall|k: int|
                            0 <= k < j ==> {
                                let b = (match arcs_type {
                                    ArcsType::Outgoing => (#[trigger] arcs_vec@[k]).1,
                                    ArcsType::Incoming => arcs_vec@[k].0,
                                });
                                visited@.to_set().contains(b) || stack@.to_set().contains(b)
                            },
                        visited@.to_set().contains(*initial) || stack@.to_set().contains(
                            *initial,
                        ),
                        visited@.to_set().len() == old(visited)@.to_set().len() || true,
                    decreases m - j,
                {
                    let arc = &arcs_vec[j];
                    let nb = arcs_type.neighborhood(arc);
                    proof {
                        match arcs_type {
                            ArcsType::Outgoing => {
                                assert(self.outgoing_of(node).contains(arcs_vec@[j as int]));
                                assert(self.arc_map().dom().contains(arcs_vec@[j as int]));
                                assert(arcs_vec@[j as int].0 == node);
                                assert(self.spec_step(arcs_type, node, nb));
                            },
                            ArcsType::Incoming => {
                                assert(self.incoming_of(node).contains(arcs_vec@[j as int]));
                                assert(self.arc_map().dom().contains(arcs_vec@[j as int]));
                                assert(arcs_vec@[j as int].1 == node);
                                assert(self.spec_step(arcs_type, node, nb));
                            },
                        }
                        assert(self.node_set().contains(nb));
                        self.lemma_reaches_step(arcs_type, *initial, node, nb);
                    }
                    if !Self::contains_value(visited, &nb) {
                        let ghost stack_old = stack@;
                        stack.push(nb);
                        proof {
                            lemma_push_to_set_generic(stack_old, nb);
                        }
                    }
                    j = j + 1;
                }
                proof {
                    // Every step out of `node` is now covered.
                    assert forall|a: Node, b: Node|
                        visited@.to_set().contains(a) && #[trigger] self.spec_step(
                            arcs_type,
                            a,
                            b,
                        ) implies visited@.to_set().contains(b) || stack@.to_set().contains(
                        b,
                    ) by {
                        if a == node {
                            match arcs_type {
                                ArcsType::Outgoing => {
                                    assert(self.arc_map().dom().contains(Arc(node, b)));
                                    assert(self.outgoing_of(node).contains(Arc(node, b)));
                                    assert(arcs_vec@.to_set().contains(Arc(node, b)));
                                    let k = choose|k: int|
                                        0 <= k < arcs_vec@.len() && arcs_vec@[k] == Arc(node, b);
                                    assert((match arcs_type {
                                        ArcsType::Outgoing => arcs_vec@[k].1,
                                        ArcsType::Incoming => arcs_vec@[k].0,
                                    }) == b);
                                },
                                ArcsType::Incoming => {
                                    assert(self.arc_map().dom().contains(Arc(b, node)));
                                    assert(self.incoming_of(node).contains(Arc(b, node)));
                                    assert(arcs_vec@.to_set().contains(Arc(b, node)));
                                    let k = choose|k: int|
                                        0 <= k < arcs_vec@.len() && arcs_vec@[k] == Arc(b, node);
                                    assert((match arcs_type {
                                        ArcsType::Outgoing => arcs_vec@[k].1,
                                        ArcsType::Incoming => arcs_vec@[k].0,
                                    }) == b);
                                },
                            }
                        } else {
                            assert(visited@.to_set().remove(node).contains(a));
                        }
                    }
                }
            } else {
                proof {
                    lemma_push_to_set_generic(stack@, node);
                    assert(stack_before.to_set() =~= stack@.to_set().insert(node));
                    assert(visited@.to_set().contains(node));
                    assert forall|a: Node, b: Node|
                        visited@.to_set().contains(a) && #[trigger] self.spec_step(
                            arcs_type,
                            a,
                            b,
                        ) implies visited@.to_set().contains(b) || stack@.to_set().contains(
                        b,
                    ) by {
                        if stack_before.to_set().contains(b) && !stack@.to_set().contains(b) {
                            assert(b == node);
                        }
                    }
                    assert(visited@.to_set().contains(*initial) || stack@.to_set().contains(
                        *initial,
                    )) by {
                        if stack_before.to_set().contains(*initial) && !stack@.to_set().contains(
                            *initial,
                        ) {
                            assert(*initial == node);
                        }
                    }
                }
            }
        }
        proof {
            // The stack is drained: the visited set is closed, contains
            // the seed, and holds only what the seed reaches or what was
            // there before.
            assert(stack@.to_set() =~= Set::<Node>::empty());
            assert(self.closed_under(arcs_type, visited@.to_set()));
            assert(visited@.to_set().contains(*initial));
            self.lemma_closed_reach(arcs_type, visited@.to_set(), *initial);
            assert(visited@.to_set() =~= old(visited)@.to_set().union(
                self.reach_set(arcs_type, *initial),
            ));
        }
    }

    /// The nodes that none of the `nodes` reaches along `arcs_type`.
    pub fn unreachable(&self, nodes: &Vec<Node>, arcs_type: ArcsType) -> (r: Vec<Node>)
        requires
            self.wf(),
            forall|i: int| 0 <= i < nodes@.len() ==> self.node_set().contains(#[trigger] nodes@[i]),
        ensures
            r@.no_duplicates(),
            r@.to_set() =~= self.node_set().difference(self.reach_any(arcs_type, nodes@)),
    {
        let mut visited: Vec<Node> = Vec::new();
        let n = nodes.len();
        let mut i: usize = 0;
        proof {
            assert(visited@.to_set() =~= self.reach_any(arcs_type, nodes@.take(0)));
        }
        while i < n
            invariant
                self.wf(),
                n == nodes@.len(),
                i <= n,
                forall|k: int|
                    0 <= k < nodes@.len() ==> self.node_set().contains(#[trigger] nodes@[k]),
                visited@.no_duplicates(),
                visited@.to_set().subset_of(self.node_set()),
                self.closed_under(arcs_type, visited@.to_set()),
                visited@.to_set() =~= self.reach_any(arcs_type, nodes@.take(i as int)),
            decreases n - i,
        {
            let seed = nodes[i];
            // A clone of the direction for this pass.
            let t = match arcs_type {
                ArcsType::Outgoing => ArcsType::Outgoing,
                ArcsType::Incoming => ArcsType::Incoming,
            };
            self.connected_component(&seed, t, &mut visited);
            proof {
                assert(visited@.to_set() =~= self.reach_any(arcs_type, nodes@.take(i as int)).union(
                    self.reach_set(arcs_type, seed),
                ));
                lemma_take_push(nodes@, i as int);
                assert forall|x: Node|
                    visited@.to_set().contains(x) implies self.reach_any(
                    arcs_type,
                    nodes@.take(i as int + 1),
                ).contains(x) by {
                    if self.reach_any(arcs_type, nodes@.take(i as int)).contains(x) {
                        let k = choose|k: int|
                            0 <= k < nodes@.take(i as int).len() && self.reaches(
                                arcs_type,
                                #[trigger] nodes@.take(i as int)[k],
                                x,
                            );
                        assert(nodes@.take(i as int + 1)[k] == nodes@.take(i as int)[k]);
                    } else {
                        assert(self.reaches(arcs_type, seed, x));
                        assert(nodes@.take(i as int + 1)[i as int] == seed);
                    }
                }
                assert forall|x: Node|
                    self.reach_any(arcs_type, nodes@.take(i as int + 1)).contains(
                        x,
                    ) implies visited@.to_set().contains(x) by {
                    let k = choose|k: int|
                        0 <= k < nodes@.take(i as int + 1).len() && self.reaches(
                            arcs_type,
                            #[trigger] nodes@.take(i as int + 1)[k],
                            x,
                        );
                    if k < i {
                        assert(nodes@.take(i as int)[k] == nodes@.take(i as int + 1)[k]);
                    } else {
                        assert(nodes@.take(i as int + 1)[k] == seed);
                    }
                }
                assert(visited@.to_set() =~= self.reach_any(
                    arcs_type,
                    nodes@.take(i as int + 1),
                ));
            }
            i = i + 1;
        }
        proof {
            assert(nodes@.take(n as int) =~= nodes@);
            assert(visited@.to_set() =~= self.reach_any(arcs_type, nodes@));
        }
        // Keep every node the traversals never reached.
        let total = self.nodes.len();
        let mut result: Vec<Node> = Vec::new();
        let mut i: usize = 0;
        while i < total
            invariant
                self.wf(),
                total == self.entries().len(),
                i <= total,
                visited@.to_set() =~= self.reach_any(arcs_type, nodes@),
                result@.no_duplicates(),
                result@.to_set() =~= assoc_keys(self.entries()).take(i as int).to_set().difference(
                    self.reach_any(arcs_type, nodes@),
                ),
            decreases total - i,
        {
            let id = self.nodes[i].0;
            proof {
                assert(assoc_keys(self.entries())[i as int] == id);
                lemma_take_push(assoc_keys(self.entries()), i as int);
                lemma_push_to_set_generic(assoc_keys(self.entries()).take(i as int), id);
            }
            if !Self::contains_value(&visited, &id) {
                let ghost result_before = result@;
                result.push(id);
                proof {
                    lemma_push_to_set_generic(result_before, id);
                    assert(!result_before.to_set().contains(id)) by {
                        if result_before.to_set().contains(id) {
                            let j = choose|j: int|
                                0 <= j < i && assoc_keys(self.entries()).take(i as int)[j] == id;
                            assert(self.entries()[j].0.0 < self.entries()[i as int].0.0);
                        }
                    }
                    assert(result@.no_duplicates());
                }
            }
            proof {
                assert(result@.to_set() =~= assoc_keys(self.entries()).take(
                    i as int + 1,
                ).to_set().difference(self.reach_any(arcs_type, nodes@)));
            }
            i = i + 1;
        }
        proof {
            assert(assoc_keys(self.entries()).take(total as int) =~= assoc_keys(self.entries()));
        }
        result
    }

    /// The nodes not reachable from any of `nodes` along outgoing arcs.
    pub fn unreachable_from(&self, nodes: &Vec<Node>) -> (r: Vec<Node>)
        requires
            self.wf(),
            forall|i: int| 0 <= i < nodes@.len() ==> self.node_set().contains(#[trigger] nodes@[i]),
        ensures
            r@.no_duplicates(),
            r@.to_set() =~= self.node_set().difference(
                self.reach_any(ArcsType::Outgoing, nodes@),
            ),
    {
        self.unreachable(nodes, ArcsType::Outgoing)
    }

    /// The nodes from which none of `nodes` can be reached along outgoing
    /// arcs (equivalently: the nodes not reachable from `nodes` along
    /// incoming arcs).
    pub fn unreachable_to(&self, nodes: &Vec<Node>) -> (r: Vec<Node>)
        requires
            self.wf(),
            forall|i: int| 0 <= i < nodes@.len() ==> self.node_set().contains(#[trigger] nodes@[i]),
        ensures
            r@.no_duplicates(),
            r@.to_set() =~= self.node_set().difference(
                self.reach_any(ArcsType::Incoming, nodes@),
            ),
    {
        self.unreachable(nodes, ArcsType::Incoming)
    }
}

} // verus!
