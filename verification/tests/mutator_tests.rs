use gannai::common::Node;
use gannai::id_generator::IdGenerator;
use gannai::matrix::Matrix;
use gannai::mutator::{Arc, Mutator};
use gannai::network::Network;

fn bits(values: &[f64]) -> Vec<u64> {
    values.iter().map(|v| v.to_bits()).collect()
}

fn floats(values: &[u64]) -> Vec<f64> {
    values.iter().map(|&v| f64::from_bits(v)).collect()
}

fn index_nodes(n: usize) -> Vec<Node> {
    (0..n).map(Node).collect()
}

#[test]
fn mutator_test_new_should_succeed() {
    let mut node_id = IdGenerator::new(0);
    Mutator::new(&mut node_id, 4, 3, 0.1f64.to_bits());
}

#[test]
fn test_rm_last_arc_for_not_input_or_output_should_rm_node() {
    let weights_values = bits(&[0.0, 1.0, 0.0, 0.0, 0.0, 0.0, 0.0, 0.0, 0.0]);
    let inputs = vec![0];
    let outputs = vec![2];
    let nodes = index_nodes(3);
    let network = Network {
        inputs: &inputs,
        outputs: &outputs,
        weights: Matrix::new(3, &weights_values),
        nodes: &nodes,
    };
    let mut mutator = Mutator::from_network(&network);
    mutator.rm_arc(&Arc(Node(0), Node(1)));
    let network_buf = mutator.as_network_buf();
    let result = network_buf.as_network();
    assert_eq!(floats(result.weights.values()), vec![0.0, 0.0, 0.0, 0.0]);
}

#[test]
fn test_rm_useless_for_node_not_input_and_not_output_without_incoming_arcs_should_rm_arc_and_node()
{
    let weights_values = bits(&[0.0, 0.0, 0.0, 0.0, 0.0, 1.0, 0.0, 0.0, 0.0]);
    let inputs = vec![0];
    let outputs = vec![2];
    let nodes = index_nodes(3);
    let network = Network {
        inputs: &inputs,
        outputs: &outputs,
        weights: Matrix::new(3, &weights_values),
        nodes: &nodes,
    };
    let mut mutator = Mutator::from_network(&network);
    mutator.rm_useless();
    let network_buf = mutator.as_network_buf();
    let result = network_buf.as_network();
    assert_eq!(floats(result.weights.values()), vec![0.0, 0.0, 0.0, 0.0]);
}

#[test]
fn test_rm_useless_for_not_connected_only_input_and_output_nodes_should_do_nothing() {
    let weights_values = bits(&[0.0, 0.0, 0.0, 0.0]);
    let inputs = vec![0];
    let outputs = vec![1];
    let nodes = index_nodes(2);
    let network = Network {
        inputs: &inputs,
        outputs: &outputs,
        weights: Matrix::new(2, &weights_values),
        nodes: &nodes,
    };
    let mut mutator = Mutator::from_network(&network);
    let expected = mutator.clone();
    mutator.rm_useless();
    assert_eq!(expected, mutator);
}

#[test]
fn test_rm_useless_is_idempotent() {
    let weights_values = bits(&[
        0.0, 0.3, 0.0, 0.0, //
        0.0, 0.0, 0.0, 0.0, //
        0.0, 0.0, 0.0, 0.7, //
        0.0, 0.0, 0.0, 0.0,
    ]);
    let inputs = vec![0];
    let outputs = vec![1];
    let nodes = index_nodes(4);
    let network = Network {
        inputs: &inputs,
        outputs: &outputs,
        weights: Matrix::new(4, &weights_values),
        nodes: &nodes,
    };
    let mut once = Mutator::from_network(&network);
    once.rm_useless();
    let mut twice = once.clone();
    twice.rm_useless();
    assert_eq!(once, twice);
}

#[test]
fn test_split_conserves_weight_product() {
    // A single arc of weight 0.25 split once: both hops carry 0.5, and
    // applying [0.6] yields 0.6 * 0.5 * 0.5 = 0.15.
    let mut node_id = IdGenerator::new(0);
    let mut mutator = Mutator::new(&mut node_id, 1, 1, 0.25f64.to_bits());
    let arc = Arc(Node(0), Node(1));
    let w = f64::from_bits(mutator.graph().arc_weight(&arc));
    let middle = mutator.split(&mut node_id, &arc, w.sqrt().to_bits());
    assert_eq!(
        f64::from_bits(mutator.graph().arc_weight(&Arc(Node(0), middle))),
        0.5
    );
    assert_eq!(
        f64::from_bits(mutator.graph().arc_weight(&Arc(middle, Node(1)))),
        0.5
    );
    assert_eq!(mutator.nodes().len(), 3);
    let network_buf = mutator.as_network_buf();
    let result = apply_values(&network_buf, 1e-8, &[0.6]);
    assert_eq!(result, vec![0.15]);
}

#[test]
fn test_union_averages_weights() {
    // Graphs with the shared arc 0 → 1 at weights 1.0 and 0.5 union to
    // weight 0.75 on it.
    let mut id_a = IdGenerator::new(0);
    let a = Mutator::new(&mut id_a, 1, 1, 1.0f64.to_bits());
    let mut id_b = IdGenerator::new(0);
    let b = Mutator::new(&mut id_b, 1, 1, 0.5f64.to_bits());
    let means = vec![(Arc(Node(0), Node(1)), ((1.0f64 + 0.5) / 2.0).to_bits())];
    let u = a.union(&b, &means);
    assert_eq!(
        f64::from_bits(u.graph().arc_weight(&Arc(Node(0), Node(1)))),
        0.75
    );
}

#[test]
fn test_network_roundtrip_preserves_positive_arcs() {
    // from_network(as_network_buf(m)) keeps the inputs, the outputs and
    // every positive-weight arc of m.
    let mut node_id = IdGenerator::new(0);
    let mut mutator = Mutator::new(&mut node_id, 2, 1, 0.125f64.to_bits());
    // A middle node and a chain through it.
    let arc = Arc(Node(0), Node(2));
    let w = f64::from_bits(mutator.graph().arc_weight(&arc));
    mutator.split(&mut node_id, &arc, w.sqrt().to_bits());
    let network_buf = mutator.as_network_buf();
    let network = network_buf.as_network();
    let rebuilt = Mutator::from_network(&network);
    assert_eq!(rebuilt.graph().arcs(), mutator.graph().arcs());
    assert_eq!(rebuilt.nodes(), mutator.nodes());
}

#[test]
fn test_identity_chain_exact_output() {
    // One input, one output, initial weight 0.5: applying [0.6] gives
    // exactly [0.3].
    let mut node_id = IdGenerator::new(0);
    let mutator = Mutator::new(&mut node_id, 1, 1, 0.5f64.to_bits());
    let network_buf = mutator.as_network_buf();
    let result = apply_values(&network_buf, 1e-8, &[0.6]);
    assert_eq!(result, vec![0.3]);
}

/// Compiles and runs the propagation machine over a network buffer.
fn apply_values(network_buf: &gannai::network::NetworkBuf, threshold: f64, values: &[f64]) -> Vec<f64> {
    let network = network_buf.as_network();
    let conf = gannai::apply::Conf {
        threshold: threshold.to_bits(),
    };
    let mut app = gannai::apply::Application::new(&network, &conf);
    app.begin(&bits(values));
    let n = network.nodes.len();
    let weights = floats(network.weights.values());
    loop {
        match app.next_pulse() {
            None => break,
            Some((node, magnitude)) => {
                let m = f64::from_bits(magnitude);
                let mut products: Vec<u64> = Vec::with_capacity(n);
                for j in 0..n {
                    products.push((m * weights[node * n + j]).to_bits());
                }
                app.feed_products(&products);
            }
        }
    }
    app.deposits()
        .iter()
        .map(|bucket| {
            bucket
                .iter()
                .fold(0.0f64, |acc, &x| acc + f64::from_bits(x))
        })
        .collect()
}
