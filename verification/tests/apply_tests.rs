use gannai::apply::{Application, Conf};
use gannai::common::Node;
use gannai::matrix::Matrix;
use gannai::network::Network;

/// Drives the propagation machine, doing its arithmetic: each pending
/// pulse's magnitude is multiplied with the pulse node's weight row, and
/// each output's deposits are summed left to right from zero.
fn perform(network: &Network, threshold: f64, values: &[f64]) -> Vec<f64> {
    let conf = Conf {
        threshold: threshold.to_bits(),
    };
    let mut app = Application::new(network, &conf);
    let bits: Vec<u64> = values.iter().map(|v| v.to_bits()).collect();
    app.begin(&bits);
    let n = network.nodes.len();
    let weights: Vec<f64> = network
        .weights
        .values()
        .iter()
        .map(|&w| f64::from_bits(w))
        .collect();
    loop {
        match app.next_pulse() {
            None => break,
            Some((node, magnitude)) => {
                let m = f64::from_bits(magnitude);
                let mut products: Vec<u64> = Vec::with_capacity(n);
                for j in 0..n {
                    products.push((m * weights[node * n + j]).to_bits());
                }
                app.feed_products(&products);
            }
        }
    }
    app.deposits()
        .iter()
        .map(|bucket| {
            bucket
                .iter()
                .fold(0.0f64, |acc, &x| acc + f64::from_bits(x))
        })
        .collect()
}

fn bits(values: &[f64]) -> Vec<u64> {
    values.iter().map(|v| v.to_bits()).collect()
}

fn index_nodes(n: usize) -> Vec<Node> {
    (0..n).map(Node).collect()
}

#[test]
fn test_apply_network_contains_one_arc_with_positive_weight_should_succeed() {
    let weight = 0.4;
    let weights_values = bits(&[0.0, weight, 0.0, 0.0]);
    let inputs = vec![0];
    let outputs = vec![1];
    let nodes = index_nodes(2);
    let network = Network {
        inputs: &inputs,
        outputs: &outputs,
        weights: Matrix::new(2, &weights_values),
        nodes: &nodes,
    };
    let input = 0.6;
    assert_eq!(perform(&network, 1e-3, &[input]), vec![input * weight]);
}

#[test]
fn test_apply_network_contains_one_arc_with_negative_weight_should_succeed() {
    let weight = -0.4;
    let weights_values = bits(&[0.0, weight, 0.0, 0.0]);
    let inputs = vec![0];
    let outputs = vec![1];
    let nodes = index_nodes(2);
    let network = Network {
        inputs: &inputs,
        outputs: &outputs,
        weights: Matrix::new(2, &weights_values),
        nodes: &nodes,
    };
    let input = 0.6;
    assert_eq!(perform(&network, 1e-3, &[input]), vec![input * weight]);
}

#[test]
fn test_apply_network_with_two_arcs_and_two_inputs_should_succeed() {
    let w13 = 0.4;
    let w23 = 0.2;
    let weights_values = bits(&[0.0, 0.0, w13, 0.0, 0.0, w23, 0.0, 0.0, 0.0]);
    let inputs = vec![0, 1];
    let outputs = vec![2];
    let nodes = index_nodes(3);
    let network = Network {
        inputs: &inputs,
        outputs: &outputs,
        weights: Matrix::new(3, &weights_values),
        nodes: &nodes,
    };
    let i1 = 0.6;
    let i2 = 0.7;
    assert_eq!(perform(&network, 1e-3, &[i1, i2]), vec![i1 * w13 + i2 * w23]);
}

#[test]
fn test_apply_network_with_two_arcs_and_two_outputs_should_succeed() {
    let w12 = 0.4;
    let w13 = 0.2;
    let weights_values = bits(&[0.0, w12, w13, 0.0, 0.0, 0.0, 0.0, 0.0, 0.0]);
    let inputs = vec![0];
    let outputs = vec![1, 2];
    let nodes = index_nodes(3);
    let network = Network {
        inputs: &inputs,
        outputs: &outputs,
        weights: Matrix::new(3, &weights_values),
        nodes: &nodes,
    };
    let input = 0.6;
    assert_eq!(
        perform(&network, 1e-3, &[input]),
        vec![input * w12, input * w13]
    );
}

#[test]
fn test_apply_network_with_two_arcs_and_one_middle_node_should_succeed() {
    let w12 = 0.4;
    let w23 = 0.2;
    let weights_values = bits(&[0.0, w12, 0.0, 0.0, 0.0, w23, 0.0, 0.0, 0.0]);
    let inputs = vec![0];
    let outputs = vec![2];
    let nodes = index_nodes(3);
    let network = Network {
        inputs: &inputs,
        outputs: &outputs,
        weights: Matrix::new(3, &weights_values),
        nodes: &nodes,
    };
    let input = 0.6;
    assert_eq!(perform(&network, 1e-3, &[input]), vec![input * w12 * w23]);
}

#[test]
fn test_apply_network_with_two_arcs_and_self_add_arced_input_node_should_succeed() {
    let w11 = 0.2;
    let w12 = 0.4;
    let weights_values = bits(&[w11, w12, 0.0, 0.0]);
    let inputs = vec![0];
    let outputs = vec![1];
    let nodes = index_nodes(2);
    let network = Network {
        inputs: &inputs,
        outputs: &outputs,
        weights: Matrix::new(2, &weights_values),
        nodes: &nodes,
    };
    let input = 0.6;
    let actual = perform(&network, 1e-8, &[input]);
    let expected = [input * w12 / (1.0 - w11)];
    assert_eq!(actual.len(), expected.len());
    assert!((actual[0] - expected[0]).abs() <= 1e-8);
}

#[test]
fn test_apply_network_without_arcs_should_succeed() {
    let weights_values = bits(&[0.0, 0.0, 0.0, 0.0]);
    let inputs = vec![0];
    let outputs = vec![1];
    let nodes = index_nodes(2);
    let network = Network {
        inputs: &inputs,
        outputs: &outputs,
        weights: Matrix::new(2, &weights_values),
        nodes: &nodes,
    };
    assert_eq!(perform(&network, 1e-8, &[1.0]), vec![0.0]);
}

#[test]
fn test_appy_network_with_two_arcs_cycle_should_succeed() {
    let w12 = 0.2;
    let w21 = 0.4;
    let weights_values = bits(&[0.0, w12, w21, 0.0]);
    let inputs = vec![0];
    let outputs = vec![1];
    let nodes = index_nodes(2);
    let network = Network {
        inputs: &inputs,
        outputs: &outputs,
        weights: Matrix::new(2, &weights_values),
        nodes: &nodes,
    };
    let input = 0.6;
    let actual = perform(&network, 1e-8, &[input]);
    let expected = [input * w12 / (1.0 - w12 * w21)];
    assert_eq!(actual.len(), expected.len());
    assert!((actual[0] - expected[0]).abs() <= 1e-8);
}

#[test]
fn test_apply_network_with_one_self_arced_node_should_succeed() {
    let weight = 0.2;
    let weights_values = bits(&[weight]);
    let inputs = vec![0];
    let outputs = vec![0];
    let nodes = index_nodes(1);
    let network = Network {
        inputs: &inputs,
        outputs: &outputs,
        weights: Matrix::new(1, &weights_values),
        nodes: &nodes,
    };
    let input = 0.6;
    let actual = perform(&network, 1e-8, &[input]);
    let expected = [input / (1.0 - weight)];
    assert_eq!(actual.len(), expected.len());
    assert!((actual[0] - expected[0]).abs() <= 1e-8);
}

#[test]
fn test_apply_is_linear_for_power_of_two_scale() {
    // Linearity in the input vector at threshold zero, checked with a
    // scale of two so every product is exact.
    let w12 = 0.4;
    let w23 = 0.25;
    let weights_values = bits(&[0.0, w12, 0.0, 0.0, 0.0, w23, 0.0, 0.0, 0.0]);
    let inputs = vec![0];
    let outputs = vec![2];
    let nodes = index_nodes(3);
    let network = Network {
        inputs: &inputs,
        outputs: &outputs,
        weights: Matrix::new(3, &weights_values),
        nodes: &nodes,
    };
    let base = perform(&network, 0.0, &[0.6]);
    let scaled = perform(&network, 0.0, &[1.2]);
    assert_eq!(scaled[0], 2.0 * base[0]);
}

#[test]
fn test_apply_chain_composes_weights() {
    let w1 = 0.5;
    let w2 = 0.5;
    let weights_values = bits(&[0.0, w1, 0.0, 0.0, 0.0, w2, 0.0, 0.0, 0.0]);
    let inputs = vec![0];
    let outputs = vec![2];
    let nodes = index_nodes(3);
    let network = Network {
        inputs: &inputs,
        outputs: &outputs,
        weights: Matrix::new(3, &weights_values),
        nodes: &nodes,
    };
    let input = 0.6;
    assert_eq!(perform(&network, 1e-8, &[input]), vec![input * w1 * w2]);
}
