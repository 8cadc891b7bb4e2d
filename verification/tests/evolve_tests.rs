use rand::rngs::StdRng;
use rand::SeedableRng;

use gannai::apply::{Application, Conf};
use gannai::common::Node;
use gannai::evolve::{begin, pick_mutation, select, select_one, shuffled_indices, terminate,
                     Mutation, MutationChoice};
use gannai::id_generator::IdGenerator;
use gannai::mutator::{Arc, Mutator};
use gannai::network::NetworkBuf;

fn bits(values: &[f64]) -> Vec<u64> {
    values.iter().map(|v| v.to_bits()).collect()
}

/// Runs the propagation machine over a compiled network, doing the
/// arithmetic the library asks for.
fn apply_values(network_buf: &NetworkBuf, threshold: f64, values: &[f64]) -> Vec<f64> {
    let network = network_buf.as_network();
    let conf = Conf {
        threshold: threshold.to_bits(),
    };
    let mut app = Application::new(&network, &conf);
    app.begin(&bits(values));
    let n = network.nodes.len();
    let weights: Vec<f64> = network
        .weights
        .values()
        .iter()
        .map(|&w| f64::from_bits(w))
        .collect();
    drive(&mut app, &weights, n)
}

fn drive(app: &mut Application, weights: &[f64], n: usize) -> Vec<f64> {
    loop {
        match app.next_pulse() {
            None => break,
            Some((node, magnitude)) => {
                let m = f64::from_bits(magnitude);
                let mut products: Vec<u64> = Vec::with_capacity(n);
                for j in 0..n {
                    products.push((m * weights[node * n + j]).to_bits());
                }
                app.feed_products(&products);
            }
        }
    }
    app.deposits()
        .iter()
        .map(|bucket| {
            bucket
                .iter()
                .fold(0.0f64, |acc, &x| acc + f64::from_bits(x))
        })
        .collect()
}

/// The sample-fit error: the sum over samples of the Euclidean distance
/// between produced and expected outputs.
fn error_of(network_buf: &NetworkBuf, threshold: f64, samples: &[(Vec<f64>, Vec<f64>)]) -> f64 {
    samples
        .iter()
        .map(|(input, expected)| {
            let produced = apply_values(network_buf, threshold, input);
            produced
                .iter()
                .zip(expected.iter())
                .map(|(a, b)| (a - b) * (a - b))
                .fold(0.0, |acc, x| acc + x)
                .sqrt()
        })
        .fold(0.0, |acc, x| acc + x)
}

/// Trains the weights in place with the derivative-free optimiser, under
/// box constraints [0, 1], and returns the final error.
fn train(
    network_buf: &mut NetworkBuf,
    threshold: f64,
    samples: &[(Vec<f64>, Vec<f64>)],
    max_function_calls: usize,
) -> f64 {
    let (n, mut flat): (usize, Vec<f64>) = {
        let network = network_buf.as_network();
        (
            network.nodes.len(),
            network
                .weights
                .values()
                .iter()
                .map(|&w| f64::from_bits(w))
                .collect(),
        )
    };
    let inputs: Vec<usize> = network_buf.as_network().inputs.clone();
    let outputs: Vec<usize> = network_buf.as_network().outputs.clone();
    let nodes: Vec<Node> = network_buf.as_network().nodes.clone();
    let objective = |candidate: &[f64]| -> f64 {
        let candidate_bits: Vec<u64> = candidate.iter().map(|v| v.to_bits()).collect();
        let network = gannai::network::Network {
            inputs: &inputs,
            outputs: &outputs,
            weights: gannai::matrix::Matrix::new(n, &candidate_bits),
            nodes: &nodes,
        };
        let conf = Conf {
            threshold: threshold.to_bits(),
        };
        let mut app = Application::new(&network, &conf);
        samples
            .iter()
            .map(|(input, expected)| {
                app.begin(&bits(input));
                let produced = drive(&mut app, candidate, n);
                produced
                    .iter()
                    .zip(expected.iter())
                    .map(|(a, b)| (a - b) * (a - b))
                    .fold(0.0, |acc, x| acc + x)
                    .sqrt()
            })
            .fold(0.0, |acc, x| acc + x)
    };
    let vars = flat.len();
    let mut config = bobyqa::Config::new(vars);
    config.npt = vars + 2;
    config.max_fun = max_function_calls;
    config.rho_begin = 0.25;
    config.rho_end = 1e-10;
    let lower = vec![0.0; vars];
    let upper = vec![1.0; vars];
    let outcome = bobyqa::bobyqa(objective, &mut flat, &lower, &upper, config);
    {
        let mut view = network_buf.as_network_mut();
        for (k, v) in flat.iter().enumerate() {
            view.weights.set_by_index(k, v.to_bits());
        }
    }
    outcome.f
}

/// One generation's worth of evolution, mirroring the mutate → train →
/// terminate → propagate → select cycle.
fn evolve_mutator(
    seed: &Mutator,
    rng: &mut StdRng,
    node_id: &mut IdGenerator,
    population_size: usize,
    target_error: f64,
    iterations_count: usize,
    threshold: f64,
    samples: &[(Vec<f64>, Vec<f64>)],
    max_function_calls: usize,
) -> Mutator {
    assert!(population_size > 1);
    assert!(population_size % 2 == 0);
    let seed_error = error_of(&seed.as_network_buf(), threshold, samples);
    if !begin(0, iterations_count, seed_error.to_bits(), target_error.to_bits()) {
        return seed.clone();
    }
    let mut population: Vec<Mutation> = (0..population_size)
        .map(|_| Mutation {
            mutator: seed.clone(),
            error: seed_error.to_bits(),
        })
        .collect();
    let mut iterations_done: usize = 0;
    loop {
        // Mutate and train each individual.
        let mut mutated: Vec<Mutation> = Vec::new();
        for item in population.into_iter() {
            let mut m = item.mutator;
            match pick_mutation(&m, rng) {
                MutationChoice::Split(arc) => {
                    let w = f64::from_bits(m.graph().arc_weight(&arc));
                    m.split(node_id, &arc, w.sqrt().to_bits());
                }
                MutationChoice::AddArc => {
                    while !m.try_random_add_arc(rng) {}
                }
                MutationChoice::RmArc(arc) => {
                    m.rm_arc(&arc);
                    m.rm_useless();
                }
            }
            let mut network_buf = m.as_network_buf();
            let error = train(&mut network_buf, threshold, samples, max_function_calls);
            mutated.push(Mutation {
                mutator: Mutator::from_network(&network_buf.as_network()),
                error: error.to_bits(),
            });
        }
        iterations_done += 1;
        if terminate(&mutated, iterations_done, iterations_count, target_error.to_bits()) {
            return select_one(mutated);
        }
        // Pair two shuffles of the population and cross each pair.
        let a = shuffled_indices(rng, mutated.len());
        let b = shuffled_indices(rng, mutated.len());
        let mut offspring: Vec<Mutation> = Vec::new();
        for (&i, &j) in a.iter().zip(b.iter()) {
            let left = &mutated[i].mutator;
            let right = &mutated[j].mutator;
            let means = mean_table(left, right);
            let child = left.union(right, &means);
            let error = error_of(&child.as_network_buf(), threshold, samples);
            offspring.push(Mutation {
                mutator: child,
                error: error.to_bits(),
            });
        }
        offspring.extend(mutated.into_iter());
        population = select(offspring, population_size);
    }
}

/// The arithmetic means of the weights of the arcs two mutators share.
fn mean_table(a: &Mutator, b: &Mutator) -> Vec<(Arc, u64)> {
    a.graph()
        .arcs()
        .iter()
        .filter(|entry| b.graph().contains_arc(&entry.0))
        .map(|entry| {
            let wa = f64::from_bits(entry.1);
            let wb = f64::from_bits(b.graph().arc_weight(&entry.0));
            (entry.0, ((wa + wb) / 2.0).to_bits())
        })
        .collect()
}

fn xor_samples() -> Vec<(Vec<f64>, Vec<f64>)> {
    vec![
        (vec![0.0, 0.0], vec![0.0]),
        (vec![0.0, 1.0], vec![1.0]),
        (vec![1.0, 0.0], vec![1.0]),
        (vec![1.0, 1.0], vec![0.0]),
    ]
}

#[test]
fn test_error_of_single_arc_network() {
    // One arc 0 -> 1 at weight 0.4, one sample [0.5] -> [0.5]: the error
    // is the distance between produced and expected output.
    let mut node_id = IdGenerator::new(0);
    let mutator = Mutator::new(&mut node_id, 1, 1, 0.4f64.to_bits());
    let samples = vec![(vec![0.5], vec![0.5])];
    let produced = error_of(&mutator.as_network_buf(), 1e-3, &samples);
    let expected: f64 = ((0.5f64 * 0.4 - 0.5) * (0.5 * 0.4 - 0.5)).sqrt();
    assert_eq!(produced, expected);
}

#[test]
fn test_error_of_two_samples_adds_distances() {
    let mut node_id = IdGenerator::new(0);
    let mutator = Mutator::new(&mut node_id, 1, 1, 0.4f64.to_bits());
    let samples = vec![(vec![0.4], vec![0.5]), (vec![0.6], vec![0.7])];
    let produced = error_of(&mutator.as_network_buf(), 1e-3, &samples);
    let w = 0.4f64;
    let expected = ((0.4f64 * w - 0.5) * (0.4 * w - 0.5)).sqrt()
        + ((0.6f64 * w - 0.7) * (0.6 * w - 0.7)).sqrt();
    assert_eq!(produced, expected);
}

#[test]
fn test_training_never_worsens_error() {
    // A 2-in/1-out bipartite network at weight 0.1 on the XOR-like
    // samples: the propagation is linear in the input vector, so this
    // error is already minimal and training must hold the line.
    let mut node_id = IdGenerator::new(0);
    let mutator = Mutator::new(&mut node_id, 2, 1, 0.1f64.to_bits());
    let samples = xor_samples();
    let mut network_buf = mutator.as_network_buf();
    let initial = error_of(&network_buf, 1e-4, &samples);
    let trained = train(&mut network_buf, 1e-4, &samples, 1000);
    assert!(trained <= initial);
    // The weights written back give the reported error.
    let recomputed = error_of(&network_buf, 1e-4, &samples);
    assert!((recomputed - trained).abs() <= 1e-9);
}

#[test]
fn test_training_improves_error() {
    // A learnable target: one input, one output, seed weight 0.1,
    // sample [1.0] -> [0.9].  Training strictly improves the error.
    let mut node_id = IdGenerator::new(0);
    let mutator = Mutator::new(&mut node_id, 1, 1, 0.1f64.to_bits());
    let samples = vec![(vec![1.0], vec![0.9])];
    let mut network_buf = mutator.as_network_buf();
    let initial = error_of(&network_buf, 1e-4, &samples);
    let trained = train(&mut network_buf, 1e-4, &samples, 1000);
    assert!(trained < initial);
    assert!(trained < 1e-3);
}

#[test]
fn test_evolve_zero_iterations_should_do_nothing() {
    let mut node_id = IdGenerator::new(0);
    let seed = Mutator::new(&mut node_id, 3, 2, 0.1f64.to_bits());
    let samples = vec![
        (vec![0.6, 0.7, 0.8], vec![0.5, 0.4]),
        (vec![0.3, 0.4, 0.5], vec![0.3, 0.4]),
    ];
    let mut rng = StdRng::seed_from_u64(1);
    let evolved = evolve_mutator(
        &seed, &mut rng, &mut node_id, 2, 1e-3, 0, 1e-4, &samples, 111,
    );
    assert_eq!(evolved, seed);
}

#[test]
fn test_evolve_should_succeed() {
    // Two iterations with a population of two end at or below the
    // seed's error.
    let mut node_id = IdGenerator::new(0);
    let seed = Mutator::new(&mut node_id, 3, 2, 0.1f64.to_bits());
    let samples = vec![
        (vec![0.6, 0.7, 0.8], vec![0.5, 0.4]),
        (vec![0.3, 0.4, 0.5], vec![0.3, 0.4]),
    ];
    let initial = error_of(&seed.as_network_buf(), 1e-4, &samples);
    let mut rng = StdRng::seed_from_u64(1);
    let evolved = evolve_mutator(
        &seed, &mut rng, &mut node_id, 2, 1e-3, 2, 1e-4, &samples, 111,
    );
    let evolved_error = error_of(&evolved.as_network_buf(), 1e-4, &samples);
    assert!(evolved_error <= initial);
}

#[test]
fn test_select_keeps_the_best() {
    let mut node_id = IdGenerator::new(0);
    let m = Mutator::new(&mut node_id, 1, 1, 0.5f64.to_bits());
    let population: Vec<Mutation> = [0.9, 0.2, 0.4, 0.2, 0.7]
        .iter()
        .map(|e: &f64| Mutation {
            mutator: m.clone(),
            error: e.to_bits(),
        })
        .collect();
    let kept = select(population, 3);
    let errors: Vec<f64> = kept.iter().map(|x| f64::from_bits(x.error)).collect();
    assert_eq!(errors, vec![0.2, 0.2, 0.4]);
}

#[test]
fn test_select_one_returns_a_minimal_individual() {
    let mut node_id = IdGenerator::new(0);
    let best = Mutator::new(&mut node_id, 1, 1, 0.5f64.to_bits());
    let mut other_id = IdGenerator::new(10);
    let other = Mutator::new(&mut other_id, 1, 1, 0.25f64.to_bits());
    let population = vec![
        Mutation {
            mutator: other.clone(),
            error: 0.9f64.to_bits(),
        },
        Mutation {
            mutator: best.clone(),
            error: 0.1f64.to_bits(),
        },
        Mutation {
            mutator: other.clone(),
            error: 0.1f64.to_bits(),
        },
    ];
    // The first minimal individual wins ties.
    assert_eq!(select_one(population), best);
}

#[test]
fn test_terminate_on_budget_or_target() {
    let mut node_id = IdGenerator::new(0);
    let m = Mutator::new(&mut node_id, 1, 1, 0.5f64.to_bits());
    let population = vec![Mutation {
        mutator: m,
        error: 0.4f64.to_bits(),
    }];
    assert!(terminate(&population, 3, 3, 0.1f64.to_bits()));
    assert!(!terminate(&population, 2, 3, 0.1f64.to_bits()));
    assert!(terminate(&population, 2, 3, 0.4f64.to_bits()));
}

#[test]
fn test_begin_guard() {
    assert!(begin(0, 1, 0.5f64.to_bits(), 0.1f64.to_bits()));
    assert!(!begin(0, 0, 0.5f64.to_bits(), 0.1f64.to_bits()));
    assert!(!begin(1, 1, 0.5f64.to_bits(), 0.1f64.to_bits()));
    assert!(!begin(0, 1, 0.1f64.to_bits(), 0.1f64.to_bits()));
}

#[test]
fn test_shuffled_indices_is_a_permutation() {
    let mut rng = StdRng::seed_from_u64(7);
    let mut seen = shuffled_indices(&mut rng, 20);
    seen.sort();
    let expected: Vec<usize> = (0..20).collect();
    assert_eq!(seen, expected);
}

#[test]
fn test_random_helpers_stay_in_the_graph() {
    let mut node_id = IdGenerator::new(0);
    let m = Mutator::new(&mut node_id, 2, 2, 0.5f64.to_bits());
    let mut rng = StdRng::seed_from_u64(3);
    for _ in 0..20 {
        let node = m.random_node(&mut rng);
        assert!(m.graph().contains_node(&node));
        let arc = m.random_arc(&mut rng);
        assert!(m.graph().contains_arc(&arc));
    }
}
