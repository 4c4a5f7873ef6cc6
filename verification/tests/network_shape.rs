use genann_rs::topology::NetworkShape;
use genann_rs::NeuralNetworkError;

fn shape(i: usize, hl: usize, h: usize, o: usize) -> NetworkShape {
    NetworkShape::new(i, hl, h, o).unwrap()
}

#[test]
fn test_new_invalid_params() {
    assert!(NetworkShape::new(0, 1, 2, 1).is_err());
    assert!(NetworkShape::new(2, 1, 2, 0).is_err());
    assert!(NetworkShape::new(2, 1, 0, 1).is_err());
}

#[test]
fn invalid_params_name_the_parameter() {
    match NetworkShape::new(0, 1, 2, 1) {
        Err(NeuralNetworkError::InvalidParameter { param, reason }) => {
            assert_eq!(param, "inputs");
            assert_eq!(reason, "must be at least 1");
        }
        other => panic!("unexpected {:?}", other),
    }
    match NetworkShape::new(2, 1, 2, 0) {
        Err(NeuralNetworkError::InvalidParameter { param, reason }) => {
            assert_eq!(param, "outputs");
            assert_eq!(reason, "must be at least 1");
        }
        other => panic!("unexpected {:?}", other),
    }
    match NetworkShape::new(2, 1, 0, 1) {
        Err(NeuralNetworkError::InvalidParameter { param, reason }) => {
            assert_eq!(param, "hidden");
            assert_eq!(reason, "must be at least 1 when hidden_layers > 0");
        }
        other => panic!("unexpected {:?}", other),
    }
    // Inputs are checked first.
    match NetworkShape::new(0, 1, 0, 0) {
        Err(NeuralNetworkError::InvalidParameter { param, .. }) => assert_eq!(param, "inputs"),
        other => panic!("unexpected {:?}", other),
    }
    // No hidden layers: any hidden count is accepted.
    assert!(NetworkShape::new(2, 0, 0, 1).is_ok());
    assert!(NetworkShape::new(2, 0, 7, 1).is_ok());
}

#[test]
fn test_new_valid_params() {
    let nn = shape(2, 0, 0, 1);
    assert_eq!(nn.inputs(), 2);
    assert_eq!(nn.hidden_layers(), 0);
    assert_eq!(nn.outputs(), 1);

    let nn = shape(4, 2, 8, 3);
    assert_eq!(nn.inputs(), 4);
    assert_eq!(nn.hidden_layers(), 2);
    assert_eq!(nn.hidden(), 8);
    assert_eq!(nn.outputs(), 3);
}

#[test]
fn test_clone() {
    let nn = shape(2, 1, 2, 1);
    let cloned = nn.clone();
    assert_eq!(nn.inputs(), cloned.inputs());
    assert_eq!(nn.hidden_layers(), cloned.hidden_layers());
    assert_eq!(nn.total_weights(), cloned.total_weights());
}

#[test]
fn test_run_input_length_mismatch() {
    let nn = shape(2, 1, 2, 1);
    assert!(nn.check_input_len(1).is_err());
    assert!(nn.check_input_len(3).is_err());
    assert!(nn.check_input_len(2).is_ok());
}

#[test]
fn length_checks_report_expected_and_actual() {
    let nn = shape(2, 1, 2, 1);
    match nn.check_input_len(3) {
        Err(NeuralNetworkError::InputLengthMismatch { expected, actual }) => {
            assert_eq!((expected, actual), (2, 3))
        }
        other => panic!("unexpected {:?}", other),
    }
    match nn.check_training_lens(1, 5) {
        Err(NeuralNetworkError::InputLengthMismatch { expected, actual }) => {
            assert_eq!((expected, actual), (2, 1))
        }
        other => panic!("unexpected {:?}", other),
    }
    match nn.check_training_lens(2, 5) {
        Err(NeuralNetworkError::OutputLengthMismatch { expected, actual }) => {
            assert_eq!((expected, actual), (1, 5))
        }
        other => panic!("unexpected {:?}", other),
    }
    assert!(nn.check_training_lens(2, 1).is_ok());
}

#[test]
fn counts_follow_the_formulas() {
    let s = shape(2, 1, 2, 1);
    assert_eq!(s.total_weights(), 9);
    assert_eq!(s.total_neurons(), 5);
    assert_eq!(s.total_deltas(), 3);
    assert_eq!(s.output_start(), 4);

    let s = shape(4, 2, 8, 3);
    assert_eq!(s.total_weights(), 5 * 8 + 9 * 8 + 9 * 3);
    assert_eq!(s.total_neurons(), 23);
    assert_eq!(s.total_deltas(), 19);
    assert_eq!(s.output_start(), 20);

    let s = shape(2, 0, 0, 1);
    assert_eq!(s.total_weights(), 3);
    assert_eq!(s.total_neurons(), 3);
    assert_eq!(s.layer_count(), 1);
    assert_eq!(s.layer_fan_in(0), 2);
}

#[test]
fn weight_blocks_follow_each_other() {
    for &(i, hl, h, o) in &[(2, 1, 2, 1), (4, 2, 8, 3), (2, 0, 0, 1), (3, 3, 1, 2), (1, 4, 5, 6)] {
        let s = shape(i, hl, h, o);
        let mut next = 0;
        let mut seen = vec![false; s.total_weights()];
        for l in 0..s.layer_count() {
            assert_eq!(s.layer_weight_start(l), next);
            for j in 0..s.layer_size(l) {
                let start = s.neuron_weight_start(l, j);
                assert_eq!(start, next);
                assert!(!seen[start]);
                seen[start] = true;
                for k in 0..s.layer_fan_in(l) {
                    let w = s.input_weight(l, j, k);
                    assert_eq!(w, start + 1 + k);
                    assert!(!seen[w]);
                    seen[w] = true;
                }
                next = start + s.layer_fan_in(l) + 1;
            }
        }
        assert_eq!(next, s.total_weights());
        assert!(seen.iter().all(|&b| b));
    }
}

#[test]
fn neuron_slots_follow_the_layers() {
    let s = shape(4, 2, 8, 3);
    assert_eq!(s.layer_input_start(0), 0);
    assert_eq!(s.layer_fan_in(0), 4);
    let mut seen = vec![false; s.total_neurons()];
    for l in 0..s.layer_count() {
        for j in 0..s.layer_size(l) {
            let out = s.output_index(l, j);
            assert!(!seen[out]);
            seen[out] = true;
            assert_eq!(s.delta_index(l, j) + s.inputs(), out);
        }
        if l > 0 {
            for k in 0..s.layer_fan_in(l) {
                assert_eq!(s.layer_input_start(l) + k, s.output_index(l - 1, k));
            }
        }
    }
    assert!(seen[s.inputs()..].iter().all(|&b| b));
    assert!(seen[..s.inputs()].iter().all(|&b| !b));
    assert_eq!(s.output_index(2, 0), s.output_start());
}

#[test]
fn allocation_check() {
    assert!(NetworkShape::can_allocate(2, 1, 2, 1));
    assert!(NetworkShape::can_allocate(0, usize::MAX, usize::MAX, usize::MAX));
    assert!(!NetworkShape::can_allocate(usize::MAX, 0, 0, 1));
    assert!(!NetworkShape::can_allocate(1, usize::MAX, 1, 1));
    assert!(!NetworkShape::can_allocate(2, 2, usize::MAX, 1));
    assert!(NetworkShape::can_allocate(2, 1, 1 << 20, 1));
}

fn threshold(x: f64) -> f64 {
    if x > 0.0 {
        1.0
    } else {
        0.0
    }
}

/// The forward pass, computed over the library's layout.
fn forward(s: &NetworkShape, weights: &[f64], inputs: &[f64]) -> Vec<f64> {
    let mut outputs = vec![0.0; s.total_neurons()];
    outputs[..s.inputs()].copy_from_slice(inputs);
    for l in 0..s.layer_count() {
        let start = s.layer_input_start(l);
        for j in 0..s.layer_size(l) {
            let w = s.neuron_weight_start(l, j);
            let mut sum = weights[w] * -1.0;
            for k in 0..s.layer_fan_in(l) {
                sum += weights[s.input_weight(l, j, k)] * outputs[start + k];
            }
            outputs[s.output_index(l, j)] = threshold(sum);
        }
    }
    outputs[s.output_start()..].to_vec()
}

#[test]
fn test_xor_with_threshold() {
    let s = shape(2, 1, 2, 1);
    let weights = [0.5, 1.0, 1.0, 1.0, 1.0, 1.0, 0.5, 1.0, -1.0];
    assert_eq!(weights.len(), s.total_weights());
    let inputs = [[0.0, 0.0], [0.0, 1.0], [1.0, 0.0], [1.0, 1.0]];
    let expected = [0.0, 1.0, 1.0, 0.0];
    for i in 0..4 {
        let output = forward(&s, &weights, &inputs[i]);
        assert!((output[0] - expected[i]).abs() < 0.001);
    }
}

#[test]
fn forward_plan_walks_the_weights_in_order() {
    for &(i, hl, h, o) in &[(2, 1, 2, 1), (4, 2, 8, 3), (2, 0, 0, 1), (3, 3, 1, 2)] {
        let s = shape(i, hl, h, o);
        let plan = s.forward_plan();
        assert_eq!(plan.len(), s.total_deltas());
        let mut w = 0;
        for (t, step) in plan.iter().enumerate() {
            assert_eq!(step.weight_start, w);
            w += step.fan_in + 1;
            assert_eq!(step.output, s.inputs() + t);
        }
        assert_eq!(w, s.total_weights());
        for l in 0..s.layer_count() {
            for j in 0..s.layer_size(l) {
                let step = plan[s.delta_index(l, j)];
                assert_eq!(step.layer, l);
                assert_eq!(step.weight_start, s.neuron_weight_start(l, j));
                assert_eq!(step.input_start, s.layer_input_start(l));
                assert_eq!(step.fan_in, s.layer_fan_in(l));
                assert_eq!(step.output, s.output_index(l, j));
            }
        }
    }
    let plan = shape(2, 1, 2, 1).forward_plan();
    let starts: Vec<usize> = plan.iter().map(|p| p.weight_start).collect();
    assert_eq!(starts, vec![0, 3, 6]);
    let inputs: Vec<usize> = plan.iter().map(|p| p.input_start).collect();
    assert_eq!(inputs, vec![0, 0, 2]);
}
