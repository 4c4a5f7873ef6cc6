use genann_rs::persist::{check_weight_count, header_line, parse_header, weights_line};
use genann_rs::tokens::word_ranges;
use genann_rs::topology::NetworkShape;
use genann_rs::NeuralNetworkError;

/// What reading a saved network gives: its shape and weights. The weights
/// are read here, by the standard float parser.
fn read_text(text: &str) -> Result<(NetworkShape, Vec<f64>), NeuralNetworkError> {
    let mut lines = text.split_inclusive('\n');
    let first = lines.next().ok_or(NeuralNetworkError::Parse("Unexpected end of file".into()))?;
    let (shape, inline) = parse_header(first)?;
    let (second, ranges) = if inline.is_empty() {
        let second =
            lines.next().ok_or(NeuralNetworkError::Parse("Unexpected end of file".into()))?;
        (second, word_ranges(second))
    } else {
        (first, inline)
    };
    let mut weights = Vec::new();
    for (s, e) in ranges {
        let w = second[s..e]
            .parse::<f64>()
            .map_err(|e| NeuralNetworkError::Parse(format!("Failed to parse float: {}", e)))?;
        weights.push(w);
    }
    check_weight_count(&shape, weights.len())?;
    Ok((shape, weights))
}

fn write_text(shape: &NetworkShape, weights: &[f64]) -> String {
    let texts: Vec<String> = weights.iter().map(|w| format!("{:.20e}", w)).collect();
    let mut out = header_line(shape);
    out.push_str(&weights_line(&texts));
    out
}

fn parse_message<T: std::fmt::Debug>(r: Result<T, NeuralNetworkError>) -> String {
    match r {
        Err(NeuralNetworkError::Parse(msg)) => msg,
        other => panic!("expected a parse error, got {:?}", other),
    }
}

#[test]
fn test_write_and_read() {
    let shape = NetworkShape::new(2, 1, 2, 1).unwrap();
    let weights = [0.5, 1.0, 1.0, 1.0, 1.0, 1.0, 0.5, 1.0, -1.0];
    let text = write_text(&shape, &weights);
    let (loaded, loaded_weights) = read_text(&text).unwrap();
    assert_eq!(loaded.inputs(), shape.inputs());
    assert_eq!(loaded.hidden_layers(), shape.hidden_layers());
    assert_eq!(loaded.hidden(), shape.hidden());
    assert_eq!(loaded.outputs(), shape.outputs());
    assert_eq!(loaded.total_weights(), shape.total_weights());
    assert_eq!(loaded_weights, weights.to_vec());
}

#[test]
fn test_read_c_format() {
    let c_format_data = "2 1 2 1\n5.00000000000000000000e-01 1.00000000000000000000e+00 1.00000000000000000000e+00 1.00000000000000000000e+00 1.00000000000000000000e+00 1.00000000000000000000e+00 5.00000000000000000000e-01 1.00000000000000000000e+00 -1.00000000000000000000e+00\n";
    let (shape, weights) = read_text(c_format_data).unwrap();
    assert_eq!(weights, vec![0.5, 1.0, 1.0, 1.0, 1.0, 1.0, 0.5, 1.0, -1.0]);
    // XOR with threshold activations, over the library's layout.
    let inputs = [[0.0, 0.0], [0.0, 1.0], [1.0, 0.0], [1.0, 1.0]];
    let expected = [0.0, 1.0, 1.0, 0.0];
    for i in 0..4 {
        let mut outputs = vec![0.0; shape.total_neurons()];
        outputs[..2].copy_from_slice(&inputs[i]);
        for l in 0..shape.layer_count() {
            for j in 0..shape.layer_size(l) {
                let w = shape.neuron_weight_start(l, j);
                let mut sum = weights[w] * -1.0;
                for k in 0..shape.layer_fan_in(l) {
                    sum += weights[w + 1 + k] * outputs[shape.layer_input_start(l) + k];
                }
                outputs[shape.output_index(l, j)] = if sum > 0.0 { 1.0 } else { 0.0 };
            }
        }
        let output = &outputs[shape.output_start()..];
        assert!((output[0] - expected[i]).abs() < 0.001);
    }
}

#[test]
fn test_invalid_format() {
    let invalid = "2 1 2\n1.0 2.0";
    assert!(read_text(invalid).is_err());
    let invalid = "2 1 2 1\n1.0 2.0";
    assert!(read_text(invalid).is_err());
    let invalid = "2 1 2 1\nabc def";
    assert!(read_text(invalid).is_err());
}

#[test]
fn header_line_is_four_decimal_counts() {
    let shape = NetworkShape::new(2, 1, 2, 1).unwrap();
    assert_eq!(header_line(&shape), "2 1 2 1\n");
    let shape = NetworkShape::new(4, 2, 8, 3).unwrap();
    assert_eq!(header_line(&shape), "4 2 8 3\n");
    let shape = NetworkShape::new(1234, 0, 0, 10).unwrap();
    assert_eq!(header_line(&shape), "1234 0 0 10\n");
}

#[test]
fn header_roundtrip() {
    for &(i, hl, h, o) in &[(2, 1, 2, 1), (4, 2, 8, 3), (2, 0, 0, 1), (10, 0, 99, 7), (1, 12, 300, 1)] {
        let shape = NetworkShape::new(i, hl, h, o).unwrap();
        let (back, inline) = parse_header(&header_line(&shape)).unwrap();
        assert!(inline.is_empty());
        assert_eq!(
            (back.inputs(), back.hidden_layers(), back.hidden(), back.outputs()),
            (i, hl, h, o)
        );
    }
}

#[test]
fn header_errors() {
    assert_eq!(parse_message(parse_header("2 1 2\n")), "Expected 4 numbers in first line, got 3");
    assert_eq!(parse_message(parse_header("")), "Expected 4 numbers in first line, got 0");
    assert_eq!(
        parse_message(parse_header("2 1 x 1\n")),
        "Failed to parse integer: invalid digit found in string"
    );
    assert_eq!(
        parse_message(parse_header("2 -1 2 1\n")),
        "Failed to parse integer: invalid digit found in string"
    );
    assert_eq!(
        parse_message(parse_header("2 1 + 1\n")),
        "Failed to parse integer: invalid digit found in string"
    );
    assert_eq!(
        parse_message(parse_header("2 1 2 99999999999999999999999\n")),
        "Failed to parse integer: number too large to fit in target type"
    );
    // The first bad word decides.
    assert_eq!(
        parse_message(parse_header("99999999999999999999999 x 2 1\n")),
        "Failed to parse integer: number too large to fit in target type"
    );
    assert_eq!(
        parse_message(parse_header(&format!("{} 0 0 1\n", usize::MAX))),
        "Network does not fit in memory"
    );
    match parse_header("0 1 2 1\n") {
        Err(NeuralNetworkError::InvalidParameter { param, .. }) => assert_eq!(param, "inputs"),
        other => panic!("unexpected {:?}", other),
    }
}

#[test]
fn header_accepts_what_the_standard_parser_accepts() {
    let (s, _) = parse_header("  +2\t1 2 1\r\n").unwrap();
    assert_eq!((s.inputs(), s.hidden_layers(), s.hidden(), s.outputs()), (2, 1, 2, 1));
    let (s, _) = parse_header("0002 00 0 1").unwrap();
    assert_eq!((s.inputs(), s.hidden_layers(), s.hidden(), s.outputs()), (2, 0, 0, 1));
    for word in ["12", "+12", "-12", "1x", "", "+", "-", "007", "18446744073709551616"] {
        let text = format!("{} 1 1 1", word);
        let ours = parse_header(&text);
        let std_ok = word.parse::<usize>().is_ok() && !word.is_empty();
        assert_eq!(ours.is_ok(), std_ok, "word {:?}", word);
    }
}

#[test]
fn weight_count_check() {
    let shape = NetworkShape::new(2, 1, 2, 1).unwrap();
    assert!(check_weight_count(&shape, 9).is_ok());
    match check_weight_count(&shape, 2) {
        Err(NeuralNetworkError::Parse(msg)) => assert_eq!(msg, "Expected 9 weights, got 2"),
        other => panic!("unexpected {:?}", other),
    }
}

#[test]
fn weights_line_joins_with_spaces() {
    let words: Vec<String> = vec!["1.5e0".into(), "-2e-3".into(), "7".into()];
    assert_eq!(weights_line(&words), "1.5e0 -2e-3 7\n");
    assert_eq!(weights_line(&vec!["x".to_string()]), "x\n");
    assert_eq!(weights_line(&Vec::new()), "\n");
    let line = weights_line(&words);
    let back: Vec<&str> = word_ranges(&line).into_iter().map(|(a, b)| &line[a..b]).collect();
    assert_eq!(back, vec!["1.5e0", "-2e-3", "7"]);
}

#[test]
fn written_weights_read_back_exactly() {
    let shape = NetworkShape::new(4, 2, 8, 3).unwrap();
    let weights: Vec<f64> = (0..shape.total_weights())
        .map(|i| ((i % 100) as f64 - 50.0) / 10.0 + 1.0 / 3.0)
        .collect();
    let text = write_text(&shape, &weights);
    let (loaded, loaded_weights) = read_text(&text).unwrap();
    assert_eq!(loaded.total_weights(), shape.total_weights());
    assert_eq!(loaded_weights, weights);
}

#[test]
fn counts_and_weights_on_one_line() {
    let line = "2 1 2 1 0.5 1 1 1 1 1 0.5 1 -1";
    let (shape, inline) = parse_header(line).unwrap();
    assert_eq!(shape.total_weights(), 9);
    let words: Vec<&str> = inline.iter().map(|&(a, b)| &line[a..b]).collect();
    assert_eq!(words, vec!["0.5", "1", "1", "1", "1", "1", "0.5", "1", "-1"]);
    let (_, weights) = read_text(line).unwrap();
    assert_eq!(weights, vec![0.5, 1.0, 1.0, 1.0, 1.0, 1.0, 0.5, 1.0, -1.0]);
    // A single line with the wrong number of weights is refused.
    assert!(read_text("2 1 2 1 5\n").is_err());
}
