use genann_rs::activation::{Activation, Linear, Sigmoid, Threshold};
use genann_rs::NeuralNetworkError;

#[test]
fn constructors_fill_the_variants() {
    match NeuralNetworkError::invalid_param("inputs", "must be at least 1") {
        NeuralNetworkError::InvalidParameter { param, reason } => {
            assert_eq!(param, "inputs");
            assert_eq!(reason, "must be at least 1");
        }
        other => panic!("unexpected {:?}", other),
    }
    assert!(matches!(
        NeuralNetworkError::input_mismatch(2, 3),
        NeuralNetworkError::InputLengthMismatch { expected: 2, actual: 3 }
    ));
    assert!(matches!(
        NeuralNetworkError::output_mismatch(1, 4),
        NeuralNetworkError::OutputLengthMismatch { expected: 1, actual: 4 }
    ));
    match NeuralNetworkError::computation(String::from("NaN")) {
        NeuralNetworkError::Computation(msg) => assert_eq!(msg, "NaN"),
        other => panic!("unexpected {:?}", other),
    }
}

#[test]
fn error_texts() {
    assert_eq!(
        NeuralNetworkError::invalid_param("hidden", "must be at least 1").to_string(),
        "Invalid parameter 'hidden': must be at least 1"
    );
    assert_eq!(
        NeuralNetworkError::input_mismatch(2, 30).to_string(),
        "Input length mismatch: expected 2, got 30"
    );
    assert_eq!(
        NeuralNetworkError::output_mismatch(1, 0).to_string(),
        "Output length mismatch: expected 1, got 0"
    );
    assert_eq!(NeuralNetworkError::Parse("bad".into()).to_string(), "Parse error: bad");
    assert_eq!(NeuralNetworkError::computation("inf").to_string(), "Computation error: inf");
    let io = std::io::Error::new(std::io::ErrorKind::Other, "disk on fire");
    assert_eq!(NeuralNetworkError::Io(io).to_string(), "I/O error: disk on fire");
    let from: NeuralNetworkError = std::io::Error::new(std::io::ErrorKind::Other, "x").into();
    assert!(matches!(from, NeuralNetworkError::Io(_)));
}

#[test]
fn activation_names_and_default() {
    assert_eq!(Activation::SigmoidCached.name(), "Sigmoid (Cached)");
    assert_eq!(Activation::Sigmoid.name(), "Sigmoid");
    assert_eq!(Activation::Linear.name(), "Linear");
    assert_eq!(Activation::Threshold.name(), "Threshold");
    assert!(matches!(Activation::default(), Activation::SigmoidCached));
    assert_eq!(Sigmoid::new().name(), "Sigmoid");
    assert_eq!(Linear::new().name(), "Linear");
    assert_eq!(Threshold::new().name(), "Threshold");
}
