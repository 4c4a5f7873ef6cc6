# genann_rs

A minimal feed-forward neural network with back-propagation training.

`src/` is the verified library (Verus). It holds everything about a network
that is not floating-point arithmetic:

- `topology` — the shape of a network (inputs, hidden layers, neurons per
  hidden layer, outputs), the checks that construction makes, and the flat
  layout of weights, neuron outputs and deltas. Proved: each neuron's weight
  block follows the previous one from weight 0 to the last weight, every
  weight index belongs to exactly one (neuron, bias-or-input) slot, and every
  layer reads exactly the outputs of the layer before it.
- `persist` — the saved text format: the first line (four counts), the
  weights line (words separated by spaces), and the count check. Proved:
  reading back a written first line gives the same shape, and a written
  weights line splits back into the words that were written.
- `decimal`, `tokens` — unsigned decimal numerals and whitespace-separated
  words, as the standard library prints, parses and splits them.
- `error`, `activation` — the error type with its messages, and the
  activation kinds with their names.

`app/` holds the floating-point side: activation functions, the weights and
neuron values, forward propagation, training, random initialisation and the
file I/O. It takes every index from the library's `NetworkShape`.
