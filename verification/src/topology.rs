//! The shape of a feed-forward network and the layout of its weights,
//! neuron outputs and deltas in flat arrays.
//!
//! Layers are numbered `0 ..= hidden_layers`: layers below `hidden_layers`
//! are the hidden layers, layer `hidden_layers` is the output layer. Every
//! neuron of layer `l` owns one block of `fan_in(l) + 1` consecutive weights:
//! its bias weight first, then one weight per neuron that feeds it.

use vstd::prelude::*;
use crate::error::NeuralNetworkError;

verus! {

/// The four numbers that describe a network, as mathematical integers.
pub struct ShapeModel {
    pub inputs: nat,
    pub hidden_layers: nat,
    pub hidden: nat,
    pub outputs: nat,
}

impl ShapeModel {
    /// The parameters that construction accepts.
    pub open spec fn valid_params(self) -> bool {
        &&& self.inputs >= 1
        &&& self.outputs >= 1
        &&& self.hidden_layers > 0 ==> self.hidden >= 1
    }

    /// Number of weights of the whole network.
    pub open spec fn total_weights(self) -> int {
        if self.hidden_layers > 0 {
            (self.inputs + 1) * self.hidden + (self.hidden_layers - 1) * (self.hidden + 1)
                * self.hidden + (self.hidden + 1) * self.outputs
        } else {
            ((self.inputs + 1) * self.outputs) as int
        }
    }

    /// Number of neurons, input neurons included.
    pub open spec fn total_neurons(self) -> int {
        (self.inputs + self.hidden * self.hidden_layers + self.outputs) as int
    }

    /// Number of deltas: one per neuron that is not an input.
    pub open spec fn total_deltas(self) -> int {
        (self.hidden * self.hidden_layers + self.outputs) as int
    }

    /// The counts can be held in a `usize`.
    pub open spec fn fits(self) -> bool {
        &&& self.total_weights() <= usize::MAX
        &&& self.total_neurons() <= usize::MAX
    }

    /// A shape that a network can have.
    pub open spec fn valid(self) -> bool {
        self.valid_params() && self.fits()
    }

    /// Index of the output layer.
    pub open spec fn output_layer(self) -> int {
        self.hidden_layers as int
    }

    /// Whether `l` numbers a layer.
    pub open spec fn is_layer(self, l: int) -> bool {
        0 <= l <= self.hidden_layers
    }

    /// Number of neurons in layer `l`.
    pub open spec fn layer_size(self, l: int) -> int {
        if l < self.hidden_layers {
            self.hidden as int
        } else {
            self.outputs as int
        }
    }

    /// Number of neurons that feed each neuron of layer `l`.
    pub open spec fn fan_in(self, l: int) -> int {
        if l == 0 {
            self.inputs as int
        } else {
            self.hidden as int
        }
    }

    /// Whether `(l, j)` names a neuron of a layer.
    pub open spec fn is_neuron(self, l: int, j: int) -> bool {
        self.is_layer(l) && 0 <= j < self.layer_size(l)
    }

    /// Index of the first weight of layer `l`.
    pub open spec fn layer_weight_start(self, l: int) -> int {
        if l == 0 {
            0
        } else {
            (self.inputs + 1) * self.hidden + (l - 1) * (self.hidden + 1) * self.hidden
        }
    }

    /// Index just past the last weight of layer `l`.
    pub open spec fn layer_weight_end(self, l: int) -> int {
        self.layer_weight_start(l) + self.layer_size(l) * (self.fan_in(l) + 1)
    }

    /// Index of the bias weight of neuron `j` of layer `l`.
    pub open spec fn neuron_weight_start(self, l: int, j: int) -> int {
        self.layer_weight_start(l) + j * (self.fan_in(l) + 1)
    }

    /// Index of slot `s` of the weight block of neuron `j` of layer `l`:
    /// slot 0 holds the bias weight, slot `k + 1` the weight of input `k`.
    pub open spec fn weight_slot(self, l: int, j: int, s: int) -> int {
        self.neuron_weight_start(l, j) + s
    }

    /// Index of the weight by which neuron `j` of layer `l` multiplies its
    /// `k`-th input.
    pub open spec fn input_weight(self, l: int, j: int, k: int) -> int {
        self.neuron_weight_start(l, j) + 1 + k
    }

    /// Index, among all neuron outputs, of the first input of layer `l`.
    pub open spec fn input_start(self, l: int) -> int {
        if l == 0 {
            0
        } else {
            self.inputs + (l - 1) * self.hidden
        }
    }

    /// Index, among all neuron outputs, of neuron `j` of layer `l`.
    pub open spec fn output_index(self, l: int, j: int) -> int {
        self.inputs + l * self.hidden + j
    }

    /// Index, among the deltas, of neuron `j` of layer `l`.
    pub open spec fn delta_index(self, l: int, j: int) -> int {
        l * self.hidden + j
    }

    /// Whether `s` describes neuron `j` of layer `l`: its weight block,
    /// the outputs it reads and the output it writes.
    pub open spec fn is_step_of(self, s: NeuronStep, l: int, j: int) -> bool {
        &&& s.layer == l
        &&& s.weight_start == self.neuron_weight_start(l, j)
        &&& s.input_start == self.input_start(l)
        &&& s.fan_in == self.fan_in(l)
        &&& s.output == self.output_index(l, j)
    }

    /// Index, among all neuron outputs, of the first network output.
    pub open spec fn output_start(self) -> int {
        (self.inputs + self.hidden * self.hidden_layers) as int
    }
}

/// Layer `l` ends where layer `l + 1` starts, and the output layer ends at
/// the last weight.
pub proof fn lemma_layer_end(m: ShapeModel, l: int)
    requires
        m.valid_params(),
        m.is_layer(l),
    ensures
        l < m.output_layer() ==> m.layer_weight_end(l) == m.layer_weight_start(l + 1),
        l == m.output_layer() ==> m.layer_weight_end(l) == m.total_weights(),
{
    let i = m.inputs as int;
    let h = m.hidden as int;
    let o = m.outputs as int;
    let hl = m.hidden_layers as int;
    if l < hl {
        if l == 0 {
            assert(h * (i + 1) == (i + 1) * h) by (nonlinear_arith);
        } else {
            assert((l - 1) * (h + 1) * h + h * (h + 1) == l * (h + 1) * h) by (nonlinear_arith);
        }
    } else if hl == 0 {
        assert(o * (i + 1) == (i + 1) * o) by (nonlinear_arith);
    } else {
        assert(o * (h + 1) == (h + 1) * o) by (nonlinear_arith);
    }
}

/// Layers start in order.
pub proof fn lemma_layer_start_monotone(m: ShapeModel, l1: int, l2: int)
    requires
        m.valid_params(),
        0 <= l1 <= l2,
    ensures
        0 <= m.layer_weight_start(l1) <= m.layer_weight_start(l2),
{
    let i = m.inputs as int;
    let h = m.hidden as int;
    assert(0 <= (i + 1) * h) by (nonlinear_arith) requires i >= 0, h >= 0;
    if l1 >= 1 {
        assert((l1 - 1) * (h + 1) * h <= (l2 - 1) * (h + 1) * h) by (nonlinear_arith)
            requires 1 <= l1 <= l2, h >= 0;
    }
    if l2 >= 1 {
        assert(0 <= (l2 - 1) * (h + 1) * h) by (nonlinear_arith) requires 1 <= l2, h >= 0;
    }
}

/// Every layer ends no later than the last weight.
pub proof fn lemma_layer_end_bounded(m: ShapeModel, l: int)
    requires
        m.valid_params(),
        m.is_layer(l),
    ensures
        m.layer_weight_start(l) <= m.layer_weight_end(l) <= m.total_weights(),
    decreases m.hidden_layers - l,
{
    lemma_layer_end(m, l);
    assert(0 <= m.layer_size(l) * (m.fan_in(l) + 1)) by (nonlinear_arith)
        requires m.layer_size(l) >= 0, m.fan_in(l) >= 0;
    if l < m.output_layer() {
        lemma_layer_start_monotone(m, l + 1, m.output_layer());
        lemma_layer_end_bounded(m, m.output_layer());
    }
}

/// Every neuron's output slot lies among the non-input neurons.
pub proof fn lemma_output_index_bounded(m: ShapeModel, l: int, j: int)
    requires
        m.valid_params(),
        m.is_neuron(l, j),
    ensures
        m.inputs <= m.output_index(l, j) < m.total_neurons(),
        0 <= m.delta_index(l, j) < m.total_deltas(),
{
    let h = m.hidden as int;
    let hl = m.hidden_layers as int;
    if l < hl {
        assert(l * h + j < h * hl && l * h >= 0) by (nonlinear_arith)
            requires 0 <= l < hl, 0 <= j < h;
    } else {
        assert(l * h == h * hl) by (nonlinear_arith) requires l == hl;
        assert(l * h >= 0) by (nonlinear_arith) requires l >= 0, h >= 0;
    }
}

/// The weight block of every neuron lies inside the weights.
pub proof fn lemma_neuron_block_bounded(m: ShapeModel, l: int, j: int)
    requires
        m.valid_params(),
        m.is_neuron(l, j),
    ensures
        m.layer_weight_start(l) <= m.neuron_weight_start(l, j),
        m.neuron_weight_start(l, j) + m.fan_in(l) + 1 <= m.layer_weight_end(l),
        m.layer_weight_end(l) <= m.total_weights(),
{
    lemma_layer_end_bounded(m, l);
    let f = m.fan_in(l) + 1;
    assert(0 <= j * f && j * f + f <= m.layer_size(l) * f) by (nonlinear_arith)
        requires 0 <= j < m.layer_size(l), f >= 1;
}

/// Walking the neurons layer by layer, each neuron's block of weights starts
/// where the previous neuron's block ended: the first block starts at weight
/// 0 and the last one ends at the last weight. So a forward pass that keeps
/// one running weight index reads every weight exactly once, in storage
/// order, and ends with the index equal to the number of weights.
pub proof fn lemma_weight_blocks_in_order(m: ShapeModel)
    requires
        m.valid_params(),
    ensures
        m.neuron_weight_start(0, 0) == 0,
        forall|l: int, j: int|
            m.is_neuron(l, j) && j + 1 < m.layer_size(l) ==> #[trigger] m.neuron_weight_start(l, j + 1)
                == m.neuron_weight_start(l, j) + m.fan_in(l) + 1,
        forall|l: int|
            0 <= l < m.output_layer() ==> #[trigger] m.neuron_weight_start(l + 1, 0)
                == m.neuron_weight_start(l, m.layer_size(l) - 1) + m.fan_in(l) + 1,
        m.neuron_weight_start(m.output_layer(), m.outputs - 1) + m.fan_in(m.output_layer()) + 1
            == m.total_weights(),
{
    assert forall|l: int, j: int|
        m.is_neuron(l, j) && j + 1 < m.layer_size(l) implies #[trigger] m.neuron_weight_start(l, j + 1)
            == m.neuron_weight_start(l, j) + m.fan_in(l) + 1 by {
        let f = m.fan_in(l) + 1;
        assert((j + 1) * f == j * f + f) by (nonlinear_arith);
    }
    assert forall|l: int| 0 <= l < m.output_layer() implies #[trigger] m.neuron_weight_start(l + 1, 0)
        == m.neuron_weight_start(l, m.layer_size(l) - 1) + m.fan_in(l) + 1 by {
        lemma_layer_end(m, l);
        let f = m.fan_in(l) + 1;
        let n = m.layer_size(l);
        assert((n - 1) * f + f == n * f) by (nonlinear_arith);
        assert(0 * (m.fan_in(l + 1) + 1) == 0);
    }
    let hl = m.output_layer();
    let f = m.fan_in(hl) + 1;
    let n = m.outputs as int;
    lemma_layer_end(m, hl);
    assert((n - 1) * f + f == n * f) by (nonlinear_arith);
    assert(0 * (m.fan_in(0) + 1) == 0);
}

/// Weight blocks of neurons that come later in the walk lie after the
/// blocks of earlier neurons.
pub proof fn lemma_weight_blocks_ordered(m: ShapeModel, l1: int, j1: int, l2: int, j2: int)
    requires
        m.valid_params(),
        m.is_neuron(l1, j1),
        m.is_neuron(l2, j2),
        l1 < l2 || (l1 == l2 && j1 < j2),
    ensures
        m.neuron_weight_start(l1, j1) + m.fan_in(l1) + 1 <= m.neuron_weight_start(l2, j2),
{
    lemma_neuron_block_bounded(m, l1, j1);
    lemma_neuron_block_bounded(m, l2, j2);
    if l1 < l2 {
        lemma_layer_end(m, l1);
        lemma_layer_start_monotone(m, l1 + 1, l2);
    } else {
        let f = m.fan_in(l1) + 1;
        assert(j1 * f + f <= j2 * f) by (nonlinear_arith) requires j1 < j2, f >= 1;
    }
}

/// Each weight serves exactly one purpose: distinct (neuron, slot) pairs,
/// where slot 0 is the bias and slot `k + 1` the `k`-th input, have distinct
/// weight indices, all below the number of weights.
pub proof fn lemma_weight_slots_distinct(
    m: ShapeModel,
    l1: int,
    j1: int,
    s1: int,
    l2: int,
    j2: int,
    s2: int,
)
    requires
        m.valid_params(),
        m.is_neuron(l1, j1),
        m.is_neuron(l2, j2),
        0 <= s1 <= m.fan_in(l1),
        0 <= s2 <= m.fan_in(l2),
        (l1, j1, s1) != (l2, j2, s2),
    ensures
        m.weight_slot(l1, j1, s1) != m.weight_slot(l2, j2, s2),
        0 <= m.weight_slot(l1, j1, s1) < m.total_weights(),
{
    lemma_neuron_block_bounded(m, l1, j1);
    lemma_layer_start_monotone(m, 0, l1);
    if l1 < l2 || (l1 == l2 && j1 < j2) {
        lemma_weight_blocks_ordered(m, l1, j1, l2, j2);
    } else if l2 < l1 || (l1 == l2 && j2 < j1) {
        lemma_weight_blocks_ordered(m, l2, j2, l1, j1);
    }
}

/// Every weight index below the number of weights is the index of some
/// neuron's bias or input weight.
pub proof fn lemma_weight_slots_cover(m: ShapeModel, w: int)
    requires
        m.valid_params(),
        0 <= w < m.total_weights(),
    ensures
        exists|l: int, j: int, s: int|
            m.is_neuron(l, j) && 0 <= s <= m.fan_in(l) && #[trigger] m.weight_slot(l, j, s) == w,
{
    lemma_weight_slot_in_layers(m, w, 0);
}

proof fn lemma_weight_slot_in_layers(m: ShapeModel, w: int, l: int)
    requires
        m.valid_params(),
        m.is_layer(l),
        m.layer_weight_start(l) <= w < m.total_weights(),
    ensures
        exists|l2: int, j: int, s: int|
            m.is_neuron(l2, j) && 0 <= s <= m.fan_in(l2) && #[trigger] m.weight_slot(l2, j, s) == w,
    decreases m.hidden_layers - l,
{
    lemma_layer_end(m, l);
    if w < m.layer_weight_end(l) || l == m.output_layer() {
        let f = m.fan_in(l) + 1;
        let d = w - m.layer_weight_start(l);
        let j = d / f;
        let s = d % f;
        assert(d == j * f + s && 0 <= s < f && 0 <= j) by (nonlinear_arith) requires d >= 0, f >= 1, j == d / f, s == d % f;
        assert(j < m.layer_size(l)) by (nonlinear_arith)
            requires d == j * f + s, 0 <= s, d < m.layer_size(l) * f, f >= 1;
        assert(m.weight_slot(l, j, s) == w);
    } else {
        lemma_weight_slot_in_layers(m, w, l + 1);
    }
}

/// The neuron-output layout: layer 0 reads the input neurons, every later
/// layer reads the outputs of the layer before it, each neuron's delta sits
/// `inputs` places before its output, and the output layer fills the end of
/// the outputs.
pub proof fn lemma_neuron_layout(m: ShapeModel)
    requires
        m.valid_params(),
    ensures
        m.input_start(0) == 0 && m.fan_in(0) == m.inputs,
        forall|l: int, k: int|
            1 <= l <= m.output_layer() && 0 <= k < m.fan_in(l) ==> m.input_start(l) + k
                == #[trigger] m.output_index(l - 1, k) && m.is_neuron(l - 1, k),
        forall|l: int, j: int|
            m.is_neuron(l, j) ==> #[trigger] m.delta_index(l, j) + m.inputs == m.output_index(l, j),
        forall|j: int|
            0 <= j < m.outputs ==> #[trigger] m.output_index(m.output_layer(), j) == m.output_start()
                + j,
        m.output_start() + m.outputs == m.total_neurons(),
{
    assert forall|l: int, k: int|
        1 <= l <= m.output_layer() && 0 <= k < m.fan_in(l) implies m.input_start(l) + k
            == #[trigger] m.output_index(l - 1, k) && m.is_neuron(l - 1, k) by {
        assert((l - 1) * m.hidden == (l - 1) * m.hidden);
    }
    assert forall|j: int| 0 <= j < m.outputs implies #[trigger] m.output_index(m.output_layer(), j)
        == m.output_start() + j by {
        assert(m.hidden_layers * m.hidden == m.hidden * m.hidden_layers) by (nonlinear_arith);
    }
}

/// Distinct neurons have distinct output slots, and so distinct deltas.
pub proof fn lemma_neuron_slots_distinct(m: ShapeModel, l1: int, j1: int, l2: int, j2: int)
    requires
        m.valid_params(),
        m.is_neuron(l1, j1),
        m.is_neuron(l2, j2),
        (l1, j1) != (l2, j2),
    ensures
        m.output_index(l1, j1) != m.output_index(l2, j2),
        m.delta_index(l1, j1) != m.delta_index(l2, j2),
{
    let h = m.hidden as int;
    if l1 < l2 {
        assert(l1 * h + j1 < l2 * h) by (nonlinear_arith) requires l1 < l2, 0 <= j1 < h;
    } else if l2 < l1 {
        assert(l2 * h + j2 < l1 * h) by (nonlinear_arith) requires l2 < l1, 0 <= j2 < h;
    }
}

/// Every output slot after the input neurons belongs to some neuron.
pub proof fn lemma_neuron_slots_cover(m: ShapeModel, n: int)
    requires
        m.valid_params(),
        m.inputs <= n < m.total_neurons(),
    ensures
        exists|l: int, j: int| m.is_neuron(l, j) && #[trigger] m.output_index(l, j) == n,
{
    let h = m.hidden as int;
    let hl = m.hidden_layers as int;
    let d = n - m.inputs;
    if d < h * hl {
        let l = d / h;
        let j = d % h;
        assert(d == l * h + j && 0 <= j < h && 0 <= l < hl) by (nonlinear_arith)
            requires 0 <= d < h * hl, h >= 1, l == d / h, j == d % h;
        assert(m.output_index(l, j) == n);
    } else {
        let j = d - h * hl;
        assert(hl * h == h * hl) by (nonlinear_arith);
        assert(m.output_index(hl, j) == n);
    }
}

/// Step `t + 1` of `plan` starts its weights right after the weights of
/// step `t`: its bias weight follows the last input weight of step `t`.
pub open spec fn steps_adjacent(plan: Seq<NeuronStep>, t: int) -> bool {
    plan[t + 1].weight_start == plan[t].weight_start + plan[t].fan_in + 1
}

/// Steps appended after a tiled run of steps, starting where it ended and
/// tiled among themselves, keep the whole run tiled.
proof fn lemma_append_tiling(before: Seq<NeuronStep>, after: Seq<NeuronStep>)
    requires
        before.len() >= 1,
        after.len() > before.len(),
        forall|t: int| 0 <= t < before.len() ==> #[trigger] after[t] == before[t],
        forall|t: int| 0 <= t < before.len() - 1 ==> #[trigger] steps_adjacent(before, t),
        before[before.len() - 1].weight_start + before[before.len() - 1].fan_in + 1
            == after[before.len() as int].weight_start,
        forall|t: int| before.len() <= t < after.len() - 1 ==> #[trigger] steps_adjacent(after, t),
    ensures
        forall|t: int| 0 <= t < after.len() - 1 ==> #[trigger] steps_adjacent(after, t),
{
    assert forall|t: int| 0 <= t < after.len() - 1 implies #[trigger] steps_adjacent(after, t) by {
        if t < before.len() - 1 {
            assert(steps_adjacent(before, t));
            assert(after[t] == before[t] && after[t + 1] == before[t + 1]);
        } else if t == before.len() - 1 {
            assert(after[t] == before[t]);
        }
    }
}

/// One neuron of a forward pass: the layer it belongs to, the index of its
/// bias weight (its input weights follow), the first of the neuron outputs
/// it reads and how many, and the neuron output it writes.
#[derive(Clone, Copy, Debug)]
pub struct NeuronStep {
    pub layer: usize,
    pub weight_start: usize,
    pub input_start: usize,
    pub fan_in: usize,
    pub output: usize,
}

/// Construction accepts exactly the shapes with at least one input, at
/// least one output, and at least one neuron per hidden layer when there are
/// hidden layers; nothing else about the counts matters.
pub proof fn lemma_valid_params_exact(m: ShapeModel)
    ensures
        m.valid_params() <==> (m.inputs >= 1 && m.outputs >= 1 && (m.hidden_layers > 0 ==> m.hidden
            >= 1)),
{
}

/// The weights by which a neuron multiplies its inputs are the slots after
/// its bias, one per input: they lie inside the neuron's block, and distinct
/// inputs have distinct weights.
pub proof fn lemma_input_weights_of_neuron(m: ShapeModel, l: int, j: int, k1: int, k2: int)
    requires
        m.valid_params(),
        m.is_neuron(l, j),
        0 <= k1 < m.fan_in(l),
        0 <= k2 < m.fan_in(l),
    ensures
        m.input_weight(l, j, k1) == m.weight_slot(l, j, k1 + 1),
        m.neuron_weight_start(l, j) < m.input_weight(l, j, k1) <= m.neuron_weight_start(l, j)
            + m.fan_in(l),
        m.input_weight(l, j, k1) - m.neuron_weight_start(l, j) == k1 + 1,
        k1 != k2 ==> m.input_weight(l, j, k1) != m.input_weight(l, j, k2),
        m.input_weight(l, j, k1) < m.total_weights(),
{
    lemma_neuron_block_bounded(m, l, j);
}

/// The shape of a network: how many inputs, hidden layers, neurons per
/// hidden layer and outputs it has. Every value of this type is valid.
#[derive(Clone, Copy, Debug)]
pub struct NetworkShape {
    inputs: usize,
    hidden_layers: usize,
    hidden: usize,
    outputs: usize,
}

impl View for NetworkShape {
    type V = ShapeModel;

    closed spec fn view(&self) -> ShapeModel {
        ShapeModel {
            inputs: self.inputs as nat,
            hidden_layers: self.hidden_layers as nat,
            hidden: self.hidden as nat,
            outputs: self.outputs as nat,
        }
    }
}

/// How construction refuses the parameters of `m` (which it does when they
/// are not valid): the first failing check names the parameter.
pub open spec fn refusal(m: ShapeModel, param: &str, reason: String) -> bool {
    if m.inputs < 1 {
        param@ == "inputs"@ && reason@ == "must be at least 1"@
    } else if m.outputs < 1 {
        param@ == "outputs"@ && reason@ == "must be at least 1"@
    } else {
        param@ == "hidden"@ && reason@ == "must be at least 1 when hidden_layers > 0"@
    }
}

/// The model of the four numbers given to construction.
pub open spec fn shape_of(inputs: usize, hidden_layers: usize, hidden: usize, outputs: usize) -> ShapeModel {
    ShapeModel {
        inputs: inputs as nat,
        hidden_layers: hidden_layers as nat,
        hidden: hidden as nat,
        outputs: outputs as nat,
    }
}

/// `a * b`, or `None` when the product exceeds `usize::MAX`.
fn checked_product(a: usize, b: usize) -> (r: Option<usize>)
    ensures
        r matches Some(v) ==> v == a * b,
        r is None <==> a * b > usize::MAX,
{
    a.checked_mul(b)
}

impl NetworkShape {
    #[verifier::type_invariant]
    spec fn is_valid(self) -> bool {
        self@.valid()
    }

    /// False exactly when the parameters would be accepted but the number of
    /// weights or of neurons does not fit in a `usize` (where building the
    /// network's arrays cannot succeed).
    pub fn can_allocate(inputs: usize, hidden_layers: usize, hidden: usize, outputs: usize) -> (b: bool)
        ensures
            b == (shape_of(inputs, hidden_layers, hidden, outputs).valid_params() ==> shape_of(
                inputs,
                hidden_layers,
                hidden,
                outputs,
            ).fits()),
            !(inputs >= 1 && outputs >= 1 && (hidden_layers > 0 ==> hidden >= 1)) ==> b,
    {
        let ghost m = shape_of(inputs, hidden_layers, hidden, outputs);
        if inputs < 1 || outputs < 1 || (hidden_layers > 0 && hidden < 1) {
            return true;
        }
        // neurons: inputs + hidden * hidden_layers + outputs
        let hh = match checked_product(hidden, hidden_layers) {
            Some(v) => v,
            None => {
                proof {
                    assert(hidden * hidden_layers <= m.total_neurons());
                }
                return false;
            },
        };
        let neurons = match inputs.checked_add(hh) {
            Some(v) => match v.checked_add(outputs) {
                Some(w) => w,
                None => return false,
            },
            None => return false,
        };
        let i1 = match inputs.checked_add(1) {
            Some(v) => v,
            None => {
                proof {
                    if hidden_layers > 0 {
                        assert((inputs + 1) * hidden >= inputs + 1) by (nonlinear_arith)
                            requires hidden >= 1, inputs >= 0;
                        assert((hidden_layers - 1) * (hidden + 1) * hidden >= 0 && (hidden + 1) * outputs >= 0) by (nonlinear_arith)
                            requires hidden_layers >= 1, hidden >= 0, outputs >= 0;
                    } else {
                        assert((inputs + 1) * outputs >= inputs + 1) by (nonlinear_arith)
                            requires outputs >= 1, inputs >= 0;
                    }
                }
                return false;
            },
        };
        if hidden_layers == 0 {
            let r = checked_product(i1, outputs).is_some();
            proof {
                assert(neurons == m.total_neurons());
            }
            return r;
        }
        // hidden_layers > 0, hidden >= 1
        proof {
            assert((inputs + 1) * hidden >= 0 && (hidden_layers - 1) * (hidden + 1) * hidden >= 0
                && (hidden + 1) * outputs >= 0) by (nonlinear_arith)
                requires hidden_layers >= 1, hidden >= 1, outputs >= 1, inputs >= 0;
        }
        let first = match checked_product(i1, hidden) {
            Some(v) => v,
            None => return false,
        };
        let h1 = match hidden.checked_add(1) {
            Some(v) => v,
            None => {
                proof {
                    assert((hidden + 1) * outputs >= hidden + 1) by (nonlinear_arith)
                        requires outputs >= 1, hidden >= 0;
                }
                return false;
            },
        };
        let between = match checked_product(hidden_layers - 1, h1) {
            Some(v) => match checked_product(v, hidden) {
                Some(w) => w,
                None => return false,
            },
            None => {
                proof {
                    assert((hidden_layers - 1) * (hidden + 1) * hidden >= (hidden_layers - 1) * (hidden + 1)) by (nonlinear_arith)
                        requires hidden >= 1, hidden_layers >= 1;
                }
                return false;
            },
        };
        let last = match checked_product(h1, outputs) {
            Some(v) => v,
            None => return false,
        };
        let r = match first.checked_add(between) {
            Some(v) => v.checked_add(last).is_some(),
            None => false,
        };
        proof {
            assert(neurons == m.total_neurons());
        }
        r
    }

    /// Checks the parameters and gives the shape.
    pub fn new(inputs: usize, hidden_layers: usize, hidden: usize, outputs: usize) -> (r: Result<NetworkShape, NeuralNetworkError>)
        requires
            shape_of(inputs, hidden_layers, hidden, outputs).valid_params() ==> shape_of(
                inputs,
                hidden_layers,
                hidden,
                outputs,
            ).fits(),
        ensures
            match r {
                Ok(s) => shape_of(inputs, hidden_layers, hidden, outputs).valid_params() && s@
                    == shape_of(inputs, hidden_layers, hidden, outputs),
                Err(NeuralNetworkError::InvalidParameter { param, reason }) => {
                    &&& !shape_of(inputs, hidden_layers, hidden, outputs).valid_params()
                    &&& refusal(shape_of(inputs, hidden_layers, hidden, outputs), param, reason)
                },
                Err(_) => false,
            },
            (inputs >= 1 && outputs >= 1 && (hidden_layers > 0 ==> hidden >= 1)) <==> r is Ok,
    {
        if inputs < 1 {
            return Err(
                NeuralNetworkError::InvalidParameter {
                    param: "inputs",
                    reason: String::from_str("must be at least 1"),
                },
            );
        }
        if outputs < 1 {
            return Err(
                NeuralNetworkError::InvalidParameter {
                    param: "outputs",
                    reason: String::from_str("must be at least 1"),
                },
            );
        }
        if hidden_layers > 0 && hidden < 1 {
            return Err(
                NeuralNetworkError::InvalidParameter {
                    param: "hidden",
                    reason: String::from_str("must be at least 1 when hidden_layers > 0"),
                },
            );
        }
        Ok(NetworkShape { inputs, hidden_layers, hidden, outputs })
    }

    /// Number of input neurons.
    pub fn inputs(&self) -> (r: usize)
        ensures
            r == self@.inputs,
            self@.valid(),
    {
        proof {
            use_type_invariant(self);
        }
        self.inputs
    }

    /// Number of hidden layers.
    pub fn hidden_layers(&self) -> (r: usize)
        ensures
            r == self@.hidden_layers,
            self@.valid(),
    {
        proof {
            use_type_invariant(self);
        }
        self.hidden_layers
    }

    /// Number of neurons in each hidden layer.
    pub fn hidden(&self) -> (r: usize)
        ensures
            r == self@.hidden,
            self@.valid(),
    {
        proof {
            use_type_invariant(self);
        }
        self.hidden
    }

    /// Number of output neurons.
    pub fn outputs(&self) -> (r: usize)
        ensures
            r == self@.outputs,
            self@.valid(),
    {
        proof {
            use_type_invariant(self);
        }
        self.outputs
    }

    /// Number of weights.
    pub fn total_weights(&self) -> (r: usize)
        ensures
            r == self@.total_weights(),
            self@.valid(),
    {
        proof {
            use_type_invariant(self);
            lemma_layer_end(self@, self@.output_layer());
            lemma_layer_start_monotone(self@, 0, self@.output_layer());
        }
        let start = self.layer_weight_start(self.hidden_layers);
        let per = self.layer_fan_in(self.hidden_layers) + 1;
        start + self.outputs * per
    }

    /// Number of neurons, input neurons included.
    pub fn total_neurons(&self) -> (r: usize)
        ensures
            r == self@.total_neurons(),
            self@.valid(),
    {
        proof {
            use_type_invariant(self);
            assert(self.hidden * self.hidden_layers >= 0) by (nonlinear_arith)
                requires self.hidden >= 0, self.hidden_layers >= 0;
        }
        self.inputs + self.hidden * self.hidden_layers + self.outputs
    }

    /// Number of deltas (one per neuron that is not an input).
    pub fn total_deltas(&self) -> (r: usize)
        ensures
            r == self@.total_deltas(),
            r == self@.total_neurons() - self@.inputs,
            self@.valid(),
    {
        proof {
            use_type_invariant(self);
            assert(self.hidden * self.hidden_layers >= 0) by (nonlinear_arith)
                requires self.hidden >= 0, self.hidden_layers >= 0;
        }
        self.hidden * self.hidden_layers + self.outputs
    }

    /// Index, among all neuron outputs, of the first network output.
    pub fn output_start(&self) -> (r: usize)
        ensures
            r == self@.output_start(),
            r == self@.output_index(self@.output_layer(), 0),
            r + self@.outputs == self@.total_neurons(),
            self@.valid(),
    {
        proof {
            use_type_invariant(self);
            assert(self.hidden * self.hidden_layers == self.hidden_layers * self.hidden)
                by (nonlinear_arith);
            assert(self.hidden * self.hidden_layers >= 0) by (nonlinear_arith)
                requires self.hidden >= 0, self.hidden_layers >= 0;
        }
        self.inputs + self.hidden * self.hidden_layers
    }

    /// Number of layers that compute (the hidden layers and the output layer).
    pub fn layer_count(&self) -> (r: usize)
        ensures
            r == self@.hidden_layers + 1,
            self@.valid(),
    {
        proof {
            use_type_invariant(self);
            if self.hidden_layers > 0 {
                assert(self.hidden * self.hidden_layers >= self.hidden_layers) by (nonlinear_arith)
                    requires self.hidden >= 1, self.hidden_layers >= 0;
            }
        }
        self.hidden_layers + 1
    }

    /// Number of neurons in layer `layer`.
    pub fn layer_size(&self, layer: usize) -> (r: usize)
        requires
            self@.is_layer(layer as int),
        ensures
            r == self@.layer_size(layer as int),
            r >= 1,
            self@.valid(),
    {
        proof {
            use_type_invariant(self);
        }
        if layer < self.hidden_layers {
            self.hidden
        } else {
            self.outputs
        }
    }

    /// Number of neurons that feed each neuron of layer `layer`.
    pub fn layer_fan_in(&self, layer: usize) -> (r: usize)
        requires
            self@.is_layer(layer as int),
        ensures
            r == self@.fan_in(layer as int),
            r + 1 <= self@.total_weights(),
            self@.valid(),
    {
        proof {
            use_type_invariant(self);
            lemma_neuron_block_bounded(self@, layer as int, 0);
        }
        if layer == 0 {
            self.inputs
        } else {
            self.hidden
        }
    }

    /// Index of the first weight of layer `layer`.
    pub fn layer_weight_start(&self, layer: usize) -> (r: usize)
        requires
            self@.is_layer(layer as int),
        ensures
            r == self@.layer_weight_start(layer as int),
            r <= self@.total_weights(),
            self@.valid(),
    {
        proof {
            use_type_invariant(self);
            lemma_layer_end_bounded(self@, layer as int);
            lemma_neuron_block_bounded(self@, layer as int, 0);
        }
        if layer == 0 {
            0
        } else {
            let i = self.inputs;
            let h = self.hidden;
            proof {
                assert((i + 1) * h >= i + 1 && (layer - 1) * (h + 1) * h >= (layer - 1) * (h + 1)
                    && (layer - 1) * (h + 1) >= 0) by (nonlinear_arith)
                    requires h >= 1, layer >= 1, i >= 0;
                lemma_layer_end(self@, self@.output_layer());
                assert((h + 1) * self.outputs >= h + 1) by (nonlinear_arith)
                    requires self.outputs >= 1, h >= 0;
            }
            (i + 1) * h + (layer - 1) * (h + 1) * h
        }
    }

    /// Index of the bias weight of neuron `neuron` of layer `layer`; its
    /// input weights follow it.
    pub fn neuron_weight_start(&self, layer: usize, neuron: usize) -> (r: usize)
        requires
            self@.is_neuron(layer as int, neuron as int),
        ensures
            r == self@.neuron_weight_start(layer as int, neuron as int),
            r + self@.fan_in(layer as int) + 1 <= self@.total_weights(),
            self@.valid(),
    {
        proof {
            use_type_invariant(self);
            lemma_neuron_block_bounded(self@, layer as int, neuron as int);
        }
        let start = self.layer_weight_start(layer);
        let per = self.layer_fan_in(layer) + 1;
        proof {
            assert(neuron * per >= 0) by (nonlinear_arith) requires neuron >= 0, per >= 1;
        }
        start + neuron * per
    }

    /// Index of the weight by which neuron `neuron` of layer `layer`
    /// multiplies its input number `input`.
    pub fn input_weight(&self, layer: usize, neuron: usize, input: usize) -> (r: usize)
        requires
            self@.is_neuron(layer as int, neuron as int),
            input < self@.fan_in(layer as int),
        ensures
            r == self@.input_weight(layer as int, neuron as int, input as int),
            r == self@.neuron_weight_start(layer as int, neuron as int) + 1 + input,
            r < self@.total_weights(),
            self@.valid(),
    {
        self.neuron_weight_start(layer, neuron) + 1 + input
    }

    /// Index, among all neuron outputs, of the first input of layer `layer`;
    /// the layer reads `layer_fan_in(layer)` consecutive outputs from there.
    pub fn layer_input_start(&self, layer: usize) -> (r: usize)
        requires
            self@.is_layer(layer as int),
        ensures
            r == self@.input_start(layer as int),
            r + self@.fan_in(layer as int) <= self@.output_index(layer as int, 0),
            self@.valid(),
    {
        proof {
            use_type_invariant(self);
        }
        if layer == 0 {
            0
        } else {
            let h = self.hidden;
            proof {
                assert((layer - 1) * h + h == layer * h && layer * h <= self.hidden_layers * h
                    && (layer - 1) * h >= 0) by (nonlinear_arith)
                    requires 1 <= layer <= self.hidden_layers, h >= 0;
                assert(self.hidden_layers * h == h * self.hidden_layers) by (nonlinear_arith);
            }
            self.inputs + (layer - 1) * h
        }
    }

    /// Index, among all neuron outputs, of neuron `neuron` of layer `layer`.
    pub fn output_index(&self, layer: usize, neuron: usize) -> (r: usize)
        requires
            self@.is_neuron(layer as int, neuron as int),
        ensures
            r == self@.output_index(layer as int, neuron as int),
            self@.inputs <= r < self@.total_neurons(),
            self@.valid(),
    {
        proof {
            use_type_invariant(self);
            lemma_output_index_bounded(self@, layer as int, neuron as int);
        }
        self.inputs + layer * self.hidden + neuron
    }

    /// Index, among the deltas, of neuron `neuron` of layer `layer`.
    pub fn delta_index(&self, layer: usize, neuron: usize) -> (r: usize)
        requires
            self@.is_neuron(layer as int, neuron as int),
        ensures
            r == self@.delta_index(layer as int, neuron as int),
            r + self@.inputs == self@.output_index(layer as int, neuron as int),
            r < self@.total_deltas(),
            self@.valid(),
    {
        proof {
            use_type_invariant(self);
            lemma_output_index_bounded(self@, layer as int, neuron as int);
        }
        layer * self.hidden + neuron
    }

    /// The length check of a forward pass: one value per input neuron.
    pub fn check_input_len(&self, actual: usize) -> (r: Result<(), NeuralNetworkError>)
        ensures
            actual == self@.inputs ==> r is Ok,
            actual != self@.inputs ==> r == Err::<(), NeuralNetworkError>(
                NeuralNetworkError::InputLengthMismatch { expected: self@.inputs as usize, actual },
            ),
            self@.valid(),
    {
        proof {
            use_type_invariant(self);
        }
        if actual != self.inputs {
            return Err(NeuralNetworkError::input_mismatch(self.inputs, actual));
        }
        Ok(())
    }

    /// The length checks of a training step: one value per input neuron,
    /// then one desired value per output neuron.
    pub fn check_training_lens(&self, inputs_len: usize, desired_len: usize) -> (r: Result<(), NeuralNetworkError>)
        ensures
            inputs_len != self@.inputs ==> r == Err::<(), NeuralNetworkError>(
                NeuralNetworkError::InputLengthMismatch {
                    expected: self@.inputs as usize,
                    actual: inputs_len,
                },
            ),
            inputs_len == self@.inputs && desired_len != self@.outputs ==> r == Err::<
                (),
                NeuralNetworkError,
            >(
                NeuralNetworkError::OutputLengthMismatch {
                    expected: self@.outputs as usize,
                    actual: desired_len,
                },
            ),
            inputs_len == self@.inputs && desired_len == self@.outputs ==> r is Ok,
            self@.valid(),
    {
        self.check_input_len(inputs_len)?;
        if desired_len != self.outputs {
            return Err(NeuralNetworkError::output_mismatch(self.outputs, desired_len));
        }
        Ok(())
    }

    /// Appends the steps of the neurons of layer `layer`, walking its
    /// weights with a running index from `w_idx`; gives the index just past
    /// the layer's weights.
    fn push_layer_steps(
        &self,
        plan: &mut Vec<NeuronStep>,
        layer: usize,
        w_idx: usize,
        i_idx: usize,
        o_idx: usize,
    ) -> (next: usize)
        requires
            self@.is_layer(layer as int),
            old(plan)@.len() == self@.delta_index(layer as int, 0),
            w_idx == self@.layer_weight_start(layer as int),
            i_idx == self@.input_start(layer as int),
            o_idx == self@.output_index(layer as int, 0),
        ensures
            final(plan)@.len() == old(plan)@.len() + self@.layer_size(layer as int),
            forall|t: int| 0 <= t < old(plan)@.len() ==> #[trigger] final(plan)@[t] == old(plan)@[t],
            forall|j: int|
                0 <= j < self@.layer_size(layer as int) ==> self@.is_step_of(
                    #[trigger] final(plan)@[self@.delta_index(layer as int, j)],
                    layer as int,
                    j,
                ),
            next == self@.layer_weight_end(layer as int),
            forall|t: int|
                old(plan)@.len() <= t < final(plan)@.len() ==> (#[trigger] final(plan)@[t]).layer
                    == layer && final(plan)@[t].fan_in == (if layer == 0 {
                    self@.inputs
                } else {
                    self@.hidden
                }),
            final(plan)@[old(plan)@.len() as int].weight_start == w_idx,
            forall|t: int|
                old(plan)@.len() <= t < final(plan)@.len() - 1 ==> #[trigger] steps_adjacent(
                    final(plan)@,
                    t,
                ),
            final(plan)@[final(plan)@.len() - 1].weight_start + final(plan)@[final(plan)@.len()
                - 1].fan_in + 1 == next,
    {
        proof {
            use_type_invariant(self);
            lemma_layer_end_bounded(self@, layer as int);
            lemma_weight_blocks_in_order(self@);
        }
        let size = self.layer_size(layer);
        let fan_in = self.layer_fan_in(layer);
        let ghost base = old(plan)@.len() as int;
        let mut w = w_idx;
        let mut o = o_idx;
        let mut j: usize = 0;
        proof {
            assert(0 * (fan_in + 1) == 0);
        }
        while j < size
            invariant
                self@.valid(),
                self@.is_layer(layer as int),
                size == self@.layer_size(layer as int),
                fan_in == self@.fan_in(layer as int),
                i_idx == self@.input_start(layer as int),
                w_idx == self@.layer_weight_start(layer as int),
                base == self@.delta_index(layer as int, 0),
                j <= size,
                plan@.len() == base + j,
                w == self@.layer_weight_start(layer as int) + j * (fan_in + 1),
                o == self@.output_index(layer as int, j as int),
                self@.layer_weight_end(layer as int) <= self@.total_weights(),
                self@.total_weights() <= usize::MAX,
                self@.total_neurons() <= usize::MAX,
                forall|t: int| 0 <= t < base ==> #[trigger] plan@[t] == old(plan)@[t],
                forall|k: int|
                    0 <= k < j ==> self@.is_step_of(
                        #[trigger] plan@[self@.delta_index(layer as int, k)],
                        layer as int,
                        k,
                    ),
                forall|t: int|
                    base <= t < base + j ==> (#[trigger] plan@[t]).layer == layer && plan@[t].fan_in
                        == (if layer == 0 {
                        self@.inputs
                    } else {
                        self@.hidden
                    }),
                j > 0 ==> plan@[base].weight_start == w_idx,
                forall|t: int| base <= t < base + j - 1 ==> #[trigger] steps_adjacent(plan@, t),
                j > 0 ==> plan@[base + j - 1].weight_start + plan@[base + j - 1].fan_in + 1 == w,
            decreases size - j,
        {
            proof {
                lemma_neuron_block_bounded(self@, layer as int, j as int);
                lemma_output_index_bounded(self@, layer as int, j as int);
                assert((j + 1) * (fan_in + 1) == j * (fan_in + 1) + fan_in + 1) by (nonlinear_arith);
                assert(0 * (fan_in + 1) == 0);
                if j == 0 {
                    assert(w == w_idx);
                }
            }
            let ghost before = plan@;
            plan.push(NeuronStep { layer, weight_start: w, input_start: i_idx, fan_in, output: o });
            proof {
                assert forall|k: int| 0 <= k < j + 1 implies self@.is_step_of(
                    #[trigger] plan@[self@.delta_index(layer as int, k)],
                    layer as int,
                    k,
                ) by {
                    assert(self@.delta_index(layer as int, k) == base + k);
                    if k < j {
                        assert(plan@[base + k] == before[base + k]);
                    }
                }
                if j > 0 {
                    assert(plan@[base] == before[base]);
                }
                assert forall|t: int| base <= t < base + j + 1 - 1 implies #[trigger] steps_adjacent(
                    plan@,
                    t,
                ) by {
                    if t < base + j - 1 {
                        assert(steps_adjacent(before, t));
                    }
                }
            }
            w = w + fan_in + 1;
            o = o + 1;
            j = j + 1;
        }
        proof {
            assert(size * (fan_in + 1) == self@.layer_size(layer as int) * (self@.fan_in(layer as int) + 1));
            assert(size >= 1);
        }
        w
    }

    /// The forward pass, neuron by neuron in the order it computes them:
    /// each layer in turn, reading the outputs of the layer before it, with
    /// one running weight index. The step of neuron `j` of layer `l` sits at
    /// index `delta_index(l, j)`.
    pub fn forward_plan(&self) -> (plan: Vec<NeuronStep>)
        ensures
            plan@.len() == self@.total_deltas(),
            forall|l: int, j: int|
                self@.is_neuron(l, j) ==> self@.is_step_of(
                    #[trigger] plan@[self@.delta_index(l, j)],
                    l,
                    j,
                ),
            plan@.len() >= 1,
            plan@[0].weight_start == 0,
            forall|t: int| 0 <= t < plan@.len() - 1 ==> #[trigger] steps_adjacent(plan@, t),
            plan@[plan@.len() - 1].weight_start + plan@[plan@.len() - 1].fan_in + 1
                == self@.total_weights(),
            forall|t: int|
                0 <= t < plan@.len() ==> (#[trigger] plan@[t]).layer <= self@.hidden_layers
                    && plan@[t].fan_in == (if plan@[t].layer == 0 {
                    self@.inputs
                } else {
                    self@.hidden
                }),
            self@.valid(),
    {
        proof {
            use_type_invariant(self);
        }
        let mut plan: Vec<NeuronStep> = Vec::new();
        let mut w_idx: usize = 0;
        let mut o_idx: usize = self.inputs;
        let mut i_idx: usize = 0;
        proof {
            assert(0 * self.hidden == 0);
        }
        if self.hidden_layers == 0 {
            w_idx = self.push_layer_steps(&mut plan, 0, w_idx, i_idx, o_idx);
            proof {
                assert(self@.total_deltas() == self.outputs) by {
                    assert(self.hidden * 0 == 0);
                }
                lemma_layer_end(self@, 0);
            }
            return plan;
        }
        // The first hidden layer reads the inputs.
        w_idx = self.push_layer_steps(&mut plan, 0, w_idx, i_idx, o_idx);
        proof {
            lemma_layer_end(self@, 0);
            lemma_output_index_bounded(self@, 0, self.hidden - 1);
            assert(1 * self.hidden == self.hidden);
        }
        o_idx = o_idx + self.hidden;
        i_idx = i_idx + self.inputs;
        let mut layer: usize = 1;
        // Each further hidden layer, then the output layer, reads the
        // layer before it.
        while layer < self.hidden_layers
            invariant
                self@.valid(),
                1 <= layer <= self@.hidden_layers,
                plan@.len() == self@.delta_index(layer as int, 0),
                w_idx == self@.layer_weight_start(layer as int),
                i_idx == self@.input_start(layer as int),
                o_idx == self@.output_index(layer as int, 0),
                forall|l: int, j: int|
                    0 <= l < layer && self@.is_neuron(l, j) ==> self@.is_step_of(
                        #[trigger] plan@[self@.delta_index(l, j)],
                        l,
                        j,
                    ),
                plan@.len() >= 1,
                plan@[0].weight_start == 0,
                forall|t: int| 0 <= t < plan@.len() - 1 ==> #[trigger] steps_adjacent(plan@, t),
                plan@[plan@.len() - 1].weight_start + plan@[plan@.len() - 1].fan_in + 1 == w_idx,
                forall|t: int|
                    0 <= t < plan@.len() ==> (#[trigger] plan@[t]).layer < layer
                        && plan@[t].fan_in == (if plan@[t].layer == 0 {
                        self@.inputs
                    } else {
                        self@.hidden
                    }),
            decreases self@.hidden_layers - layer,
        {
            let ghost before = plan@;
            w_idx = self.push_layer_steps(&mut plan, layer, w_idx, i_idx, o_idx);
            proof {
                lemma_layer_end(self@, layer as int);
                lemma_output_index_bounded(self@, layer as int, self.hidden - 1);
                let h = self.hidden as int;
                assert((layer + 1) * h == layer * h + h) by (nonlinear_arith);
                assert(layer * h == (layer - 1) * h + h) by (nonlinear_arith);
                assert forall|l: int, j: int|
                    0 <= l < layer + 1 && self@.is_neuron(l, j) implies self@.is_step_of(
                        #[trigger] plan@[self@.delta_index(l, j)],
                        l,
                        j,
                    ) by {
                    if l < layer {
                        lemma_output_index_bounded(self@, l, j);
                        assert(l * h + j < layer * h) by (nonlinear_arith)
                            requires l < layer, 0 <= j < h;
                        assert(plan@[self@.delta_index(l, j)] == before[self@.delta_index(l, j)]);
                    }
                }
                lemma_append_tiling(before, plan@);
                assert forall|t: int| 0 <= t < plan@.len() implies (#[trigger] plan@[t]).layer < layer + 1
                    && plan@[t].fan_in == (if plan@[t].layer == 0 {
                    self@.inputs
                } else {
                    self@.hidden
                }) by {
                    if t < before.len() {
                        assert(plan@[t] == before[t]);
                    }
                }
            }
            o_idx = o_idx + self.hidden;
            i_idx = i_idx + self.hidden;
            layer = layer + 1;
        }
        let ghost before = plan@;
        w_idx = self.push_layer_steps(&mut plan, self.hidden_layers, w_idx, i_idx, o_idx);
        proof {
            let h = self.hidden as int;
            assert forall|l: int, j: int| self@.is_neuron(l, j) implies self@.is_step_of(
                #[trigger] plan@[self@.delta_index(l, j)],
                l,
                j,
            ) by {
                if l < layer {
                    assert(l * h + j < layer * h) by (nonlinear_arith)
                        requires l < layer, 0 <= j < h;
                    assert(plan@[self@.delta_index(l, j)] == before[self@.delta_index(l, j)]);
                }
            }
            assert(self@.total_deltas() == layer * h + self.outputs) by {
                assert(h * layer == layer * h) by (nonlinear_arith);
            }
            lemma_append_tiling(before, plan@);
            lemma_layer_end(self@, layer as int);
            assert forall|t: int| 0 <= t < plan@.len() implies (#[trigger] plan@[t]).layer
                <= self@.hidden_layers && plan@[t].fan_in == (if plan@[t].layer == 0 {
                self@.inputs
            } else {
                self@.hidden
            }) by {
                if t < before.len() {
                    assert(plan@[t] == before[t]);
                }
            }
        }
        plan
    }
}

} // verus!
