//! Network topology: per-layer activations and the validated shape of the
//! runtime-sized creature brain (input width, hidden layers, output count).
//! The forward pass and mutation run on floats and live with the caller.

use vstd::prelude::*;
use crate::constants::{NN_INPUTS, MAX_NN_INPUTS, NN_OUTPUTS, NN_MAX_HIDDEN_WIDTH, NN_MAX_HIDDEN_LAYERS, LEGACY_HIDDEN_0, LEGACY_HIDDEN_1};
use crate::text::{decimal, push_decimal, str_eq};
use vstd::string::*;

verus! {

/// Per-layer activation. `Linear` is identity; the others are pointwise.
#[derive(Clone, Copy, Debug, PartialEq, Eq, Structural)]
pub enum Activation {
    LReLU,
    ReLU,
    Tanh,
    Sigmoid,
    Linear,
}

/// The canonical lowercase name of each activation.
pub open spec fn activation_name(a: Activation) -> Seq<char> {
    match a {
        Activation::LReLU => "lrelu"@,
        Activation::ReLU => "relu"@,
        Activation::Tanh => "tanh"@,
        Activation::Sigmoid => "sigmoid"@,
        Activation::Linear => "linear"@,
    }
}

/// The activation a name denotes, if any.
pub open spec fn activation_of_name(s: Seq<char>) -> Option<Activation> {
    if s == "lrelu"@ {
        Some(Activation::LReLU)
    } else if s == "relu"@ {
        Some(Activation::ReLU)
    } else if s == "tanh"@ {
        Some(Activation::Tanh)
    } else if s == "sigmoid"@ {
        Some(Activation::Sigmoid)
    } else if s == "linear"@ {
        Some(Activation::Linear)
    } else {
        None
    }
}

impl Activation {
    /// Parse a lowercase activation name.
    pub fn parse(s: &str) -> (r: Option<Self>)
        ensures
            r == activation_of_name(s@),
    {
        if str_eq(s, "lrelu") {
            Some(Activation::LReLU)
        } else if str_eq(s, "relu") {
            Some(Activation::ReLU)
        } else if str_eq(s, "tanh") {
            Some(Activation::Tanh)
        } else if str_eq(s, "sigmoid") {
            Some(Activation::Sigmoid)
        } else if str_eq(s, "linear") {
            Some(Activation::Linear)
        } else {
            None
        }
    }

    /// The canonical lowercase name of this activation.
    pub fn as_str(self) -> (s: &'static str)
        ensures
            s@ == activation_name(self),
    {
        match self {
            Activation::LReLU => "lrelu",
            Activation::ReLU => "relu",
            Activation::Tanh => "tanh",
            Activation::Sigmoid => "sigmoid",
            Activation::Linear => "linear",
        }
    }
}

/// Every activation's name parses back to that activation.
pub proof fn lemma_activation_name_round_trip(a: Activation)
    ensures
        activation_of_name(activation_name(a)) == Some(a),
{
    reveal_strlit("lrelu");
    reveal_strlit("relu");
    reveal_strlit("tanh");
    reveal_strlit("sigmoid");
    reveal_strlit("linear");
    assert("lrelu"@.len() == 5 && "relu"@.len() == 4 && "tanh"@.len() == 4);
    assert("sigmoid"@.len() == 7 && "linear"@.len() == 6);
    assert("tanh"@[0] != "relu"@[0]);
    assert("tanh"@ != "relu"@);
}

/// A hidden width is usable: a multiple of 8 in `[8, NN_MAX_HIDDEN_WIDTH]`.
pub open spec fn hidden_width_ok(w: int) -> bool {
    8 <= w <= NN_MAX_HIDDEN_WIDTH && w % 8 == 0
}

/// An input width is usable: a multiple of 8 in `[8, MAX_NN_INPUTS]`.
pub open spec fn input_width_ok(w: int) -> bool {
    8 <= w <= MAX_NN_INPUTS && w % 8 == 0
}

/// The rules a topology satisfies: a valid input width, 1 to
/// `NN_MAX_HIDDEN_LAYERS` hidden layers each of a valid width, and exactly
/// one activation per hidden layer.
pub open spec fn topology_ok(input_width: int, hidden: Seq<usize>, n_acts: int) -> bool {
    &&& input_width_ok(input_width)
    &&& 1 <= hidden.len() <= NN_MAX_HIDDEN_LAYERS
    &&& n_acts == hidden.len()
    &&& forall|i: int| 0 <= i < hidden.len() ==> hidden_width_ok(#[trigger] hidden[i] as int)
}

/// The topology rules spelled out on the widths: the input width and every
/// hidden width are multiples of 8 (the SIMD chunk) within their bounds,
/// there are 1 to `NN_MAX_HIDDEN_LAYERS` hidden layers, and one activation
/// per hidden layer.
pub proof fn lemma_topology_rules(input_width: int, hidden: Seq<usize>, n_acts: int)
    ensures
        topology_ok(input_width, hidden, n_acts) <==> {
            &&& 8 <= input_width <= MAX_NN_INPUTS
            &&& input_width % 8 == 0
            &&& 1 <= hidden.len() <= NN_MAX_HIDDEN_LAYERS
            &&& n_acts == hidden.len()
            &&& forall|i: int| 0 <= i < hidden.len() ==> 8 <= #[trigger] hidden[i] <= NN_MAX_HIDDEN_WIDTH
                && hidden[i] % 8 == 0
        },
{
}

/// Index of the first hidden width at or after `i` that breaks the width rule,
/// or `hidden.len()` when there is none.
pub open spec fn first_bad_hidden_from(hidden: Seq<usize>, i: int) -> int
    decreases hidden.len() - i,
{
    if i >= hidden.len() || i < 0 {
        hidden.len() as int
    } else if !hidden_width_ok(hidden[i] as int) {
        i
    } else {
        first_bad_hidden_from(hidden, i + 1)
    }
}

/// The message describing the hidden width at `idx` that breaks the rule.
pub open spec fn hidden_width_message(idx: int, w: int) -> Seq<char> {
    if w < 8 || w > NN_MAX_HIDDEN_WIDTH {
        "hidden_sizes["@ + decimal(idx as nat) + "]="@ + decimal(w as nat) + " out of [8, "@
            + decimal(NN_MAX_HIDDEN_WIDTH as nat) + "]"@
    } else {
        "hidden_sizes["@ + decimal(idx as nat) + "]="@ + decimal(w as nat)
            + " not multiple of 8"@
    }
}

/// The message of the first rule a proposed topology breaks, checked in the
/// order: input width range, input width alignment, at least one hidden
/// layer, at most `NN_MAX_HIDDEN_LAYERS`, one activation per hidden layer,
/// then each hidden width in order.
pub open spec fn topology_error(input_width: int, hidden: Seq<usize>, n_acts: int) -> Seq<char> {
    if !(8 <= input_width <= MAX_NN_INPUTS) {
        "input_width="@ + decimal(input_width as nat) + " out of [8, "@ + decimal(
            MAX_NN_INPUTS as nat,
        ) + "]"@
    } else if input_width % 8 != 0 {
        "input_width="@ + decimal(input_width as nat) + " not multiple of 8 (SIMD chunks)"@
    } else if hidden.len() == 0 {
        "need at least one hidden layer"@
    } else if hidden.len() > NN_MAX_HIDDEN_LAYERS {
        "too many hidden layers: "@ + decimal(hidden.len()) + " > "@ + decimal(
            NN_MAX_HIDDEN_LAYERS as nat,
        )
    } else if n_acts != hidden.len() {
        "activations.len() ("@ + decimal(n_acts as nat) + ") must equal hidden_sizes.len() ("@
            + decimal(hidden.len()) + ") — one per hidden layer"@
    } else {
        let i = first_bad_hidden_from(hidden, 0);
        hidden_width_message(i, hidden[i] as int)
    }
}

/// Σ (fan_in × fan_out) over the matmuls that start at `fan_in` and run
/// through `hidden`, ending in the `NN_OUTPUTS`-wide output layer.
pub open spec fn weight_sum(fan_in: int, hidden: Seq<usize>) -> int
    decreases hidden.len(),
{
    if hidden.len() == 0 {
        fan_in * NN_OUTPUTS
    } else {
        fan_in * hidden[0] + weight_sum(hidden[0] as int, hidden.skip(1))
    }
}

/// The largest of `m` and every width in `hidden`.
pub open spec fn max_of(m: int, hidden: Seq<usize>) -> int
    decreases hidden.len(),
{
    if hidden.len() == 0 {
        m
    } else {
        max_of(if hidden[0] > m { hidden[0] as int } else { m }, hidden.skip(1))
    }
}

/// Validated topology: runtime input width + hidden-layer list + one
/// activation per hidden layer. The output layer is implicit.
#[derive(Debug)]
pub struct NnTopology {
    input_width: usize,
    hidden_sizes: Vec<usize>,
    activations: Vec<Activation>,
}

impl Clone for NnTopology {
    /// A copy with the same input width, hidden widths and activations.
    fn clone(&self) -> (r: Self)
        ensures
            r.spec_input_width() == self.spec_input_width(),
            r.spec_hidden() == self.spec_hidden(),
            r.spec_activations() == self.spec_activations(),
            r.wf() == self.wf(),
    {
        let mut hidden: Vec<usize> = Vec::new();
        let mut i: usize = 0;
        while i < self.hidden_sizes.len()
            invariant
                i <= self.hidden_sizes@.len(),
                hidden@ == self.hidden_sizes@.subrange(0, i as int),
            decreases self.hidden_sizes@.len() - i,
        {
            hidden.push(self.hidden_sizes[i]);
            i = i + 1;
            assert(hidden@ =~= self.hidden_sizes@.subrange(0, i as int));
        }
        let mut acts: Vec<Activation> = Vec::new();
        let mut j: usize = 0;
        while j < self.activations.len()
            invariant
                j <= self.activations@.len(),
                acts@ == self.activations@.subrange(0, j as int),
            decreases self.activations@.len() - j,
        {
            acts.push(self.activations[j]);
            j = j + 1;
            assert(acts@ =~= self.activations@.subrange(0, j as int));
        }
        assert(hidden@ =~= self.hidden_sizes@);
        assert(acts@ =~= self.activations@);
        NnTopology { input_width: self.input_width, hidden_sizes: hidden, activations: acts }
    }
}

/// Default input width used by topologies that omit one.
pub fn default_input_width() -> (w: usize)
    ensures
        w == NN_INPUTS,
{
    NN_INPUTS
}

impl NnTopology {
    /// Runtime input width.
    pub closed spec fn spec_input_width(&self) -> int {
        self.input_width as int
    }

    /// Hidden-layer widths.
    pub closed spec fn spec_hidden(&self) -> Seq<usize> {
        self.hidden_sizes@
    }

    /// Per-hidden-layer activations.
    pub closed spec fn spec_activations(&self) -> Seq<Activation> {
        self.activations@
    }

    /// The topology rules hold.
    pub open spec fn wf(&self) -> bool {
        topology_ok(self.spec_input_width(), self.spec_hidden(), self.spec_activations().len() as int)
    }

    /// Construct with the default input width (`NN_INPUTS`) after validating.
    pub fn new(hidden_sizes: Vec<usize>, activations: Vec<Activation>) -> (r: Result<Self, String>)
        ensures
            r is Ok <==> topology_ok(NN_INPUTS as int, hidden_sizes@, activations@.len() as int),
            r matches Ok(t) ==> t.spec_input_width() == NN_INPUTS && t.spec_hidden() == hidden_sizes@
                && t.spec_activations() == activations@ && t.wf(),
            r matches Err(e) ==> e@ == topology_error(NN_INPUTS as int, hidden_sizes@, activations@.len() as int),
    {
        Self::with_input_width(NN_INPUTS, hidden_sizes, activations)
    }

    /// Construct after validating, with an explicit runtime input width.
    /// Returns the message of the first rule violated.
    pub fn with_input_width(
        input_width: usize,
        hidden_sizes: Vec<usize>,
        activations: Vec<Activation>,
    ) -> (r: Result<Self, String>)
        ensures
            r is Ok <==> topology_ok(input_width as int, hidden_sizes@, activations@.len() as int),
            r matches Ok(t) ==> t.spec_input_width() == input_width && t.spec_hidden() == hidden_sizes@
                && t.spec_activations() == activations@ && t.wf(),
            r is Ok ==> input_width % 8 == 0 && forall|i: int| 0 <= i < hidden_sizes@.len()
                ==> #[trigger] hidden_sizes@[i] % 8 == 0 && 8 <= hidden_sizes@[i] <= NN_MAX_HIDDEN_WIDTH,
            r matches Err(e) ==> e@ == topology_error(input_width as int, hidden_sizes@, activations@.len() as int),
    {
        if input_width < 8 || input_width > MAX_NN_INPUTS {
            let mut m = String::from_str("input_width=");
            push_decimal(&mut m, input_width as u64);
            m.append(" out of [8, ");
            push_decimal(&mut m, MAX_NN_INPUTS as u64);
            m.append("]");
            return Err(m);
        }
        if input_width % 8 != 0 {
            let mut m = String::from_str("input_width=");
            push_decimal(&mut m, input_width as u64);
            m.append(" not multiple of 8 (SIMD chunks)");
            return Err(m);
        }
        if hidden_sizes.len() == 0 {
            return Err(String::from_str("need at least one hidden layer"));
        }
        if hidden_sizes.len() > NN_MAX_HIDDEN_LAYERS {
            let mut m = String::from_str("too many hidden layers: ");
            push_decimal(&mut m, hidden_sizes.len() as u64);
            m.append(" > ");
            push_decimal(&mut m, NN_MAX_HIDDEN_LAYERS as u64);
            return Err(m);
        }
        if activations.len() != hidden_sizes.len() {
            let mut m = String::from_str("activations.len() (");
            push_decimal(&mut m, activations.len() as u64);
            m.append(") must equal hidden_sizes.len() (");
            push_decimal(&mut m, hidden_sizes.len() as u64);
            m.append(") — one per hidden layer");
            return Err(m);
        }
        let mut idx: usize = 0;
        while idx < hidden_sizes.len()
            invariant
                idx <= hidden_sizes@.len(),
                input_width_ok(input_width as int),
                1 <= hidden_sizes@.len() <= NN_MAX_HIDDEN_LAYERS,
                activations@.len() == hidden_sizes@.len(),
                forall|j: int| 0 <= j < idx ==> hidden_width_ok(#[trigger] hidden_sizes@[j] as int),
                first_bad_hidden_from(hidden_sizes@, 0) == first_bad_hidden_from(hidden_sizes@, idx as int),
            decreases hidden_sizes@.len() - idx,
        {
            let w = hidden_sizes[idx];
            if w < 8 || w > NN_MAX_HIDDEN_WIDTH || w % 8 != 0 {
                assert(first_bad_hidden_from(hidden_sizes@, idx as int) == idx as int);
            } else {
                assert(first_bad_hidden_from(hidden_sizes@, idx as int) == first_bad_hidden_from(hidden_sizes@, idx + 1));
            }
            if w < 8 || w > NN_MAX_HIDDEN_WIDTH {
                let mut m = String::from_str("hidden_sizes[");
                push_decimal(&mut m, idx as u64);
                m.append("]=");
                push_decimal(&mut m, w as u64);
                m.append(" out of [8, ");
                push_decimal(&mut m, NN_MAX_HIDDEN_WIDTH as u64);
                m.append("]");
                return Err(m);
            }
            if w % 8 != 0 {
                let mut m = String::from_str("hidden_sizes[");
                push_decimal(&mut m, idx as u64);
                m.append("]=");
                push_decimal(&mut m, w as u64);
                m.append(" not multiple of 8");
                return Err(m);
            }
            idx = idx + 1;
        }
        Ok(Self { input_width, hidden_sizes, activations })
    }

    /// The legacy 32→48→24→5 topology with two leaky-ReLU hidden layers.
    pub fn legacy() -> (t: Self)
        ensures
            t.wf(),
            t.spec_input_width() == NN_INPUTS,
            t.spec_hidden() == seq![LEGACY_HIDDEN_0, LEGACY_HIDDEN_1],
            t.spec_activations() == seq![Activation::LReLU, Activation::LReLU],
    {
        let mut hidden: Vec<usize> = Vec::new();
        hidden.push(LEGACY_HIDDEN_0);
        hidden.push(LEGACY_HIDDEN_1);
        let mut acts: Vec<Activation> = Vec::new();
        acts.push(Activation::LReLU);
        acts.push(Activation::LReLU);
        assert(hidden_width_ok(hidden@[0] as int) && hidden_width_ok(hidden@[1] as int));
        Self { input_width: NN_INPUTS, hidden_sizes: hidden, activations: acts }
    }

    /// Active runtime input width (first-matmul `fan_in`).
    pub fn input_width(&self) -> (w: usize)
        ensures
            w == self.spec_input_width(),
    {
        self.input_width
    }

    /// Hidden-layer widths.
    pub fn hidden_sizes(&self) -> (s: &[usize])
        ensures
            s@ == self.spec_hidden(),
    {
        self.hidden_sizes.as_slice()
    }

    /// One activation per hidden layer.
    pub fn activations(&self) -> (s: &[Activation])
        ensures
            s@ == self.spec_activations(),
    {
        self.activations.as_slice()
    }

    /// Number of hidden layers.
    pub fn hidden_count(&self) -> (n: usize)
        ensures
            n == self.spec_hidden().len(),
    {
        self.hidden_sizes.len()
    }

    /// `hidden_count + 1` — total number of matmuls in a forward pass.
    pub fn matmul_count(&self) -> (n: usize)
        requires
            self.wf(),
        ensures
            n == self.spec_hidden().len() + 1,
    {
        self.hidden_sizes.len() + 1
    }

    /// Total weight count: Σ (fan_in × fan_out) over every matmul, the first
    /// taking the runtime input width as `fan_in`.
    pub fn weight_count(&self) -> (n: usize)
        requires
            self.wf(),
        ensures
            n == weight_sum(self.spec_input_width(), self.spec_hidden()),
    {
        let mut sum: usize = 0;
        let mut fan_in: usize = self.input_width;
        let mut k: usize = 0;
        let ghost hs = self.hidden_sizes@;
        proof {
            lemma_weight_sum_bound(fan_in as int, hs);
            lemma_weight_sum_nonneg(fan_in as int, hs);
        }
        assert(hs.skip(0) =~= hs);
        while k < self.hidden_sizes.len()
            invariant
                hs == self.hidden_sizes@,
                self.wf(),
                k <= hs.len(),
                fan_in <= NN_MAX_HIDDEN_WIDTH,
                sum + weight_sum(fan_in as int, hs.skip(k as int)) == weight_sum(self.input_width as int, hs),
                weight_sum(self.input_width as int, hs) <= (NN_MAX_HIDDEN_LAYERS + 1) * NN_MAX_HIDDEN_WIDTH * NN_MAX_HIDDEN_WIDTH,
                sum >= 0,
                weight_sum(fan_in as int, hs.skip(k as int)) >= 0,
            decreases hs.len() - k,
        {
            let w = self.hidden_sizes[k];
            assert(hs.skip(k as int)[0] == w);
            assert(hs.skip(k as int).skip(1) =~= hs.skip(k + 1));
            proof { lemma_weight_sum_nonneg(w as int, hs.skip(k + 1)); }
            assert(fan_in * w >= 0) by (nonlinear_arith) requires fan_in >= 0, w >= 0;
            sum = sum + fan_in * w;
            fan_in = w;
            k = k + 1;
        }
        assert(hs.skip(k as int).len() == 0);
        sum + fan_in * NN_OUTPUTS
    }

    /// Largest layer width across the hidden layers and the output layer.
    pub fn max_width(&self) -> (m: usize)
        ensures
            m == max_of(NN_OUTPUTS as int, self.spec_hidden()),
    {
        let mut m: usize = NN_OUTPUTS;
        let mut k: usize = 0;
        let ghost hs = self.hidden_sizes@;
        assert(hs.skip(0) =~= hs);
        while k < self.hidden_sizes.len()
            invariant
                hs == self.hidden_sizes@,
                k <= hs.len(),
                max_of(m as int, hs.skip(k as int)) == max_of(NN_OUTPUTS as int, hs),
            decreases hs.len() - k,
        {
            let w = self.hidden_sizes[k];
            assert(hs.skip(k as int)[0] == w);
            assert(hs.skip(k as int).skip(1) =~= hs.skip(k + 1));
            if w > m {
                m = w;
            }
            k = k + 1;
        }
        assert(hs.skip(k as int).len() == 0);
        m
    }
}

/// The weight total is non-negative.
pub proof fn lemma_weight_sum_nonneg(fan_in: int, hidden: Seq<usize>)
    requires
        fan_in >= 0,
    ensures
        weight_sum(fan_in, hidden) >= 0,
    decreases hidden.len(),
{
    if hidden.len() == 0 {
        assert(fan_in * NN_OUTPUTS >= 0) by (nonlinear_arith) requires fan_in >= 0;
    } else {
        lemma_weight_sum_nonneg(hidden[0] as int, hidden.skip(1));
        assert(fan_in * hidden[0] >= 0) by (nonlinear_arith) requires fan_in >= 0, hidden[0] >= 0;
    }
}

/// Under the width rules the weight total stays far below `usize::MAX`.
pub proof fn lemma_weight_sum_bound(fan_in: int, hidden: Seq<usize>)
    requires
        0 <= fan_in <= NN_MAX_HIDDEN_WIDTH,
        hidden.len() <= NN_MAX_HIDDEN_LAYERS,
        forall|i: int| 0 <= i < hidden.len() ==> hidden_width_ok(#[trigger] hidden[i] as int),
    ensures
        weight_sum(fan_in, hidden) <= (hidden.len() + 1) * NN_MAX_HIDDEN_WIDTH * NN_MAX_HIDDEN_WIDTH,
    decreases hidden.len(),
{
    if hidden.len() == 0 {
        assert(fan_in * NN_OUTPUTS <= NN_MAX_HIDDEN_WIDTH * NN_MAX_HIDDEN_WIDTH) by (nonlinear_arith)
            requires 0 <= fan_in <= 256;
    } else {
        let t = hidden.skip(1);
        assert forall|i: int| 0 <= i < t.len() implies hidden_width_ok(#[trigger] t[i] as int) by {
            assert(t[i] == hidden[i + 1]);
        }
        assert(hidden_width_ok(hidden[0] as int));
        lemma_weight_sum_bound(hidden[0] as int, t);
        let h0 = hidden[0] as int;
        assert(fan_in * h0 <= NN_MAX_HIDDEN_WIDTH * NN_MAX_HIDDEN_WIDTH) by (nonlinear_arith)
            requires 0 <= fan_in <= 256, 0 <= h0 <= 256;
        assert((t.len() + 1) * 65536 + 65536 == (hidden.len() + 1) * 65536) by (nonlinear_arith)
            requires t.len() + 1 == hidden.len();
    }
}

/// Index of the first name at or after `i` that names no activation, or
/// `names.len()` when every name does.
pub open spec fn first_unknown_name(names: Seq<String>, i: int) -> int
    decreases names.len() - i,
{
    if i < 0 || i >= names.len() {
        names.len() as int
    } else if activation_of_name(names[i]@) is None {
        i
    } else {
        first_unknown_name(names, i + 1)
    }
}

/// The activations the first `k` names denote.
pub open spec fn activations_of_names(names: Seq<String>, k: int) -> Seq<Activation>
    decreases k,
{
    if k <= 0 {
        Seq::empty()
    } else {
        activations_of_names(names, k - 1).push(activation_of_name(names[k - 1]@).unwrap())
    }
}

/// A topology from hidden widths and activation names (the fields of its
/// JSON form): the first unknown name is refused with
/// `unknown activation: <name>`; otherwise the names become activations and
/// the topology is validated as by [`NnTopology::new`].
pub fn topology_from_names(hidden_sizes: Vec<usize>, activation_names: &[String]) -> (r: Result<NnTopology, String>)
    ensures
        ({
            let names = activation_names@;
            let k = first_unknown_name(names, 0);
            if k < names.len() {
                r matches Err(e) && e@ == "unknown activation: "@ + names[k]@
            } else {
                let acts = activations_of_names(names, names.len() as int);
                &&& r is Ok <==> topology_ok(NN_INPUTS as int, hidden_sizes@, acts.len() as int)
                &&& r matches Ok(t) ==> t.spec_input_width() == NN_INPUTS && t.spec_hidden() == hidden_sizes@
                    && t.spec_activations() == acts && t.wf()
                &&& r matches Err(e) ==> e@ == topology_error(NN_INPUTS as int, hidden_sizes@, acts.len() as int)
            }
        }),
{
    let mut acts: Vec<Activation> = Vec::new();
    let mut i: usize = 0;
    while i < activation_names.len()
        invariant
            i <= activation_names@.len(),
            acts@ == activations_of_names(activation_names@, i as int),
            first_unknown_name(activation_names@, 0) == first_unknown_name(activation_names@, i as int),
        decreases activation_names@.len() - i,
    {
        let name = activation_names[i].as_str();
        match Activation::parse(name) {
            Some(a) => {
                acts.push(a);
            },
            None => {
                let mut e = String::from_str("unknown activation: ");
                e.append(name);
                return Err(e);
            },
        }
        i = i + 1;
    }
    proof {
        assert(acts@.len() == activation_names@.len()) by {
            lemma_activations_of_names_len(activation_names@, activation_names@.len() as int);
        }
    }
    NnTopology::new(hidden_sizes, acts)
}

proof fn lemma_activations_of_names_len(names: Seq<String>, k: int)
    requires
        0 <= k,
    ensures
        activations_of_names(names, k).len() == k,
    decreases k,
{
    if k > 0 {
        lemma_activations_of_names_len(names, k - 1);
    }
}

} // verus!
