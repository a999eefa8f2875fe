//! The shape of a transformer model: its parameters, its inputs and the rows
//! of its output. The arithmetic on tensors stands elsewhere.

use super::Config;
use crate::error::{PredictorError, PredictorErrorView};
use crate::text::{
    decimal, law_decimal_injective, law_decimal_is_positional, lemma_decimal_digits, push_decimal,
};
use vstd::arithmetic::power::pow;
use vstd::prelude::*;

verus! {

// ---- Parameters ------------------------------------------------------------

/// An embedding table and the path under which it is stored.
pub struct EmbeddingPlan {
    pub path: String,
    pub rows: usize,
    pub size: usize,
}

/// A linear map and the path under which its parameters are stored.
pub struct LinearPlan {
    pub path: String,
    pub inputs: usize,
    pub outputs: usize,
}

/// A layer norm and the path under which its parameters are stored.
pub struct NormPlan {
    pub path: String,
    pub size: usize,
}

/// The parameters of one decoder layer.
pub struct LayerPlan {
    /// The combined query, key and value projection.
    pub qkv: LinearPlan,
    /// The output projection after attention.
    pub out: LinearPlan,
    /// The norm before attention.
    pub norm1: NormPlan,
    /// The norm before the feed-forward network.
    pub norm2: NormPlan,
    /// The expansion of the feed-forward network.
    pub ff_up: LinearPlan,
    /// The contraction of the feed-forward network.
    pub ff_down: LinearPlan,
}

/// The parameters of a model.
pub struct ModelPlan {
    /// The dimension of one attention head.
    pub head_dim: usize,
    /// The token embedding.
    pub token_embed: EmbeddingPlan,
    /// The positional embedding.
    pub pos_embed: EmbeddingPlan,
    /// The decoder layers.
    pub layers: Vec<LayerPlan>,
    /// The final layer norm.
    pub final_norm: NormPlan,
    /// The output projection.
    pub output: LinearPlan,
}

impl EmbeddingPlan {
    /// An embedding with the given path and sizes.
    pub open spec fn is(self, path: Seq<char>, rows: int, size: int) -> bool {
        self.path@ == path && self.rows == rows && self.size == size
    }
}

impl LinearPlan {
    /// A linear map with the given path and sizes.
    pub open spec fn is(self, path: Seq<char>, inputs: int, outputs: int) -> bool {
        self.path@ == path && self.inputs == inputs && self.outputs == outputs
    }
}

impl NormPlan {
    /// A layer norm with the given path and size.
    pub open spec fn is(self, path: Seq<char>, size: int) -> bool {
        self.path@ == path && self.size == size
    }
}

/// The path of a part of layer `i`.
pub open spec fn layer_path(i: nat, part: Seq<char>) -> Seq<char> {
    "layer_"@ + decimal(i) + "."@ + part
}

/// Layer `i` of a model with the embedding dimension `embed_dim`.
pub open spec fn is_layer(layer: LayerPlan, i: nat, embed_dim: int) -> bool {
    &&& layer.qkv.is(layer_path(i, "qkv"@), embed_dim, 3 * embed_dim)
    &&& layer.out.is(layer_path(i, "out"@), embed_dim, embed_dim)
    &&& layer.norm1.is(layer_path(i, "norm1"@), embed_dim)
    &&& layer.norm2.is(layer_path(i, "norm2"@), embed_dim)
    &&& layer.ff_up.is(layer_path(i, "ff_up"@), embed_dim, 4 * embed_dim)
    &&& layer.ff_down.is(layer_path(i, "ff_down"@), 4 * embed_dim, embed_dim)
}

/// The parameters that a configuration asks for.
pub open spec fn is_plan(plan: ModelPlan, config: Config) -> bool {
    &&& plan.head_dim * config.num_heads == config.embed_dim
    &&& plan.token_embed.is("token_embed"@, config.vocab_size as int, config.embed_dim as int)
    &&& plan.pos_embed.is("pos_embed"@, config.context_window as int, config.embed_dim as int)
    &&& plan.layers@.len() == config.num_layers
    &&& forall|i: int|
        0 <= i < config.num_layers ==> is_layer(
            #[trigger] plan.layers@[i],
            i as nat,
            config.embed_dim as int,
        )
    &&& plan.final_norm.is("final_norm"@, config.embed_dim as int)
    &&& plan.output.is("output"@, config.embed_dim as int, config.vocab_size as int)
}

/// There are attention heads, and they divide the embedding evenly.
pub open spec fn heads_divide(config: Config) -> bool {
    config.num_heads > 0 && config.embed_dim % config.num_heads == 0
}

/// The widths of the layers of a model, if it has any, can be computed.
pub open spec fn widths_fit(config: Config) -> bool {
    heads_divide(config) && config.num_layers > 0 ==> 4 * config.embed_dim <= usize::MAX
}

/// The complaint about an embedding that the heads do not divide evenly.
pub open spec fn indivisible_text(config: Config) -> Seq<char> {
    "embed_dim ("@ + decimal(config.embed_dim as nat) + ") must be divisible by num_heads ("@
        + decimal(config.num_heads as nat) + ")"@
}

/// The path of a part of layer `i`.
fn path_in_layer(i: usize, part: &str) -> (path: String)
    ensures
        path@ == layer_path(i as nat, part@),
{
    let mut path = String::from_str("layer_");
    push_decimal(&mut path, i as u64);
    path.append(".");
    path.append(part);
    path
}

/// The parameters of layer `i`.
pub fn plan_layer(i: usize, embed_dim: usize) -> (layer: LayerPlan)
    requires
        4 * embed_dim <= usize::MAX,
    ensures
        is_layer(layer, i as nat, embed_dim as int),
{
    LayerPlan {
        qkv: LinearPlan {
            path: path_in_layer(i, "qkv"),
            inputs: embed_dim,
            outputs: 3 * embed_dim,
        },
        out: LinearPlan { path: path_in_layer(i, "out"), inputs: embed_dim, outputs: embed_dim },
        norm1: NormPlan { path: path_in_layer(i, "norm1"), size: embed_dim },
        norm2: NormPlan { path: path_in_layer(i, "norm2"), size: embed_dim },
        ff_up: LinearPlan {
            path: path_in_layer(i, "ff_up"),
            inputs: embed_dim,
            outputs: 4 * embed_dim,
        },
        ff_down: LinearPlan {
            path: path_in_layer(i, "ff_down"),
            inputs: 4 * embed_dim,
            outputs: embed_dim,
        },
    }
}

/// The parameters that `config` asks for. It is refused if the attention
/// heads do not divide the embedding evenly, as no heads do not.
pub fn plan_model(config: &Config) -> (r: Result<ModelPlan, String>)
    requires
        widths_fit(*config),
    ensures
        heads_divide(*config) ==> (r matches Ok(plan) && is_plan(plan, *config)),
        !heads_divide(*config) ==> (r matches Err(text) && text@ == indivisible_text(*config)),
{
    let embed_dim: usize = config.embed_dim;
    if config.num_heads == 0 || embed_dim % config.num_heads != 0 {
        let mut text = String::from_str("embed_dim (");
        push_decimal(&mut text, embed_dim as u64);
        text.append(") must be divisible by num_heads (");
        push_decimal(&mut text, config.num_heads as u64);
        text.append(")");
        return Err(text);
    }
    let head_dim: usize = embed_dim / config.num_heads;
    assert(head_dim * config.num_heads == embed_dim) by (nonlinear_arith)
        requires
            config.num_heads > 0,
            embed_dim % config.num_heads == 0,
            head_dim == embed_dim / config.num_heads,
    ;
    let mut layers: Vec<LayerPlan> = Vec::new();
    let mut i: usize = 0;
    while i < config.num_layers
        invariant
            i <= config.num_layers,
            config.num_layers > 0 ==> 4 * embed_dim <= usize::MAX,
            layers@.len() == i,
            forall|j: int|
                0 <= j < i ==> is_layer(#[trigger] layers@[j], j as nat, embed_dim as int),
        decreases config.num_layers - i,
    {
        layers.push(plan_layer(i, embed_dim));
        i = i + 1;
    }
    Ok(
        ModelPlan {
            head_dim,
            token_embed: EmbeddingPlan {
                path: String::from_str("token_embed"),
                rows: config.vocab_size,
                size: embed_dim,
            },
            pos_embed: EmbeddingPlan {
                path: String::from_str("pos_embed"),
                rows: config.context_window,
                size: embed_dim,
            },
            layers,
            final_norm: NormPlan { path: String::from_str("final_norm"), size: embed_dim },
            output: LinearPlan {
                path: String::from_str("output"),
                inputs: embed_dim,
                outputs: config.vocab_size,
            },
        },
    )
}

/// The combined projection of a layer has exactly one query, key and value
/// entry for each head, so it can be split into heads and merged again.
pub proof fn law_projection_splits_into_heads(plan: ModelPlan, config: Config, i: int, seq_len: int)
    requires
        is_plan(plan, config),
        0 <= i < config.num_layers,
        seq_len >= 0,
    ensures
        seq_len * plan.layers@[i].qkv.outputs == seq_len * 3 * config.num_heads * plan.head_dim,
        seq_len * plan.layers@[i].out.inputs == config.num_heads * seq_len * plan.head_dim,
{
    let e = config.embed_dim as int;
    let h = config.num_heads as int;
    let d = plan.head_dim as int;
    assert(is_layer(plan.layers@[i], i as nat, e));
    assert(seq_len * (3 * e) == seq_len * 3 * h * d) by (nonlinear_arith)
        requires
            d * h == e,
    ;
    assert(seq_len * e == h * seq_len * d) by (nonlinear_arith)
        requires
            d * h == e,
    ;
}

/// Two layers never share a path, whatever their parts are called.
pub proof fn law_layer_paths_distinct(i: nat, j: nat, a: Seq<char>, b: Seq<char>)
    requires
        i != j,
    ensures
        layer_path(i, a) != layer_path(j, b),
{
    reveal_strlit(".");
    let p = "layer_"@.len() as int;
    let m = decimal(i).len() as int;
    let n = decimal(j).len() as int;
    lemma_decimal_digits(i);
    lemma_decimal_digits(j);
    law_decimal_injective(i, j);
    let x = layer_path(i, a);
    let y = layer_path(j, b);
    if x == y {
        assert(x[p + m] == '.');
        assert(y[p + n] == '.');
        if m < n {
            assert(y[p + m] == decimal(j)[m]);
        } else if n < m {
            assert(x[p + n] == decimal(i)[n]);
        } else {
            assert(x.subrange(p, p + m) =~= decimal(i));
            assert(y.subrange(p, p + n) =~= decimal(j));
        }
    }
}

/// A path in layer `i` starts with `layer_`. Up to the next dot follow decimal
/// digits, which are those of `i` in base 10 and start with no needless zero,
/// and behind the dot follows the part.
pub proof fn law_layer_path_names_its_layer(i: nat, part: Seq<char>, k: int)
    ensures
        ({
            let path = layer_path(i, part);
            let digits = path.len() - part.len() - 7;
            &&& digits > 0
            &&& path.take(6) == seq!['l', 'a', 'y', 'e', 'r', '_']
            &&& 0 <= k < digits ==> {
                &&& '0' <= path[6 + k] <= '9'
                &&& path[6 + k] as int - '0' as int == (i as int / pow(
                    10,
                    (digits - 1 - k) as nat,
                )) % 10
            }
            &&& i < pow(10, digits as nat)
            &&& digits > 1 ==> i >= pow(10, (digits - 1) as nat)
            &&& path[6 + digits] == '.'
            &&& path.skip(7 + digits) == part
        }),
{
    reveal_strlit("layer_");
    reveal_strlit(".");
    lemma_decimal_digits(i);
    let path = layer_path(i, part);
    let digits = path.len() - part.len() - 7;
    assert(digits == decimal(i).len());
    assert(path.take(6) =~= seq!['l', 'a', 'y', 'e', 'r', '_']);
    assert(path.skip(7 + digits) =~= part);
    law_decimal_is_positional(i, 0);
    if 0 <= k < digits {
        assert(path[6 + k] == decimal(i)[k]);
        law_decimal_is_positional(i, k);
    }
}

/// A layer has six parts. With an embedding of dimension `e`, the projections
/// map `e` values to `3 * e` and `e` to `e`, the feed-forward network maps `e`
/// values to `4 * e` and back, and the norms have the size `e`.
pub proof fn law_layer_plan(layer: LayerPlan, i: nat, e: int)
    requires
        is_layer(layer, i, e),
    ensures
        layer.qkv.path@ == layer_path(i, "qkv"@),
        layer.qkv.inputs == e,
        layer.qkv.outputs == e + e + e,
        layer.out.path@ == layer_path(i, "out"@),
        layer.out.inputs == e,
        layer.out.outputs == e,
        layer.norm1.path@ == layer_path(i, "norm1"@),
        layer.norm1.size == e,
        layer.norm2.path@ == layer_path(i, "norm2"@),
        layer.norm2.size == e,
        layer.ff_up.path@ == layer_path(i, "ff_up"@),
        layer.ff_up.inputs == e,
        layer.ff_up.outputs == e + e + e + e,
        layer.ff_down.path@ == layer_path(i, "ff_down"@),
        layer.ff_down.inputs == layer.ff_up.outputs,
        layer.ff_down.outputs == e,
{
}

/// A plan has one layer for each that the configuration asks for. Around them,
/// tokens and positions are embedded, and what comes out of the final norm is
/// mapped back to tokens. The heads of a layer share the embedding evenly.
pub proof fn law_model_plan(plan: ModelPlan, config: Config, i: int)
    requires
        is_plan(plan, config),
    ensures
        plan.head_dim * config.num_heads == config.embed_dim,
        plan.token_embed.path@ == "token_embed"@,
        plan.token_embed.rows == config.vocab_size,
        plan.token_embed.size == config.embed_dim,
        plan.pos_embed.path@ == "pos_embed"@,
        plan.pos_embed.rows == config.context_window,
        plan.pos_embed.size == config.embed_dim,
        plan.layers@.len() == config.num_layers,
        0 <= i < config.num_layers ==> is_layer(
            plan.layers@[i],
            i as nat,
            config.embed_dim as int,
        ),
        plan.final_norm.path@ == "final_norm"@,
        plan.final_norm.size == config.embed_dim,
        plan.output.path@ == "output"@,
        plan.output.inputs == config.embed_dim,
        plan.output.outputs == config.vocab_size,
{
}

/// The heads divide an embedding evenly exactly if there are some, and its
/// dimension is a multiple of their number.
pub proof fn law_heads_share_evenly(config: Config, head_dim: int)
    ensures
        heads_divide(config) ==> config.num_heads > 0 && (config.embed_dim as int
            / config.num_heads as int) * config.num_heads == config.embed_dim,
        config.num_heads > 0 && head_dim * config.num_heads == config.embed_dim ==> heads_divide(
            config,
        ),
{
    let e = config.embed_dim as int;
    let h = config.num_heads as int;
    if heads_divide(config) {
        assert((e / h) * h == e) by (nonlinear_arith)
            requires
                h > 0,
                e % h == 0,
        ;
    }
    if h > 0 && head_dim * h == e {
        vstd::arithmetic::div_mod::lemma_mod_multiples_basic(head_dim, h);
    }
}

/// The widths of the layers can be computed if four times the dimension of the
/// embedding is a machine number; without layers they need not be.
pub proof fn law_fitting_widths(config: Config)
    ensures
        4 * config.embed_dim <= usize::MAX ==> widths_fit(config),
        config.num_layers == 0 ==> widths_fit(config),
        !heads_divide(config) ==> widths_fit(config),
{
}

/// The complaint about an embedding names its dimension first and the number of
/// heads second.
pub proof fn law_indivisible_text(config: Config)
    ensures
        indivisible_text(config) == "embed_dim ("@ + decimal(config.embed_dim as nat)
            + ") must be divisible by num_heads ("@ + decimal(config.num_heads as nat) + ")"@,
{
}

// ---- Failures --------------------------------------------------------------

/// A step of making, loading or saving a model that can fail.
pub enum ModelStep {
    /// Parsing a buffer.
    Parse,
    /// Building the model from a parsed buffer.
    Build,
    /// Writing the parameters to the file at a path.
    Save { path: String },
}

/// A step of a prediction that can fail.
pub enum ForwardStep {
    /// The forward pass of a whole prediction.
    Whole,
    /// Flattening the result of a whole prediction.
    FlattenWhole,
    /// Reading the values of a whole prediction.
    ExtractWhole,
    /// The forward pass of a single prediction.
    Single,
    /// Taking the last row of a single prediction.
    LastRow,
    /// Flattening the last row of a single prediction.
    FlattenSingle,
    /// Reading the values of the last row of a single prediction.
    ExtractSingle,
}

/// The error for a failed step with the text of its cause.
pub open spec fn model_failure(step: ModelStep, cause: Seq<char>) -> PredictorErrorView {
    match step {
        ModelStep::Parse => PredictorErrorView::ModelLoadFailed {
            path: "<buffer>"@,
            message: "failed to parse safetensors from buffer: "@ + cause,
        },
        ModelStep::Build => PredictorErrorView::ModelLoadFailed {
            path: "<buffer>"@,
            message: "build from buffer: "@ + cause,
        },
        ModelStep::Save { path } => PredictorErrorView::ModelLoadFailed {
            path: path@,
            message: "failed to save safetensors: "@ + cause,
        },
    }
}

/// The error for a failed step with the text of its cause.
pub fn model_failed(step: ModelStep, cause: &str) -> (e: PredictorError)
    ensures
        e@ == model_failure(step, cause@),
{
    match step {
        ModelStep::Parse => {
            let mut message = String::from_str("failed to parse safetensors from buffer: ");
            message.append(cause);
            PredictorError::ModelLoadFailed { path: String::from_str("<buffer>"), message }
        },
        ModelStep::Build => {
            let mut message = String::from_str("build from buffer: ");
            message.append(cause);
            PredictorError::ModelLoadFailed { path: String::from_str("<buffer>"), message }
        },
        ModelStep::Save { path } => {
            let mut message = String::from_str("failed to save safetensors: ");
            message.append(cause);
            PredictorError::ModelLoadFailed { path, message }
        },
    }
}

/// A model that fails to be made or saved is reported with the file, or that
/// it was a buffer, and with the step and the cause.
pub proof fn law_model_failures_name_step_and_cause(path: String, cause: Seq<char>)
    ensures
        model_failure(ModelStep::Parse, cause) == (PredictorErrorView::ModelLoadFailed {
            path: "<buffer>"@,
            message: "failed to parse safetensors from buffer: "@ + cause,
        }),
        model_failure(ModelStep::Build, cause) == (PredictorErrorView::ModelLoadFailed {
            path: "<buffer>"@,
            message: "build from buffer: "@ + cause,
        }),
        model_failure(ModelStep::Save { path }, cause) == (PredictorErrorView::ModelLoadFailed {
            path: path@,
            message: "failed to save safetensors: "@ + cause,
        }),
{
}

/// What precedes the cause in the error for a failed step.
pub open spec fn forward_prefix(step: ForwardStep) -> Seq<char> {
    match step {
        ForwardStep::Whole => "transformer forward: "@,
        ForwardStep::FlattenWhole => "flatten: "@,
        ForwardStep::ExtractWhole => "failed to extract probabilities: "@,
        ForwardStep::Single => "transformer forward (single): "@,
        ForwardStep::LastRow => "extract last prediction: "@,
        ForwardStep::FlattenSingle => "flatten single: "@,
        ForwardStep::ExtractSingle => "failed to extract single probabilities: "@,
    }
}

/// The error for a failed step with the text of its cause.
pub fn forward_failed(step: ForwardStep, cause: &str) -> (e: PredictorError)
    ensures
        e@ == (PredictorErrorView::ForwardPassFailed { message: forward_prefix(step) + cause@ }),
{
    let prefix: &str = match step {
        ForwardStep::Whole => "transformer forward: ",
        ForwardStep::FlattenWhole => "flatten: ",
        ForwardStep::ExtractWhole => "failed to extract probabilities: ",
        ForwardStep::Single => "transformer forward (single): ",
        ForwardStep::LastRow => "extract last prediction: ",
        ForwardStep::FlattenSingle => "flatten single: ",
        ForwardStep::ExtractSingle => "failed to extract single probabilities: ",
    };
    let mut message = String::from_str(prefix);
    message.append(cause);
    PredictorError::ForwardPassFailed { message }
}

/// The error for a failed prediction says in words which step failed.
pub proof fn law_forward_steps_are_told_apart()
    ensures
        forward_prefix(ForwardStep::Whole) == "transformer forward: "@,
        forward_prefix(ForwardStep::FlattenWhole) == "flatten: "@,
        forward_prefix(ForwardStep::ExtractWhole) == "failed to extract probabilities: "@,
        forward_prefix(ForwardStep::Single) == "transformer forward (single): "@,
        forward_prefix(ForwardStep::LastRow) == "extract last prediction: "@,
        forward_prefix(ForwardStep::FlattenSingle) == "flatten single: "@,
        forward_prefix(ForwardStep::ExtractSingle) == "failed to extract single probabilities: "@,
{
}

// ---- Inputs ----------------------------------------------------------------

/// The tokens of a context: a begin-of-sequence token 0, then the bytes.
pub open spec fn context_tokens(context: Seq<u8>) -> Seq<i64> {
    seq![0i64] + context.map_values(|b: u8| b as i64)
}

/// The first token is 0, and token `i + 1` is byte `i` of the context.
pub proof fn law_tokens_are_the_bytes(context: Seq<u8>, i: int)
    ensures
        context_tokens(context).len() == context.len() + 1,
        context_tokens(context)[0] == 0,
        0 <= i < context.len() ==> context_tokens(context)[i + 1] as int == context[i] as int,
{
}

/// The tokens that predict the byte after `context`.
pub fn single_tokens(context: &[u8]) -> (tokens: Vec<i64>)
    ensures
        tokens@ == context_tokens(context@),
        tokens@.len() == context@.len() + 1,
        tokens@[0] == 0,
        forall|i: int| 0 <= i < context@.len() ==> tokens@[i + 1] == #[trigger] context@[i],
{
    let mut tokens: Vec<i64> = Vec::new();
    tokens.push(0);
    let mut i: usize = 0;
    assert(tokens@ =~= context_tokens(context@.take(0)));
    while i < context.len()
        invariant
            i <= context@.len(),
            tokens@ == context_tokens(context@.take(i as int)),
        decreases context@.len() - i,
    {
        tokens.push(context[i] as i64);
        i = i + 1;
        assert(tokens@ =~= context_tokens(context@.take(i as int)));
    }
    assert(context@.take(i as int) =~= context@);
    tokens
}

/// The tokens that predict every byte of `context`: all tokens of the context
/// but the last, none for an empty context.
pub fn predict_tokens(context: &[u8]) -> (tokens: Vec<i64>)
    ensures
        tokens@ == context_tokens(context@).take(context@.len() as int),
        tokens@.len() == context@.len(),
        context@.len() > 0 ==> tokens@[0] == 0,
        forall|i: int| 0 <= i < context@.len() - 1 ==> tokens@[i + 1] == #[trigger] context@[i],
{
    if context.len() == 0 {
        let tokens: Vec<i64> = Vec::new();
        assert(tokens@ =~= context_tokens(context@).take(0));
        return tokens;
    }
    let shorter = vstd::slice::slice_subrange(context, 0, context.len() - 1);
    let tokens = single_tokens(shorter);
    assert(tokens@ =~= context_tokens(context@).take(context@.len() as int));
    tokens
}

/// The tokens up to position `i` of a whole prediction are those of the
/// single prediction after `i` bytes. With a causal mask, position `i` sees
/// no others.
pub proof fn law_predictions_see_the_same_tokens(context: Seq<u8>, i: int)
    requires
        0 <= i < context.len(),
    ensures
        context_tokens(context).take(context.len() as int).take(i + 1) == context_tokens(
            context.take(i),
        ),
{
    assert(context_tokens(context).take(context.len() as int).take(i + 1) =~= context_tokens(
        context.take(i),
    ));
}

/// The positions of `seq_len` tokens.
pub fn positions(seq_len: usize) -> (out: Vec<i64>)
    requires
        seq_len <= i64::MAX,
    ensures
        out@ == Seq::new(seq_len as nat, |i: int| i as i64),
        forall|i: int| 0 <= i < seq_len ==> #[trigger] out@[i] == i,
{
    let mut out: Vec<i64> = Vec::new();
    let mut i: usize = 0;
    while i < seq_len
        invariant
            i <= seq_len <= i64::MAX,
            out@ == Seq::new(i as nat, |k: int| k as i64),
        decreases seq_len - i,
    {
        out.push(i as i64);
        i = i + 1;
        assert(out@ =~= Seq::new(i as nat, |k: int| k as i64));
    }
    out
}

/// The causal attention mask, row by row: position `i` must not see a later
/// position `j`.
pub fn causal_mask(seq_len: usize) -> (masked: Vec<bool>)
    requires
        seq_len * seq_len <= usize::MAX,
    ensures
        masked@.len() == seq_len * seq_len,
        forall|i: int, j: int|
            0 <= i < seq_len && 0 <= j < seq_len ==> #[trigger] masked@[i * seq_len + j] == (j > i),
{
    let mut masked: Vec<bool> = Vec::new();
    let mut i: usize = 0;
    while i < seq_len
        invariant
            i <= seq_len,
            masked@.len() == i * seq_len,
            forall|r: int, c: int|
                0 <= r < i && 0 <= c < seq_len ==> #[trigger] masked@[r * seq_len + c] == (c > r),
        decreases seq_len - i,
    {
        let mut j: usize = 0;
        while j < seq_len
            invariant
                i < seq_len,
                j <= seq_len,
                masked@.len() == i * seq_len + j,
                forall|r: int, c: int|
                    0 <= r < i && 0 <= c < seq_len ==> #[trigger] masked@[r * seq_len + c] == (c
                        > r),
                forall|c: int| 0 <= c < j ==> #[trigger] masked@[i * seq_len + c] == (c > i),
            decreases seq_len - j,
        {
            let ghost before = masked@;
            masked.push(j > i);
            proof {
                assert forall|r: int, c: int|
                    0 <= r < i && 0 <= c < seq_len implies #[trigger] masked@[r * seq_len + c] == (c
                    > r) by {
                    assert(r * seq_len + c < i * seq_len) by (nonlinear_arith)
                        requires
                            0 <= r < i,
                            0 <= c < seq_len,
                    ;
                    assert(r * seq_len + c >= 0) by (nonlinear_arith)
                        requires
                            0 <= r,
                            0 <= c,
                            seq_len >= 0,
                    ;
                    assert(before[r * seq_len + c] == (c > r));
                }
                assert(0 <= i * seq_len) by (nonlinear_arith)
                    requires
                        i >= 0,
                        seq_len >= 0,
                ;
            }
            j = j + 1;
        }
        proof {
            assert((i + 1) * seq_len == i * seq_len + seq_len) by (nonlinear_arith);
        }
        i = i + 1;
    }
    masked
}

// ---- Outputs ---------------------------------------------------------------

/// A row of at most 256 values, filled up with zeros.
pub open spec fn padded(row: Seq<u32>) -> Seq<u32> {
    Seq::new(
        256,
        |i: int|
            if i < row.len() {
                row[i]
            } else {
                0u32
            },
    )
}

/// A row that is filled up has 256 values: first those of the row, each in its
/// place, then zeros.
pub proof fn law_padded_keeps_the_row(row: Seq<u32>, i: int)
    requires
        row.len() <= 256,
    ensures
        padded(row).len() == 256,
        0 <= i < row.len() ==> padded(row)[i] == row[i],
        row.len() <= i < 256 ==> padded(row)[i] == 0,
{
}

/// Fills a row up with zeros to 256 values.
pub fn pad_row(row: &[u32]) -> (out: [u32; 256])
    requires
        row@.len() <= 256,
    ensures
        out@ == padded(row@),
        forall|i: int| 0 <= i < row@.len() ==> #[trigger] out@[i] == row@[i],
        forall|i: int| row@.len() <= i < 256 ==> #[trigger] out@[i] == 0,
{
    let mut out: [u32; 256] = [0u32; 256];
    let mut i: usize = 0;
    while i < row.len()
        invariant
            i <= row@.len() <= 256,
            forall|j: int| 0 <= j < i ==> out@[j] == row@[j],
            forall|j: int| i <= j < 256 ==> out@[j] == 0,
        decreases row@.len() - i,
    {
        out[i] = row[i];
        i = i + 1;
    }
    assert(out@ =~= padded(row@));
    out
}

/// Splits the values of a whole prediction for `seq_len` positions, given as
/// bit patterns, into rows of equal size and fills each up to 256 values.
/// Values that do not fill a row at the end are dropped.
pub fn probs_tensor_to_vec(flat: &[u32], seq_len: usize) -> (rows: Vec<[u32; 256]>)
    requires
        seq_len > 0,
        1 <= flat@.len() as int / seq_len as int <= 256,
    ensures
        ({
            let size = flat@.len() as int / seq_len as int;
            &&& rows@.len() == flat@.len() as int / size
            &&& forall|k: int|
                0 <= k < rows@.len() ==> (#[trigger] rows@[k])@ == padded(
                    flat@.subrange(k * size, k * size + size),
                )
            &&& forall|k: int, b: int|
                0 <= k < rows@.len() && 0 <= b < size ==> #[trigger] rows@[k]@[b] == flat@[k * size
                    + b]
            &&& forall|k: int, b: int|
                0 <= k < rows@.len() && size <= b < 256 ==> #[trigger] rows@[k]@[b] == 0
        }),
{
    let size: usize = flat.len() / seq_len;
    let count: usize = flat.len() / size;
    let mut rows: Vec<[u32; 256]> = Vec::new();
    let mut k: usize = 0;
    let mut at: usize = 0;
    proof {
        assert(count * size <= flat@.len()) by (nonlinear_arith)
            requires
                size > 0,
                count == flat@.len() as int / size as int,
        ;
    }
    while k < count
        invariant
            k <= count,
            1 <= size <= 256,
            at == k * size,
            count * size <= flat.len(),
            rows@.len() == k,
            forall|r: int|
                0 <= r < k ==> (#[trigger] rows@[r])@ == padded(
                    flat@.subrange(r * size, r * size + size),
                ),
            forall|r: int, b: int|
                0 <= r < k && 0 <= b < size ==> #[trigger] rows@[r]@[b] == flat@[r * size + b],
            forall|r: int, b: int|
                0 <= r < k && size <= b < 256 ==> #[trigger] rows@[r]@[b] == 0,
        decreases count - k,
    {
        proof {
            assert(k * size + size <= count * size) by (nonlinear_arith)
                requires
                    k + 1 <= count,
                    size >= 1,
            ;
            assert((k + 1) * size == k * size + size) by (nonlinear_arith);
        }
        let row = vstd::slice::slice_subrange(flat, at, at + size);
        rows.push(pad_row(row));
        at = at + size;
        k = k + 1;
    }
    rows
}

/// In rows of `size` values that follow each other, value `b` of row `k` is value
/// `k * size + b` of all, also after the rows were filled up.
pub proof fn law_rows_follow_each_other(flat: Seq<u32>, size: int, k: int, b: int)
    requires
        1 <= size <= 256,
        0 <= k,
        k * size + size <= flat.len(),
        0 <= b < 256,
    ensures
        padded(flat.subrange(k * size, k * size + size))[b] == (if b < size {
            flat[k * size + b]
        } else {
            0
        }),
{
    assert(0 <= k * size) by (nonlinear_arith)
        requires
            0 <= k,
            1 <= size,
    ;
}

/// A prediction whose values fill their rows has one row for each position.
pub proof fn law_one_row_per_position(values: int, seq_len: int)
    requires
        seq_len > 0,
        values >= seq_len,
        values % seq_len == 0,
    ensures
        values / (values / seq_len) == seq_len,
{
    let size = values / seq_len;
    assert(values == size * seq_len && size > 0) by (nonlinear_arith)
        requires
            seq_len > 0,
            values >= seq_len,
            values % seq_len == 0,
            size == values / seq_len,
    ;
    assert(values / size == seq_len) by (nonlinear_arith)
        requires
            values == size * seq_len,
            size > 0,
    ;
}

} // verus!
