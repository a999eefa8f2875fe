//! Transformer models: their tensors, made or loaded as a configuration asks.

use super::params::{
    Params, StoredTensor, bias_name, embedding_held, embedding_table, error_text, fresh_params,
    holds, into_variables, lemma_tensor_names, linear_held, linear_parts, load_embedding, load_linear,
    load_norm, norm_held, norm_parts, params_contents, params_given, parse_safetensors,
    safetensors_contents, stored_parts, unused, variables_held, weight_name,
};
use super::transformer::{
    LayerPlan, ModelPlan, ModelStep, heads_divide, indivisible_text, is_layer, is_plan, law_layer_paths_distinct,
    layer_path, model_failed, model_failure, plan_model, widths_fit,
};
use super::Config;
use crate::error::{PredictorError, PredictorErrorView};
use crate::text::decimal;
use candle_nn::{Embedding, LayerNorm, Linear, VarMap};
use vstd::prelude::*;

verus! {

/// The tensors of one decoder layer.
pub struct DecoderLayer {
    /// The combined query, key and value projection.
    pub qkv_proj: Linear,
    /// The output projection after attention.
    pub out_proj: Linear,
    /// The norm before attention.
    pub norm1: LayerNorm,
    /// The norm before the feed-forward network.
    pub norm2: LayerNorm,
    /// The expansion of the feed-forward network.
    pub ff_up: Linear,
    /// The contraction of the feed-forward network.
    pub ff_down: Linear,
    /// The number of attention heads.
    pub num_heads: usize,
    /// The dimension of one attention head.
    pub head_dim: usize,
}

/// The tensors of a byte-level autoregressive transformer.
pub struct Transformer {
    /// The configuration of the model.
    pub config: Config,
    /// The token embedding.
    pub token_embed: Embedding,
    /// The positional embedding.
    pub pos_embed: Embedding,
    /// The decoder layers.
    pub layers: Vec<DecoderLayer>,
    /// The final layer norm.
    pub norm: LayerNorm,
    /// The output projection.
    pub output_proj: Linear,
    /// The variables of a model that was initialised, none of one that was
    /// loaded.
    pub varmap: Option<VarMap>,
}

/// Why a model was not built.
pub enum BuildError {
    /// The attention heads do not divide the embedding evenly.
    Indivisible(String),
    /// A tensor could not be had.
    Backend(candle_core::Error),
}

// ---- What a model holds ----------------------------------------------------

/// The tensors of layer `i` are there with the sizes for an embedding of
/// dimension `e`.
pub open spec fn layer_held(contents: Map<Seq<char>, StoredTensor>, i: nat, e: usize) -> bool {
    &&& linear_held(contents, layer_path(i, "qkv"@), e, (3 * e) as usize)
    &&& linear_held(contents, layer_path(i, "out"@), e, e)
    &&& norm_held(contents, layer_path(i, "norm1"@), e)
    &&& norm_held(contents, layer_path(i, "norm2"@), e)
    &&& linear_held(contents, layer_path(i, "ff_up"@), e, (4 * e) as usize)
    &&& linear_held(contents, layer_path(i, "ff_down"@), (4 * e) as usize, e)
}

/// All tensors that a configuration asks for are there with their sizes.
pub open spec fn model_held(contents: Map<Seq<char>, StoredTensor>, config: Config) -> bool {
    &&& embedding_held(contents, "token_embed"@, config.vocab_size, config.embed_dim)
    &&& embedding_held(contents, "pos_embed"@, config.context_window, config.embed_dim)
    &&& forall|i: int|
        0 <= i < config.num_layers ==> #[trigger] layer_held(
            contents,
            i as nat,
            config.embed_dim,
        )
    &&& norm_held(contents, "final_norm"@, config.embed_dim)
    &&& linear_held(contents, "output"@, config.embed_dim, config.vocab_size)
}

/// A layer that holds the tensors that are stored for layer `i`.
pub open spec fn layer_stored(
    layer: DecoderLayer,
    contents: Map<Seq<char>, StoredTensor>,
    i: nat,
) -> bool {
    &&& linear_parts(layer.qkv_proj) == stored_parts(contents, layer_path(i, "qkv"@))
    &&& linear_parts(layer.out_proj) == stored_parts(contents, layer_path(i, "out"@))
    &&& norm_parts(layer.norm1) == stored_parts(contents, layer_path(i, "norm1"@))
    &&& norm_parts(layer.norm2) == stored_parts(contents, layer_path(i, "norm2"@))
    &&& linear_parts(layer.ff_up) == stored_parts(contents, layer_path(i, "ff_up"@))
    &&& linear_parts(layer.ff_down) == stored_parts(contents, layer_path(i, "ff_down"@))
}

/// A model that holds the stored tensors, each in its place.
pub open spec fn model_stored(model: Transformer, contents: Map<Seq<char>, StoredTensor>) -> bool {
    &&& embedding_table(model.token_embed) == stored_parts(contents, "token_embed"@).0
    &&& embedding_table(model.pos_embed) == stored_parts(contents, "pos_embed"@).0
    &&& forall|i: int|
        0 <= i < model.layers@.len() ==> layer_stored(
            #[trigger] model.layers@[i],
            contents,
            i as nat,
        )
    &&& norm_parts(model.norm) == stored_parts(contents, "final_norm"@)
    &&& linear_parts(model.output_proj) == stored_parts(contents, "output"@)
}

/// A linear map of the given sizes.
pub open spec fn linear_sized(l: Linear, inputs: int, outputs: int) -> bool {
    &&& linear_parts(l).0.dims == seq![outputs as usize, inputs as usize]
    &&& linear_parts(l).1.dims == seq![outputs as usize]
}

/// A layer norm of the given size.
pub open spec fn norm_sized(n: LayerNorm, size: int) -> bool {
    &&& norm_parts(n).0.dims == seq![size as usize]
    &&& norm_parts(n).1.dims == seq![size as usize]
}

/// A layer whose tensors and heads have the sizes that a configuration asks
/// for.
pub open spec fn layer_sized(layer: DecoderLayer, config: Config) -> bool {
    let e = config.embed_dim as int;
    &&& linear_sized(layer.qkv_proj, e, 3 * e)
    &&& linear_sized(layer.out_proj, e, e)
    &&& norm_sized(layer.norm1, e)
    &&& norm_sized(layer.norm2, e)
    &&& linear_sized(layer.ff_up, e, 4 * e)
    &&& linear_sized(layer.ff_down, 4 * e, e)
    &&& layer.num_heads == config.num_heads
    &&& layer.head_dim * layer.num_heads == e
}

/// A model with the configuration and the sizes that it asks for.
pub open spec fn model_sized(model: Transformer, config: Config) -> bool {
    &&& model.config == config
    &&& embedding_table(model.token_embed).dims == seq![config.vocab_size, config.embed_dim]
    &&& embedding_table(model.pos_embed).dims == seq![config.context_window, config.embed_dim]
    &&& model.layers@.len() == config.num_layers
    &&& forall|i: int|
        0 <= i < config.num_layers ==> layer_sized(#[trigger] model.layers@[i], config)
    &&& norm_sized(model.norm, config.embed_dim as int)
    &&& linear_sized(model.output_proj, config.embed_dim as int, config.vocab_size as int)
}

/// No tensor of a model with this configuration is too large for the memory.
pub open spec fn fits_memory(config: Config) -> bool {
    heads_divide(config) ==> {
        &&& 4 * (config.vocab_size * config.embed_dim) <= isize::MAX
        &&& 4 * (config.context_window * config.embed_dim) <= isize::MAX
        &&& 4 * config.embed_dim <= isize::MAX
        &&& config.num_layers > 0 ==> 4 * (4 * (config.embed_dim * config.embed_dim)) <= isize::MAX
    }
}

// ---- The names of the tensors ----------------------------------------------

/// The weight or the bias under a path.
pub open spec fn is_tensor_of(name: Seq<char>, path: Seq<char>) -> bool {
    name == weight_name(path) || name == bias_name(path)
}

/// A tensor of layer `i`.
pub open spec fn is_layer_tensor(i: nat, name: Seq<char>) -> bool {
    ||| is_tensor_of(name, layer_path(i, "qkv"@))
    ||| is_tensor_of(name, layer_path(i, "out"@))
    ||| is_tensor_of(name, layer_path(i, "norm1"@))
    ||| is_tensor_of(name, layer_path(i, "norm2"@))
    ||| is_tensor_of(name, layer_path(i, "ff_up"@))
    ||| is_tensor_of(name, layer_path(i, "ff_down"@))
}

/// A tensor of one of the first `n` layers.
pub open spec fn is_in_layers(n: int, name: Seq<char>) -> bool {
    exists|i: int| 0 <= i < n && #[trigger] is_layer_tensor(i as nat, name)
}

/// A tensor of a model with this configuration.
pub open spec fn is_parameter(config: Config, name: Seq<char>) -> bool {
    ||| name == weight_name("token_embed"@)
    ||| name == weight_name("pos_embed"@)
    ||| is_in_layers(config.num_layers as int, name)
    ||| is_tensor_of(name, "final_norm"@)
    ||| is_tensor_of(name, "output"@)
}

/// No tensor of a model with this configuration has been given.
pub open spec fn none_given(given: Map<Seq<char>, StoredTensor>, config: Config) -> bool {
    forall|name: Seq<char>| #[trigger] given.contains_key(name) ==> !is_parameter(config, name)
}

/// The earlier tensors are kept, and exactly those of a model with this
/// configuration are added.
pub open spec fn model_added(
    before: Map<Seq<char>, StoredTensor>,
    after: Map<Seq<char>, StoredTensor>,
    config: Config,
) -> bool {
    &&& forall|name: Seq<char>| #[trigger]
        after.contains_key(name) <==> before.contains_key(name) || is_parameter(config, name)
    &&& forall|name: Seq<char>| #[trigger]
        before.contains_key(name) ==> after[name] == before[name]
}

/// The earlier tensors are kept, and exactly those of layer `i` are added.
spec fn layer_added(
    before: Map<Seq<char>, StoredTensor>,
    after: Map<Seq<char>, StoredTensor>,
    i: nat,
) -> bool {
    &&& forall|name: Seq<char>| #[trigger]
        after.contains_key(name) <==> before.contains_key(name) || is_layer_tensor(i, name)
    &&& forall|name: Seq<char>| #[trigger]
        before.contains_key(name) ==> after[name] == before[name]
}

/// The parts of a layer have different paths.
proof fn lemma_layer_parts_differ(i: nat)
    ensures
        layer_path(i, "qkv"@) != layer_path(i, "out"@),
        layer_path(i, "qkv"@) != layer_path(i, "norm1"@),
        layer_path(i, "qkv"@) != layer_path(i, "norm2"@),
        layer_path(i, "qkv"@) != layer_path(i, "ff_up"@),
        layer_path(i, "qkv"@) != layer_path(i, "ff_down"@),
        layer_path(i, "out"@) != layer_path(i, "norm1"@),
        layer_path(i, "out"@) != layer_path(i, "norm2"@),
        layer_path(i, "out"@) != layer_path(i, "ff_up"@),
        layer_path(i, "out"@) != layer_path(i, "ff_down"@),
        layer_path(i, "norm1"@) != layer_path(i, "norm2"@),
        layer_path(i, "norm1"@) != layer_path(i, "ff_up"@),
        layer_path(i, "norm1"@) != layer_path(i, "ff_down"@),
        layer_path(i, "norm2"@) != layer_path(i, "ff_up"@),
        layer_path(i, "norm2"@) != layer_path(i, "ff_down"@),
        layer_path(i, "ff_up"@) != layer_path(i, "ff_down"@),
{
    reveal_strlit("qkv");
    reveal_strlit("out");
    reveal_strlit("norm1");
    reveal_strlit("norm2");
    reveal_strlit("ff_up");
    reveal_strlit("ff_down");
    let n = ("layer_"@ + decimal(i) + "."@).len() as int;
    assert(layer_path(i, "qkv"@)[n] == 'q');
    assert(layer_path(i, "out"@)[n] == 'o');
    assert(layer_path(i, "norm1"@)[n] == 'n' && layer_path(i, "norm1"@)[n + 4] == '1');
    assert(layer_path(i, "norm2"@)[n] == 'n' && layer_path(i, "norm2"@)[n + 4] == '2');
    assert(layer_path(i, "ff_up"@)[n] == 'f' && layer_path(i, "ff_up"@)[n + 3] == 'u');
    assert(layer_path(i, "ff_down"@)[n] == 'f' && layer_path(i, "ff_down"@)[n + 3] == 'd');
}

/// The path to which a tensor of layer `i` belongs.
proof fn lemma_part_of(i: nat, name: Seq<char>) -> (part: Seq<char>)
    requires
        is_layer_tensor(i, name),
    ensures
        is_tensor_of(name, layer_path(i, part)),
{
    if is_tensor_of(name, layer_path(i, "qkv"@)) {
        "qkv"@
    } else if is_tensor_of(name, layer_path(i, "out"@)) {
        "out"@
    } else if is_tensor_of(name, layer_path(i, "norm1"@)) {
        "norm1"@
    } else if is_tensor_of(name, layer_path(i, "norm2"@)) {
        "norm2"@
    } else if is_tensor_of(name, layer_path(i, "ff_up"@)) {
        "ff_up"@
    } else {
        "ff_down"@
    }
}

/// No tensor belongs to two layers.
pub proof fn law_layers_share_no_tensor(i: nat, j: nat, name: Seq<char>)
    requires
        is_layer_tensor(i, name),
        is_layer_tensor(j, name),
    ensures
        i == j,
{
    let a = lemma_part_of(i, name);
    let b = lemma_part_of(j, name);
    lemma_tensor_names();
    if i != j {
        law_layer_paths_distinct(i, j, a, b);
    }
}

/// The tensors outside the layers have different paths, and no tensor of a
/// layer.
proof fn lemma_outer_paths(i: nat, name: Seq<char>)
    ensures
        "token_embed"@ != "pos_embed"@,
        "token_embed"@ != "final_norm"@,
        "token_embed"@ != "output"@,
        "pos_embed"@ != "final_norm"@,
        "pos_embed"@ != "output"@,
        "final_norm"@ != "output"@,
        is_layer_tensor(i, name) ==> {
            &&& !is_tensor_of(name, "token_embed"@)
            &&& !is_tensor_of(name, "pos_embed"@)
            &&& !is_tensor_of(name, "final_norm"@)
            &&& !is_tensor_of(name, "output"@)
        },
{
    reveal_strlit("token_embed");
    reveal_strlit("pos_embed");
    reveal_strlit("final_norm");
    reveal_strlit("output");
    reveal_strlit("layer_");
    assert("token_embed"@[0] == 't');
    assert("pos_embed"@[0] == 'p');
    assert("final_norm"@[0] == 'f');
    assert("output"@[0] == 'o');
    if is_layer_tensor(i, name) {
        let part = lemma_part_of(i, name);
        lemma_tensor_names();
        assert(layer_path(i, part)[0] == 'l');
    }
}

// ---- Building --------------------------------------------------------------

/// The tensors of layer `i` are there with the sizes of its plan.
spec fn layer_plan_held(contents: Map<Seq<char>, StoredTensor>, plan: LayerPlan) -> bool {
    &&& linear_held(contents, plan.qkv.path@, plan.qkv.inputs, plan.qkv.outputs)
    &&& linear_held(contents, plan.out.path@, plan.out.inputs, plan.out.outputs)
    &&& norm_held(contents, plan.norm1.path@, plan.norm1.size)
    &&& norm_held(contents, plan.norm2.path@, plan.norm2.size)
    &&& linear_held(contents, plan.ff_up.path@, plan.ff_up.inputs, plan.ff_up.outputs)
    &&& linear_held(contents, plan.ff_down.path@, plan.ff_down.inputs, plan.ff_down.outputs)
}

/// No tensor of layer `i` has been given.
spec fn layer_unused(given: Map<Seq<char>, StoredTensor>, i: nat) -> bool {
    forall|name: Seq<char>| #[trigger] given.contains_key(name) ==> !is_layer_tensor(i, name)
}

/// Makes or loads the tensors of layer `i`.
fn build_layer(
    params: &mut Params,
    plan: &LayerPlan,
    i: usize,
    config: &Config,
    head_dim: usize,
) -> (r: Result<DecoderLayer, candle_core::Error>)
    requires
        is_layer(*plan, i as nat, config.embed_dim as int),
        head_dim * config.num_heads == config.embed_dim,
        heads_divide(*config),
        config.num_layers > 0,
        4 * config.embed_dim <= usize::MAX,
        params_contents(*old(params)) is None ==> fits_memory(*config),
    ensures
        params_contents(*final(params)) == params_contents(*old(params)),
        r matches Ok(layer) ==> layer_sized(layer, *config),
        params_contents(*old(params)) matches Some(c) ==> (r is Ok <==> layer_held(
            c,
            i as nat,
            config.embed_dim,
        )),
        params_contents(*old(params)) matches Some(c) ==> (r matches Ok(layer) ==> layer_stored(
            layer,
            c,
            i as nat,
        )),
        params_contents(*old(params)) is None && layer_unused(
            params_given(*old(params)),
            i as nat,
        ) ==> (r is Ok <==> config.embed_dim > 0),
        params_contents(*old(params)) is None && layer_unused(
            params_given(*old(params)),
            i as nat,
        ) ==> (r matches Ok(layer) ==> {
            &&& layer_added(params_given(*old(params)), params_given(*final(params)), i as nat)
            &&& layer_held(params_given(*final(params)), i as nat, config.embed_dim)
            &&& layer_stored(layer, params_given(*final(params)), i as nat)
        }),
{
    proof {
        let e = config.embed_dim as int;
        assert(e * (3 * e) == 3 * (e * e)) by (nonlinear_arith);
        assert(e * (4 * e) == 4 * (e * e)) by (nonlinear_arith);
        assert((4 * e) * e == 4 * (e * e)) by (nonlinear_arith);
        assert(e * e >= 0) by (nonlinear_arith);
        if params_contents(*params) is Some {
            let c = params_contents(*params)->Some_0;
            assert(layer_plan_held(c, *plan) == layer_held(c, i as nat, config.embed_dim));
        }
        lemma_tensor_names();
        lemma_layer_parts_differ(i as nat);
        if layer_unused(params_given(*params), i as nat) {
            let given = params_given(*params);
            assert(unused(given, plan.qkv.path@));
            assert(unused(given, plan.out.path@));
            assert(unused(given, plan.norm1.path@));
            assert(unused(given, plan.norm2.path@));
            assert(unused(given, plan.ff_up.path@));
            assert(unused(given, plan.ff_down.path@));
        }
    }
    let qkv_proj = load_linear(params, plan.qkv.path.as_str(), plan.qkv.inputs, plan.qkv.outputs)?;
    let out_proj = load_linear(params, plan.out.path.as_str(), plan.out.inputs, plan.out.outputs)?;
    let norm1 = load_norm(params, plan.norm1.path.as_str(), plan.norm1.size)?;
    let norm2 = load_norm(params, plan.norm2.path.as_str(), plan.norm2.size)?;
    let ff_up = load_linear(
        params,
        plan.ff_up.path.as_str(),
        plan.ff_up.inputs,
        plan.ff_up.outputs,
    )?;
    let ff_down = load_linear(
        params,
        plan.ff_down.path.as_str(),
        plan.ff_down.inputs,
        plan.ff_down.outputs,
    )?;
    Ok(
        DecoderLayer {
            qkv_proj,
            out_proj,
            norm1,
            norm2,
            ff_up,
            ff_down,
            num_heads: config.num_heads,
            head_dim,
        },
    )
}

/// The embeddings and the first `n` layers were added to the tensors of
/// `before`.
spec fn layers_added(
    before: Map<Seq<char>, StoredTensor>,
    given: Map<Seq<char>, StoredTensor>,
    n: int,
    token: StoredTensor,
    pos: StoredTensor,
) -> bool {
    &&& forall|name: Seq<char>| #[trigger]
        given.contains_key(name) <==> {
            ||| before.contains_key(name)
            ||| name == weight_name("token_embed"@)
            ||| name == weight_name("pos_embed"@)
            ||| is_in_layers(n, name)
        }
    &&& forall|name: Seq<char>| #[trigger]
        before.contains_key(name) ==> given[name] == before[name]
    &&& given[weight_name("token_embed"@)] == token
    &&& given[weight_name("pos_embed"@)] == pos
}

/// Where no tensor of a model has been given, the paths outside the layers are
/// unused.
proof fn lemma_outer_unused(before: Map<Seq<char>, StoredTensor>, config: Config)
    ensures
        none_given(before, config) ==> {
            &&& !before.contains_key(weight_name("token_embed"@))
            &&& !before.contains_key(weight_name("pos_embed"@))
            &&& unused(before, "final_norm"@)
            &&& unused(before, "output"@)
        },
{
    assert(is_parameter(config, weight_name("token_embed"@)));
    assert(is_parameter(config, weight_name("pos_embed"@)));
    assert(is_parameter(config, weight_name("final_norm"@)));
    assert(is_parameter(config, bias_name("final_norm"@)));
    assert(is_parameter(config, weight_name("output"@)));
    assert(is_parameter(config, bias_name("output"@)));
}

/// The next layer has not been given.
proof fn lemma_layer_is_new(
    before: Map<Seq<char>, StoredTensor>,
    given: Map<Seq<char>, StoredTensor>,
    config: Config,
    n: int,
    token: StoredTensor,
    pos: StoredTensor,
)
    requires
        none_given(before, config),
        layers_added(before, given, n, token, pos),
        0 <= n < config.num_layers,
    ensures
        layer_unused(given, n as nat),
{
    assert forall|name: Seq<char>| #[trigger] given.contains_key(name) implies !is_layer_tensor(
        n as nat,
        name,
    ) by {
        if is_layer_tensor(n as nat, name) {
            lemma_outer_paths(n as nat, name);
            assert(is_in_layers(config.num_layers as int, name));
            assert(is_parameter(config, name));
            if is_in_layers(n, name) {
                let j = choose|j: int| 0 <= j < n && #[trigger] is_layer_tensor(j as nat, name);
                law_layers_share_no_tensor(n as nat, j as nat, name);
            }
        }
    }
}

/// A layer more has been added.
proof fn lemma_layers_grow(
    before: Map<Seq<char>, StoredTensor>,
    given: Map<Seq<char>, StoredTensor>,
    after: Map<Seq<char>, StoredTensor>,
    n: int,
    token: StoredTensor,
    pos: StoredTensor,
)
    requires
        layers_added(before, given, n, token, pos),
        layer_added(given, after, n as nat),
        n >= 0,
    ensures
        layers_added(before, after, n + 1, token, pos),
{
    assert forall|name: Seq<char>|
        is_in_layers(n + 1, name) <==> #[trigger] is_in_layers(n, name) || is_layer_tensor(
            n as nat,
            name,
        ) by {
        if is_in_layers(n, name) {
            let j = choose|j: int| 0 <= j < n && #[trigger] is_layer_tensor(j as nat, name);
            assert(is_layer_tensor(j as nat, name));
        }
    }
    assert(given.contains_key(weight_name("token_embed"@)));
    assert(given.contains_key(weight_name("pos_embed"@)));
    assert forall|name: Seq<char>| #[trigger] before.contains_key(name) implies after[name]
        == before[name] by {
        assert(given.contains_key(name));
    }
    assert forall|name: Seq<char>| #[trigger]
        after.contains_key(name) <==> {
            ||| before.contains_key(name)
            ||| name == weight_name("token_embed"@)
            ||| name == weight_name("pos_embed"@)
            ||| is_in_layers(n + 1, name)
        } by {
        assert(is_in_layers(n + 1, name) <==> is_in_layers(n, name) || is_layer_tensor(
            n as nat,
            name,
        ));
        assert(given.contains_key(name) <==> {
            ||| before.contains_key(name)
            ||| name == weight_name("token_embed"@)
            ||| name == weight_name("pos_embed"@)
            ||| is_in_layers(n, name)
        });
    }
}

/// After all layers, the paths of the final norm and the output are unused.
proof fn lemma_ends_are_new(
    before: Map<Seq<char>, StoredTensor>,
    given: Map<Seq<char>, StoredTensor>,
    config: Config,
    token: StoredTensor,
    pos: StoredTensor,
)
    requires
        none_given(before, config),
        layers_added(before, given, config.num_layers as int, token, pos),
    ensures
        unused(given, "final_norm"@),
        unused(given, "output"@),
        !is_in_layers(config.num_layers as int, weight_name("token_embed"@)),
        !is_in_layers(config.num_layers as int, weight_name("pos_embed"@)),
{
    lemma_outer_unused(before, config);
    lemma_outer_paths(0, seq![]);
    lemma_tensor_names();
    assert forall|name: Seq<char>| #[trigger]
        is_in_layers(config.num_layers as int, name) implies !is_tensor_of(name, "final_norm"@)
        && !is_tensor_of(name, "output"@) && !is_tensor_of(name, "token_embed"@) && !is_tensor_of(
        name,
        "pos_embed"@,
    ) by {
        let j = choose|j: int|
            0 <= j < config.num_layers && #[trigger] is_layer_tensor(j as nat, name);
        lemma_outer_paths(j as nat, name);
    }
}

/// The variables that a model keeps are exactly its parameters, each with the
/// size that the configuration asks for, and hold the values of the model.
pub open spec fn keeps_parameters(model: Transformer, config: Config) -> bool {
    match model.varmap {
        Some(variables) => {
            let held = variables_held(variables);
            &&& forall|name: Seq<char>| #[trigger]
                held.contains_key(name) <==> is_parameter(config, name)
            &&& model_held(held, config)
            &&& model_stored(model, held)
        },
        None => false,
    }
}

impl Transformer {
    /// Makes or loads the tensors that `config` asks for. It is refused if the
    /// attention heads do not divide the embedding evenly, or if a tensor
    /// cannot be had. Where the tensors are read, they can all be had exactly
    /// if they are all there with their sizes. Where they are initialised and
    /// none of them was before, they can all be had exactly if the embedding
    /// has a dimension; the model then holds them as they are kept.
    pub fn build(config: &Config, params: &mut Params) -> (r: Result<Transformer, BuildError>)
        requires
            widths_fit(*config),
            params_contents(*old(params)) is None ==> fits_memory(*config),
        ensures
            params_contents(*final(params)) == params_contents(*old(params)),
            !heads_divide(*config) ==> (r matches Err(
                BuildError::Indivisible(text),
            ) && text@ == indivisible_text(*config)),
            heads_divide(*config) ==> !(r matches Err(
                BuildError::Indivisible(_),
            )),
            params_contents(*old(params)) matches Some(c) ==> (r is Ok <==> heads_divide(*config) && model_held(c, *config)),
            params_contents(*old(params)) matches Some(c) ==> (r matches Ok(model)
                ==> model_stored(model, c)),
            params_contents(*old(params)) is None && none_given(
                params_given(*old(params)),
                *config,
            ) ==> (r is Ok <==> heads_divide(*config) && config.embed_dim > 0),
            params_contents(*old(params)) is None && none_given(
                params_given(*old(params)),
                *config,
            ) ==> (r matches Ok(model) ==> {
                &&& model_added(params_given(*old(params)), params_given(*final(params)), *config)
                &&& model_held(params_given(*final(params)), *config)
                &&& model_stored(model, params_given(*final(params)))
            }),
            r matches Ok(model) ==> model_sized(model, *config) && model.varmap is None,
    {
        let ghost source = params_contents(*params);
        let ghost before = params_given(*params);
        let ghost fresh = source is None && none_given(before, *config);
        let plan: ModelPlan = match plan_model(config) {
            Ok(plan) => plan,
            Err(text) => {
                return Err(BuildError::Indivisible(text));
            },
        };
        proof {
            let e = config.embed_dim as int;
            let v = config.vocab_size as int;
            assert(e * v == v * e) by (nonlinear_arith);
            lemma_tensor_names();
            lemma_outer_paths(0, seq![]);
            assert(is_parameter(*config, weight_name("token_embed"@)));
            assert(is_parameter(*config, weight_name("pos_embed"@)));
            lemma_outer_unused(before, *config);
        }
        let token_embed = match load_embedding(
            params,
            plan.token_embed.path.as_str(),
            plan.token_embed.rows,
            plan.token_embed.size,
        ) {
            Ok(token_embed) => token_embed,
            Err(e) => {
                return Err(BuildError::Backend(e));
            },
        };
        let pos_embed = match load_embedding(
            params,
            plan.pos_embed.path.as_str(),
            plan.pos_embed.rows,
            plan.pos_embed.size,
        ) {
            Ok(pos_embed) => pos_embed,
            Err(e) => {
                return Err(BuildError::Backend(e));
            },
        };
        let mut layers: Vec<DecoderLayer> = Vec::new();
        let mut i: usize = 0;
        while i < config.num_layers
            invariant
                i <= config.num_layers,
                heads_divide(*config),
                widths_fit(*config),
                source is None ==> fits_memory(*config),
                source == params_contents(*old(params)),
                before == params_given(*old(params)),
                fresh == (source is None && none_given(before, *config)),
                params_contents(*params) == source,
                is_plan(plan, *config),
                layers@.len() == i,
                forall|j: int| 0 <= j < i ==> layer_sized(#[trigger] layers@[j], *config),
                source matches Some(c) ==> forall|j: int|
                    0 <= j < i ==> #[trigger] layer_held(c, j as nat, config.embed_dim),
                source matches Some(c) ==> forall|j: int|
                    0 <= j < i ==> layer_stored(#[trigger] layers@[j], c, j as nat),
                fresh ==> layers_added(
                    before,
                    params_given(*params),
                    i as int,
                    embedding_table(token_embed),
                    embedding_table(pos_embed),
                ),
                fresh ==> forall|j: int|
                    0 <= j < i ==> #[trigger] layer_held(
                        params_given(*params),
                        j as nat,
                        config.embed_dim,
                    ),
                fresh ==> forall|j: int|
                    0 <= j < i ==> layer_stored(
                        #[trigger] layers@[j],
                        params_given(*params),
                        j as nat,
                    ),
                fresh && i > 0 ==> config.embed_dim > 0,
            decreases config.num_layers - i,
        {
            assert(is_layer(plan.layers@[i as int], i as nat, config.embed_dim as int));
            let ghost given = params_given(*params);
            proof {
                if fresh {
                    lemma_layer_is_new(
                        before,
                        given,
                        *config,
                        i as int,
                        embedding_table(token_embed),
                        embedding_table(pos_embed),
                    );
                }
            }
            let layer = match build_layer(params, &plan.layers[i], i, config, plan.head_dim) {
                Ok(layer) => layer,
                Err(e) => {
                    return Err(BuildError::Backend(e));
                },
            };
            proof {
                if fresh {
                    let after = params_given(*params);
                    lemma_layers_grow(
                        before,
                        given,
                        after,
                        i as int,
                        embedding_table(token_embed),
                        embedding_table(pos_embed),
                    );
                    assert forall|j: int| 0 <= j < i implies #[trigger] layer_held(
                        after,
                        j as nat,
                        config.embed_dim,
                    ) by {
                        assert(layer_held(given, j as nat, config.embed_dim));
                    }
                    assert forall|j: int| 0 <= j < i implies layer_stored(
                        #[trigger] layers@[j],
                        after,
                        j as nat,
                    ) by {
                        assert(layer_held(given, j as nat, config.embed_dim));
                    }
                }
            }
            layers.push(layer);
            i = i + 1;
        }
        let ghost given = params_given(*params);
        proof {
            if fresh {
                lemma_ends_are_new(
                    before,
                    given,
                    *config,
                    embedding_table(token_embed),
                    embedding_table(pos_embed),
                );
            }
        }
        let norm = match load_norm(params, plan.final_norm.path.as_str(), plan.final_norm.size) {
            Ok(norm) => norm,
            Err(e) => {
                return Err(BuildError::Backend(e));
            },
        };
        let output_proj = match load_linear(
            params,
            plan.output.path.as_str(),
            plan.output.inputs,
            plan.output.outputs,
        ) {
            Ok(output_proj) => output_proj,
            Err(e) => {
                return Err(BuildError::Backend(e));
            },
        };
        proof {
            if fresh {
                let after = params_given(*params);
                assert forall|j: int| 0 <= j < config.num_layers implies #[trigger] layer_held(
                    after,
                    j as nat,
                    config.embed_dim,
                ) by {
                    assert(layer_held(given, j as nat, config.embed_dim));
                }
                assert forall|j: int| 0 <= j < layers@.len() implies layer_stored(
                    #[trigger] layers@[j],
                    after,
                    j as nat,
                ) by {
                    assert(layer_held(given, j as nat, config.embed_dim));
                }
            }
        }
        Ok(
            Transformer {
                config: Config {
                    num_layers: config.num_layers,
                    embed_dim: config.embed_dim,
                    num_heads: config.num_heads,
                    context_window: config.context_window,
                    vocab_size: config.vocab_size,
                },
                token_embed,
                pos_embed,
                layers,
                norm,
                output_proj,
                varmap: None,
            },
        )
    }

    /// A transformer with random parameters, which can be saved. It is made
    /// exactly if the attention heads divide the embedding evenly and the
    /// embedding has a dimension. The variables that it keeps are exactly its
    /// parameters.
    pub fn new(config: &Config) -> (r: Result<Transformer, BuildError>)
        requires
            fits_memory(*config),
        ensures
            r is Ok <==> heads_divide(*config) && config.embed_dim > 0,
            !heads_divide(*config) ==> (r matches Err(
                BuildError::Indivisible(text),
            ) && text@ == indivisible_text(*config)),
            heads_divide(*config) ==> !(r matches Err(
                BuildError::Indivisible(_),
            )),
            r matches Ok(model) ==> model_sized(model, *config) && keeps_parameters(model, *config),
    {
        let mut params = fresh_params();
        match Transformer::build(config, &mut params) {
            Ok(built) => {
                let mut model = built;
                model.varmap = Some(into_variables(params));
                Ok(model)
            },
            Err(e) => Err(e),
        }
    }

    /// Loads a transformer from a safetensors buffer. It cannot be saved.
    ///
    /// The buffer is refused if it is no safetensors buffer, if the attention
    /// heads do not divide the embedding evenly, or if a tensor is missing or
    /// has other sizes than the configuration asks for.
    pub fn load_from_buffer(data: &[u8], config: &Config) -> (r: Result<
        Transformer,
        PredictorError,
    >)
        requires
            widths_fit(*config),
        ensures
            r is Ok <==> (safetensors_contents(data@) matches Some(c) && heads_divide(*config) && model_held(c, *config)),
            r matches Ok(model) ==> model_sized(model, *config) && model.varmap is None
                && model_stored(model, safetensors_contents(data@)->Some_0),
            safetensors_contents(data@) is None ==> (r matches Err(error) && is_failure(
                error@,
                ModelStep::Parse,
            )),
            safetensors_contents(data@) is Some ==> (r matches Err(error) ==> is_failure(
                error@,
                ModelStep::Build,
            )),
            safetensors_contents(data@) is Some && !heads_divide(*config) ==> (
            r matches Err(error) && error@ == model_failure(
                ModelStep::Build,
                indivisible_text(*config),
            )),
    {
        let mut params = match parse_safetensors(data) {
            Ok(params) => params,
            Err(e) => {
                let text = error_text(&e);
                let error = model_failed(ModelStep::Parse, text.as_str());
                assert(error@ == model_failure(ModelStep::Parse, text@));
                return Err(error);
            },
        };
        match Transformer::build(config, &mut params) {
            Ok(model) => Ok(model),
            Err(BuildError::Indivisible(text)) => {
                let error = model_failed(ModelStep::Build, text.as_str());
                assert(error@ == model_failure(ModelStep::Build, text@));
                Err(error)
            },
            Err(BuildError::Backend(e)) => {
                let text = error_text(&e);
                let error = model_failed(ModelStep::Build, text.as_str());
                assert(error@ == model_failure(ModelStep::Build, text@));
                Err(error)
            },
        }
    }

    /// The variables to be saved at `path`. Only a model that was initialised
    /// in this process has them.
    pub fn variables(&self, path: String) -> (r: Result<&VarMap, PredictorError>)
        ensures
            match self.varmap {
                Some(variables) => r == Ok::<&VarMap, PredictorError>(&variables),
                None => r matches Err(error) && error@ == (PredictorErrorView::ModelLoadFailed {
                    path: path@,
                    message: "cannot save a model that was loaded from a buffer or file"@,
                }),
            },
    {
        match &self.varmap {
            Some(variables) => Ok(variables),
            None => Err(
                PredictorError::ModelLoadFailed {
                    path,
                    message: String::from_str(
                        "cannot save a model that was loaded from a buffer or file",
                    ),
                },
            ),
        }
    }
}

/// The error for a failed step, with some cause.
pub open spec fn is_failure(error: PredictorErrorView, step: ModelStep) -> bool {
    exists|cause: Seq<char>| error == #[trigger] model_failure(step, cause)
}

// ---- Laws of the tensors ---------------------------------------------------

/// A path in a layer goes on as its part does.
proof fn lemma_part_of_path(i: nat, part: Seq<char>, end: Seq<char>)
    ensures
        layer_path(i, part) + end == layer_path(i, part + end),
{
    assert(layer_path(i, part) + end =~= layer_path(i, part + end));
}

/// The weight and the bias of each part are named by its path and by what they
/// are.
pub proof fn law_tensor_names(i: nat)
    ensures
        weight_name("token_embed"@) == "token_embed.weight"@,
        weight_name("pos_embed"@) == "pos_embed.weight"@,
        weight_name("final_norm"@) == "final_norm.weight"@,
        bias_name("final_norm"@) == "final_norm.bias"@,
        weight_name("output"@) == "output.weight"@,
        bias_name("output"@) == "output.bias"@,
        weight_name(layer_path(i, "qkv"@)) == layer_path(i, "qkv.weight"@),
        bias_name(layer_path(i, "qkv"@)) == layer_path(i, "qkv.bias"@),
        weight_name(layer_path(i, "out"@)) == layer_path(i, "out.weight"@),
        bias_name(layer_path(i, "out"@)) == layer_path(i, "out.bias"@),
        weight_name(layer_path(i, "norm1"@)) == layer_path(i, "norm1.weight"@),
        bias_name(layer_path(i, "norm1"@)) == layer_path(i, "norm1.bias"@),
        weight_name(layer_path(i, "norm2"@)) == layer_path(i, "norm2.weight"@),
        bias_name(layer_path(i, "norm2"@)) == layer_path(i, "norm2.bias"@),
        weight_name(layer_path(i, "ff_up"@)) == layer_path(i, "ff_up.weight"@),
        bias_name(layer_path(i, "ff_up"@)) == layer_path(i, "ff_up.bias"@),
        weight_name(layer_path(i, "ff_down"@)) == layer_path(i, "ff_down.weight"@),
        bias_name(layer_path(i, "ff_down"@)) == layer_path(i, "ff_down.bias"@),
{
    reveal_strlit(".weight");
    reveal_strlit(".bias");
    reveal_strlit("qkv");
    reveal_strlit("qkv.weight");
    reveal_strlit("qkv.bias");
    reveal_strlit("out");
    reveal_strlit("out.weight");
    reveal_strlit("out.bias");
    reveal_strlit("norm1");
    reveal_strlit("norm1.weight");
    reveal_strlit("norm1.bias");
    reveal_strlit("norm2");
    reveal_strlit("norm2.weight");
    reveal_strlit("norm2.bias");
    reveal_strlit("ff_up");
    reveal_strlit("ff_up.weight");
    reveal_strlit("ff_up.bias");
    reveal_strlit("ff_down");
    reveal_strlit("ff_down.weight");
    reveal_strlit("ff_down.bias");
    reveal_strlit("token_embed");
    reveal_strlit("token_embed.weight");
    reveal_strlit("pos_embed");
    reveal_strlit("pos_embed.weight");
    reveal_strlit("final_norm");
    reveal_strlit("final_norm.weight");
    reveal_strlit("final_norm.bias");
    reveal_strlit("output");
    reveal_strlit("output.weight");
    reveal_strlit("output.bias");
    assert("token_embed"@ + ".weight"@ =~= "token_embed.weight"@);
    assert("pos_embed"@ + ".weight"@ =~= "pos_embed.weight"@);
    assert("final_norm"@ + ".weight"@ =~= "final_norm.weight"@);
    assert("final_norm"@ + ".bias"@ =~= "final_norm.bias"@);
    assert("output"@ + ".weight"@ =~= "output.weight"@);
    assert("output"@ + ".bias"@ =~= "output.bias"@);
    assert("qkv"@ + ".weight"@ =~= "qkv.weight"@);
    assert("qkv"@ + ".bias"@ =~= "qkv.bias"@);
    lemma_part_of_path(i, "qkv"@, ".weight"@);
    lemma_part_of_path(i, "qkv"@, ".bias"@);
    assert("out"@ + ".weight"@ =~= "out.weight"@);
    assert("out"@ + ".bias"@ =~= "out.bias"@);
    lemma_part_of_path(i, "out"@, ".weight"@);
    lemma_part_of_path(i, "out"@, ".bias"@);
    assert("norm1"@ + ".weight"@ =~= "norm1.weight"@);
    assert("norm1"@ + ".bias"@ =~= "norm1.bias"@);
    lemma_part_of_path(i, "norm1"@, ".weight"@);
    lemma_part_of_path(i, "norm1"@, ".bias"@);
    assert("norm2"@ + ".weight"@ =~= "norm2.weight"@);
    assert("norm2"@ + ".bias"@ =~= "norm2.bias"@);
    lemma_part_of_path(i, "norm2"@, ".weight"@);
    lemma_part_of_path(i, "norm2"@, ".bias"@);
    assert("ff_up"@ + ".weight"@ =~= "ff_up.weight"@);
    assert("ff_up"@ + ".bias"@ =~= "ff_up.bias"@);
    lemma_part_of_path(i, "ff_up"@, ".weight"@);
    lemma_part_of_path(i, "ff_up"@, ".bias"@);
    assert("ff_down"@ + ".weight"@ =~= "ff_down.weight"@);
    assert("ff_down"@ + ".bias"@ =~= "ff_down.bias"@);
    lemma_part_of_path(i, "ff_down"@, ".weight"@);
    lemma_part_of_path(i, "ff_down"@, ".bias"@);
}

/// A model that holds the stored tensors holds each in its own place: the one
/// that is stored under the name of that place.
pub proof fn law_each_tensor_in_its_place(
    model: Transformer,
    contents: Map<Seq<char>, StoredTensor>,
    i: int,
)
    requires
        model_stored(model, contents),
    ensures
        embedding_table(model.token_embed) == contents["token_embed.weight"@],
        embedding_table(model.pos_embed) == contents["pos_embed.weight"@],
        norm_parts(model.norm) == (contents["final_norm.weight"@], contents["final_norm.bias"@]),
        linear_parts(model.output_proj) == (contents["output.weight"@], contents["output.bias"@]),
        0 <= i < model.layers@.len() ==> ({
            let layer = model.layers@[i];
            &&& linear_parts(layer.qkv_proj) == (
                contents[layer_path(i as nat, "qkv.weight"@)],
                contents[layer_path(i as nat, "qkv.bias"@)],
            )
            &&& linear_parts(layer.out_proj) == (
                contents[layer_path(i as nat, "out.weight"@)],
                contents[layer_path(i as nat, "out.bias"@)],
            )
            &&& norm_parts(layer.norm1) == (
                contents[layer_path(i as nat, "norm1.weight"@)],
                contents[layer_path(i as nat, "norm1.bias"@)],
            )
            &&& norm_parts(layer.norm2) == (
                contents[layer_path(i as nat, "norm2.weight"@)],
                contents[layer_path(i as nat, "norm2.bias"@)],
            )
            &&& linear_parts(layer.ff_up) == (
                contents[layer_path(i as nat, "ff_up.weight"@)],
                contents[layer_path(i as nat, "ff_up.bias"@)],
            )
            &&& linear_parts(layer.ff_down) == (
                contents[layer_path(i as nat, "ff_down.weight"@)],
                contents[layer_path(i as nat, "ff_down.bias"@)],
            )
        }),
{
    law_tensor_names(i as nat);
    if 0 <= i < model.layers@.len() {
        law_tensor_names(i as nat);
        assert(layer_stored(model.layers@[i], contents, i as nat));
    }
}

/// The tensors of a layer are there exactly if each of them is there under its
/// name and with its sizes.
pub proof fn law_layer_is_there(contents: Map<Seq<char>, StoredTensor>, i: nat, e: usize)
    ensures
        layer_held(contents, i, e) <==> {
            &&& holds(contents, layer_path(i, "qkv.weight"@), seq![(3 * e) as usize, e])
            &&& holds(contents, layer_path(i, "qkv.bias"@), seq![(3 * e) as usize])
            &&& holds(contents, layer_path(i, "out.weight"@), seq![e, e])
            &&& holds(contents, layer_path(i, "out.bias"@), seq![e])
            &&& holds(contents, layer_path(i, "norm1.weight"@), seq![e])
            &&& holds(contents, layer_path(i, "norm1.bias"@), seq![e])
            &&& holds(contents, layer_path(i, "norm2.weight"@), seq![e])
            &&& holds(contents, layer_path(i, "norm2.bias"@), seq![e])
            &&& holds(contents, layer_path(i, "ff_up.weight"@), seq![(4 * e) as usize, e])
            &&& holds(contents, layer_path(i, "ff_up.bias"@), seq![(4 * e) as usize])
            &&& holds(contents, layer_path(i, "ff_down.weight"@), seq![e, (4 * e) as usize])
            &&& holds(contents, layer_path(i, "ff_down.bias"@), seq![e])
        },
{
    law_tensor_names(i);
}

/// The tensors of a model are there exactly if each of them is there under its
/// name and with its sizes, those of every layer included.
pub proof fn law_model_is_there(contents: Map<Seq<char>, StoredTensor>, config: Config)
    ensures
        model_held(contents, config) <==> {
            &&& holds(contents, "token_embed.weight"@, seq![config.vocab_size, config.embed_dim])
            &&& holds(contents, "pos_embed.weight"@, seq![config.context_window, config.embed_dim])
            &&& holds(contents, "final_norm.weight"@, seq![config.embed_dim])
            &&& holds(contents, "final_norm.bias"@, seq![config.embed_dim])
            &&& holds(contents, "output.weight"@, seq![config.vocab_size, config.embed_dim])
            &&& holds(contents, "output.bias"@, seq![config.vocab_size])
            &&& forall|i: int|
                0 <= i < config.num_layers ==> #[trigger] layer_held(
                    contents,
                    i as nat,
                    config.embed_dim,
                )
        },
{
    law_tensor_names(0);
}

/// A model of the right sizes has the configuration that was asked for, and
/// each of its tensors has the sizes for that place.
pub proof fn law_each_tensor_has_its_size(model: Transformer, config: Config, i: int)
    requires
        model_sized(model, config),
    ensures
        model.config == config,
        model.layers@.len() == config.num_layers,
        embedding_table(model.token_embed).dims == seq![config.vocab_size, config.embed_dim],
        embedding_table(model.pos_embed).dims == seq![config.context_window, config.embed_dim],
        norm_parts(model.norm).0.dims == seq![config.embed_dim],
        norm_parts(model.norm).1.dims == seq![config.embed_dim],
        linear_parts(model.output_proj).0.dims == seq![config.vocab_size, config.embed_dim],
        linear_parts(model.output_proj).1.dims == seq![config.vocab_size],
        0 <= i < config.num_layers ==> ({
            let layer = model.layers@[i];
            let e = config.embed_dim as int;
            &&& linear_parts(layer.qkv_proj).0.dims == seq![(3 * e) as usize, e as usize]
            &&& linear_parts(layer.qkv_proj).1.dims == seq![(3 * e) as usize]
            &&& linear_parts(layer.out_proj).0.dims == seq![e as usize, e as usize]
            &&& linear_parts(layer.out_proj).1.dims == seq![e as usize]
            &&& norm_parts(layer.norm1).0.dims == seq![e as usize]
            &&& norm_parts(layer.norm1).1.dims == seq![e as usize]
            &&& norm_parts(layer.norm2).0.dims == seq![e as usize]
            &&& norm_parts(layer.norm2).1.dims == seq![e as usize]
            &&& linear_parts(layer.ff_up).0.dims == seq![(4 * e) as usize, e as usize]
            &&& linear_parts(layer.ff_up).1.dims == seq![(4 * e) as usize]
            &&& linear_parts(layer.ff_down).0.dims == seq![e as usize, (4 * e) as usize]
            &&& linear_parts(layer.ff_down).1.dims == seq![e as usize]
            &&& layer.num_heads == config.num_heads
            &&& layer.head_dim * config.num_heads == config.embed_dim
        }),
{
    if 0 <= i < config.num_layers {
        assert(layer_sized(model.layers@[i], config));
    }
}

/// The parameters of a model are the two embedding tables, twelve tensors for
/// each layer, and the weight and the bias of the final norm and the output.
pub proof fn law_parameters_by_name(config: Config, name: Seq<char>, i: nat)
    ensures
        is_layer_tensor(i, name) <==> {
            ||| name == layer_path(i, "qkv.weight"@)
            ||| name == layer_path(i, "qkv.bias"@)
            ||| name == layer_path(i, "out.weight"@)
            ||| name == layer_path(i, "out.bias"@)
            ||| name == layer_path(i, "norm1.weight"@)
            ||| name == layer_path(i, "norm1.bias"@)
            ||| name == layer_path(i, "norm2.weight"@)
            ||| name == layer_path(i, "norm2.bias"@)
            ||| name == layer_path(i, "ff_up.weight"@)
            ||| name == layer_path(i, "ff_up.bias"@)
            ||| name == layer_path(i, "ff_down.weight"@)
            ||| name == layer_path(i, "ff_down.bias"@)
        },
        is_parameter(config, name) <==> {
            ||| name == "token_embed.weight"@
            ||| name == "pos_embed.weight"@
            ||| name == "final_norm.weight"@
            ||| name == "final_norm.bias"@
            ||| name == "output.weight"@
            ||| name == "output.bias"@
            ||| exists|j: int| 0 <= j < config.num_layers && #[trigger] is_layer_tensor(
                j as nat,
                name,
            )
        },
{
    law_tensor_names(i);
}

/// A model keeps its parameters exactly if it has variables, they are its
/// parameters and no others, they are there with their sizes, and the model
/// holds them in their places.
pub proof fn law_kept_variables(model: Transformer, config: Config)
    ensures
        keeps_parameters(model, config) <==> (model.varmap matches Some(variables) && {
            &&& forall|name: Seq<char>| #[trigger]
                variables_held(variables).contains_key(name) <==> is_parameter(config, name)
            &&& model_held(variables_held(variables), config)
            &&& model_stored(model, variables_held(variables))
        }),
{
}

/// A configuration fits the memory if each tensor that its model has, at four
/// bytes for each value, is no larger than an allocation can be.
pub proof fn law_fitting_configurations(config: Config)
    ensures
        ({
            &&& 4 * (config.vocab_size * config.embed_dim) <= isize::MAX
            &&& 4 * (config.context_window * config.embed_dim) <= isize::MAX
            &&& 4 * config.embed_dim <= isize::MAX
            &&& config.num_layers > 0 ==> 4 * (config.embed_dim * (4 * config.embed_dim))
                <= isize::MAX
        }) ==> fits_memory(config),
        !heads_divide(config) ==> fits_memory(config),
{
    let e = config.embed_dim as int;
    assert(e * (4 * e) == 4 * (e * e)) by (nonlinear_arith);
}

/// A store without tensors has been given none of a model. After a model was
/// added to a store, it holds the tensors that it held and those of the model,
/// and the earlier ones are unchanged.
pub proof fn law_tensors_are_added(
    before: Map<Seq<char>, StoredTensor>,
    after: Map<Seq<char>, StoredTensor>,
    config: Config,
    name: Seq<char>,
)
    ensures
        before.dom().is_empty() ==> none_given(before, config),
        (forall|other: Seq<char>| #[trigger]
            before.contains_key(other) ==> !is_parameter(config, other)) ==> none_given(
            before,
            config,
        ),
        model_added(before, after, config) ==> {
            &&& after.contains_key(name) <==> before.contains_key(name) || is_parameter(config, name)
            &&& before.contains_key(name) ==> after[name] == before[name]
        },
{
}

/// A failure to load a buffer is reported for the buffer, with the step before
/// the cause.
pub proof fn law_failures_start_with_their_step(error: PredictorErrorView)
    ensures
        is_failure(error, ModelStep::Parse) <==> (
        error matches PredictorErrorView::ModelLoadFailed { path, message } && path == "<buffer>"@
            && "failed to parse safetensors from buffer: "@.is_prefix_of(message)),
        is_failure(error, ModelStep::Build) <==> (
        error matches PredictorErrorView::ModelLoadFailed { path, message } && path == "<buffer>"@ && "build from buffer: "@.is_prefix_of(message)),
{
    let parse = "failed to parse safetensors from buffer: "@;
    let build = "build from buffer: "@;
    assert forall|cause: Seq<char>| #[trigger] parse.is_prefix_of(parse + cause) by {
        assert((parse + cause).subrange(0, parse.len() as int) =~= parse);
    }
    assert forall|cause: Seq<char>| #[trigger] build.is_prefix_of(build + cause) by {
        assert((build + cause).subrange(0, build.len() as int) =~= build);
    }
    if error is ModelLoadFailed {
        let message = error->ModelLoadFailed_message;
        if error->path == "<buffer>"@ && parse.is_prefix_of(message) {
            let cause = message.skip(parse.len() as int);
            assert(parse + cause =~= message);
            assert(error == model_failure(ModelStep::Parse, cause));
        }
        if error->path == "<buffer>"@ && build.is_prefix_of(message) {
            let cause = message.skip(build.len() as int);
            assert(build + cause =~= message);
            assert(error == model_failure(ModelStep::Build, cause));
        }
    }
    if is_failure(error, ModelStep::Parse) {
        let cause = choose|cause: Seq<char>| error == #[trigger] model_failure(
            ModelStep::Parse,
            cause,
        );
        assert(parse.is_prefix_of(parse + cause));
    }
    if is_failure(error, ModelStep::Build) {
        let cause = choose|cause: Seq<char>| error == #[trigger] model_failure(
            ModelStep::Build,
            cause,
        );
        assert(build.is_prefix_of(build + cause));
    }
}

// ---- Laws of saving and loading --------------------------------------------

/// Two layers that hold the same values.
pub open spec fn same_layer(a: DecoderLayer, b: DecoderLayer) -> bool {
    &&& linear_parts(a.qkv_proj) == linear_parts(b.qkv_proj)
    &&& linear_parts(a.out_proj) == linear_parts(b.out_proj)
    &&& norm_parts(a.norm1) == norm_parts(b.norm1)
    &&& norm_parts(a.norm2) == norm_parts(b.norm2)
    &&& linear_parts(a.ff_up) == linear_parts(b.ff_up)
    &&& linear_parts(a.ff_down) == linear_parts(b.ff_down)
}

/// Two models that hold the same values.
pub open spec fn same_parameters(a: Transformer, b: Transformer) -> bool {
    &&& embedding_table(a.token_embed) == embedding_table(b.token_embed)
    &&& embedding_table(a.pos_embed) == embedding_table(b.pos_embed)
    &&& a.layers@.len() == b.layers@.len()
    &&& forall|i: int|
        0 <= i < a.layers@.len() ==> same_layer(#[trigger] a.layers@[i], b.layers@[i])
    &&& norm_parts(a.norm) == norm_parts(b.norm)
    &&& linear_parts(a.output_proj) == linear_parts(b.output_proj)
}

/// A buffer that holds the variables of a new model can be loaded with its
/// configuration.
pub proof fn law_kept_model_loads(model: Transformer, config: Config, data: Seq<u8>)
    requires
        keeps_parameters(model, config),
        safetensors_contents(data) == Some(variables_held(model.varmap->Some_0)),
    ensures
        safetensors_contents(data) matches Some(contents) && model_held(contents, config),
{
}

/// What is loaded from a buffer that holds the variables of a new model has
/// the parameters of the model.
pub proof fn law_reload_keeps_parameters(
    model: Transformer,
    loaded: Transformer,
    config: Config,
    data: Seq<u8>,
)
    requires
        model_sized(model, config),
        keeps_parameters(model, config),
        safetensors_contents(data) == Some(variables_held(model.varmap->Some_0)),
        model_sized(loaded, config),
        model_stored(loaded, safetensors_contents(data)->Some_0),
    ensures
        same_parameters(model, loaded),
{
    let held = variables_held(model.varmap->Some_0);
    assert forall|i: int| 0 <= i < model.layers@.len() implies same_layer(
        #[trigger] model.layers@[i],
        loaded.layers@[i],
    ) by {
        assert(layer_stored(model.layers@[i], held, i as nat));
        assert(layer_stored(loaded.layers@[i], held, i as nat));
    }
}

} // verus!
