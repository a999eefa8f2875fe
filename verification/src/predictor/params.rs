//! The parameters of a model: calls into the `candle` crates and what they do.
//!
//! A [`Params`] gives out the tensors of a model by their paths. It either
//! reads them from a safetensors buffer or initialises them on demand.

use candle_core::{DType, Device};
use candle_nn::{Embedding, LayerNorm, LayerNormConfig, Linear, VarBuilder, VarMap};
use vstd::prelude::*;

verus! {

/// A tensor as it is stored.
#[verifier::ext_equal]
pub struct StoredTensor {
    /// The type of its elements.
    pub dtype: Seq<char>,
    /// Its dimensions.
    pub dims: Seq<usize>,
    /// Its elements, in row-major order.
    pub bytes: Seq<u8>,
}

/// An embedding table of the `candle_nn` crate.
#[verifier::external_type_specification]
#[verifier::external_body]
pub struct ExEmbedding(Embedding);

/// A linear map of the `candle_nn` crate.
#[verifier::external_type_specification]
#[verifier::external_body]
pub struct ExLinear(Linear);

/// A layer norm of the `candle_nn` crate.
#[verifier::external_type_specification]
#[verifier::external_body]
pub struct ExLayerNorm(LayerNorm);

/// A store of named variables of the `candle_nn` crate.
#[verifier::external_type_specification]
#[verifier::external_body]
pub struct ExVarMap(VarMap);

/// The error of the `candle` crates.
#[verifier::external_type_specification]
#[verifier::external_body]
pub struct ExError(candle_core::Error);

/// The parameters of a model by path, held by a `VarBuilder` of the
/// `candle_nn` crate. What it initialises is kept in its variables.
#[verifier::external_body]
pub struct Params<'a> {
    builder: VarBuilder<'a>,
    variables: VarMap,
}

// ---- Names for what the outside values hold --------------------------------

/// The tensors of a safetensors buffer by name, those whose elements can be
/// read as 32-bit floating-point numbers. None if the buffer is not one.
pub uninterp spec fn safetensors_contents(data: Seq<u8>) -> Option<Map<Seq<char>, StoredTensor>>;

/// The tensors that a [`Params`] reads from. None if it initialises them.
pub uninterp spec fn params_contents(params: Params) -> Option<Map<Seq<char>, StoredTensor>>;

/// The tensors that a [`Params`] has initialised so far, by name.
pub uninterp spec fn params_given(params: Params) -> Map<Seq<char>, StoredTensor>;

/// The tensors that a store of variables held when it was handed over, by
/// name.
pub uninterp spec fn variables_held(variables: VarMap) -> Map<Seq<char>, StoredTensor>;

/// The stored tensor whose values an embedding holds.
pub uninterp spec fn embedding_table(e: Embedding) -> StoredTensor;

/// The stored tensors whose values a linear map holds as weight and bias.
pub uninterp spec fn linear_parts(l: Linear) -> (StoredTensor, StoredTensor);

/// The stored tensors whose values a layer norm holds as weight and bias.
pub uninterp spec fn norm_parts(n: LayerNorm) -> (StoredTensor, StoredTensor);

/// No tensors.
pub open spec fn no_tensors() -> Map<Seq<char>, StoredTensor> {
    Map::empty()
}

/// The name of the weight under a path.
pub open spec fn weight_name(path: Seq<char>) -> Seq<char> {
    path + ".weight"@
}

/// The name of the bias under a path.
pub open spec fn bias_name(path: Seq<char>) -> Seq<char> {
    path + ".bias"@
}

/// Neither a weight nor a bias has been given under a path.
pub open spec fn unused(given: Map<Seq<char>, StoredTensor>, path: Seq<char>) -> bool {
    !given.contains_key(weight_name(path)) && !given.contains_key(bias_name(path))
}

/// A weight and a bias are added under a path.
pub open spec fn with_parts(
    given: Map<Seq<char>, StoredTensor>,
    path: Seq<char>,
    parts: (StoredTensor, StoredTensor),
) -> Map<Seq<char>, StoredTensor> {
    given.insert(weight_name(path), parts.0).insert(bias_name(path), parts.1)
}

/// A tensor of the given name and dimensions.
pub open spec fn holds(
    contents: Map<Seq<char>, StoredTensor>,
    name: Seq<char>,
    dims: Seq<usize>,
) -> bool {
    contents.contains_key(name) && contents[name].dims == dims
}

/// The table of an embedding is there with the given sizes.
pub open spec fn embedding_held(
    contents: Map<Seq<char>, StoredTensor>,
    path: Seq<char>,
    rows: usize,
    size: usize,
) -> bool {
    holds(contents, weight_name(path), seq![rows, size])
}

/// The weight and the bias of a linear map are there with the given sizes.
pub open spec fn linear_held(
    contents: Map<Seq<char>, StoredTensor>,
    path: Seq<char>,
    inputs: usize,
    outputs: usize,
) -> bool {
    &&& holds(contents, weight_name(path), seq![outputs, inputs])
    &&& holds(contents, bias_name(path), seq![outputs])
}

/// The weight and the bias of a layer norm are there with the given size.
pub open spec fn norm_held(
    contents: Map<Seq<char>, StoredTensor>,
    path: Seq<char>,
    size: usize,
) -> bool {
    &&& holds(contents, weight_name(path), seq![size])
    &&& holds(contents, bias_name(path), seq![size])
}

/// The weight and the bias that are stored under a path.
pub open spec fn stored_parts(contents: Map<Seq<char>, StoredTensor>, path: Seq<char>) -> (
    StoredTensor,
    StoredTensor,
) {
    (contents[weight_name(path)], contents[bias_name(path)])
}

/// The names of weights and biases tell their paths.
pub proof fn lemma_tensor_names()
    ensures
        forall|p: Seq<char>, q: Seq<char>|
            #[trigger] weight_name(p) == #[trigger] weight_name(q) ==> p == q,
        forall|p: Seq<char>, q: Seq<char>|
            #[trigger] bias_name(p) == #[trigger] bias_name(q) ==> p == q,
        forall|p: Seq<char>, q: Seq<char>| #[trigger] weight_name(p) != #[trigger] bias_name(q),
{
    reveal_strlit(".weight");
    reveal_strlit(".bias");
    assert forall|p: Seq<char>, q: Seq<char>|
        #[trigger] weight_name(p) == #[trigger] weight_name(q) implies p == q by {
        assert(weight_name(p).len() == weight_name(q).len());
        assert(weight_name(p).take(p.len() as int) =~= p);
        assert(weight_name(q).take(q.len() as int) =~= q);
    }
    assert forall|p: Seq<char>, q: Seq<char>|
        #[trigger] bias_name(p) == #[trigger] bias_name(q) implies p == q by {
        assert(bias_name(p).len() == bias_name(q).len());
        assert(bias_name(p).take(p.len() as int) =~= p);
        assert(bias_name(q).take(q.len() as int) =~= q);
    }
    assert forall|p: Seq<char>, q: Seq<char>| #[trigger]
        weight_name(p) != #[trigger] bias_name(q) by {
        assert(weight_name(p).last() == 't');
        assert(bias_name(q).last() == 's');
    }
}

// ---- The calls -------------------------------------------------------------

/// `VarBuilder::from_slice_safetensors` parses the header of a buffer. What
/// the buffer holds, if it is one, is a function of its bytes alone, which
/// [`safetensors_contents`] names.
#[verifier::external_body]
pub(crate) fn parse_safetensors<'a>(data: &'a [u8]) -> (r: Result<Params<'a>, candle_core::Error>)
    ensures
        match safetensors_contents(data@) {
            Some(contents) => r matches Ok(params) && params_contents(params) == Some(contents),
            None => r is Err,
        },
{
    let builder = VarBuilder::from_slice_safetensors(data, DType::F32, &Device::Cpu)?;
    Ok(Params { builder, variables: VarMap::new() })
}

/// `VarBuilder::from_varmap` on the empty store of `VarMap::new` initialises
/// the tensors that are asked for and keeps them in the store.
#[verifier::external_body]
pub(crate) fn fresh_params() -> (params: Params<'static>)
    ensures
        params_contents(params) is None,
        params_given(params) == no_tensors(),
{
    let variables = VarMap::new();
    let builder = VarBuilder::from_varmap(&variables, DType::F32, &Device::Cpu);
    Params { builder, variables }
}

/// The `VarMap` on which `VarBuilder::from_varmap` was called holds every
/// tensor that was initialised, under its name, and no other.
#[verifier::external_body]
pub(crate) fn into_variables(params: Params) -> (variables: VarMap)
    ensures
        params_contents(params) is None ==> variables_held(variables) == params_given(params),
{
    params.variables
}

/// `candle_nn::embedding` asks for the tensor `weight` under the path. One
/// that is read must have exactly the dimensions asked for. One that is
/// initialised has them, with random values, and is kept: under a new name
/// that cannot fail.
#[verifier::external_body]
pub(crate) fn load_embedding(
    params: &mut Params,
    path: &str,
    rows: usize,
    size: usize,
) -> (r: Result<Embedding, candle_core::Error>)
    requires
        params_contents(*old(params)) is None ==> 4 * (rows * size) <= isize::MAX,
    ensures
        params_contents(*final(params)) == params_contents(*old(params)),
        r matches Ok(e) ==> embedding_table(e).dims == seq![rows, size],
        params_contents(*old(params)) matches Some(c) ==> (r is Ok <==> embedding_held(
            c,
            path@,
            rows,
            size,
        )),
        params_contents(*old(params)) matches Some(c) ==> (r matches Ok(e) ==> embedding_table(e)
            == stored_parts(c, path@).0),
        params_contents(*old(params)) is None && !params_given(*old(params)).contains_key(
            weight_name(path@),
        ) ==> r is Ok,
        params_contents(*old(params)) is None && !params_given(*old(params)).contains_key(
            weight_name(path@),
        ) ==> (r matches Ok(e) ==> params_given(*final(params)) == params_given(*old(params)).insert(
            weight_name(path@),
            embedding_table(e),
        )),
{
    candle_nn::embedding(rows, size, params.builder.pp(path))
}

/// `candle_nn::linear` asks for the tensors `weight` and `bias` under the
/// path. Those that are read must have exactly the dimensions asked for.
/// Those that are initialised have them, with random values, and are kept:
/// under new names that fails only for no inputs, where the deviation of the
/// weight would be infinite.
#[verifier::external_body]
pub(crate) fn load_linear(
    params: &mut Params,
    path: &str,
    inputs: usize,
    outputs: usize,
) -> (r: Result<Linear, candle_core::Error>)
    requires
        params_contents(*old(params)) is None ==> 4 * (inputs * outputs) <= isize::MAX,
    ensures
        params_contents(*final(params)) == params_contents(*old(params)),
        r matches Ok(l) ==> linear_parts(l).0.dims == seq![outputs, inputs],
        r matches Ok(l) ==> linear_parts(l).1.dims == seq![outputs],
        params_contents(*old(params)) matches Some(c) ==> (r is Ok <==> linear_held(
            c,
            path@,
            inputs,
            outputs,
        )),
        params_contents(*old(params)) matches Some(c) ==> (r matches Ok(l) ==> linear_parts(l)
            == stored_parts(c, path@)),
        params_contents(*old(params)) is None && unused(params_given(*old(params)), path@) ==> (r
            is Ok <==> inputs > 0),
        params_contents(*old(params)) is None && unused(params_given(*old(params)), path@) ==> (
        r matches Ok(l) ==> params_given(*final(params)) == with_parts(
            params_given(*old(params)),
            path@,
            linear_parts(l),
        )),
{
    candle_nn::linear(inputs, outputs, params.builder.pp(path))
}

/// `candle_nn::layer_norm` asks for the tensors `weight` and `bias` under the
/// path. Those that are read must have exactly the dimensions asked for.
/// Those that are initialised have them, with ones and zeros, and are kept:
/// under new names that cannot fail. The default configuration has the epsilon
/// `1e-5`.
#[verifier::external_body]
pub(crate) fn load_norm(params: &mut Params, path: &str, size: usize) -> (r: Result<
    LayerNorm,
    candle_core::Error,
>)
    requires
        params_contents(*old(params)) is None ==> 4 * size <= isize::MAX,
    ensures
        params_contents(*final(params)) == params_contents(*old(params)),
        r matches Ok(n) ==> norm_parts(n).0.dims == seq![size],
        r matches Ok(n) ==> norm_parts(n).1.dims == seq![size],
        params_contents(*old(params)) matches Some(c) ==> (r is Ok <==> norm_held(c, path@, size)),
        params_contents(*old(params)) matches Some(c) ==> (r matches Ok(n) ==> norm_parts(n)
            == stored_parts(c, path@)),
        params_contents(*old(params)) is None && unused(params_given(*old(params)), path@) ==> r
            is Ok,
        params_contents(*old(params)) is None && unused(params_given(*old(params)), path@) ==> (
        r matches Ok(n) ==> params_given(*final(params)) == with_parts(
            params_given(*old(params)),
            path@,
            norm_parts(n),
        )),
{
    candle_nn::layer_norm(size, LayerNormConfig::default(), params.builder.pp(path))
}

/// `ToString::to_string` gives the text of an error. Nothing is said of it: it
/// may hold a backtrace, which depends on the environment.
#[verifier::external_body]
pub(crate) fn error_text(e: &candle_core::Error) -> (text: String) {
    e.to_string()
}

} // verus!
