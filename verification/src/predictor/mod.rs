//! Predictors: what byte comes next.

pub mod model;
pub mod params;
pub mod transformer;

use crate::coder::ans::uniform_table;
use crate::coder::stream::uniform_probs;
use crate::error::{PredictorError, PredictorErrorView, result_view};
use vstd::prelude::*;

verus! {

/// The distributions of a successful prediction as tables, or its error.
pub open spec fn tables_view(r: Result<Vec<[u32; 256]>, PredictorError>) -> Result<
    Seq<Seq<u32>>,
    PredictorErrorView,
> {
    match r {
        Ok(tables) => Ok(tables@.map_values(|t: [u32; 256]| t@)),
        Err(e) => Err(e@),
    }
}

/// A successful prediction is seen as its distributions, entry by entry.
pub proof fn law_tables_view(tables: Vec<[u32; 256]>, error: PredictorError, i: int)
    ensures
        tables_view(Ok(tables)) matches Ok(seen) && {
            &&& seen.len() == tables@.len()
            &&& 0 <= i < tables@.len() ==> seen[i] == tables@[i]@
        },
        tables_view(Err(error)) == Err::<Seq<Seq<u32>>, PredictorErrorView>(error@),
{
}

/// A byte-level predictor. It maps a context to distributions over the 256
/// bytes, given as probability tables in units of `2^-24`.
///
/// A predictor is deterministic: the same context always gives the same
/// distributions. Data can only be decompressed with a predictor that gives
/// the distributions that were used to compress it.
pub trait Predictor {
    /// The distribution of the byte after `context`. By default it is some
    /// function of the predictor and the context, of which nothing is known.
    open spec fn next_distribution(&self, context: Seq<u8>) -> Result<
        Seq<u32>,
        PredictorErrorView,
    > {
        arbitrary::<spec_fn(&Self, Seq<u8>) -> Result<Seq<u32>, PredictorErrorView>>()(
            self,
            context,
        )
    }

    /// The distributions of all bytes of `context`, where entry `i` predicts
    /// `context[i]` from `context[0..i]`. By default they are some function of
    /// the predictor and the context, of which nothing is known.
    open spec fn distributions(&self, context: Seq<u8>) -> Result<
        Seq<Seq<u32>>,
        PredictorErrorView,
    > {
        arbitrary::<spec_fn(&Self, Seq<u8>) -> Result<Seq<Seq<u32>>, PredictorErrorView>>()(
            self,
            context,
        )
    }

    /// One distribution for each byte of `context`: entry `i` predicts
    /// `context[i]` from `context[0..i]`.
    fn predict(&self, context: &[u8]) -> (r: Result<Vec<[u32; 256]>, PredictorError>)
        ensures
            tables_view(r) == self.distributions(context@),
            r matches Ok(tables) ==> tables@.len() == context@.len(),
    ;

    /// The distribution of the byte after `context`.
    fn predict_single(&self, context: &[u8]) -> (r: Result<[u32; 256], PredictorError>)
        ensures
            result_view(r) == self.next_distribution(context@),
    ;
}

/// A predictor that knows nothing: every byte has the probability 1/256.
pub struct StubPredictor;

impl Predictor for StubPredictor {
    open spec fn next_distribution(&self, context: Seq<u8>) -> Result<
        Seq<u32>,
        PredictorErrorView,
    > {
        Ok(uniform_table())
    }

    open spec fn distributions(&self, context: Seq<u8>) -> Result<
        Seq<Seq<u32>>,
        PredictorErrorView,
    > {
        Ok(Seq::new(context.len(), |i: int| uniform_table()))
    }

    fn predict(&self, context: &[u8]) -> (r: Result<Vec<[u32; 256]>, PredictorError>) {
        let mut tables: Vec<[u32; 256]> = Vec::new();
        let mut i: usize = 0;
        while i < context.len()
            invariant
                i <= context@.len(),
                tables@.len() == i,
                forall|j: int| 0 <= j < i ==> (#[trigger] tables@[j])@ == uniform_table(),
            decreases context@.len() - i,
        {
            tables.push(uniform_probs());
            i = i + 1;
        }
        assert(tables@.map_values(|t: [u32; 256]| t@) =~= Seq::new(
            context@.len(),
            |i: int| uniform_table(),
        ));
        Ok(tables)
    }

    fn predict_single(&self, context: &[u8]) -> (r: Result<[u32; 256], PredictorError>) {
        Ok(uniform_probs())
    }
}

/// For the stub predictor, the distribution of each byte of a context is the
/// one that a single prediction gives after the bytes before it.
pub proof fn law_stub_predictions_agree(context: Seq<u8>, i: int)
    requires
        0 <= i < context.len(),
    ensures
        StubPredictor.distributions(context) matches Ok(tables) && tables.len() == context.len()
            && StubPredictor.next_distribution(context.take(i)) == Ok::<
            Seq<u32>,
            PredictorErrorView,
        >(tables[i]),
{
}

/// The stub predictor gives after any context, and for every byte of one, the
/// distribution in which each of the 256 bytes has the weight `2^16`.
pub proof fn law_stub_knows_nothing(context: Seq<u8>, i: int, byte: int)
    requires
        0 <= byte < 256,
    ensures
        StubPredictor.next_distribution(context) matches Ok(table) && table.len() == 256
            && table[byte] == 65536,
        StubPredictor.distributions(context) matches Ok(tables) && tables.len() == context.len()
            && (0 <= i < context.len() ==> tables[i].len() == 256 && tables[i][byte] == 65536),
{
}

// ---- Configuration ---------------------------------------------------------

/// The hyper-parameters of a transformer model.
#[derive(Debug, Clone, PartialEq)]
pub struct Config {
    /// Number of decoder layers.
    pub num_layers: usize,
    /// Embedding dimension, which must be divisible by `num_heads`.
    pub embed_dim: usize,
    /// Number of attention heads per layer.
    pub num_heads: usize,
    /// Maximum context window: the size of the positional embedding table.
    pub context_window: usize,
    /// Vocabulary size, 256 for bytes.
    pub vocab_size: usize,
}

/// The default number of decoder layers.
pub fn default_num_layers() -> (n: usize)
    ensures
        n == 8,
{
    8
}

/// The default embedding dimension.
pub fn default_embed_dim() -> (n: usize)
    ensures
        n == 384,
{
    384
}

/// The default number of attention heads.
pub fn default_num_heads() -> (n: usize)
    ensures
        n == 6,
{
    6
}

/// The default context window.
pub fn default_context_window() -> (n: usize)
    ensures
        n == 512,
{
    512
}

/// The default vocabulary size.
pub fn default_vocab_size() -> (n: usize)
    ensures
        n == 256,
{
    256
}

impl Default for Config {
    fn default() -> (c: Config)
        ensures
            c == (Config {
                num_layers: 8,
                embed_dim: 384,
                num_heads: 6,
                context_window: 512,
                vocab_size: 256,
            }),
    {
        Config {
            num_layers: default_num_layers(),
            embed_dim: default_embed_dim(),
            num_heads: default_num_heads(),
            context_window: default_context_window(),
            vocab_size: default_vocab_size(),
        }
    }
}

} // verus!
