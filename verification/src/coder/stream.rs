//! The stream coder: bytes in, words out, and back.

use super::ans::{
    AnsStack, ans_from_words, ans_into_words, ans_new, ans_pop, ans_pop_many, ans_popped,
    ans_popped_many, ans_push_all, ans_pushed_many, build_model, law_pop_in_parts,
    law_pops_undo_pushes, law_uniform_table_valid, law_words_stack_of_stack_words,
    lemma_pop_many_valid, lemma_pop_valid, lemma_push_many_valid, stack_words, uniform_table,
    valid_stack, valid_table, words_stack,
};
use crate::error::{CoderError, CoderErrorView, result_view};
use crate::text::{bracketed, push_bracketed};
use vstd::prelude::*;

verus! {

/// A stack-based ANS coder for bytes.
///
/// ANS is a stack: what is pushed last is popped first. Symbols are buffered
/// by [`AnsCoder::encode`] and pushed in reverse by
/// [`AnsCoder::finish_encode`], so that the caller feeds them, and gets them
/// back, in their own order.
///
/// All symbols of a stream share one probability table. For symbols with a
/// table each, see [`super::sequence::SequenceEncoder`].
pub struct AnsCoder {
    inner: AnsStack,
    symbols: Vec<usize>,
    model_probs: Option<[u32; 256]>,
}

/// The view of an [`AnsCoder`].
#[verifier::ext_equal]
pub struct AnsCoderView {
    /// The words of the stack.
    pub bulk: Seq<u32>,
    /// The state of the stack.
    pub state: u64,
    /// The symbols that wait to be pushed, in their order.
    pub symbols: Seq<usize>,
    /// The table that the symbols share, once there is one.
    pub model: Option<Seq<u32>>,
}

impl View for AnsCoder {
    type V = AnsCoderView;

    closed spec fn view(&self) -> AnsCoderView {
        AnsCoderView {
            bulk: self.inner.bulk@,
            state: self.inner.state,
            symbols: self.symbols@,
            model: match self.model_probs {
                Some(probs) => Some(probs@),
                None => None,
            },
        }
    }
}

impl AnsCoderView {
    /// The stack is valid and every symbol is a byte.
    pub open spec fn wf(self) -> bool {
        &&& valid_stack(self.bulk, self.state)
        &&& forall|i: int| 0 <= i < self.symbols.len() ==> #[trigger] self.symbols[i] < 256
    }

    /// An empty coder.
    pub open spec fn empty() -> AnsCoderView {
        AnsCoderView { bulk: seq![], state: 0, symbols: seq![], model: None }
    }

    /// The coder after one more symbol, or why it cannot be taken.
    pub open spec fn encoded(self, probs: Seq<u32>, symbol: u8) -> Result<
        AnsCoderView,
        CoderErrorView,
    > {
        if self.model is None || self.model == Some(probs) {
            Ok(
                AnsCoderView {
                    symbols: self.symbols.push(symbol as usize),
                    model: Some(probs),
                    ..self
                },
            )
        } else {
            Err(
                CoderErrorView::EncodeFailed {
                    message: "heterogeneous per-symbol models not yet supported"@,
                },
            )
        }
    }

    /// The table for the waiting symbols: uniform if there is no symbol.
    pub open spec fn table(self) -> Seq<u32> {
        match self.model {
            Some(probs) => probs,
            None => uniform_table(),
        }
    }

    /// The words of the finished stream, or why there are none.
    pub open spec fn finished(self) -> Result<Seq<u32>, CoderErrorView> {
        if valid_table(self.table()) {
            let (bulk, state) = ans_pushed_many(
                self.bulk,
                self.state,
                self.symbols,
                self.table(),
            );
            Ok(stack_words(bulk, state))
        } else {
            Err(CoderErrorView::EncodeFailed { message: "model build failed: ()"@ })
        }
    }

    /// A coder that decodes `words`, or why there is none.
    pub open spec fn started(words: Seq<u32>) -> Result<AnsCoderView, CoderErrorView> {
        match words_stack(words) {
            Some((bulk, state)) => Ok(
                AnsCoderView { bulk, state, symbols: seq![], model: None },
            ),
            None => Err(
                CoderErrorView::DecodeFailed {
                    message: "ANS init failed: "@ + bracketed(words.drop_last()),
                },
            ),
        }
    }

    /// The next symbol and the coder after it, or why there is none.
    pub open spec fn decoded_symbol(self, probs: Seq<u32>) -> Result<
        (u8, AnsCoderView),
        CoderErrorView,
    > {
        if valid_table(probs) {
            let (symbol, bulk, state) = ans_popped(self.bulk, self.state, probs);
            Ok((symbol as u8, AnsCoderView { bulk, state, ..self }))
        } else {
            Err(CoderErrorView::DecodeFailed { message: "model build failed: ()"@ })
        }
    }

    /// The next `amount` symbols and the coder after them, or why there are
    /// none. No table is needed for no symbols.
    pub open spec fn decoded(self, probs: Seq<u32>, amount: nat) -> Result<
        (Seq<u8>, AnsCoderView),
        CoderErrorView,
    > {
        if amount == 0 {
            Ok((seq![], self))
        } else if valid_table(probs) {
            let (symbols, bulk, state) = ans_popped_many(self.bulk, self.state, probs, amount);
            Ok((symbol_bytes(symbols), AnsCoderView { bulk, state, ..self }))
        } else {
            Err(CoderErrorView::DecodeFailed { message: "model build failed: ()"@ })
        }
    }
}

/// The symbols as bytes.
pub open spec fn symbol_bytes(symbols: Seq<usize>) -> Seq<u8> {
    symbols.map_values(|s: usize| s as u8)
}

/// The symbols as bytes.
pub fn symbols_to_bytes(symbols: &Vec<usize>) -> (bytes: Vec<u8>)
    ensures
        bytes@ == symbol_bytes(symbols@),
        bytes@.len() == symbols@.len(),
        forall|i: int|
            0 <= i < symbols@.len() ==> #[trigger] bytes@[i] as int == symbols@[i] as int % 256,
{
    let mut bytes: Vec<u8> = Vec::new();
    let mut i: usize = 0;
    while i < symbols.len()
        invariant
            i <= symbols@.len(),
            bytes@ == symbol_bytes(symbols@.take(i as int)),
        decreases symbols@.len() - i,
    {
        bytes.push(symbols[i] as u8);
        i = i + 1;
        assert(bytes@ =~= symbol_bytes(symbols@.take(i as int)));
    }
    assert(symbols@.take(i as int) =~= symbols@);
    proof {
        assert forall|i: int| 0 <= i < symbols@.len() implies #[trigger] bytes@[i] as int
            == symbols@[i] as int % 256 by {
            let symbol = symbols@[i];
            assert(symbol as u8 == symbol % 256) by (bit_vector);
        }
    }
    bytes
}

/// Whether two tables are equal.
pub(crate) fn same_table(a: &[u32; 256], b: &[u32; 256]) -> (same: bool)
    ensures
        same == (a@ == b@),
{
    let mut i: usize = 0;
    while i < 256
        invariant
            i <= 256,
            forall|j: int| 0 <= j < i ==> a@[j] == b@[j],
        decreases 256 - i,
    {
        if a[i] != b[i] {
            return false;
        }
        i = i + 1;
    }
    assert(a@ =~= b@);
    true
}

/// The table that gives every byte the probability 1/256.
pub fn uniform_probs() -> (probs: [u32; 256])
    ensures
        probs@ == uniform_table(),
{
    let probs: [u32; 256] = [0x1_0000u32; 256];
    assert(probs@ =~= uniform_table());
    probs
}

impl AnsCoder {
    /// An empty coder.
    pub fn new() -> (coder: AnsCoder)
        ensures
            coder@ == AnsCoderView::empty(),
            coder@.wf(),
    {
        let coder = AnsCoder { inner: ans_new(), symbols: Vec::new(), model_probs: None };
        assert(coder@ =~= AnsCoderView::empty());
        coder
    }

    /// Buffers `symbol` for encoding with the table `probs`, which must be
    /// the table of the earlier symbols.
    pub fn encode(&mut self, probs: &[u32; 256], symbol: u8) -> (r: Result<(), CoderError>)
        requires
            old(self)@.wf(),
        ensures
            match old(self)@.encoded(probs@, symbol) {
                Ok(after) => r is Ok && final(self)@ == after,
                Err(e) => r matches Err(error) && error@ == e && final(self)@ == old(self)@,
            },
            final(self)@.wf(),
    {
        match &self.model_probs {
            Some(cached) => {
                if !same_table(cached, probs) {
                    return Err(
                        CoderError::EncodeFailed {
                            message: String::from_str(
                                "heterogeneous per-symbol models not yet supported",
                            ),
                        },
                    );
                }
            },
            None => {
                self.model_probs = Some(*probs);
            },
        }
        self.symbols.push(symbol as usize);
        Ok(())
    }

    /// Encodes the buffered symbols and returns the words of the stream.
    ///
    /// Decoding the words with the same table gives the symbols back.
    pub fn finish_encode(self) -> (r: Result<Vec<u32>, CoderError>)
        requires
            self@.wf(),
        ensures
            result_view(r) == self@.finished(),
            r matches Ok(words) ==> reads_back(words@, self@),
            self@.model matches Some(probs) ==> (r is Ok <==> valid_table(probs)),
            self@.model matches Some(probs) ==> (r matches Ok(words) ==> words@ == stack_words(
                ans_pushed_many(self@.bulk, self@.state, self@.symbols, probs).0,
                ans_pushed_many(self@.bulk, self@.state, self@.symbols, probs).1,
            )),
            self@.model is None && self@.symbols.len() == 0 ==> (r matches Ok(words) && words@
                == stack_words(self@.bulk, self@.state)),
    {
        let probs: [u32; 256] = match self.model_probs {
            Some(probs) => probs,
            None => uniform_probs(),
        };
        proof {
            assert(probs@ == self@.table());
            law_uniform_table_valid();
        }
        let model = match build_model(&probs) {
            Ok(model) => model,
            Err(_) => {
                return Err(
                    CoderError::EncodeFailed {
                        message: String::from_str("model build failed: ()"),
                    },
                );
            },
        };
        proof {
            law_pops_undo_pushes(self@.bulk, self@.state, self@.symbols, self@.table());
            lemma_push_many_valid(self@.bulk, self@.state, self@.symbols, self@.table());
        }
        let mut inner = self.inner;
        ans_push_all(&mut inner, &self.symbols, &model);
        proof {
            law_words_stack_of_stack_words(inner.bulk@, inner.state);
        }
        Ok(ans_into_words(inner))
    }

    /// A coder that decodes `words`.
    pub fn start_decode(words: &[u32]) -> (r: Result<AnsCoder, CoderError>)
        ensures
            result_view(r) == AnsCoderView::started(words@),
            r matches Ok(coder) ==> coder@.wf(),
    {
        let mut copy: Vec<u32> = Vec::new();
        copy.extend_from_slice(words);
        assert(copy@ =~= words@);
        match ans_from_words(copy) {
            Ok(inner) => {
                let coder = AnsCoder { inner, symbols: Vec::new(), model_probs: None };
                assert(coder@.symbols =~= seq![]);
                Ok(coder)
            },
            Err(rest) => {
                let mut message = String::from_str("ANS init failed: ");
                push_bracketed(&mut message, rest.as_slice());
                Err(CoderError::DecodeFailed { message })
            },
        }
    }

    /// Decodes the next symbol with the table `probs`.
    pub fn decode_symbol(&mut self, probs: &[u32; 256]) -> (r: Result<u8, CoderError>)
        requires
            old(self)@.wf(),
        ensures
            match old(self)@.decoded_symbol(probs@) {
                Ok((symbol, after)) => r == Ok::<u8, CoderError>(symbol) && final(self)@ == after,
                Err(e) => r matches Err(error) && error@ == e && final(self)@ == old(self)@,
            },
            final(self)@.wf(),
    {
        let model = match build_model(probs) {
            Ok(model) => model,
            Err(_) => {
                return Err(
                    CoderError::DecodeFailed {
                        message: String::from_str("model build failed: ()"),
                    },
                );
            },
        };
        proof {
            lemma_pop_valid(self@.bulk, self@.state, probs@);
        }
        let symbol: usize = ans_pop(&mut self.inner, &model);
        Ok(symbol as u8)
    }

    /// Decodes the next `amount` symbols with the table `probs`.
    pub fn decode(&mut self, probs: &[u32; 256], amount: usize) -> (r: Result<Vec<u8>, CoderError>)
        requires
            old(self)@.wf(),
        ensures
            match old(self)@.decoded(probs@, amount as nat) {
                Ok((symbols, after)) => r matches Ok(bytes) && bytes@ == symbols && final(self)@
                    == after,
                Err(e) => r matches Err(error) && error@ == e && final(self)@ == old(self)@,
            },
            final(self)@.wf(),
    {
        if amount == 0 {
            return Ok(Vec::new());
        }
        let model = match build_model(probs) {
            Ok(model) => model,
            Err(_) => {
                return Err(
                    CoderError::DecodeFailed {
                        message: String::from_str("model build failed: ()"),
                    },
                );
            },
        };
        proof {
            lemma_pop_many_valid(self@.bulk, self@.state, probs@, amount as nat);
        }
        let symbols: Vec<usize> = ans_pop_many(&mut self.inner, amount, &model);
        Ok(symbols_to_bytes(&symbols))
    }
}

impl Default for AnsCoder {
    fn default() -> (coder: AnsCoder)
        ensures
            coder@ == AnsCoderView::empty(),
            coder@.wf(),
    {
        AnsCoder::new()
    }
}

/// Decoding `words` with the table of `coder` gives its waiting symbols, and
/// the stack as it was before them.
pub open spec fn reads_back(words: Seq<u32>, coder: AnsCoderView) -> bool {
    match words_stack(words) {
        Some((bulk, state)) => ans_popped_many(bulk, state, coder.table(), coder.symbols.len())
            == (coder.symbols, coder.bulk, coder.state),
        None => false,
    }
}

/// Words that read back hold the symbols in the order in which they were
/// encoded: a decoder that starts on the words and uses the same table gives
/// exactly them, and is then left with what the coder held before.
pub proof fn law_coder_round_trip(words: Seq<u32>, coder: AnsCoderView)
    requires
        valid_table(coder.table()),
        reads_back(words, coder),
    ensures
        AnsCoderView::started(words) matches Ok(decoder) && decoder.decoded(
            coder.table(),
            coder.symbols.len(),
        ) == Ok::<(Seq<u8>, AnsCoderView), CoderErrorView>(
            (
                symbol_bytes(coder.symbols),
                (AnsCoderView {
                    bulk: coder.bulk,
                    state: coder.state,
                    symbols: seq![],
                    model: None,
                }),
            ),
        ),
{
    assert(symbol_bytes(seq![]) =~= seq![]);
    assert(coder.symbols.len() == 0 ==> coder.symbols =~= seq![]);
}

/// An empty coder has no words, the state zero, no symbols and no table. A coder
/// with a table uses that table and no other; one without uses the table that
/// gives every byte the same weight.
pub proof fn law_table_in_use(coder: AnsCoderView, probs: Seq<u32>)
    ensures
        AnsCoderView::empty().bulk.len() == 0,
        AnsCoderView::empty().state == 0,
        AnsCoderView::empty().symbols.len() == 0,
        AnsCoderView::empty().model == None::<Seq<u32>>,
        coder.model == Some(probs) ==> coder.table() == probs,
        coder.model is None ==> coder.table().len() == 256 && forall|i: int|
            0 <= i < 256 ==> #[trigger] coder.table()[i] == 0x1_0000,
{
}

/// A coder takes a symbol exactly if it has no table yet or the same one.
/// It then has that table, holds the symbol after the ones that it held, and
/// is otherwise as it was.
pub proof fn law_encode_appends(coder: AnsCoderView, probs: Seq<u32>, symbol: u8)
    ensures
        coder.encoded(probs, symbol) is Ok <==> (coder.model matches Some(table) ==> table
            == probs),
        coder.encoded(probs, symbol) matches Ok(after) ==> {
            &&& after.model == Some(probs)
            &&& after.symbols.len() == coder.symbols.len() + 1
            &&& after.symbols.last() == symbol
            &&& after.symbols.drop_last() == coder.symbols
            &&& after.bulk == coder.bulk
            &&& after.state == coder.state
        },
        coder.encoded(probs, symbol) matches Err(e) ==> e == (CoderErrorView::EncodeFailed {
            message: "heterogeneous per-symbol models not yet supported"@,
        }),
{
    assert(coder.symbols.push(symbol as usize).drop_last() =~= coder.symbols);
}

/// A coder that waits with symbols for the table `probs` finishes exactly if
/// that table is valid. A decoder that starts on the words and uses `probs`
/// then gives the symbols in their order, and is left with what the coder held
/// before them.
pub proof fn law_finished_with_its_table(coder: AnsCoderView, probs: Seq<u32>)
    requires
        coder.wf(),
        coder.model == Some(probs),
    ensures
        coder.finished() is Ok <==> valid_table(probs),
        coder.finished() matches Err(e) ==> e == (CoderErrorView::EncodeFailed {
            message: "model build failed: ()"@,
        }),
        coder.finished() matches Ok(words) ==> {
            let (bulk, state) = ans_pushed_many(coder.bulk, coder.state, coder.symbols, probs);
            words == stack_words(bulk, state)
        },
        coder.finished() matches Ok(words) ==> (AnsCoderView::started(words) matches Ok(decoder)
            && (decoder.decoded(probs, coder.symbols.len()) matches Ok(read) && {
            &&& read.0.len() == coder.symbols.len()
            &&& forall|i: int|
                0 <= i < coder.symbols.len() ==> #[trigger] read.0[i] as int
                    == coder.symbols[i] as int
            &&& read.1.bulk == coder.bulk
            &&& read.1.state == coder.state
        })),
{
    if valid_table(probs) {
        law_pops_undo_pushes(coder.bulk, coder.state, coder.symbols, probs);
        lemma_push_many_valid(coder.bulk, coder.state, coder.symbols, probs);
        let (bulk, state) = ans_pushed_many(coder.bulk, coder.state, coder.symbols, probs);
        law_words_stack_of_stack_words(bulk, state);
        law_coder_round_trip(stack_words(bulk, state), coder);
        assert forall|i: int| 0 <= i < coder.symbols.len() implies #[trigger] symbol_bytes(
            coder.symbols,
        )[i] as int == coder.symbols[i] as int by {
            assert(coder.symbols[i] < 256);
        }
    }
}

/// If every byte was encoded with the valid table `probs`, starting from an
/// empty coder, then decoding the finished words with `probs` gives exactly the
/// bytes in their order, and leaves an empty decoder.
pub proof fn law_encoded_bytes_decode(steps: Seq<AnsCoderView>, probs: Seq<u32>, bytes: Seq<u8>)
    requires
        valid_table(probs),
        steps.len() == bytes.len() + 1,
        steps[0] == AnsCoderView::empty(),
        forall|i: int|
            0 <= i < bytes.len() ==> steps[i + 1] == (#[trigger] steps[i].encoded(
                probs,
                bytes[i],
            ))->Ok_0,
    ensures
        forall|i: int|
            0 <= i < bytes.len() ==> (#[trigger] steps[i].encoded(probs, bytes[i])) is Ok,
        steps.last().finished() matches Ok(words) && (AnsCoderView::started(words) matches Ok(
            decoder,
        ) && decoder.decoded(probs, bytes.len()) == Ok::<(Seq<u8>, AnsCoderView), CoderErrorView>(
            (bytes, AnsCoderView::empty()),
        )),
{
    let n = bytes.len() as int;
    assert forall|k: int| 0 <= k <= n implies {
        &&& (#[trigger] steps[k]).symbols =~= Seq::new(k as nat, |i: int| bytes[i] as usize)
        &&& steps[k].bulk == Seq::<u32>::empty()
        &&& steps[k].state == 0
        &&& steps[k].model == (if k == 0 {
            None::<Seq<u32>>
        } else {
            Some(probs)
        })
    } by {
        lemma_encoded_steps(steps, probs, bytes, k);
    }
    let coder = steps[n];
    assert(coder.symbols.len() == n);
    assert(coder.wf());
    law_uniform_table_valid();
    law_pops_undo_pushes(coder.bulk, coder.state, coder.symbols, coder.table());
    lemma_push_many_valid(coder.bulk, coder.state, coder.symbols, coder.table());
    let (bulk, state) = ans_pushed_many(coder.bulk, coder.state, coder.symbols, coder.table());
    law_words_stack_of_stack_words(bulk, state);
    law_coder_round_trip(stack_words(bulk, state), coder);
    assert(symbol_bytes(coder.symbols) =~= bytes);
}

proof fn lemma_encoded_steps(
    steps: Seq<AnsCoderView>,
    probs: Seq<u32>,
    bytes: Seq<u8>,
    k: int,
)
    requires
        0 <= k <= bytes.len(),
        steps.len() == bytes.len() + 1,
        steps[0] == AnsCoderView::empty(),
        forall|i: int|
            0 <= i < bytes.len() ==> steps[i + 1] == (#[trigger] steps[i].encoded(
                probs,
                bytes[i],
            ))->Ok_0,
    ensures
        steps[k].symbols =~= Seq::new(k as nat, |i: int| bytes[i] as usize),
        steps[k].bulk == Seq::<u32>::empty(),
        steps[k].state == 0,
        steps[k].model == (if k == 0 {
            None::<Seq<u32>>
        } else {
            Some(probs)
        }),
    decreases k,
{
    if k > 0 {
        lemma_encoded_steps(steps, probs, bytes, k - 1);
        let before = steps[k - 1].encoded(probs, bytes[k - 1]);
        assert(steps[k] == before->Ok_0);
    }
}

/// Decoding with a valid table gives the symbols that are popped with that
/// table, each as the byte of the same number, and leaves the stack that is
/// left. With any other table it gives nothing, unless nothing was asked for.
pub proof fn law_decode_pops(coder: AnsCoderView, probs: Seq<u32>, amount: nat)
    requires
        coder.wf(),
    ensures
        coder.decoded(probs, amount) is Ok <==> valid_table(probs) || amount == 0,
        coder.decoded_symbol(probs) is Ok <==> valid_table(probs),
        coder.decoded(probs, amount) matches Err(e) ==> e == (CoderErrorView::DecodeFailed {
            message: "model build failed: ()"@,
        }),
        coder.decoded_symbol(probs) matches Err(e) ==> e == (CoderErrorView::DecodeFailed {
            message: "model build failed: ()"@,
        }),
        coder.decoded_symbol(probs) matches Ok(read) ==> {
            let (symbol, bulk, state) = ans_popped(coder.bulk, coder.state, probs);
            &&& read.0 as int == symbol as int
            &&& read.1.bulk == bulk
            &&& read.1.state == state
            &&& read.1.symbols == coder.symbols
            &&& read.1.model == coder.model
        },
        coder.decoded(probs, amount) matches Ok(read) ==> {
            let (symbols, bulk, state) = ans_popped_many(coder.bulk, coder.state, probs, amount);
            &&& read.0.len() == amount
            &&& forall|i: int|
                0 <= i < amount ==> #[trigger] read.0[i] as int == symbols[i] as int
            &&& read.1.bulk == bulk
            &&& read.1.state == state
            &&& read.1.symbols == coder.symbols
            &&& read.1.model == coder.model
        },
{
    if valid_table(probs) {
        lemma_pop_valid(coder.bulk, coder.state, probs);
        lemma_pop_many_valid(coder.bulk, coder.state, probs, amount);
        lemma_pop_many_len(coder.bulk, coder.state, probs, amount);
    }
}

proof fn lemma_pop_many_len(bulk: Seq<u32>, state: u64, table: Seq<u32>, n: nat)
    ensures
        ans_popped_many(bulk, state, table, n).0.len() == n,
    decreases n,
{
    if n > 0 {
        lemma_pop_many_len(bulk, state, table, (n - 1) as nat);
    }
}

/// A decoder starts on any words but those that end with the word zero. Then it
/// complains of the words before that one.
pub proof fn law_start_decode(words: Seq<u32>)
    ensures
        AnsCoderView::started(words) is Ok <==> (words.len() == 0 || words.last() != 0),
        AnsCoderView::started(words) matches Ok(coder) ==> {
            &&& words_stack(words) == Some((coder.bulk, coder.state))
            &&& coder.symbols.len() == 0
            &&& coder.model is None
        },
        AnsCoderView::started(words) matches Err(e) ==> e == (CoderErrorView::DecodeFailed {
            message: "ANS init failed: "@ + bracketed(words.take(words.len() - 1)),
        }),
{
    if words.len() > 0 {
        assert(words.drop_last() =~= words.take(words.len() - 1));
    }
}

/// Decoding in two parts with one table gives the bytes, and leaves the
/// decoder, that decoding at once does.
pub proof fn law_decode_in_parts(coder: AnsCoderView, probs: Seq<u32>, m: nat, n: nat)
    requires
        valid_table(probs),
    ensures
        ({
            let (first, between) = coder.decoded(probs, m)->Ok_0;
            let (second, after) = between.decoded(probs, n)->Ok_0;
            coder.decoded(probs, m + n) == Ok::<(Seq<u8>, AnsCoderView), CoderErrorView>(
                (first + second, after),
            )
        }),
{
    law_pop_in_parts(coder.bulk, coder.state, probs, m, n);
    let (first, bulk1, state1) = ans_popped_many(coder.bulk, coder.state, probs, m);
    let (second, bulk2, state2) = ans_popped_many(bulk1, state1, probs, n);
    assert(symbol_bytes(first + second) =~= symbol_bytes(first) + symbol_bytes(second));
    assert(symbol_bytes(seq![]) =~= seq![]);
    if m == 0 {
        assert(symbol_bytes(second) =~= seq![] + symbol_bytes(second));
    }
    if n == 0 {
        assert(symbol_bytes(first) =~= symbol_bytes(first) + seq![]);
    }
}

/// Decoding one symbol is decoding an amount of one.
pub proof fn law_decode_one(coder: AnsCoderView, probs: Seq<u32>)
    ensures
        coder.decoded(probs, 1) == (match coder.decoded_symbol(probs) {
            Ok((symbol, after)) => Ok((seq![symbol], after)),
            Err(e) => Err(e),
        }),
{
    reveal_with_fuel(ans_popped_many, 2);
    let (symbol, bulk, state) = ans_popped(coder.bulk, coder.state, probs);
    assert(Seq::<usize>::empty().push(symbol) =~= seq![symbol]);
    assert(symbol_bytes(seq![symbol]) =~= seq![symbol as u8]);
}

} // verus!
