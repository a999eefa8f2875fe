//! The sequence encoder: each symbol with a probability table of its own.

use super::ans::{
    AnsStack, ans_into_words, ans_new, ans_popped, ans_push, ans_pushed, ans_pushed_many,
    build_model, law_pop_undoes_push, law_words_stack_of_stack_words, stack_words, valid_stack,
    valid_table, words_stack,
};
use super::stream::{AnsCoderView, same_table};
use crate::error::{CoderError, CoderErrorView, result_view};
use vstd::prelude::*;

verus! {

/// An encoder for bytes whose probability tables may differ from one to the
/// next.
///
/// Symbols are buffered by [`SequenceEncoder::encode`] and pushed in reverse by
/// [`SequenceEncoder::finish`], so that they are decoded in their own order. A
/// decoder must use for each symbol the table that it was encoded with.
pub struct SequenceEncoder {
    symbols: Vec<u8>,
    choices: Vec<usize>,
    tables: Vec<[u32; 256]>,
}

/// The view of a [`SequenceEncoder`].
#[verifier::ext_equal]
pub struct SequenceView {
    /// The symbols, in their order.
    pub symbols: Seq<u8>,
    /// The table of each symbol.
    pub tables: Seq<Seq<u32>>,
}

impl View for SequenceEncoder {
    type V = SequenceView;

    closed spec fn view(&self) -> SequenceView {
        SequenceView {
            symbols: self.symbols@,
            tables: Seq::new(
                self.choices@.len(),
                |i: int| self.tables@[self.choices@[i] as int]@,
            ),
        }
    }
}

/// Every table is valid.
pub open spec fn all_valid(tables: Seq<Seq<u32>>) -> bool {
    forall|i: int| 0 <= i < tables.len() ==> valid_table(#[trigger] tables[i])
}

/// The stack after the symbols from `i` on were pushed, each with its own
/// table and the last one first.
pub open spec fn pushed_from(symbols: Seq<u8>, tables: Seq<Seq<u32>>, i: int) -> (Seq<u32>, u64)
    decreases symbols.len() - i,
{
    if i >= symbols.len() {
        (seq![], 0u64)
    } else {
        let (bulk, state) = pushed_from(symbols, tables, i + 1);
        ans_pushed(bulk, state, symbols[i] as usize, tables[i])
    }
}

/// The words of a sequence, or why there are none.
pub open spec fn sequence_words(symbols: Seq<u8>, tables: Seq<Seq<u32>>) -> Result<
    Seq<u32>,
    CoderErrorView,
> {
    if all_valid(tables) {
        let (bulk, state) = pushed_from(symbols, tables, 0);
        Ok(stack_words(bulk, state))
    } else {
        Err(CoderErrorView::EncodeFailed { message: "model build failed: ()"@ })
    }
}

/// Popping symbol `i` with its table gives it, and the stack of the symbols
/// after it.
pub open spec fn pops_back(symbols: Seq<u8>, tables: Seq<Seq<u32>>, i: int) -> bool {
    let (bulk, state) = pushed_from(symbols, tables, i);
    let (rest, rest_state) = pushed_from(symbols, tables, i + 1);
    ans_popped(bulk, state, tables[i]) == (symbols[i] as usize, rest, rest_state)
}

/// Decoding `words`, each symbol with its own table, gives the symbols in their
/// order.
pub open spec fn sequence_reads_back(
    words: Seq<u32>,
    symbols: Seq<u8>,
    tables: Seq<Seq<u32>>,
) -> bool {
    &&& words_stack(words) == Some(pushed_from(symbols, tables, 0))
    &&& forall|i: int| 0 <= i < symbols.len() ==> #[trigger] pops_back(symbols, tables, i)
}

impl SequenceEncoder {
    /// Every symbol has a table.
    pub closed spec fn wf(self) -> bool {
        &&& self.choices@.len() == self.symbols@.len()
        &&& forall|i: int|
            0 <= i < self.choices@.len() ==> #[trigger] self.choices@[i] < self.tables@.len()
        &&& self.symbols@.len() > 0 ==> self.tables@.len() > 0
    }

    /// An encoder without symbols.
    pub fn new() -> (encoder: SequenceEncoder)
        ensures
            encoder@ == (SequenceView { symbols: seq![], tables: seq![] }),
            encoder.wf(),
    {
        let encoder = SequenceEncoder {
            symbols: Vec::new(),
            choices: Vec::new(),
            tables: Vec::new(),
        };
        assert(encoder@ =~= (SequenceView { symbols: seq![], tables: seq![] }));
        encoder
    }

    /// Buffers `symbol` for encoding with the table `probs`.
    pub fn encode(&mut self, probs: &[u32; 256], symbol: u8)
        requires
            old(self).wf(),
        ensures
            final(self)@ == (SequenceView {
                symbols: old(self)@.symbols.push(symbol),
                tables: old(self)@.tables.push(probs@),
            }),
            final(self).wf(),
    {
        let count: usize = self.tables.len();
        // A table is kept once for a run of symbols that share it.
        if count == 0 || !same_table(&self.tables[count - 1], probs) {
            self.tables.push(*probs);
        }
        let choice: usize = self.tables.len() - 1;
        self.choices.push(choice);
        self.symbols.push(symbol);
        assert(self@ =~= (SequenceView {
            symbols: old(self)@.symbols.push(symbol),
            tables: old(self)@.tables.push(probs@),
        }));
    }

    /// Encodes the buffered symbols and returns the words of the sequence.
    ///
    /// Decoding the words with the same tables gives the symbols back.
    pub fn finish(self) -> (r: Result<Vec<u32>, CoderError>)
        requires
            self.wf(),
        ensures
            result_view(r) == sequence_words(self@.symbols, self@.tables),
            r matches Ok(words) ==> sequence_reads_back(words@, self@.symbols, self@.tables),
    {
        let ghost symbols = self@.symbols;
        let ghost tables = self@.tables;
        let mut stack: AnsStack = ans_new();
        let mut i: usize = self.symbols.len();
        while i > 0
            invariant
                self.wf(),
                i <= self.symbols@.len(),
                symbols == self@.symbols,
                tables == self@.tables,
                stack.wf(),
                (stack.bulk@, stack.state) == pushed_from(symbols, tables, i as int),
                forall|j: int| i <= j < symbols.len() ==> valid_table(#[trigger] tables[j]),
                forall|j: int|
                    i <= j < symbols.len() ==> #[trigger] pops_back(symbols, tables, j),
            decreases i,
        {
            i = i - 1;
            assert(self.tables@[self.choices@[i as int] as int]@ == tables[i as int]);
            let model = match build_model(&self.tables[self.choices[i]]) {
                Ok(model) => model,
                Err(_) => {
                    return Err(
                        CoderError::EncodeFailed {
                            message: String::from_str("model build failed: ()"),
                        },
                    );
                },
            };
            proof {
                law_pop_undoes_push(
                    stack.bulk@,
                    stack.state,
                    symbols[i as int] as usize,
                    tables[i as int],
                );
            }
            ans_push(&mut stack, self.symbols[i] as usize, &model);
            assert(pops_back(symbols, tables, i as int));
        }
        proof {
            law_words_stack_of_stack_words(stack.bulk@, stack.state);
        }
        Ok(ans_into_words(stack))
    }
}

/// Behind the last symbol the stack is empty. Each symbol is pushed, with its own
/// table, onto the stack of the symbols after it, and popping it with that
/// table gives it and that stack back.
pub proof fn law_sequence_is_stacked(symbols: Seq<u8>, tables: Seq<Seq<u32>>, i: int)
    requires
        tables.len() == symbols.len(),
        forall|j: int| 0 <= j < tables.len() ==> valid_table(#[trigger] tables[j]),
        0 <= i <= symbols.len(),
    ensures
        valid_stack(pushed_from(symbols, tables, i).0, pushed_from(symbols, tables, i).1),
        i == symbols.len() ==> pushed_from(symbols, tables, i) == (Seq::<u32>::empty(), 0u64),
        i < symbols.len() ==> ({
            let (bulk, state) = pushed_from(symbols, tables, i);
            let (rest, rest_state) = pushed_from(symbols, tables, i + 1);
            &&& (bulk, state) == ans_pushed(rest, rest_state, symbols[i] as usize, tables[i])
            &&& ans_popped(bulk, state, tables[i]) == (symbols[i] as usize, rest, rest_state)
        }),
    decreases symbols.len() - i,
{
    if i < symbols.len() {
        law_sequence_is_stacked(symbols, tables, i + 1);
        let (rest, rest_state) = pushed_from(symbols, tables, i + 1);
        law_pop_undoes_push(rest, rest_state, symbols[i] as usize, tables[i]);
    }
}

/// A sequence has words exactly if the table of every symbol is valid. They
/// are the words of the stack of all symbols.
pub proof fn law_sequence_words(symbols: Seq<u8>, tables: Seq<Seq<u32>>)
    requires
        tables.len() == symbols.len(),
    ensures
        sequence_words(symbols, tables) is Ok <==> forall|i: int|
            0 <= i < symbols.len() ==> valid_table(#[trigger] tables[i]),
        sequence_words(symbols, tables) matches Err(e) ==> e == (CoderErrorView::EncodeFailed {
            message: "model build failed: ()"@,
        }),
        sequence_words(symbols, tables) matches Ok(words) ==> words == stack_words(
            pushed_from(symbols, tables, 0).0,
            pushed_from(symbols, tables, 0).1,
        ),
{
}

/// A decoder that starts on the words of a sequence and decodes one symbol after
/// the other, each with the table that it was encoded with, gives the symbols
/// in their order, and is empty after the last one.
pub proof fn law_sequence_decodes(
    symbols: Seq<u8>,
    tables: Seq<Seq<u32>>,
    words: Seq<u32>,
    steps: Seq<AnsCoderView>,
)
    requires
        tables.len() == symbols.len(),
        sequence_words(symbols, tables) == Ok::<Seq<u32>, CoderErrorView>(words),
        steps.len() == symbols.len() + 1,
        steps[0] == AnsCoderView::started(words)->Ok_0,
        forall|i: int|
            0 <= i < symbols.len() ==> steps[i + 1] == (#[trigger] steps[i].decoded_symbol(
                tables[i],
            ))->Ok_0.1,
    ensures
        AnsCoderView::started(words) is Ok,
        forall|i: int|
            0 <= i < symbols.len() ==> ((#[trigger] steps[i].decoded_symbol(tables[i])) matches Ok(
                read,
            ) && read.0 == symbols[i]),
        steps.last() == AnsCoderView::empty(),
{
    law_sequence_words(symbols, tables);
    law_sequence_is_stacked(symbols, tables, 0);
    let (bulk, state) = pushed_from(symbols, tables, 0);
    law_words_stack_of_stack_words(bulk, state);
    assert forall|i: int| 0 <= i < symbols.len() implies ((#[trigger] steps[i].decoded_symbol(
        tables[i],
    )) matches Ok(read) && read.0 == symbols[i]) by {
        lemma_sequence_steps(symbols, tables, words, steps, i);
        law_sequence_is_stacked(symbols, tables, i);
    }
    lemma_sequence_steps(symbols, tables, words, steps, symbols.len() as int);
}

proof fn lemma_sequence_steps(
    symbols: Seq<u8>,
    tables: Seq<Seq<u32>>,
    words: Seq<u32>,
    steps: Seq<AnsCoderView>,
    i: int,
)
    requires
        tables.len() == symbols.len(),
        forall|j: int| 0 <= j < tables.len() ==> valid_table(#[trigger] tables[j]),
        words_stack(words) == Some(pushed_from(symbols, tables, 0)),
        steps.len() == symbols.len() + 1,
        steps[0] == AnsCoderView::started(words)->Ok_0,
        forall|j: int|
            0 <= j < symbols.len() ==> steps[j + 1] == (#[trigger] steps[j].decoded_symbol(
                tables[j],
            ))->Ok_0.1,
        0 <= i <= symbols.len(),
    ensures
        steps[i] == (AnsCoderView {
            bulk: pushed_from(symbols, tables, i).0,
            state: pushed_from(symbols, tables, i).1,
            symbols: seq![],
            model: None,
        }),
    decreases i,
{
    if i > 0 {
        lemma_sequence_steps(symbols, tables, words, steps, i - 1);
        law_sequence_is_stacked(symbols, tables, i - 1);
        let read = steps[i - 1].decoded_symbol(tables[i - 1]);
        assert(steps[i] == read->Ok_0.1);
    }
}

/// Symbols that all have the same table are encoded as the stream coder
/// encodes them with that table.
pub proof fn law_one_table_is_a_stream(symbols: Seq<u8>, table: Seq<u32>)
    ensures
        pushed_from(symbols, Seq::new(symbols.len(), |i: int| table), 0) == ans_pushed_many(
            seq![],
            0,
            symbols.map_values(|b: u8| b as usize),
            table,
        ),
{
    let tables = Seq::new(symbols.len(), |i: int| table);
    let wide = symbols.map_values(|b: u8| b as usize);
    lemma_one_table_from(symbols, table, 0);
    assert(wide.skip(0) =~= wide);
}

proof fn lemma_one_table_from(symbols: Seq<u8>, table: Seq<u32>, i: int)
    requires
        0 <= i <= symbols.len(),
    ensures
        pushed_from(symbols, Seq::new(symbols.len(), |i: int| table), i) == ans_pushed_many(
            seq![],
            0,
            symbols.map_values(|b: u8| b as usize).skip(i),
            table,
        ),
    decreases symbols.len() - i,
{
    if i < symbols.len() {
        let wide = symbols.map_values(|b: u8| b as usize);
        lemma_one_table_from(symbols, table, i + 1);
        assert(wide.skip(i).skip(1) =~= wide.skip(i + 1));
    }
}

} // verus!
