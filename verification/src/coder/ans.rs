//! The ANS backend: calls into the `constriction` crate and what they do.
//!
//! A probability table assigns to each byte its probability in units of
//! `2^-24`. An ANS coder is a stack of symbols, held as a vector of words and
//! one 64-bit state.

use constriction::stream::model::ContiguousCategoricalEntropyModel;
use constriction::stream::model::DefaultContiguousCategoricalEntropyModel;
use constriction::stream::stack::DefaultAnsCoder;
use constriction::stream::{Decode, Encode};
use constriction::UnwrapInfallible;
use vstd::prelude::*;

verus! {

/// The sum of the probabilities of a table: one, in units of `2^-24`.
pub const TABLE_TOTAL: u32 = 0x100_0000;

/// The sum of the entries of a table.
pub open spec fn table_sum(table: Seq<u32>) -> nat
    decreases table.len(),
{
    if table.len() == 0 {
        0
    } else {
        table_sum(table.drop_last()) + table.last() as nat
    }
}

/// A table that assigns to every byte a probability above zero, where the
/// probabilities sum to one.
pub open spec fn valid_table(table: Seq<u32>) -> bool {
    &&& table.len() == 256
    &&& forall|i: int| 0 <= i < 256 ==> #[trigger] table[i] > 0
    &&& table_sum(table) == TABLE_TOTAL
}

/// The table that gives every byte the probability 1/256.
pub open spec fn uniform_table() -> Seq<u32> {
    Seq::new(256, |i: int| 0x1_0000u32)
}

/// The sum of no entries is zero, and each further entry is added as it is:
/// the sum is the plain sum of all entries.
pub proof fn law_table_sum_is_plain(table: Seq<u32>, entry: u32)
    ensures
        table_sum(seq![]) == 0,
        table_sum(table.push(entry)) == table_sum(table) + entry,
        table_sum(table) == table.fold_left(0int, |sum: int, value: u32| sum + value),
    decreases table.len(),
{
    assert(table.push(entry).drop_last() =~= table);
    if table.len() > 0 {
        law_table_sum_is_plain(table.drop_last(), entry);
    }
}

/// A table is valid exactly if it has 256 entries, none of them zero, and the
/// entries add up to `2^24`.
pub proof fn law_valid_tables_add_up(table: Seq<u32>)
    ensures
        valid_table(table) <==> table.len() == 256 && (forall|i: int|
            0 <= i < 256 ==> #[trigger] table[i] != 0) && table.fold_left(
            0int,
            |sum: int, value: u32| sum + value,
        ) == 16_777_216,
{
    law_table_sum_is_plain(table, 0);
}

/// The uniform table gives each of the 256 bytes the same weight.
pub proof fn law_uniform_table_is_even(i: int)
    requires
        0 <= i < 256,
    ensures
        uniform_table().len() == 256,
        uniform_table()[i] * 256 == 16_777_216,
{
}

/// The entries of a table that gives each of its `n` symbols the same weight
/// sum to `n` times the weight.
pub proof fn lemma_constant_table_sum(n: nat, weight: u32)
    ensures
        table_sum(Seq::new(n, |i: int| weight)) == n * weight,
    decreases n,
{
    let table = Seq::new(n, |i: int| weight);
    if n > 0 {
        lemma_constant_table_sum((n - 1) as nat, weight);
        assert(table.drop_last() =~= Seq::new((n - 1) as nat, |i: int| weight));
        assert(n * weight == (n - 1) * weight + weight) by (nonlinear_arith);
    } else {
        assert(n * weight == 0) by (nonlinear_arith)
            requires
                n == 0,
        ;
    }
}

/// The uniform table is valid.
pub proof fn law_uniform_table_valid()
    ensures
        valid_table(uniform_table()),
{
    lemma_constant_table_sum(256, 0x1_0000u32);
}

/// The content of an ANS coder between two operations.
pub struct AnsStack {
    /// The words that are already written.
    pub bulk: Vec<u32>,
    /// The state that is not yet written.
    pub state: u64,
}

/// A stack that operations on a coder leave behind: words have been written
/// only if the state takes more than one word.
pub open spec fn valid_stack(bulk: Seq<u32>, state: u64) -> bool {
    bulk.len() == 0 || state >= 0x1_0000_0000
}

impl AnsStack {
    /// See [`valid_stack`].
    pub open spec fn wf(self) -> bool {
        valid_stack(self.bulk@, self.state)
    }
}

// ---- The outside model -----------------------------------------------------

/// The categorical model of the `constriction` crate.
#[verifier::external_type_specification]
#[verifier::external_body]
#[verifier::reject_recursive_types(Probability)]
#[verifier::reject_recursive_types(Cdf)]
pub struct ExContiguousCategoricalEntropyModel<Probability, Cdf, const PRECISION: usize>(
    ContiguousCategoricalEntropyModel<Probability, Cdf, PRECISION>,
);

/// The probability table that a model holds.
pub uninterp spec fn model_table(model: DefaultContiguousCategoricalEntropyModel) -> Seq<u32>;

// ---- The steps of the coder ------------------------------------------------

/// The sum of the probabilities of the symbols before `symbol`.
pub open spec fn cumulative(table: Seq<u32>, symbol: int) -> int {
    table_sum(table.take(symbol)) as int
}

/// The stack after a symbol was pushed.
///
/// A state that would grow too large first gives its lower word away. The
/// state is then divided by the probability of the symbol, and the remainder
/// is stored within the range of the symbol.
pub open spec fn ans_pushed(bulk: Seq<u32>, state: u64, symbol: usize, table: Seq<u32>) -> (
    Seq<u32>,
    u64,
) {
    let p = table[symbol as int] as int;
    let full = state as int / 0x100_0000_0000 >= p;
    let rest = if full {
        state as int / 0x1_0000_0000
    } else {
        state as int
    };
    (
        if full {
            bulk.push((state % 0x1_0000_0000) as u32)
        } else {
            bulk
        },
        ((rest / p) * 0x100_0000 + cumulative(table, symbol as int) + rest % p) as u64,
    )
}

/// The symbol in whose range a quantile lies.
pub open spec fn is_symbol_at(table: Seq<u32>, quantile: int, symbol: int) -> bool {
    &&& 0 <= symbol < table.len()
    &&& cumulative(table, symbol) <= quantile < cumulative(table, symbol) + table[symbol]
}

/// The symbol in whose range a quantile lies.
pub open spec fn symbol_at(table: Seq<u32>, quantile: int) -> int {
    choose|symbol: int| is_symbol_at(table, quantile, symbol)
}

/// The symbol on top of the stack, and the stack after it was popped.
///
/// The lowest 24 bits of the state are a quantile, which tells the symbol. A
/// state that has become too small takes a word back, if there is one.
pub open spec fn ans_popped(bulk: Seq<u32>, state: u64, table: Seq<u32>) -> (
    usize,
    Seq<u32>,
    u64,
) {
    let quantile = state as int % 0x100_0000;
    let symbol = symbol_at(table, quantile);
    let rest = (state as int / 0x100_0000) * table[symbol] + (quantile - cumulative(table, symbol));
    if rest < 0x1_0000_0000 && bulk.len() > 0 {
        (symbol as usize, bulk.drop_last(), (rest * 0x1_0000_0000 + bulk.last()) as u64)
    } else {
        (symbol as usize, bulk, rest as u64)
    }
}

/// The stack after all symbols were pushed with the same table, the last one
/// first.
pub open spec fn ans_pushed_many(
    bulk: Seq<u32>,
    state: u64,
    symbols: Seq<usize>,
    table: Seq<u32>,
) -> (Seq<u32>, u64)
    decreases symbols.len(),
{
    if symbols.len() == 0 {
        (bulk, state)
    } else {
        let (bulk1, state1) = ans_pushed_many(bulk, state, symbols.skip(1), table);
        ans_pushed(bulk1, state1, symbols[0], table)
    }
}

/// The symbols of `n` pops with the same table, and the stack after them.
pub open spec fn ans_popped_many(bulk: Seq<u32>, state: u64, table: Seq<u32>, n: nat) -> (
    Seq<usize>,
    Seq<u32>,
    u64,
)
    decreases n,
{
    if n == 0 {
        (seq![], bulk, state)
    } else {
        let (symbols, bulk1, state1) = ans_popped_many(bulk, state, table, (n - 1) as nat);
        let (symbol, bulk2, state2) = ans_popped(bulk1, state1, table);
        (symbols.push(symbol), bulk2, state2)
    }
}

/// The state as words, lowest word first, without leading zero words.
pub open spec fn state_words(state: u64) -> Seq<u32> {
    if state == 0 {
        seq![]
    } else if state < 0x1_0000_0000 {
        seq![state as u32]
    } else {
        seq![(state % 0x1_0000_0000) as u32, (state / 0x1_0000_0000) as u32]
    }
}

/// The stack as words: the written ones, then the state.
pub open spec fn stack_words(bulk: Seq<u32>, state: u64) -> Seq<u32> {
    bulk + state_words(state)
}

/// The stack that words stand for. Words that end with zero stand for none.
pub open spec fn words_stack(words: Seq<u32>) -> Option<(Seq<u32>, u64)> {
    let n = words.len() as int;
    if n == 0 {
        Some((seq![], 0u64))
    } else if words[n - 1] == 0 {
        None
    } else if n == 1 {
        Some((seq![], words[0] as u64))
    } else {
        Some((words.take(n - 2), (words[n - 1] * 0x1_0000_0000 + words[n - 2]) as u64))
    }
}

/// Words that hold a stack are read as that stack.
pub proof fn law_words_stack_of_stack_words(bulk: Seq<u32>, state: u64)
    requires
        valid_stack(bulk, state),
    ensures
        words_stack(stack_words(bulk, state)) == Some((bulk, state)),
{
    let words = stack_words(bulk, state);
    if state == 0 {
        assert(words =~= seq![]);
        assert(bulk =~= seq![]);
    } else if state < 0x1_0000_0000 {
        assert(words =~= seq![state as u32]);
        assert(bulk =~= seq![]);
    } else {
        assert(words.take(words.len() - 2) =~= bulk);
    }
}

// ---- Laws of the steps -----------------------------------------------------

/// The range of a symbol ends where that of the next one begins.
pub proof fn lemma_cumulative_step(table: Seq<u32>, symbol: int)
    requires
        0 <= symbol < table.len(),
    ensures
        cumulative(table, symbol + 1) == cumulative(table, symbol) + table[symbol],
{
    assert(table.take(symbol + 1).drop_last() =~= table.take(symbol));
}

/// The range of a symbol begins at the plain sum of the entries before it.
pub proof fn law_cumulative_is_plain(table: Seq<u32>, symbol: int)
    requires
        0 <= symbol <= table.len(),
    ensures
        cumulative(table, symbol) == table.take(symbol).fold_left(
            0int,
            |sum: int, value: u32| sum + value,
        ),
{
    law_table_sum_is_plain(table.take(symbol), 0);
}

/// A symbol that is pushed first of all leaves no words, and as the state the
/// sum of the entries before it.
pub proof fn law_first_push(symbol: usize, table: Seq<u32>)
    requires
        valid_table(table),
        symbol < 256,
    ensures
        ans_pushed(seq![], 0, symbol, table).0 == Seq::<u32>::empty(),
        ans_pushed(seq![], 0, symbol, table).1 == table.take(symbol as int).fold_left(
            0int,
            |sum: int, value: u32| sum + value,
        ),
{
    lemma_push(seq![], 0, symbol, table);
    law_cumulative_is_plain(table, symbol as int);
    let p = table[symbol as int] as int;
    assert(0int / p == 0 && 0int % p == 0) by (nonlinear_arith)
        requires
            p > 0,
    ;
}

/// The ranges of the symbols follow each other.
pub proof fn lemma_cumulative_ordered(table: Seq<u32>, a: int, b: int)
    requires
        0 <= a <= b <= table.len(),
    ensures
        0 <= cumulative(table, a) <= cumulative(table, b),
    decreases b - a,
{
    if a < b {
        lemma_cumulative_step(table, b - 1);
        lemma_cumulative_ordered(table, a, b - 1);
    }
}

/// The range of a symbol of a valid table lies below `2^24`.
pub proof fn lemma_symbol_range(table: Seq<u32>, symbol: int)
    requires
        valid_table(table),
        0 <= symbol < 256,
    ensures
        0 < table[symbol],
        0 <= cumulative(table, symbol),
        cumulative(table, symbol) + table[symbol] <= 0x100_0000,
{
    lemma_cumulative_step(table, symbol);
    lemma_cumulative_ordered(table, 0, symbol);
    lemma_cumulative_ordered(table, symbol + 1, 256);
    assert(table.take(256) =~= table);
}

/// Every quantile below the sum of the first `n` entries lies in the range of
/// one of the first `n` symbols.
proof fn lemma_symbol_exists(table: Seq<u32>, quantile: int, n: int)
    requires
        0 <= n <= table.len(),
        0 <= quantile < cumulative(table, n),
    ensures
        exists|symbol: int| is_symbol_at(table, quantile, symbol),
    decreases n,
{
    if n > 0 {
        lemma_cumulative_step(table, n - 1);
        if quantile < cumulative(table, n - 1) {
            lemma_symbol_exists(table, quantile, n - 1);
        } else {
            assert(is_symbol_at(table, quantile, n - 1));
        }
    } else {
        assert(table.take(0) =~= seq![]);
    }
}

/// A quantile in the range of a symbol tells that symbol.
pub proof fn lemma_symbol_unique(table: Seq<u32>, quantile: int, symbol: int)
    requires
        is_symbol_at(table, quantile, symbol),
    ensures
        symbol_at(table, quantile) == symbol,
{
    let found = symbol_at(table, quantile);
    assert(is_symbol_at(table, quantile, found));
    lemma_cumulative_step(table, symbol);
    lemma_cumulative_step(table, found);
    if found < symbol {
        lemma_cumulative_ordered(table, found + 1, symbol);
    } else if symbol < found {
        lemma_cumulative_ordered(table, symbol + 1, found);
    }
}

/// What a push leaves: the part `rest` of the state that stays, divided by the
/// probability of the symbol, fits the new state exactly.
pub proof fn lemma_push(bulk: Seq<u32>, state: u64, symbol: usize, table: Seq<u32>)
    requires
        valid_stack(bulk, state),
        valid_table(table),
        symbol < 256,
    ensures
        ({
            let p = table[symbol as int] as int;
            let full = state as int / 0x100_0000_0000 >= p;
            let rest = if full {
                state as int / 0x1_0000_0000
            } else {
                state as int
            };
            let (bulk1, state1) = ans_pushed(bulk, state, symbol, table);
            &&& 0 < p <= 0x100_0000
            &&& 0 <= rest
            &&& full ==> 0x100 * p <= rest < 0x1_0000_0000
            &&& state1 == (rest / p) * 0x100_0000 + cumulative(table, symbol as int) + rest % p
            &&& 0 <= cumulative(table, symbol as int)
            &&& 0 <= rest % p < p
            &&& cumulative(table, symbol as int) + rest % p < 0x100_0000
            &&& rest == (rest / p) * p + rest % p
            &&& 0 <= rest / p
            &&& valid_stack(bulk1, state1)
        }),
{
    let p = table[symbol as int] as int;
    let s = state as int;
    let full = s / 0x100_0000_0000 >= p;
    let rest = if full {
        s / 0x1_0000_0000
    } else {
        s
    };
    let c = cumulative(table, symbol as int);
    lemma_symbol_range(table, symbol as int);
    let x = rest / p;
    let r = rest % p;
    assert(rest == x * p + r && 0 <= r < p && x >= 0) by (nonlinear_arith)
        requires
            x == rest / p,
            r == rest % p,
            p > 0,
            rest >= 0,
    ;
    assert(rest < p * 0x100_0000_0000) by (nonlinear_arith)
        requires
            p >= 1,
            s >= 0,
            s < 0x1_0000_0000_0000_0000,
            rest == s / 0x1_0000_0000 || (rest == s && s / 0x100_0000_0000 < p),
    ;
    assert(x < 0x100_0000_0000) by (nonlinear_arith)
        requires
            rest == x * p + r,
            r >= 0,
            p >= 1,
            rest < p * 0x100_0000_0000,
    ;
    if full {
        assert(0x100 * p <= rest);
    }
    if full || bulk.len() > 0 {
        assert(rest >= 0x100 * p);
        if x < 0x100 {
            assert(x * p <= 0xff * p) by (nonlinear_arith)
                requires
                    x <= 0xff,
                    p > 0,
            ;
        }
        assert(x >= 0x100);
    }
}

/// Popping gives back what was pushed last, and the stack as it was before.
pub proof fn law_pop_undoes_push(bulk: Seq<u32>, state: u64, symbol: usize, table: Seq<u32>)
    requires
        valid_stack(bulk, state),
        valid_table(table),
        symbol < 256,
    ensures
        ({
            let (bulk1, state1) = ans_pushed(bulk, state, symbol, table);
            &&& valid_stack(bulk1, state1)
            &&& ans_popped(bulk1, state1, table) == (symbol, bulk, state)
        }),
{
    lemma_push(bulk, state, symbol, table);
    let (bulk1, state1) = ans_pushed(bulk, state, symbol, table);
    let p = table[symbol as int] as int;
    let s = state as int;
    let full = s / 0x100_0000_0000 >= p;
    let rest = if full {
        s / 0x1_0000_0000
    } else {
        s
    };
    let quantile = cumulative(table, symbol as int) + rest % p;
    assert(state1 as int % 0x100_0000 == quantile && state1 as int / 0x100_0000 == rest / p);
    assert(is_symbol_at(table, quantile, symbol as int));
    lemma_symbol_unique(table, quantile, symbol as int);
    if full {
        assert(bulk1.drop_last() =~= bulk);
    }
}

/// A pop gives a byte and leaves a valid stack.
pub proof fn lemma_pop_valid(bulk: Seq<u32>, state: u64, table: Seq<u32>)
    requires
        valid_stack(bulk, state),
        valid_table(table),
    ensures
        ans_popped(bulk, state, table).0 < 256,
        valid_stack(ans_popped(bulk, state, table).1, ans_popped(bulk, state, table).2),
{
    let quantile = state as int % 0x100_0000;
    assert(table.take(256) =~= table);
    lemma_symbol_exists(table, quantile, 256);
    let symbol = symbol_at(table, quantile);
    assert(is_symbol_at(table, quantile, symbol));
    lemma_symbol_range(table, symbol);
    let p = table[symbol] as int;
    let x = state as int / 0x100_0000;
    assert(0 <= x * p <= 0xff_ffff_ffff * 0x100_0000) by (nonlinear_arith)
        requires
            0 <= x <= 0xff_ffff_ffff,
            0 < p <= 0x100_0000,
    ;
    if bulk.len() > 0 {
        assert(x * p >= 1) by (nonlinear_arith)
            requires
                x >= 0x100,
                p >= 1,
        ;
    }
}

/// Pushing bytes leaves a valid stack.
pub proof fn lemma_push_many_valid(bulk: Seq<u32>, state: u64, symbols: Seq<usize>, table: Seq<u32>)
    requires
        valid_stack(bulk, state),
        valid_table(table),
        forall|i: int| 0 <= i < symbols.len() ==> #[trigger] symbols[i] < 256,
    ensures
        valid_stack(
            ans_pushed_many(bulk, state, symbols, table).0,
            ans_pushed_many(bulk, state, symbols, table).1,
        ),
    decreases symbols.len(),
{
    if symbols.len() > 0 {
        lemma_push_many_valid(bulk, state, symbols.skip(1), table);
        let (bulk1, state1) = ans_pushed_many(bulk, state, symbols.skip(1), table);
        lemma_push(bulk1, state1, symbols[0], table);
    }
}

/// Pops give bytes and leave a valid stack.
pub proof fn lemma_pop_many_valid(bulk: Seq<u32>, state: u64, table: Seq<u32>, n: nat)
    requires
        valid_stack(bulk, state),
        valid_table(table),
    ensures
        valid_stack(
            ans_popped_many(bulk, state, table, n).1,
            ans_popped_many(bulk, state, table, n).2,
        ),
        forall|i: int|
            0 <= i < ans_popped_many(bulk, state, table, n).0.len()
                ==> #[trigger] ans_popped_many(bulk, state, table, n).0[i] < 256,
    decreases n,
{
    if n > 0 {
        lemma_pop_many_valid(bulk, state, table, (n - 1) as nat);
        let (symbols, bulk1, state1) = ans_popped_many(bulk, state, table, (n - 1) as nat);
        lemma_pop_valid(bulk1, state1, table);
    }
}

/// Popping in two parts gives what popping at once gives.
pub proof fn law_pop_in_parts(bulk: Seq<u32>, state: u64, table: Seq<u32>, m: nat, n: nat)
    ensures
        ({
            let (first, bulk1, state1) = ans_popped_many(bulk, state, table, m);
            let (second, bulk2, state2) = ans_popped_many(bulk1, state1, table, n);
            ans_popped_many(bulk, state, table, m + n) == (first + second, bulk2, state2)
        }),
    decreases n,
{
    let (first, bulk1, state1) = ans_popped_many(bulk, state, table, m);
    let (second, bulk2, state2) = ans_popped_many(bulk1, state1, table, n);
    if n == 0 {
        assert(first + second =~= first);
    } else {
        law_pop_in_parts(bulk, state, table, m, (n - 1) as nat);
        let shorter = ans_popped_many(bulk1, state1, table, (n - 1) as nat).0;
        assert(first + second =~= (first + shorter).push(second.last()));
    }
}

/// Popping as many symbols as were pushed gives them in their order, and the
/// stack as it was before.
pub proof fn law_pops_undo_pushes(bulk: Seq<u32>, state: u64, symbols: Seq<usize>, table: Seq<u32>)
    requires
        valid_stack(bulk, state),
        valid_table(table),
        forall|i: int| 0 <= i < symbols.len() ==> #[trigger] symbols[i] < 256,
    ensures
        ans_popped_many(
            ans_pushed_many(bulk, state, symbols, table).0,
            ans_pushed_many(bulk, state, symbols, table).1,
            table,
            symbols.len(),
        ) == (symbols, bulk, state),
    decreases symbols.len(),
{
    if symbols.len() == 0 {
        assert(symbols =~= seq![]);
    } else {
        let rest = symbols.skip(1);
        law_pops_undo_pushes(bulk, state, rest, table);
        lemma_push_many_valid(bulk, state, rest, table);
        let (bulk1, state1) = ans_pushed_many(bulk, state, rest, table);
        law_pop_undoes_push(bulk1, state1, symbols[0], table);
        let (bulk2, state2) = ans_pushed_many(bulk, state, symbols, table);
        law_pop_in_parts(bulk2, state2, table, 1, rest.len());
        reveal_with_fuel(ans_popped_many, 2);
        assert(Seq::<usize>::empty().push(symbols[0]) + rest =~= symbols);
    }
}

// ---- The calls -------------------------------------------------------------

/// `DefaultAnsCoder::new` gives an empty coder: no words and the state zero.
#[verifier::external_body]
pub(crate) fn ans_new() -> (stack: AnsStack)
    ensures
        stack.bulk@ == Seq::<u32>::empty(),
        stack.state == 0,
{
    let (bulk, state) = DefaultAnsCoder::new().into_raw_parts();
    AnsStack { bulk, state }
}

/// `from_nonzero_fixed_point_probabilities` makes a model that holds the
/// given probabilities. It fails unless each of them is above zero and their
/// sum is `2^24`.
#[verifier::external_body]
pub(crate) fn build_model(probs: &[u32; 256]) -> (r: Result<
    DefaultContiguousCategoricalEntropyModel,
    (),
>)
    ensures
        r is Ok <==> valid_table(probs@),
        r matches Ok(model) ==> model_table(model) == probs@,
{
    DefaultContiguousCategoricalEntropyModel::from_nonzero_fixed_point_probabilities(probs, false)
}

/// `Encode::encode_symbol` pushes one symbol as [`ans_pushed`] says. A symbol
/// below 256 is in the support of the model and a vector always takes another
/// word, so the call cannot fail.
#[verifier::external_body]
pub(crate) fn ans_push(
    stack: &mut AnsStack,
    symbol: usize,
    model: &DefaultContiguousCategoricalEntropyModel,
)
    requires
        old(stack).wf(),
        valid_table(model_table(*model)),
        symbol < 256,
    ensures
        (final(stack).bulk@, final(stack).state) == ans_pushed(
            old(stack).bulk@,
            old(stack).state,
            symbol,
            model_table(*model),
        ),
{
    let bulk = core::mem::take(&mut stack.bulk);
    let mut coder = DefaultAnsCoder::from_raw_parts(bulk, stack.state);
    coder.encode_symbol(symbol, model).unwrap_or_default();
    let (bulk, state) = coder.into_raw_parts();
    stack.bulk = bulk;
    stack.state = state;
}

/// `AnsCoder::encode_iid_symbols_reverse` pushes the symbols one after the
/// other as [`ans_push`] does, the last one first. Symbols below 256 are in
/// the support of the model and a vector always takes another word, so the
/// call cannot fail.
#[verifier::external_body]
pub(crate) fn ans_push_all(
    stack: &mut AnsStack,
    symbols: &Vec<usize>,
    model: &DefaultContiguousCategoricalEntropyModel,
)
    requires
        old(stack).wf(),
        valid_table(model_table(*model)),
        forall|i: int| 0 <= i < symbols@.len() ==> #[trigger] symbols@[i] < 256,
    ensures
        (final(stack).bulk@, final(stack).state) == ans_pushed_many(
            old(stack).bulk@,
            old(stack).state,
            symbols@,
            model_table(*model),
        ),
{
    let bulk = core::mem::take(&mut stack.bulk);
    let mut coder = DefaultAnsCoder::from_raw_parts(bulk, stack.state);
    coder.encode_iid_symbols_reverse(symbols, model).unwrap_or_default();
    let (bulk, state) = coder.into_raw_parts();
    stack.bulk = bulk;
    stack.state = state;
}

/// `AnsCoder::into_compressed` appends the words of the state to the written
/// words. On a vector it cannot fail.
#[verifier::external_body]
pub(crate) fn ans_into_words(stack: AnsStack) -> (words: Vec<u32>)
    ensures
        words@ == stack_words(stack.bulk@, stack.state),
{
    let coder = DefaultAnsCoder::from_raw_parts(stack.bulk, stack.state);
    coder.into_compressed().unwrap_or_default()
}

/// `AnsCoder::from_compressed` takes the state from the end of the words. It
/// fails if the last word is zero. Then it hands back the words without that
/// one, which it has already read.
#[verifier::external_body]
pub(crate) fn ans_from_words(words: Vec<u32>) -> (r: Result<AnsStack, Vec<u32>>)
    ensures
        match words_stack(words@) {
            Some((bulk, state)) => r matches Ok(stack) && stack.bulk@ == bulk && stack.state
                == state,
            None => r matches Err(rest) && rest@ == words@.drop_last(),
        },
{
    DefaultAnsCoder::from_compressed(words).map(
        |coder|
            {
                let (bulk, state) = coder.into_raw_parts();
                AnsStack { bulk, state }
            },
    )
}

/// `Decode::decode_symbol` pops one symbol as [`ans_popped`] says. It cannot
/// fail: a vector that has no more words is read as the end of the stack.
#[verifier::external_body]
pub(crate) fn ans_pop(
    stack: &mut AnsStack,
    model: &DefaultContiguousCategoricalEntropyModel,
) -> (symbol: usize)
    requires
        old(stack).wf(),
        valid_table(model_table(*model)),
    ensures
        (symbol, final(stack).bulk@, final(stack).state) == ans_popped(
            old(stack).bulk@,
            old(stack).state,
            model_table(*model),
        ),
{
    let bulk = core::mem::take(&mut stack.bulk);
    let mut coder = DefaultAnsCoder::from_raw_parts(bulk, stack.state);
    let symbol = coder.decode_symbol(model).unwrap_infallible();
    let (bulk, state) = coder.into_raw_parts();
    stack.bulk = bulk;
    stack.state = state;
    symbol
}

/// `Decode::decode_iid_symbols` pops the given number of symbols, one after
/// the other as [`ans_pop`] does.
#[verifier::external_body]
pub(crate) fn ans_pop_many(
    stack: &mut AnsStack,
    amount: usize,
    model: &DefaultContiguousCategoricalEntropyModel,
) -> (symbols: Vec<usize>)
    requires
        old(stack).wf(),
        valid_table(model_table(*model)),
    ensures
        (symbols@, final(stack).bulk@, final(stack).state) == ans_popped_many(
            old(stack).bulk@,
            old(stack).state,
            model_table(*model),
            amount as nat,
        ),
{
    let bulk = core::mem::take(&mut stack.bulk);
    let mut coder = DefaultAnsCoder::from_raw_parts(bulk, stack.state);
    let decoded: Result<Vec<usize>, _> = coder.decode_iid_symbols(amount, model).collect();
    let symbols = decoded.unwrap_infallible();
    let (bulk, state) = coder.into_raw_parts();
    stack.bulk = bulk;
    stack.state = state;
    symbols
}

} // verus!
