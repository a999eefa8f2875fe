//! How many words a stream takes.
//!
//! Pushing a symbol of probability `p / 2^24` multiplies what a stack stands
//! for by about `2^24 / p`. The rounding of one push changes this by a factor
//! between `255 / 257` and `257 / 256`.

use super::ans::{
    ans_pushed, ans_pushed_many, cumulative, law_uniform_table_valid, lemma_constant_table_sum,
    lemma_push, lemma_push_many_valid, stack_words, uniform_table, valid_stack, valid_table,
};
use super::sequence::{all_valid, pushed_from};
use super::stream::AnsCoderView;
use vstd::arithmetic::power::{
    lemma_pow0, lemma_pow1, lemma_pow_adds, lemma_pow_distributes, lemma_pow_increases,
    lemma_pow_multiplies, lemma_pow_positive, pow,
};
use vstd::prelude::*;

verus! {

/// The number of values of a word.
pub open spec fn word_values() -> int {
    0x1_0000_0000
}

/// The most that a push grows a stack, in units of `1 / (256 * p)`.
pub open spec fn most_growth() -> int {
    257 * 0x100_0000int
}

/// The least that a push grows a stack, in units of `1 / (257 * p)`.
pub open spec fn least_growth() -> int {
    255 * 0x100_0000int
}

/// The number that a stack stands for.
pub open spec fn stack_value(bulk: Seq<u32>, state: u64) -> int {
    pow(word_values(), bulk.len()) * state
}

/// The number that a stack stands for, but with a state of at least one full
/// word.
pub open spec fn padded_value(bulk: Seq<u32>, state: u64) -> int {
    pow(word_values(), bulk.len()) * if state < 0x1_0000_0000 {
        0x1_0000_0000
    } else {
        state as int
    }
}

/// The product of the probabilities of the symbols, each times `factor`.
pub open spec fn scaled_product(symbols: Seq<usize>, table: Seq<u32>, factor: int) -> int
    decreases symbols.len(),
{
    if symbols.len() == 0 {
        1
    } else {
        (factor * table[symbols[0] as int]) * scaled_product(symbols.skip(1), table, factor)
    }
}

/// The product of the probabilities of the symbols from `i` on, each with its
/// own table and times `factor`.
pub open spec fn sequence_product(
    symbols: Seq<u8>,
    tables: Seq<Seq<u32>>,
    factor: int,
    i: int,
) -> int
    decreases symbols.len() - i,
{
    if i >= symbols.len() {
        1
    } else {
        (factor * tables[i][symbols[i] as int]) * sequence_product(symbols, tables, factor, i + 1)
    }
}

// ---- One push --------------------------------------------------------------

/// One push grows a stack by at most the inverse probability and a rounding of
/// `257 / 256`.
proof fn lemma_push_at_most(bulk: Seq<u32>, state: u64, symbol: usize, table: Seq<u32>)
    requires
        valid_stack(bulk, state),
        valid_table(table),
        symbol < 256,
    ensures
        ({
            let (bulk1, state1) = ans_pushed(bulk, state, symbol, table);
            padded_value(bulk1, state1) * (256 * table[symbol as int]) <= padded_value(bulk, state)
                * (257 * 0x100_0000)
        }),
{
    lemma_push(bulk, state, symbol, table);
    let (bulk1, state1) = ans_pushed(bulk, state, symbol, table);
    let p = table[symbol as int] as int;
    let full = state as int / 0x100_0000_0000 >= p;
    let rest = if full {
        state as int / 0x1_0000_0000
    } else {
        state as int
    };
    let w = pow(word_values(), bulk.len());
    lemma_pow_positive(word_values(), bulk.len());
    let before = if state < 0x1_0000_0000 {
        0x1_0000_0000
    } else {
        state as int
    };
    let after = if state1 < 0x1_0000_0000 {
        0x1_0000_0000
    } else {
        state1 as int
    };
    let x = rest / p;
    // The new state is below `(x + 1) * 2^24`, and `x * p` is at most `rest`.
    assert(state1 * (256 * p) <= (256 * rest + 256 * p) * 0x100_0000) by (nonlinear_arith)
        requires
            state1 <= x * 0x100_0000 + 0x100_0000,
            x * p <= rest,
            p > 0,
    ;
    if full {
        lemma_pow_adds(word_values(), bulk.len(), 1);
        lemma_pow1(word_values());
        assert(state1 * (256 * p) <= rest * (257 * 0x100_0000));
        assert(pow(word_values(), bulk1.len()) == w * 0x1_0000_0000);
        assert((w * 0x1_0000_0000 * state1) * (256 * p) <= (w * state) * (257 * 0x100_0000))
            by (nonlinear_arith)
            requires
                w > 0,
                state1 * (256 * p) <= rest * (257 * 0x100_0000),
                rest * 0x1_0000_0000 <= state,
        ;
        assert(state1 >= 0x1_0000_0000);
        assert(state >= 0x1_0000_0000);
    } else {
        assert(state1 * (256 * p) <= before * (257 * 0x100_0000));
        assert(0x1_0000_0000 * (256 * p) <= before * (257 * 0x100_0000));
        assert((w * after) * (256 * p) <= (w * before) * (257 * 0x100_0000)) by (nonlinear_arith)
            requires
                w > 0,
                after * (256 * p) <= before * (257 * 0x100_0000),
        ;
    }
}

/// One push on a state of more than one word grows the stack by at least the
/// inverse probability and a rounding of `255 / 257`.
proof fn lemma_push_at_least(bulk: Seq<u32>, state: u64, symbol: usize, table: Seq<u32>)
    requires
        state >= 0x1_0000_0000,
        valid_table(table),
        symbol < 256,
    ensures
        ({
            let (bulk1, state1) = ans_pushed(bulk, state, symbol, table);
            &&& state1 >= 0x1_0000_0000
            &&& stack_value(bulk1, state1) * (257 * table[symbol as int]) >= stack_value(
                bulk,
                state,
            ) * (255 * 0x100_0000)
        }),
{
    lemma_push(bulk, state, symbol, table);
    let (bulk1, state1) = ans_pushed(bulk, state, symbol, table);
    let p = table[symbol as int] as int;
    let full = state as int / 0x100_0000_0000 >= p;
    let rest = if full {
        state as int / 0x1_0000_0000
    } else {
        state as int
    };
    let w = pow(word_values(), bulk.len());
    lemma_pow_positive(word_values(), bulk.len());
    let x = rest / p;
    assert(rest >= 256 * p);
    if x < 0x100 {
        assert(x * p <= 0xff * p) by (nonlinear_arith)
            requires
                x <= 0xff,
                p > 0,
        ;
    }
    assert(state1 * (256 * p) >= (256 * rest - 256 * p) * 0x100_0000) by (nonlinear_arith)
        requires
            state1 >= x * 0x100_0000,
            x * p >= rest - p,
            p > 0,
    ;
    assert(state1 * (256 * p) >= rest * (255 * 0x100_0000)) by (nonlinear_arith)
        requires
            state1 * (256 * p) >= (256 * rest - 256 * p) * 0x100_0000,
            rest >= 256 * p,
    ;
    if full {
        lemma_pow_adds(word_values(), bulk.len(), 1);
        lemma_pow1(word_values());
        assert(pow(word_values(), bulk1.len()) == w * 0x1_0000_0000);
        assert(state * 256 <= rest * 0x1_0000_0000 * 257);
        let y = state1 as int;
        let s = state as int;
        assert(y * (257 * p) * 0x1_0000_0000 >= s * (255 * 0x100_0000)) by (nonlinear_arith)
            requires
                y * (256 * p) >= rest * (255 * 0x100_0000),
                s * 256 <= rest * 0x1_0000_0000 * 257,
        ;
        assert((w * 0x1_0000_0000 * y) * (257 * p) >= (w * s) * (255 * 0x100_0000))
            by (nonlinear_arith)
            requires
                w > 0,
                y * (257 * p) * 0x1_0000_0000 >= s * (255 * 0x100_0000),
        ;
    } else {
        assert((w * state1) * (257 * p) >= (w * state) * (255 * 0x100_0000)) by (nonlinear_arith)
            requires
                w > 0,
                p > 0,
                state1 * (256 * p) >= state * (255 * 0x100_0000),
        ;
    }
}

// ---- Words -----------------------------------------------------------------

/// The words of a stack are bounded by what it stands for.
proof fn lemma_words_of_value(bulk: Seq<u32>, state: u64)
    requires
        valid_stack(bulk, state),
    ensures
        pow(word_values(), stack_words(bulk, state).len()) <= padded_value(bulk, state)
            * word_values(),
        state >= 0x1_0000_0000 ==> stack_value(bulk, state) < pow(
            word_values(),
            stack_words(bulk, state).len(),
        ),
{
    let w = pow(word_values(), bulk.len());
    lemma_pow_positive(word_values(), bulk.len());
    lemma_pow1(word_values());
    lemma_pow_adds(word_values(), 1, 1);
    lemma_pow_adds(word_values(), bulk.len(), 2);
    assert(pow(word_values(), 2) == 0x1_0000_0000_0000_0000);
    if state >= 0x1_0000_0000 {
        assert(stack_words(bulk, state).len() == bulk.len() + 2);
        assert(w * 0x1_0000_0000_0000_0000 <= (w * state) * 0x1_0000_0000) by (nonlinear_arith)
            requires
                w > 0,
                state >= 0x1_0000_0000,
        ;
        assert(w * state < w * 0x1_0000_0000_0000_0000) by (nonlinear_arith)
            requires
                w > 0,
                state < 0x1_0000_0000_0000_0000,
        ;
    } else {
        lemma_pow0(word_values());
        let n = stack_words(bulk, state).len();
        lemma_pow_increases(0x1_0000_0000, n, 2);
    }
}

// ---- Streams ---------------------------------------------------------------

/// The products are positive.
proof fn lemma_product_positive(symbols: Seq<usize>, table: Seq<u32>, factor: int)
    requires
        valid_table(table),
        factor > 0,
        forall|i: int| 0 <= i < symbols.len() ==> #[trigger] symbols[i] < 256,
    ensures
        scaled_product(symbols, table, factor) > 0,
    decreases symbols.len(),
{
    if symbols.len() > 0 {
        lemma_product_positive(symbols.skip(1), table, factor);
        let p = table[symbols[0] as int] as int;
        let rest = scaled_product(symbols.skip(1), table, factor);
        assert((factor * p) * rest > 0) by (nonlinear_arith)
            requires
                factor > 0,
                p > 0,
                rest > 0,
        ;
    }
}

/// Pushing symbols grows a stack by at most their inverse probabilities and
/// the rounding.
proof fn lemma_pushes_at_most(bulk: Seq<u32>, state: u64, symbols: Seq<usize>, table: Seq<u32>)
    requires
        valid_stack(bulk, state),
        valid_table(table),
        forall|i: int| 0 <= i < symbols.len() ==> #[trigger] symbols[i] < 256,
    ensures
        ({
            let (bulk1, state1) = ans_pushed_many(bulk, state, symbols, table);
            padded_value(bulk1, state1) * scaled_product(symbols, table, 256) <= padded_value(
                bulk,
                state,
            ) * pow(most_growth(), symbols.len())
        }),
    decreases symbols.len(),
{
    let c = most_growth();
    lemma_pow0(c);
    if symbols.len() > 0 {
        let rest = symbols.skip(1);
        lemma_pushes_at_most(bulk, state, rest, table);
        lemma_push_many_valid(bulk, state, rest, table);
        lemma_product_positive(rest, table, 256);
        let (bulk1, state1) = ans_pushed_many(bulk, state, rest, table);
        lemma_push_at_most(bulk1, state1, symbols[0], table);
        let (bulk2, state2) = ans_pushed_many(bulk, state, symbols, table);
        lemma_pow_adds(c, 1, rest.len());
        lemma_pow1(c);
        lemma_chain_at_most(
            padded_value(bulk2, state2),
            256 * table[symbols[0] as int],
            padded_value(bulk1, state1),
            c,
            scaled_product(rest, table, 256),
            padded_value(bulk, state),
            pow(c, rest.len()),
        );
    }
}

/// Joins the bound of one push and that of the pushes before it.
proof fn lemma_chain_at_most(
    end: int,
    p: int,
    mid: int,
    c: int,
    product: int,
    start: int,
    power: int,
)
    by (nonlinear_arith)
    requires
        end * p <= mid * c,
        mid * product <= start * power,
        product > 0,
        c > 0,
    ensures
        end * (p * product) <= start * (c * power),
{
    assert((end * p) * product <= (mid * c) * product);
    assert((mid * product) * c <= (start * power) * c);
}

/// Pushing symbols on a state of more than one word grows the stack by at
/// least their inverse probabilities and the rounding.
proof fn lemma_pushes_at_least(bulk: Seq<u32>, state: u64, symbols: Seq<usize>, table: Seq<u32>)
    requires
        state >= 0x1_0000_0000,
        valid_table(table),
        forall|i: int| 0 <= i < symbols.len() ==> #[trigger] symbols[i] < 256,
    ensures
        ({
            let (bulk1, state1) = ans_pushed_many(bulk, state, symbols, table);
            &&& state1 >= 0x1_0000_0000
            &&& stack_value(bulk, state) * pow(least_growth(), symbols.len()) <= stack_value(
                bulk1,
                state1,
            ) * scaled_product(symbols, table, 257)
        }),
    decreases symbols.len(),
{
    let c = least_growth();
    lemma_pow0(c);
    if symbols.len() > 0 {
        let rest = symbols.skip(1);
        lemma_pushes_at_least(bulk, state, rest, table);
        lemma_product_positive(rest, table, 257);
        let (bulk1, state1) = ans_pushed_many(bulk, state, rest, table);
        lemma_push_at_least(bulk1, state1, symbols[0], table);
        let (bulk2, state2) = ans_pushed_many(bulk, state, symbols, table);
        lemma_pow_adds(c, 1, rest.len());
        lemma_pow1(c);
        lemma_chain_at_least(
            stack_value(bulk2, state2),
            257 * table[symbols[0] as int],
            stack_value(bulk1, state1),
            c,
            scaled_product(rest, table, 257),
            stack_value(bulk, state),
            pow(c, rest.len()),
        );
    }
}

/// Joins the bound of one push and that of the pushes before it.
proof fn lemma_chain_at_least(
    end: int,
    p: int,
    mid: int,
    c: int,
    product: int,
    start: int,
    power: int,
)
    by (nonlinear_arith)
    requires
        end * p >= mid * c,
        mid * product >= start * power,
        product > 0,
        c > 0,
    ensures
        start * (c * power) <= end * (p * product),
{
    assert((end * p) * product >= (mid * c) * product);
    assert((mid * product) * c >= (start * power) * c);
}

/// A stream takes at most two words more than its symbols need by their
/// probabilities, and the rounding: `2^(32 * words)` times the product of the
/// probabilities is at most `2^64 * (257 / 256)^n`.
pub proof fn law_stream_takes_at_most(symbols: Seq<usize>, table: Seq<u32>)
    requires
        valid_table(table),
        forall|i: int| 0 <= i < symbols.len() ==> #[trigger] symbols[i] < 256,
    ensures
        ({
            let (bulk, state) = ans_pushed_many(seq![], 0, symbols, table);
            pow(word_values(), stack_words(bulk, state).len()) * scaled_product(symbols, table, 256)
                <= pow(word_values(), 2) * pow(most_growth(), symbols.len())
        }),
{
    let (bulk, state) = ans_pushed_many(seq![], 0, symbols, table);
    lemma_pushes_at_most(seq![], 0, symbols, table);
    lemma_push_many_valid(seq![], 0, symbols, table);
    lemma_words_of_value(bulk, state);
    lemma_product_positive(symbols, table, 256);
    lemma_pow0(word_values());
    lemma_pow1(word_values());
    lemma_pow_adds(word_values(), 1, 1);
    assert(padded_value(seq![], 0) == word_values());
    lemma_words_at_most(
        pow(word_values(), stack_words(bulk, state).len()),
        padded_value(bulk, state),
        scaled_product(symbols, table, 256),
        pow(most_growth(), symbols.len()),
    );
}

/// Turns a bound on what a stack stands for into one on its words.
proof fn lemma_words_at_most(words: int, value: int, product: int, power: int)
    by (nonlinear_arith)
    requires
        words <= value * 0x1_0000_0000,
        value * product <= 0x1_0000_0000 * power,
        product > 0,
    ensures
        words * product <= (0x1_0000_0000 * 0x1_0000_0000) * power,
{
    assert(words * product <= (value * 0x1_0000_0000) * product);
}

/// A stream on a stack whose state has more than one word takes at least what
/// its symbols need by their probabilities, but for the rounding.
pub proof fn law_stream_takes_at_least(
    bulk: Seq<u32>,
    state: u64,
    symbols: Seq<usize>,
    table: Seq<u32>,
)
    requires
        state >= 0x1_0000_0000,
        valid_table(table),
        forall|i: int| 0 <= i < symbols.len() ==> #[trigger] symbols[i] < 256,
    ensures
        ({
            let (bulk1, state1) = ans_pushed_many(bulk, state, symbols, table);
            stack_value(bulk, state) * pow(least_growth(), symbols.len()) < pow(
                word_values(),
                stack_words(bulk1, state1).len(),
            ) * scaled_product(symbols, table, 257)
        }),
{
    let (bulk1, state1) = ans_pushed_many(bulk, state, symbols, table);
    lemma_pushes_at_least(bulk, state, symbols, table);
    lemma_words_of_value(bulk1, state1);
    lemma_product_positive(symbols, table, 257);
    let product = scaled_product(symbols, table, 257);
    let value = stack_value(bulk1, state1);
    let words = pow(word_values(), stack_words(bulk1, state1).len());
    assert(value * product < words * product) by (nonlinear_arith)
        requires
            value < words,
            product > 0,
    ;
}

// ---- Sequences -------------------------------------------------------------

/// Pushing the symbols from `i` on grows the empty stack by at most their
/// inverse probabilities and the rounding.
proof fn lemma_sequence_at_most(symbols: Seq<u8>, tables: Seq<Seq<u32>>, i: int)
    requires
        all_valid(tables),
        tables.len() == symbols.len(),
        0 <= i <= symbols.len(),
    ensures
        ({
            let (bulk, state) = pushed_from(symbols, tables, i);
            &&& valid_stack(bulk, state)
            &&& sequence_product(symbols, tables, 256, i) > 0
            &&& padded_value(bulk, state) * sequence_product(symbols, tables, 256, i)
                <= word_values() * pow(most_growth(), (symbols.len() - i) as nat)
        }),
    decreases symbols.len() - i,
{
    let c = most_growth();
    lemma_pow0(c);
    lemma_pow0(word_values());
    if i < symbols.len() {
        lemma_sequence_at_most(symbols, tables, i + 1);
        let (bulk, state) = pushed_from(symbols, tables, i + 1);
        let symbol = symbols[i] as usize;
        assert(valid_table(tables[i]));
        lemma_push(bulk, state, symbol, tables[i]);
        lemma_push_at_most(bulk, state, symbol, tables[i]);
        let (bulk1, state1) = pushed_from(symbols, tables, i);
        let p = tables[i][symbol as int] as int;
        let rest = sequence_product(symbols, tables, 256, i + 1);
        assert((256 * p) * rest > 0) by (nonlinear_arith)
            requires
                p > 0,
                rest > 0,
        ;
        lemma_pow_adds(c, 1, (symbols.len() - i - 1) as nat);
        lemma_pow1(c);
        lemma_chain_at_most(
            padded_value(bulk1, state1),
            256 * p,
            padded_value(bulk, state),
            c,
            rest,
            word_values(),
            pow(c, (symbols.len() - i - 1) as nat),
        );
    }
}

/// A number of words that is at most two more than the symbols need by their
/// probabilities, each by its own table, and the rounding.
pub open spec fn is_compact(words: nat, symbols: Seq<u8>, tables: Seq<Seq<u32>>) -> bool {
    pow(word_values(), words) * sequence_product(symbols, tables, 256, 0) <= pow(word_values(), 2)
        * pow(most_growth(), symbols.len())
}

/// A sequence takes at most two words more than its symbols need by their
/// probabilities, each by its own table, and the rounding.
pub proof fn law_sequence_takes_at_most(symbols: Seq<u8>, tables: Seq<Seq<u32>>)
    requires
        all_valid(tables),
        tables.len() == symbols.len(),
    ensures
        ({
            let (bulk, state) = pushed_from(symbols, tables, 0);
            is_compact(stack_words(bulk, state).len(), symbols, tables)
        }),
{
    let (bulk, state) = pushed_from(symbols, tables, 0);
    lemma_sequence_at_most(symbols, tables, 0);
    lemma_words_of_value(bulk, state);
    lemma_pow1(word_values());
    lemma_pow_adds(word_values(), 1, 1);
    lemma_words_at_most(
        pow(word_values(), stack_words(bulk, state).len()),
        padded_value(bulk, state),
        sequence_product(symbols, tables, 256, 0),
        pow(most_growth(), symbols.len()),
    );
}

// ---- Two tables for one stream ---------------------------------------------

/// The number of words that a stream takes with a table.
pub open spec fn stream_words(symbols: Seq<usize>, table: Seq<u32>) -> nat {
    let (bulk, state) = ans_pushed_many(seq![], 0, symbols, table);
    stack_words(bulk, state).len()
}

/// Pushing in two parts, the last symbols first, is pushing at once.
proof fn lemma_push_in_parts(
    bulk: Seq<u32>,
    state: u64,
    symbols: Seq<usize>,
    table: Seq<u32>,
    k: int,
)
    requires
        0 <= k <= symbols.len(),
    ensures
        ({
            let (bulk1, state1) = ans_pushed_many(bulk, state, symbols.skip(k), table);
            ans_pushed_many(bulk, state, symbols, table) == ans_pushed_many(
                bulk1,
                state1,
                symbols.take(k),
                table,
            )
        }),
    decreases k,
{
    if k == 0 {
        assert(symbols.skip(0) =~= symbols);
    } else {
        lemma_push_in_parts(bulk, state, symbols.skip(1), table, k - 1);
        assert(symbols.skip(1).skip(k - 1) =~= symbols.skip(k));
        assert(symbols.take(k).skip(1) =~= symbols.skip(1).take(k - 1));
    }
}

/// A table takes fewer words than another one if it makes the symbols likely
/// enough to outweigh the rounding and the two words of slack. Of the other
/// table it counts only the first `k` symbols, which are pushed when its state
/// already has more than one word.
pub proof fn law_likelier_symbols_take_fewer_words(
    symbols: Seq<usize>,
    table: Seq<u32>,
    other: Seq<u32>,
    k: int,
)
    requires
        valid_table(table),
        valid_table(other),
        forall|i: int| 0 <= i < symbols.len() ==> #[trigger] symbols[i] < 256,
        0 <= k <= symbols.len(),
        ans_pushed_many(seq![], 0, symbols.skip(k), other).1 >= 0x1_0000_0000,
        (pow(word_values(), 2) * pow(most_growth(), symbols.len())) * scaled_product(
            symbols.take(k),
            other,
            257,
        ) <= (word_values() * pow(least_growth(), k as nat)) * scaled_product(symbols, table, 256),
    ensures
        stream_words(symbols, table) < stream_words(symbols, other),
{
    let (bulk, state) = ans_pushed_many(seq![], 0, symbols.skip(k), other);
    law_stream_takes_at_most(symbols, table);
    law_stream_takes_at_least(bulk, state, symbols.take(k), other);
    lemma_push_in_parts(seq![], 0, symbols, other, k);
    lemma_product_positive(symbols, table, 256);
    lemma_product_positive(symbols.take(k), other, 257);
    lemma_pow_positive(word_values(), bulk.len());
    lemma_pow_positive(least_growth(), k as nat);
    let ours = stream_words(symbols, table);
    let theirs = stream_words(symbols, other);
    let x = scaled_product(symbols, table, 256);
    let z = scaled_product(symbols.take(k), other, 257);
    let y = pow(word_values(), 2) * pow(most_growth(), symbols.len());
    let w = word_values() * pow(least_growth(), k as nat);
    let value = stack_value(bulk, state);
    assert(value >= word_values()) by (nonlinear_arith)
        requires
            value == pow(word_values(), bulk.len()) * state,
            pow(word_values(), bulk.len()) > 0,
            state >= word_values(),
    ;
    let d = pow(least_growth(), k as nat);
    assert(w <= value * d) by (nonlinear_arith)
        requires
            w == word_values() * d,
            value >= word_values(),
            d > 0,
    ;
    lemma_bounds_compare(pow(word_values(), ours), pow(word_values(), theirs), x, y, z, w);
    if ours >= theirs {
        lemma_pow_increases(0x1_0000_0000, theirs, ours);
    }
}

/// Compares the two bounds.
proof fn lemma_bounds_compare(ours: int, theirs: int, x: int, y: int, z: int, w: int)
    by (nonlinear_arith)
    requires
        ours * x <= y,
        w < theirs * z,
        y * z <= w * x,
        x > 0,
        z > 0,
    ensures
        ours < theirs,
{
    assert((ours * x) * z <= y * z);
    assert(w * x < (theirs * z) * x);
    assert(ours * (x * z) < theirs * (x * z));
    assert(x * z > 0);
}

/// Zeros on the empty stack leave it empty.
proof fn lemma_zeros_are_free(symbols: Seq<usize>, table: Seq<u32>)
    requires
        valid_table(table),
        forall|i: int| 0 <= i < symbols.len() ==> #[trigger] symbols[i] == 0,
    ensures
        ans_pushed_many(seq![], 0, symbols, table) == (Seq::<u32>::empty(), 0u64),
    decreases symbols.len(),
{
    if symbols.len() > 0 {
        lemma_zeros_are_free(symbols.skip(1), table);
        lemma_push(seq![], 0, 0, table);
        assert(table.take(0) =~= seq![]);
        let p = table[0] as int;
        assert(0int / p == 0 && 0int % p == 0) by (nonlinear_arith)
            requires
                p > 0,
        ;
    }
}

/// The range of a symbol of the uniform table.
proof fn lemma_uniform_cumulative(symbol: int)
    requires
        0 <= symbol < 256,
    ensures
        cumulative(uniform_table(), symbol) == symbol * 0x1_0000,
{
    assert(uniform_table().take(symbol) =~= Seq::new(symbol as nat, |i: int| 0x1_0000u32));
    lemma_constant_table_sum(symbol as nat, 0x1_0000u32);
}

/// Three symbols of which the last is not zero fill more than one word with
/// the uniform table.
proof fn lemma_uniform_fills(symbols: Seq<usize>)
    requires
        symbols.len() == 3,
        forall|i: int| 0 <= i < symbols.len() ==> #[trigger] symbols[i] < 256,
        symbols[2] != 0,
    ensures
        ans_pushed_many(seq![], 0, symbols, uniform_table()).1 >= 0x1_0000_0000,
{
    let table = uniform_table();
    law_uniform_table_valid();
    let two = symbols.skip(1);
    let one = two.skip(1);
    assert(one.skip(1) =~= seq![]);
    assert(one[0] == symbols[2] && two[0] == symbols[1]);
    lemma_uniform_cumulative(symbols[2] as int);
    lemma_uniform_cumulative(symbols[1] as int);
    lemma_push(seq![], 0, symbols[2], table);
    let (bulk1, state1) = ans_pushed(seq![], 0, symbols[2], table);
    assert(state1 == symbols[2] * 0x1_0000);
    lemma_push(bulk1, state1, symbols[1], table);
    let (bulk2, state2) = ans_pushed(bulk1, state1, symbols[1], table);
    assert(state2 >= 0x100_0000);
    lemma_push(bulk2, state2, symbols[0], table);
    reveal_with_fuel(ans_pushed_many, 4);
    assert(ans_pushed_many(seq![], 0, one, table) == (bulk1, state1));
    assert(ans_pushed_many(seq![], 0, two, table) == (bulk2, state2));
}

/// The product of the uniform probabilities is a power.
proof fn lemma_uniform_product(symbols: Seq<usize>)
    requires
        forall|i: int| 0 <= i < symbols.len() ==> #[trigger] symbols[i] < 256,
    ensures
        scaled_product(symbols, uniform_table(), 257) == pow(257 * 0x1_0000int, symbols.len()),
    decreases symbols.len(),
{
    let b = 257 * 0x1_0000int;
    lemma_pow0(b);
    if symbols.len() > 0 {
        lemma_uniform_product(symbols.skip(1));
        lemma_pow_adds(b, 1, symbols.skip(1).len());
        lemma_pow1(b);
    }
}

/// The product of probabilities that are at least twice the uniform one is at
/// least a power.
proof fn lemma_double_product(symbols: Seq<usize>, table: Seq<u32>)
    requires
        forall|i: int|
            0 <= i < symbols.len() ==> (#[trigger] symbols[i]) < 256 && table[symbols[i] as int]
                >= 0x2_0000,
    ensures
        scaled_product(symbols, table, 256) >= pow(0x200_0000, symbols.len()) > 0,
    decreases symbols.len(),
{
    let b = 0x200_0000int;
    lemma_pow0(b);
    lemma_pow_positive(b, symbols.len());
    if symbols.len() > 0 {
        let rest = symbols.skip(1);
        lemma_double_product(rest, table);
        lemma_pow_adds(b, 1, rest.len());
        lemma_pow1(b);
        let p = table[symbols[0] as int] as int;
        let q = scaled_product(rest, table, 256);
        let r = pow(b, rest.len());
        assert((256 * p) * q >= 0x200_0000 * r) by (nonlinear_arith)
            requires
                p >= 0x2_0000,
                q >= r,
                r > 0,
        ;
    }
}

/// A power grows with its base.
proof fn lemma_pow_base(a: int, b: int, n: nat)
    requires
        a >= b > 0,
    ensures
        pow(a, n) >= pow(b, n) > 0,
    decreases n,
{
    lemma_pow0(a);
    lemma_pow0(b);
    if n > 0 {
        lemma_pow_base(a, b, (n - 1) as nat);
        lemma_pow_adds(a, 1, (n - 1) as nat);
        lemma_pow_adds(b, 1, (n - 1) as nat);
        lemma_pow1(a);
        lemma_pow1(b);
        let x = pow(a, (n - 1) as nat);
        let y = pow(b, (n - 1) as nat);
        assert(a * x >= b * y > 0) by (nonlinear_arith)
            requires
                a >= b > 0,
                x >= y > 0,
        ;
    }
}

/// Doubling the probability of 61 symbols outweighs the rounding, the two words
/// of slack and three symbols more.
proof fn lemma_doubling_outweighs(k: nat)
    requires
        k >= 61,
    ensures
        (pow(word_values(), 2) * pow(most_growth(), k + 3)) * pow(257 * 0x1_0000int, k) <= (
        word_values() * pow(least_growth(), k)) * pow(0x200_0000, k + 3),
{
    let c = most_growth();
    let d = least_growth();
    let b = 257 * 0x1_0000int;
    let t = 0x200_0000int;
    let u = c * b;
    let v = d * t;
    lemma_pow_adds(c, k, 3);
    lemma_pow_adds(t, k, 3);
    lemma_pow_distributes(c, b, k);
    lemma_pow_distributes(d, t, k);
    lemma_pow_adds(v, 60, (k - 60) as nat);
    lemma_pow_adds(u, 60, (k - 60) as nat);
    lemma_pow_base(v, u, (k - 60) as nat);
    // Four symbols gain a factor of twelve.
    let u4 = pow(u, 4);
    let v4 = pow(v, 4);
    lemma_pow_multiplies(u, 4, 15);
    lemma_pow_multiplies(v, 4, 15);
    lemma_fourth_power(u);
    lemma_fourth_power(v);
    lemma_pow_positive(u, 4);
    assert(v4 >= 12 * u4) by (nonlinear_arith)
        requires
            u == 72621643502977024,
            v == 143552238122434560,
            u4 == u * (u * (u * u)),
            v4 == v * (v * (v * v)),
    ;
    lemma_pow_base(v4, 12 * u4, 15);
    lemma_pow_distributes(12, u4, 15);
    lemma_pow_positive(u, 60);
    assert(pow(12, 15) == 15407021574586368) by {
        reveal_with_fuel(pow, 16);
    }
    let gain = 16974593 * 0x2000_0000int;
    assert(pow(v, 60) >= gain * pow(u, 60)) by (nonlinear_arith)
        requires
            pow(v, 60) >= pow(12, 15) * pow(u, 60),
            pow(12, 15) >= gain,
            pow(u, 60) > 0,
    ;
    let uk = pow(u, k);
    let vk = pow(v, k);
    let ur = pow(u, (k - 60) as nat);
    let vr = pow(v, (k - 60) as nat);
    assert(vk >= gain * uk) by (nonlinear_arith)
        requires
            vk == pow(v, 60) * vr,
            uk == pow(u, 60) * ur,
            pow(v, 60) >= gain * pow(u, 60),
            pow(u, 60) > 0,
            vr >= ur > 0,
            gain > 0,
    ;
    assert(pow(word_values(), 2) == word_values() * word_values() && pow(c, 3) == c * c * c && pow(
        t,
        3,
    ) == t * t * t) by {
        reveal_with_fuel(pow, 4);
    }
    let ck = pow(c, k);
    let bk = pow(b, k);
    let dk = pow(d, k);
    let tk = pow(t, k);
    assert((pow(word_values(), 2) * (ck * pow(c, 3))) * bk == (word_values() * word_values() * (c
        * c * c)) * uk) by (nonlinear_arith)
        requires
            pow(word_values(), 2) == word_values() * word_values(),
            pow(c, 3) == c * c * c,
            uk == ck * bk,
    ;
    assert((word_values() * dk) * (tk * pow(t, 3)) == (word_values() * (t * t * t)) * vk)
        by (nonlinear_arith)
        requires
            pow(t, 3) == t * t * t,
            vk == dk * tk,
    ;
    assert(word_values() * word_values() * (c * c * c) == (word_values() * (t * t * t)) * gain)
        by (nonlinear_arith)
        requires
            c == 4311744512,
            t == 0x200_0000,
            word_values() == 0x1_0000_0000,
            gain == 16974593 * 0x2000_0000,
    ;
    let left = word_values() * word_values() * (c * c * c);
    let right = word_values() * (t * t * t);
    assert(right > 0) by (nonlinear_arith)
        requires
            right == word_values() * (t * t * t),
            t == 0x200_0000,
            word_values() == 0x1_0000_0000,
    ;
    assert(left * uk <= right * vk) by (nonlinear_arith)
        requires
            left == right * gain,
            vk >= gain * uk,
            right > 0,
    ;
}

proof fn lemma_fourth_power(b: int)
    ensures
        pow(b, 4) == b * (b * (b * b)),
{
    reveal_with_fuel(pow, 5);
}

/// A table that makes every symbol of a stream at least twice as likely as the
/// uniform table does takes strictly fewer words than the uniform table, if
/// the stream has at least 64 symbols up to the last one that is not zero. The
/// zeros after it take no words with any table.
pub proof fn law_favoured_symbols_take_fewer_words(
    symbols: Seq<usize>,
    table: Seq<u32>,
    last: int,
)
    requires
        valid_table(table),
        forall|i: int| 0 <= i < symbols.len() ==> #[trigger] symbols[i] < 256,
        63 <= last < symbols.len(),
        symbols[last] != 0,
        forall|i: int| last < i < symbols.len() ==> #[trigger] symbols[i] == 0,
        forall|i: int| 0 <= i <= last ==> table[#[trigger] symbols[i] as int] >= 0x2_0000,
    ensures
        stream_words(symbols, table) < stream_words(symbols, uniform_table()),
{
    let core = symbols.take(last + 1);
    let n = core.len();
    let k = n - 3;
    law_uniform_table_valid();
    lemma_zeros_are_free(symbols.skip(last + 1), table);
    lemma_zeros_are_free(symbols.skip(last + 1), uniform_table());
    lemma_push_in_parts(seq![], 0, symbols, table, last + 1);
    lemma_push_in_parts(seq![], 0, symbols, uniform_table(), last + 1);
    lemma_uniform_fills(core.skip(k));
    lemma_uniform_product(core.take(k));
    lemma_double_product(core, table);
    lemma_doubling_outweighs(k as nat);
    let x = scaled_product(core, table, 256);
    let low = pow(0x200_0000, n);
    let w = word_values() * pow(least_growth(), k as nat);
    lemma_pow_positive(least_growth(), k as nat);
    assert(w * low <= w * x) by (nonlinear_arith)
        requires
            w == word_values() * pow(least_growth(), k as nat),
            pow(least_growth(), k as nat) > 0,
            word_values() > 0,
            low <= x,
    ;
    law_likelier_symbols_take_fewer_words(core, table, uniform_table(), k);
}

/// A coder with a table that favours its symbols finishes with strictly fewer
/// words than one with the uniform table and the same symbols, under the
/// conditions of [`law_favoured_symbols_take_fewer_words`].
pub proof fn law_favouring_coder_finishes_shorter(
    coder: AnsCoderView,
    uniform: AnsCoderView,
    last: int,
)
    requires
        coder.wf(),
        coder.bulk == Seq::<u32>::empty() && coder.state == 0,
        uniform.bulk == Seq::<u32>::empty() && uniform.state == 0,
        uniform.symbols == coder.symbols,
        uniform.table() == uniform_table(),
        valid_table(coder.table()),
        63 <= last < coder.symbols.len(),
        coder.symbols[last] != 0,
        forall|i: int| last < i < coder.symbols.len() ==> #[trigger] coder.symbols[i] == 0,
        forall|i: int|
            0 <= i <= last ==> coder.table()[#[trigger] coder.symbols[i] as int] >= 0x2_0000,
    ensures
        coder.finished() is Ok,
        uniform.finished() is Ok,
        coder.finished()->Ok_0.len() < uniform.finished()->Ok_0.len(),
{
    law_uniform_table_valid();
    law_favoured_symbols_take_fewer_words(coder.symbols, coder.table(), last);
}

} // verus!
