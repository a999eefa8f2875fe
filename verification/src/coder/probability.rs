//! Probability distributions on 16-bit fixed-point values.

use crate::error::{PredictorError, PredictorErrorView, result_view};
use vstd::prelude::*;

verus! {

/// Cuts values that are scaled to `0..=65535` to 16 bits: each entry that is
/// too large becomes 65535.
pub fn quantize(scaled: &[u64; 256]) -> (out: [u16; 256])
    ensures
        forall|i: int|
            0 <= i < 256 ==> #[trigger] out@[i] == (if scaled@[i] < 65535 {
                scaled@[i] as u16
            } else {
                65535u16
            }),
{
    let mut out: [u16; 256] = [0u16; 256];
    let mut i: usize = 0;
    while i < 256
        invariant
            i <= 256,
            forall|j: int|
                0 <= j < i ==> #[trigger] out@[j] == (if scaled@[j] < 65535 {
                    scaled@[j] as u16
                } else {
                    65535u16
                }),
        decreases 256 - i,
    {
        out[i] = if scaled[i] < 65535 {
            scaled[i] as u16
        } else {
            65535
        };
        i = i + 1;
    }
    out
}

/// The sum of 16-bit values.
pub open spec fn quantized_sum(values: Seq<u16>) -> nat
    decreases values.len(),
{
    if values.len() == 0 {
        0
    } else {
        quantized_sum(values.drop_last()) + values.last() as nat
    }
}

/// The sum of no values is zero, and each further value is added as it is: the
/// sum is the plain sum of all values, in any two parts as in one.
pub proof fn law_quantized_sum_is_plain(first: Seq<u16>, second: Seq<u16>, v: u16)
    ensures
        quantized_sum(seq![]) == 0,
        quantized_sum(first.push(v)) == quantized_sum(first) + v,
        quantized_sum(first + second) == quantized_sum(first) + quantized_sum(second),
        quantized_sum(second) == second.fold_left(0int, |sum: int, value: u16| sum + value),
    decreases second.len(),
{
    assert(first.push(v).drop_last() =~= first);
    if second.len() == 0 {
        assert(first + second =~= first);
    } else {
        law_quantized_sum_is_plain(first, second.drop_last(), v);
        assert((first + second).drop_last() =~= first + second.drop_last());
    }
}

/// A change of one value changes the sum by as much.
pub proof fn law_quantized_sum_of_change(values: Seq<u16>, i: int, v: u16)
    requires
        0 <= i < values.len(),
    ensures
        quantized_sum(values.update(i, v)) == quantized_sum(values) - values[i] + v,
    decreases values.len(),
{
    let n = values.len() - 1;
    if i < n {
        law_quantized_sum_of_change(values.drop_last(), i, v);
        assert(values.update(i, v).drop_last() =~= values.drop_last().update(i, v));
    } else {
        assert(values.update(i, v).drop_last() =~= values.drop_last());
    }
}

/// The sum is zero exactly if every value is.
pub proof fn law_quantized_sum_zero(values: Seq<u16>)
    ensures
        quantized_sum(values) == 0 <==> forall|i: int|
            0 <= i < values.len() ==> #[trigger] values[i] == 0,
    decreases values.len(),
{
    if values.len() > 0 {
        let shorter = values.drop_last();
        law_quantized_sum_zero(shorter);
        if quantized_sum(values) == 0 {
            assert forall|i: int| 0 <= i < values.len() implies #[trigger] values[i] == 0 by {
                if i < shorter.len() {
                    assert(shorter[i] == values[i]);
                }
            }
        }
        if forall|i: int| 0 <= i < values.len() ==> #[trigger] values[i] == 0 {
            assert forall|i: int| 0 <= i < shorter.len() implies #[trigger] shorter[i] == 0 by {
                assert(shorter[i] == values[i]);
            }
            assert(values[values.len() - 1] == 0);
        }
    }
}

/// A probability distribution over the 256 bytes: entry `i` has the
/// probability `numerators[i] / denominator`.
pub struct Fractions {
    pub numerators: [u16; 256],
    pub denominator: u32,
}

/// Converts quantized values to a probability distribution. If they are all
/// zero, the distribution is uniform.
///
/// The denominator is never zero, and the probabilities sum to exactly one.
pub fn normalize(quantized: &[u16; 256]) -> (out: Fractions)
    ensures
        quantized_sum(quantized@) != 0 ==> out.numerators@ == quantized@ && out.denominator
            == quantized_sum(quantized@),
        quantized_sum(quantized@) == 0 ==> out.numerators@ == Seq::new(256, |i: int| 1u16)
            && out.denominator == 256,
        out.denominator > 0,
        quantized_sum(out.numerators@) == out.denominator,
        out.denominator == out.numerators@.fold_left(0int, |sum: int, value: u16| sum + value),
        (exists|i: int| 0 <= i < 256 && #[trigger] quantized@[i] != 0) ==> (forall|i: int|
            0 <= i < 256 ==> #[trigger] out.numerators@[i] == quantized@[i]),
        (forall|i: int| 0 <= i < 256 ==> #[trigger] quantized@[i] == 0) ==> (forall|i: int|
            0 <= i < 256 ==> #[trigger] out.numerators@[i] == 1),
{
    let mut sum: u32 = 0;
    let mut i: usize = 0;
    while i < 256
        invariant
            i <= 256,
            sum == quantized_sum(quantized@.take(i as int)),
            sum <= i * 65535,
        decreases 256 - i,
    {
        sum = sum + quantized[i] as u32;
        proof {
            let longer = quantized@.take(i + 1);
            assert(longer.drop_last() =~= quantized@.take(i as int));
        }
        i = i + 1;
    }
    assert(quantized@.take(256) =~= quantized@);
    proof {
        law_quantized_sum_zero(quantized@);
        law_quantized_sum_is_plain(seq![], quantized@, 0);
    }
    if sum == 0 {
        let ones: [u16; 256] = [1u16; 256];
        proof {
            assert(ones@ =~= Seq::new(256, |i: int| 1u16));
            lemma_ones_sum(256);
            law_quantized_sum_is_plain(seq![], ones@, 0);
        }
        Fractions { numerators: ones, denominator: 256 }
    } else {
        Fractions { numerators: *quantized, denominator: sum }
    }
}

proof fn lemma_ones_sum(n: nat)
    ensures
        quantized_sum(Seq::new(n, |i: int| 1u16)) == n,
    decreases n,
{
    if n > 0 {
        lemma_ones_sum((n - 1) as nat);
        assert(Seq::new(n, |i: int| 1u16).drop_last() =~= Seq::new((n - 1) as nat, |i: int| 1u16));
    }
}

/// What is found wrong with a distribution: its first negative entry, or the
/// entry 0 if there is none but the sum is not close to one.
pub open spec fn distribution_verdict(
    negative: Seq<bool>,
    sum_is_one: bool,
    sum: Seq<char>,
) -> Result<(), PredictorErrorView> {
    if negative.contains(true) {
        Err(
            PredictorErrorView::InvalidDistribution {
                index: negative.index_of_first(true)->0 as usize,
                sum,
            },
        )
    } else if !sum_is_one {
        Err(PredictorErrorView::InvalidDistribution { index: 0, sum })
    } else {
        Ok(())
    }
}

/// A distribution is accepted exactly if no entry is negative and the sum is
/// close to one. A complaint names the first negative entry, or the entry 0 if
/// there is none, and the sum as it was given.
pub proof fn law_first_negative_entry_is_named(
    negative: Seq<bool>,
    sum_is_one: bool,
    sum: Seq<char>,
    k: int,
)
    requires
        negative.len() == 256,
    ensures
        distribution_verdict(negative, sum_is_one, sum) is Ok <==> sum_is_one && forall|i: int|
            0 <= i < 256 ==> !#[trigger] negative[i],
        0 <= k < 256 && negative[k] && (forall|i: int| 0 <= i < k ==> !#[trigger] negative[i])
            ==> distribution_verdict(negative, sum_is_one, sum) == Err::<(), PredictorErrorView>(
            PredictorErrorView::InvalidDistribution { index: k as usize, sum },
        ),
        !sum_is_one && (forall|i: int| 0 <= i < 256 ==> !#[trigger] negative[i])
            ==> distribution_verdict(negative, sum_is_one, sum) == Err::<(), PredictorErrorView>(
            PredictorErrorView::InvalidDistribution { index: 0, sum },
        ),
{
    if negative.contains(true) {
        negative.index_of_first_ensures(true);
        let first = negative.index_of_first(true)->0;
        assert(negative[first]);
    }
    if 0 <= k < 256 && negative[k] {
        assert(negative.contains(true));
    }
    if exists|i: int| 0 <= i < 256 && #[trigger] negative[i] {
        let i = choose|i: int| 0 <= i < 256 && #[trigger] negative[i];
        assert(negative[i] == true);
        assert(negative.contains(true));
    }
}

/// Checks a probability distribution, of which `negative` says which entries
/// are not at least zero, `sum_is_one` whether the sum is within `[0.999, 1.001]`,
/// and `sum` what the sum is, in decimal notation.
pub fn validate_distribution(negative: &[bool; 256], sum_is_one: bool, sum: String) -> (r: Result<
    (),
    PredictorError,
>)
    ensures
        result_view(r) == distribution_verdict(negative@, sum_is_one, sum@),
{
    let mut i: usize = 0;
    while i < 256
        invariant
            i <= 256,
            forall|j: int| 0 <= j < i ==> !negative@[j],
        decreases 256 - i,
    {
        if negative[i] {
            proof {
                negative@.index_of_first_ensures(true);
                let first = negative@.index_of_first(true)->0;
                assert(negative@[i as int] == true);
                assert(first == i);
            }
            return Err(PredictorError::InvalidDistribution { index: i, sum });
        }
        i = i + 1;
    }
    if !sum_is_one {
        return Err(PredictorError::InvalidDistribution { index: 0, sum });
    }
    Ok(())
}

} // verus!
