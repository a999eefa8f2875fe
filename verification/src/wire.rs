//! Big-endian integers.

use vstd::arithmetic::div_mod::lemma_div_denominator;
use vstd::arithmetic::power::{lemma_pow0, lemma_pow1, lemma_pow_adds, lemma_pow_positive, pow};
use vstd::prelude::*;

verus! {

/// The lowest `width` bytes of `value`, most significant byte first.
pub open spec fn be_bytes(value: nat, width: nat) -> Seq<u8>
    decreases width,
{
    if width == 0 {
        seq![]
    } else {
        be_bytes(value / 256, (width - 1) as nat).push((value % 256) as u8)
    }
}

/// The number that the bytes stand for, most significant byte first.
pub open spec fn be_value(bytes: Seq<u8>) -> nat
    decreases bytes.len(),
{
    if bytes.len() == 0 {
        0
    } else {
        be_value(bytes.drop_last()) * 256 + bytes.last() as nat
    }
}

/// Encoding a number yields `width` bytes.
pub proof fn lemma_be_bytes_len(value: nat, width: nat)
    ensures
        be_bytes(value, width).len() == width,
    decreases width,
{
    if width > 0 {
        lemma_be_bytes_len(value / 256, (width - 1) as nat);
    }
}

/// `n` bytes stand for a number below `256^n`.
pub proof fn lemma_be_value_bound(bytes: Seq<u8>)
    ensures
        be_value(bytes) < pow(256, bytes.len()),
    decreases bytes.len(),
{
    if bytes.len() == 0 {
        lemma_pow0(256);
    } else {
        let shorter = bytes.drop_last();
        lemma_be_value_bound(shorter);
        lemma_pow_adds(256, shorter.len(), 1);
        lemma_pow1(256);
        assert(pow(256, bytes.len()) == pow(256, shorter.len()) * 256);
    }
}

/// Decoding the encoding of a number that fits gives the number back.
pub proof fn law_be_value_of_be_bytes(value: nat, width: nat)
    requires
        value < pow(256, width),
    ensures
        be_value(be_bytes(value, width)) == value,
    decreases width,
{
    if width == 0 {
        lemma_pow0(256);
    } else {
        let shorter = (width - 1) as nat;
        lemma_pow_adds(256, shorter, 1);
        lemma_pow1(256);
        assert(pow(256, width) == pow(256, shorter) * 256);
        law_be_value_of_be_bytes(value / 256, shorter);
        assert(be_bytes(value, width).drop_last() =~= be_bytes(value / 256, shorter));
    }
}

/// Encoding the decoding of bytes gives the bytes back.
pub proof fn law_be_bytes_of_be_value(bytes: Seq<u8>)
    ensures
        be_bytes(be_value(bytes), bytes.len()) == bytes,
    decreases bytes.len(),
{
    if bytes.len() > 0 {
        let shorter = bytes.drop_last();
        law_be_bytes_of_be_value(shorter);
        assert(be_value(bytes) / 256 == be_value(shorter));
        assert(be_value(bytes) % 256 == bytes.last());
        assert(be_bytes(be_value(bytes), bytes.len()) =~= bytes);
    }
}

/// One power of 256 more is a factor of 256 more.
proof fn lemma_pow256_step(e: nat)
    ensures
        pow(256, e + 1) == pow(256, e) * 256,
        pow(256, e) > 0,
{
    lemma_pow_adds(256, e, 1);
    lemma_pow1(256);
    lemma_pow_positive(256, e);
}

/// Byte `i` of the big-endian form of width `width` is digit `width - 1 - i`
/// of the number in base 256.
pub proof fn law_be_bytes_are_digits(value: nat, width: nat, i: int)
    requires
        0 <= i < width,
    ensures
        be_bytes(value, width).len() == width,
        be_bytes(value, width)[i] as int == (value as int / pow(256, (width - 1 - i) as nat)) % 256,
    decreases width,
{
    lemma_be_bytes_len(value, width);
    lemma_be_bytes_len(value / 256, (width - 1) as nat);
    if i == width - 1 {
        lemma_pow0(256);
    } else {
        let e = (width - 2 - i) as nat;
        law_be_bytes_are_digits(value / 256, (width - 1) as nat, i);
        lemma_pow256_step(e);
        lemma_div_denominator(value as int, 256, pow(256, e));
        assert(256 * pow(256, e) == pow(256, (width - 1 - i) as nat));
    }
}

/// Bytes that follow others count on from them: the number of the whole is
/// the number of the first part, shifted by as many digits as the second part
/// has, plus the number of the second part. No byte stands for zero, and one
/// byte stands for itself.
pub proof fn law_be_value_of_parts(first: Seq<u8>, second: Seq<u8>, byte: u8)
    ensures
        be_value(first + second) == be_value(first) * pow(256, second.len()) + be_value(second),
        be_value(seq![byte]) == byte,
        be_value(seq![]) == 0,
    decreases second.len(),
{
    reveal_with_fuel(be_value, 2);
    assert(seq![byte].drop_last() =~= seq![]);
    if second.len() == 0 {
        lemma_pow0(256);
        assert(first + second =~= first);
    } else {
        let shorter = second.drop_last();
        law_be_value_of_parts(first, shorter, byte);
        assert((first + second).drop_last() =~= first + shorter);
        lemma_pow256_step(shorter.len());
        let a = be_value(first) as int;
        let p = pow(256, shorter.len());
        assert((a * p) * 256 == a * (p * 256)) by (nonlinear_arith);
    }
}

/// The number that bytes stand for is the sum of the bytes, each times the
/// power of 256 of its place.
pub proof fn law_be_value_is_the_sum(bytes: Seq<u8>)
    ensures
        be_value(bytes) == Seq::new(
            bytes.len(),
            |i: int| bytes[i] as int * pow(256, (bytes.len() - 1 - i) as nat),
        ).fold_right_alt(|term: int, sum: int| term + sum, 0int),
    decreases bytes.len(),
{
    let terms = Seq::new(
        bytes.len(),
        |i: int| bytes[i] as int * pow(256, (bytes.len() - 1 - i) as nat),
    );
    if bytes.len() > 0 {
        let rest = bytes.skip(1);
        law_be_value_is_the_sum(rest);
        law_be_value_of_parts(seq![bytes[0]], rest, bytes[0]);
        assert(bytes =~= seq![bytes[0]] + rest);
        assert(terms.subrange(1, terms.len() as int) =~= Seq::new(
            rest.len(),
            |i: int| rest[i] as int * pow(256, (rest.len() - 1 - i) as nat),
        ));
    }
}

/// Digit `len - 1 - i`, in base 256, of the number that bytes stand for is
/// byte `i`, and the number has no further digits.
pub proof fn law_be_value_digits(bytes: Seq<u8>, i: int)
    requires
        0 <= i < bytes.len(),
    ensures
        (be_value(bytes) as int / pow(256, (bytes.len() - 1 - i) as nat)) % 256 == bytes[i] as int,
        be_value(bytes) < pow(256, bytes.len()),
{
    law_be_bytes_of_be_value(bytes);
    law_be_bytes_are_digits(be_value(bytes), bytes.len(), i);
    lemma_be_value_bound(bytes);
}

/// The powers of 256 that bound the integers of the wire format.
pub proof fn lemma_pow256()
    ensures
        pow(256, 2) == 0x1_0000,
        pow(256, 4) == 0x1_0000_0000,
        pow(256, 8) == 0x1_0000_0000_0000_0000,
{
    lemma_pow1(256);
    lemma_pow_adds(256, 1, 1);
    lemma_pow_adds(256, 2, 2);
    lemma_pow_adds(256, 4, 4);
    assert(pow(256, 4) == 0x1_0000_0000) by (nonlinear_arith)
        requires
            pow(256, 2) == 0x1_0000,
            pow(256, 4) == pow(256, 2) * pow(256, 2),
    ;
    assert(pow(256, 8) == 0x1_0000_0000_0000_0000) by (nonlinear_arith)
        requires
            pow(256, 4) == 0x1_0000_0000,
            pow(256, 8) == pow(256, 4) * pow(256, 4),
    ;
}

/// Appends the lowest `width` bytes of `value`.
pub fn push_be(out: &mut Vec<u8>, value: u64, width: usize)
    ensures
        final(out)@ == old(out)@ + be_bytes(value as nat, width as nat),
    decreases width,
{
    if width > 0 {
        push_be(out, value / 256, width - 1);
        let ghost before = out@;
        out.push((value % 256) as u8);
        assert(out@ =~= before + seq![(value % 256) as u8]);
    }
    assert(out@ =~= old(out)@ + be_bytes(value as nat, width as nat));
}

/// The number in `bytes[from..from + width]`.
pub fn read_be(bytes: &[u8], from: usize, width: usize) -> (value: u64)
    requires
        width <= 8,
        from + width <= bytes@.len(),
    ensures
        value == be_value(bytes@.subrange(from as int, from + width)),
{
    let mut value: u64 = 0;
    let mut i: usize = 0;
    while i < width
        invariant
            i <= width <= 8,
            from + width <= bytes.len(),
            value == be_value(bytes@.subrange(from as int, from + i)),
        decreases width - i,
    {
        proof {
            let shorter = bytes@.subrange(from as int, from + i);
            let longer = bytes@.subrange(from as int, from + i + 1);
            assert(longer.drop_last() =~= shorter);
            lemma_be_value_bound(longer);
            lemma_pow256();
            vstd::arithmetic::power::lemma_pow_increases(256, longer.len(), 8);
        }
        value = value * 256 + bytes[from + i] as u64;
        i = i + 1;
    }
    value
}

} // verus!
