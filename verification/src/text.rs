//! Decimal and hexadecimal text.

use vstd::arithmetic::div_mod::lemma_div_denominator;
use vstd::arithmetic::power::{lemma_pow0, lemma_pow1, lemma_pow_adds, lemma_pow_positive, pow};
use vstd::prelude::*;

verus! {

/// `String::push` appends one character to the end of the string.
pub assume_specification[ String::push ](s: &mut String, c: char)
    ensures
        final(s)@ == old(s)@.push(c),
;

/// The decimal digit for `d < 10`.
pub open spec fn digit_char(d: nat) -> char {
    (48 + d) as char
}

/// `n` in decimal, without leading zeros.
pub open spec fn decimal(n: nat) -> Seq<char>
    decreases n,
{
    if n < 10 {
        seq![digit_char(n)]
    } else {
        decimal(n / 10).push(digit_char(n % 10))
    }
}

/// The lowercase hexadecimal digit for `d < 16`.
pub open spec fn hex_char(d: nat) -> char {
    if d < 10 {
        (48 + d) as char
    } else {
        (87 + d) as char
    }
}

/// The two lowercase hexadecimal digits of a byte.
pub open spec fn hex_byte(b: u8) -> Seq<char> {
    seq![hex_char((b / 16) as nat), hex_char((b % 16) as nat)]
}

/// The bytes in lowercase hexadecimal, two digits each.
pub open spec fn hex_bytes(bytes: Seq<u8>) -> Seq<char> {
    Seq::new(
        2 * bytes.len(),
        |i: int|
            if i % 2 == 0 {
                hex_char((bytes[i / 2] / 16) as nat)
            } else {
                hex_char((bytes[i / 2] % 16) as nat)
            },
    )
}

/// The words in decimal, separated by a comma and a blank.
pub open spec fn comma_separated(words: Seq<u32>) -> Seq<char>
    decreases words.len(),
{
    if words.len() == 0 {
        seq![]
    } else if words.len() == 1 {
        decimal(words[0] as nat)
    } else {
        comma_separated(words.drop_last()) + ", "@ + decimal(words.last() as nat)
    }
}

/// The words as a bracketed list, such as `[1, 2, 0]`.
pub open spec fn bracketed(words: Seq<u32>) -> Seq<char> {
    "["@ + comma_separated(words) + "]"@
}

/// The decimal form of a number consists of decimal digits.
pub proof fn lemma_decimal_digits(n: nat)
    ensures
        decimal(n).len() > 0,
        forall|i: int| 0 <= i < decimal(n).len() ==> '0' <= #[trigger] decimal(n)[i] <= '9',
    decreases n,
{
    if n >= 10 {
        lemma_decimal_digits(n / 10);
    }
}

/// Different numbers have different decimal forms.
pub proof fn law_decimal_injective(m: nat, n: nat)
    requires
        m != n,
    ensures
        decimal(m) != decimal(n),
    decreases m,
{
    let a = decimal(m);
    let b = decimal(n);
    lemma_decimal_digits(m);
    lemma_decimal_digits(n);
    if a == b {
        assert(a.last() == digit_char(m % 10));
        assert(b.last() == digit_char(n % 10));
        assert(m % 10 == n % 10);
        if m >= 10 && n >= 10 {
            assert(a.drop_last() =~= decimal(m / 10));
            assert(b.drop_last() =~= decimal(n / 10));
            law_decimal_injective(m / 10, n / 10);
        } else if m >= 10 {
            lemma_decimal_digits(m / 10);
        } else if n >= 10 {
            lemma_decimal_digits(n / 10);
        }
    }
}

/// Character `k` of the decimal form of `n` is the digit of `n` at that place
/// in base 10. The form has as many digits as the number, so no leading zero.
pub proof fn law_decimal_is_positional(n: nat, k: int)
    requires
        0 <= k < decimal(n).len(),
    ensures
        decimal(n)[k] as int == '0' as int + (n as int / pow(
            10,
            (decimal(n).len() - 1 - k) as nat,
        )) % 10,
        n < pow(10, decimal(n).len()),
        decimal(n).len() > 1 ==> n >= pow(10, (decimal(n).len() - 1) as nat),
    decreases n,
{
    let len = decimal(n).len();
    lemma_decimal_digits(n);
    lemma_pow0(10);
    lemma_pow1(10);
    if n >= 10 {
        lemma_decimal_digits(n / 10);
        let shorter = (len - 1) as nat;
        lemma_pow_adds(10, shorter, 1);
        lemma_pow_positive(10, shorter);
        law_decimal_is_positional(n / 10, if k < shorter {
            k
        } else {
            0
        });
        assert(pow(10, len) == pow(10, shorter) * 10);
        if shorter > 1 {
            lemma_pow_adds(10, (shorter - 1) as nat, 1);
            assert(pow(10, shorter) == pow(10, (shorter - 1) as nat) * 10);
        }
        if k < shorter {
            let e = (shorter - 1 - k) as nat;
            lemma_pow_adds(10, e, 1);
            lemma_pow_positive(10, e);
            lemma_div_denominator(n as int, 10, pow(10, e));
            assert(10 * pow(10, e) == pow(10, (len - 1 - k) as nat));
        }
    }
}

/// A byte is written as the hexadecimal digits of its upper and its lower
/// half, bytes as those of each byte in turn.
pub proof fn law_hex_digits(b: u8, bytes: Seq<u8>, i: int)
    ensures
        hex_byte(b) == seq!["0123456789abcdef"@[b as int / 16], "0123456789abcdef"@[b as int % 16]],
        hex_bytes(bytes).len() == 2 * bytes.len(),
        0 <= i < bytes.len() ==> hex_bytes(bytes)[2 * i] == "0123456789abcdef"@[bytes[i] as int
            / 16],
        0 <= i < bytes.len() ==> hex_bytes(bytes)[2 * i + 1] == "0123456789abcdef"@[bytes[i] as int
            % 16],
{
    reveal_strlit("0123456789abcdef");
    lemma_hex_char(b / 16);
    lemma_hex_char(b % 16);
    lemma_hex_char(bytes[i] / 16);
    lemma_hex_char(bytes[i] % 16);
    assert((2 * i) % 2 == 0 && (2 * i) / 2 == i);
    assert((2 * i + 1) % 2 == 1 && (2 * i + 1) / 2 == i);
}

proof fn lemma_hex_char(d: u8)
    requires
        d < 16,
    ensures
        hex_char(d as nat) == "0123456789abcdef"@[d as int],
{
    reveal_strlit("0123456789abcdef");
}

/// The list of all words is the lists of two parts with a comma and a blank
/// between them; one word is written in decimal, and a list in brackets
/// starts and ends with one.
pub proof fn law_bracketed_parts(first: Seq<u32>, second: Seq<u32>, word: u32)
    ensures
        first.len() > 0 && second.len() > 0 ==> comma_separated(first + second) == comma_separated(
            first,
        ) + seq![',', ' '] + comma_separated(second),
        comma_separated(seq![word]) == decimal(word as nat),
        comma_separated(seq![]) == Seq::<char>::empty(),
        bracketed(first) == seq!['['] + comma_separated(first) + seq![']'],
    decreases second.len(),
{
    reveal_strlit(", ");
    reveal_strlit("[");
    reveal_strlit("]");
    assert(", "@ =~= seq![',', ' ']);
    assert("["@ =~= seq!['[']);
    assert("]"@ =~= seq![']']);
    if first.len() > 0 && second.len() > 0 {
        let shorter = second.drop_last();
        law_bracketed_parts(first, shorter, word);
        assert((first + second).drop_last() =~= first + shorter);
        if second.len() == 1 {
            assert(first + shorter =~= first);
        }
        assert(comma_separated(first + second) =~= comma_separated(first) + seq![',', ' ']
            + comma_separated(second));
    }
}

/// Appends `n` in decimal.
pub fn push_decimal(out: &mut String, n: u64)
    ensures
        final(out)@ == old(out)@ + decimal(n as nat),
    decreases n,
{
    if n >= 10 {
        push_decimal(out, n / 10);
    }
    let digit: u8 = 48 + (n % 10) as u8;
    let c: char = digit as char;
    assert(c == digit_char((n % 10) as nat));
    let ghost before = out@;
    out.push(c);
    assert(out@ =~= before + seq![c]);
    assert(out@ =~= old(out)@ + decimal(n as nat));
}

fn hex_digit(d: u8) -> (c: char)
    requires
        d < 16,
    ensures
        c == hex_char(d as nat),
{
    let code: u8 = if d < 10 {
        48 + d
    } else {
        87 + d
    };
    code as char
}

/// Appends the two hexadecimal digits of `b`.
pub fn push_hex_byte(out: &mut String, b: u8)
    ensures
        final(out)@ == old(out)@ + hex_byte(b),
{
    out.push(hex_digit(b / 16));
    out.push(hex_digit(b % 16));
    assert(out@ =~= old(out)@ + hex_byte(b));
}

/// Appends the bytes in hexadecimal.
pub fn push_hex_bytes(out: &mut String, bytes: &[u8])
    ensures
        final(out)@ == old(out)@ + hex_bytes(bytes@),
{
    let mut i: usize = 0;
    assert(out@ =~= old(out)@ + hex_bytes(bytes@.take(0)));
    while i < bytes.len()
        invariant
            i <= bytes@.len(),
            out@ == old(out)@ + hex_bytes(bytes@.take(i as int)),
        decreases bytes@.len() - i,
    {
        push_hex_byte(out, bytes[i]);
        proof {
            let shorter = bytes@.take(i as int);
            let longer = bytes@.take(i + 1);
            assert(hex_bytes(longer) =~= hex_bytes(shorter) + hex_byte(bytes@[i as int]));
            assert(out@ =~= old(out)@ + hex_bytes(longer));
        }
        i = i + 1;
    }
    assert(bytes@.take(i as int) =~= bytes@);
}

/// Appends the words as a bracketed list.
pub fn push_bracketed(out: &mut String, words: &[u32])
    ensures
        final(out)@ == old(out)@ + bracketed(words@),
{
    out.append("[");
    let ghost start = out@;
    let mut i: usize = 0;
    assert(out@ =~= start + comma_separated(words@.take(0)));
    while i < words.len()
        invariant
            i <= words@.len(),
            out@ == start + comma_separated(words@.take(i as int)),
        decreases words@.len() - i,
    {
        if i > 0 {
            out.append(", ");
        }
        push_decimal(out, words[i] as u64);
        proof {
            let longer = words@.take(i + 1);
            assert(longer.drop_last() =~= words@.take(i as int));
            assert(longer.last() == words@[i as int]);
            assert(out@ =~= start + comma_separated(longer));
        }
        i = i + 1;
    }
    assert(words@.take(i as int) =~= words@);
    out.append("]");
    assert(out@ =~= old(out)@ + bracketed(words@));
}

} // verus!
