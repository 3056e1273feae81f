//! Text: UTF-8 and hexadecimal.

use vstd::prelude::*;
use vstd::utf8::{decode_utf8, encode_utf8, valid_utf8};

verus! {

/// Calls `String::from_utf8`: the text that the bytes encode, if and only if they
/// are valid UTF-8.
#[verifier::external_body]
pub(crate) fn string_from_utf8(bytes: Vec<u8>) -> (r: Option<String>)
    ensures
        r is Some <==> valid_utf8(bytes@),
        r matches Some(s) ==> s@ == decode_utf8(bytes@),
{
    String::from_utf8(bytes).ok()
}

/// The hexadecimal digit of a number below sixteen.
pub open spec fn hex_digit(n: int) -> char {
    if n < 10 {
        (n + 48) as char
    } else {
        (n + 87) as char
    }
}

/// Two lower-case hexadecimal digits for each byte.
pub open spec fn hex_chars(bytes: Seq<u8>) -> Seq<char> {
    Seq::new(
        2 * bytes.len(),
        |i: int|
            if i % 2 == 0 {
                hex_digit(bytes[i / 2] as int / 16)
            } else {
                hex_digit(bytes[i / 2] as int % 16)
            },
    )
}

/// Lower-case hexadecimal of `bytes`.
pub fn hex(bytes: &[u8]) -> (s: String)
    ensures
        s@ == hex_chars(bytes@),
{
    let mut out: Vec<u8> = Vec::new();
    let n: usize = bytes.len();
    let mut i: usize = 0;
    while i < n
        invariant
            n == bytes@.len(),
            i <= n,
            out@.len() == 2 * i,
            forall|j: int| 0 <= j < 2 * i ==> #[trigger] out@[j] == hex_chars(bytes@)[j] as u8,
        decreases n - i,
    {
        let hi: u8 = bytes[i] / 16;
        let lo: u8 = bytes[i] % 16;
        out.push(if hi < 10 { hi + 48 } else { hi + 87 });
        out.push(if lo < 10 { lo + 48 } else { lo + 87 });
        i += 1;
    }
    let ghost chars = hex_chars(bytes@);
    proof {
        assert(vstd::utf8::is_ascii_chars(chars));
        vstd::utf8::is_ascii_chars_encode_utf8(chars);
        assert(out@ =~= encode_utf8(chars));
        vstd::utf8::encode_utf8_valid_utf8(chars);
        vstd::utf8::encode_utf8_decode_utf8(chars);
    }
    match string_from_utf8(out) {
        Some(s) => s,
        None => String::new(),
    }
}

/// Whether two texts are the same.
pub fn same_text(a: &str, b: &str) -> (r: bool)
    ensures
        r == (a@ == b@),
{
    proof {
        vstd::utf8::encode_utf8_decode_utf8(a@);
        vstd::utf8::encode_utf8_decode_utf8(b@);
    }
    crate::bytes::bytes_eq(a.as_bytes(), b.as_bytes())
}

/// The decimal digits of a number.
pub open spec fn decimal_chars(n: nat) -> Seq<char>
    decreases n,
{
    if n < 10 {
        seq![hex_digit(n as int)]
    } else {
        decimal_chars(n / 10).push(hex_digit((n % 10) as int))
    }
}

proof fn lemma_decimal_ascii(n: nat)
    ensures
        vstd::utf8::is_ascii_chars(decimal_chars(n)),
    decreases n,
{
    if n >= 10 {
        lemma_decimal_ascii(n / 10);
    }
}

fn put_decimal(out: &mut Vec<u8>, n: u64)
    ensures
        final(out)@.len() == old(out)@.len() + decimal_chars(n as nat).len(),
        forall|i: int|
            0 <= i < old(out)@.len() ==> #[trigger] final(out)@[i] == old(out)@[i],
        forall|i: int|
            0 <= i < decimal_chars(n as nat).len() ==> final(out)@[old(out)@.len() + i]
                == #[trigger] decimal_chars(n as nat)[i] as u8,
    decreases n,
{
    if n >= 10 {
        put_decimal(out, n / 10);
    }
    out.push((n % 10) as u8 + 48);
}

/// The decimal digits of `n`.
pub fn decimal(n: u64) -> (s: String)
    ensures
        s@ == decimal_chars(n as nat),
{
    let mut out: Vec<u8> = Vec::new();
    put_decimal(&mut out, n);
    let ghost chars = decimal_chars(n as nat);
    proof {
        lemma_decimal_ascii(n as nat);
        vstd::utf8::is_ascii_chars_encode_utf8(chars);
        assert(out@ =~= encode_utf8(chars));
        vstd::utf8::encode_utf8_valid_utf8(chars);
        vstd::utf8::encode_utf8_decode_utf8(chars);
    }
    match string_from_utf8(out) {
        Some(s) => s,
        None => String::new(),
    }
}

/// Digits are the usual characters: a byte is written as two of the sixteen hexadecimal ones, the
/// higher half first, and a number in decimal with its last digit last.
pub proof fn law_digits(bytes: Seq<u8>, i: int, n: nat)
    requires
        0 <= i < bytes.len(),
    ensures
        hex_chars(bytes).len() == 2 * bytes.len(),
        hex_chars(bytes)[2 * i] == "0123456789abcdef"@[bytes[i] as int / 16],
        hex_chars(bytes)[2 * i + 1] == "0123456789abcdef"@[bytes[i] as int % 16],
        n < 10 ==> decimal_chars(n) == seq!["0123456789abcdef"@[n as int]],
        n >= 10 ==> decimal_chars(n) == decimal_chars(n / 10).push(
            "0123456789abcdef"@[(n % 10) as int],
        ),
{
    reveal_strlit("0123456789abcdef");
    lemma_digit(bytes[i] as int / 16);
    lemma_digit(bytes[i] as int % 16);
    lemma_digit((n % 10) as int);
    assert((2 * i) / 2 == i && (2 * i + 1) / 2 == i);
}

proof fn lemma_digit(n: int)
    requires
        0 <= n < 16,
    ensures
        hex_digit(n) == "0123456789abcdef"@[n],
{
    reveal_strlit("0123456789abcdef");
}

} // verus!
