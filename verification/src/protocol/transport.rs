//! The broker's frames ride WebSocket *text* frames as standard base64, because
//! the target executor's socket rejects binary frames.

use vstd::prelude::*;

verus! {

/// The standard base64 alphabet: `A`-`Z`, `a`-`z`, `0`-`9`, `+`, `/`.
pub open spec fn base64_digit(n: int) -> char {
    if n < 26 {
        (65 + n) as char
    } else if n < 52 {
        (97 + n - 26) as char
    } else if n < 62 {
        (48 + n - 52) as char
    } else if n == 62 {
        '+'
    } else {
        '/'
    }
}

/// Standard base64 with padding: each three bytes become four digits of six
/// bits each; a last one or two bytes become two or three digits and `=`.
pub open spec fn base64_standard_encoding(bytes: Seq<u8>) -> Seq<char>
    decreases bytes.len(),
{
    if bytes.len() == 0 {
        Seq::empty()
    } else if bytes.len() == 1 {
        let a = bytes[0] as int;
        seq![base64_digit(a / 4), base64_digit((a % 4) * 16), '=', '=']
    } else if bytes.len() == 2 {
        let a = bytes[0] as int;
        let b = bytes[1] as int;
        seq![base64_digit(a / 4), base64_digit((a % 4) * 16 + b / 16), base64_digit((b % 16) * 4), '=']
    } else {
        let a = bytes[0] as int;
        let b = bytes[1] as int;
        let c = bytes[2] as int;
        seq![
            base64_digit(a / 4),
            base64_digit((a % 4) * 16 + b / 16),
            base64_digit((b % 16) * 4 + c / 64),
            base64_digit(c % 64),
        ] + base64_standard_encoding(bytes.subrange(3, bytes.len() as int))
    }
}

/// The standard encoding of every byte list is four characters per started
/// group of three bytes.
pub proof fn lemma_encoding_len(bytes: Seq<u8>)
    ensures
        base64_standard_encoding(bytes).len() == 4 * ((bytes.len() + 2) / 3),
    decreases bytes.len(),
{
    if bytes.len() >= 3 {
        lemma_encoding_len(bytes.subrange(3, bytes.len() as int));
    }
}

/// No digit is the padding character, and the digits of values below 64 differ.
proof fn lemma_digits(x: int, y: int)
    requires
        0 <= x < 64,
        0 <= y < 64,
    ensures
        base64_digit(x) != '=',
        base64_digit(x) == base64_digit(y) ==> x == y,
{
}

/// Different byte lists have different standard encodings, so decoding an
/// encoding gives back exactly the bytes encoded.
pub proof fn lemma_encoding_injective(a: Seq<u8>, b: Seq<u8>)
    requires
        base64_standard_encoding(a) == base64_standard_encoding(b),
    ensures
        a == b,
    decreases a.len(),
{
    let ea = base64_standard_encoding(a);
    let eb = base64_standard_encoding(b);
    lemma_encoding_len(a);
    lemma_encoding_len(b);
    if a.len() == 0 || b.len() == 0 {
        assert(a =~= b);
        return;
    }
    let a0 = a[0] as int;
    let b0 = b[0] as int;
    lemma_digits(a0 / 4, b0 / 4);
    assert(ea[0] == eb[0]);
    assert(a0 / 4 == b0 / 4);
    if a.len() == 1 || b.len() == 1 {
        // A lone byte ends in `==`; a longer list has a digit at index 2.
        if a.len() == 1 && b.len() == 1 {
            lemma_digits((a0 % 4) * 16, (b0 % 4) * 16);
            assert(ea[1] == eb[1]);
            assert(a =~= b);
        } else if a.len() == 1 {
            let b1 = b[1] as int;
            if b.len() == 2 {
                lemma_digits((b1 % 16) * 4, 0);
            } else {
                lemma_digits((b1 % 16) * 4 + (b[2] as int) / 64, 0);
            }
            assert(ea[2] == eb[2]);
        } else {
            let a1 = a[1] as int;
            if a.len() == 2 {
                lemma_digits((a1 % 16) * 4, 0);
            } else {
                lemma_digits((a1 % 16) * 4 + (a[2] as int) / 64, 0);
            }
            assert(ea[2] == eb[2]);
        }
        return;
    }
    let a1 = a[1] as int;
    let b1 = b[1] as int;
    lemma_digits((a0 % 4) * 16 + a1 / 16, (b0 % 4) * 16 + b1 / 16);
    assert(ea[1] == eb[1]);
    assert(a0 == b0 && a1 / 16 == b1 / 16);
    if a.len() == 2 || b.len() == 2 {
        // Two bytes end in `=`; a longer list has a digit at index 3.
        if a.len() == 2 && b.len() == 2 {
            lemma_digits((a1 % 16) * 4, (b1 % 16) * 4);
            assert(ea[2] == eb[2]);
            assert(a1 == b1);
            assert(a =~= b);
        } else if a.len() == 2 {
            lemma_digits((b[2] as int) % 64, 0);
            assert(ea[3] == eb[3]);
        } else {
            lemma_digits((a[2] as int) % 64, 0);
            assert(ea[3] == eb[3]);
        }
        return;
    }
    let a2 = a[2] as int;
    let b2 = b[2] as int;
    lemma_digits((a1 % 16) * 4 + a2 / 64, (b1 % 16) * 4 + b2 / 64);
    lemma_digits(a2 % 64, b2 % 64);
    assert(ea[2] == eb[2] && ea[3] == eb[3]);
    assert(a1 == b1 && a2 == b2);
    let ra = a.subrange(3, a.len() as int);
    let rb = b.subrange(3, b.len() as int);
    assert(base64_standard_encoding(ra) =~= ea.subrange(4, ea.len() as int));
    assert(base64_standard_encoding(rb) =~= eb.subrange(4, eb.len() as int));
    lemma_encoding_injective(ra, rb);
    assert(a =~= seq![a[0], a[1], a[2]] + ra);
    assert(b =~= seq![b[0], b[1], b[2]] + rb);
}

/// `base64::engine::general_purpose::STANDARD.encode`. Claimed: the result is
/// the standard padded encoding of `bytes`.
#[verifier::external_body]
fn standard_encode(bytes: &[u8]) -> (r: String)
    ensures
        r@ == base64_standard_encoding(bytes@),
{
    base64::Engine::encode(&base64::engine::general_purpose::STANDARD, bytes)
}

/// `base64::engine::general_purpose::STANDARD.decode`. Claimed: it succeeds
/// exactly on the canonical padded encodings (the engine requires canonical
/// padding and refuses set trailing bits), giving the bytes encoded.
#[verifier::external_body]
fn standard_decode(text: &str) -> (r: Option<Vec<u8>>)
    ensures
        match r {
            Some(v) => base64_standard_encoding(v@) == text@,
            None => forall|b: Seq<u8>| base64_standard_encoding(b) != text@,
        },
{
    base64::Engine::decode(&base64::engine::general_purpose::STANDARD, text).ok()
}

/// Base64-encode raw bytes into a UTF-8-safe text payload.
pub fn text_encode(bytes: &[u8]) -> (r: String)
    ensures
        r@ == base64_standard_encoding(bytes@),
{
    standard_encode(bytes)
}

/// Decode a base64 text payload back to raw bytes, or `None` if it is not the
/// standard encoding of any bytes. Decoding what `text_encode` gave yields the
/// bytes encoded (`lemma_encoding_injective`).
pub fn text_decode(text: &str) -> (r: Option<Vec<u8>>)
    ensures
        match r {
            Some(v) => base64_standard_encoding(v@) == text@,
            None => forall|b: Seq<u8>| base64_standard_encoding(b) != text@,
        },
{
    standard_decode(text)
}

} // verus!
