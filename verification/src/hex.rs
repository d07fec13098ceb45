//! Lower-case hexadecimal rendering of bytes.

use vstd::prelude::*;

verus! {

/// The lower-case hex digit for a nibble.
pub open spec fn hex_digit(n: u8) -> char
    recommends
        n < 16,
{
    if n < 10 {
        ((48 + n) as u8) as char
    } else {
        ((87 + n) as u8) as char
    }
}

/// Two lower-case hex digits per byte, high nibble first (`{byte:02x}`).
pub open spec fn spec_hex(bytes: Seq<u8>) -> Seq<char>
    decreases bytes.len(),
{
    if bytes.len() == 0 {
        Seq::empty()
    } else {
        spec_hex(bytes.drop_last()).push(hex_digit(bytes.last() / 16)).push(
            hex_digit(bytes.last() % 16),
        )
    }
}

/// Every hex rendering is twice as long as its bytes.
pub proof fn lemma_hex_len(bytes: Seq<u8>)
    ensures
        spec_hex(bytes).len() == 2 * bytes.len(),
    decreases bytes.len(),
{
    if bytes.len() > 0 {
        lemma_hex_len(bytes.drop_last());
    }
}

/// `String::push`: appends one character.
#[verifier::external_body]
pub(crate) fn push_char(s: &mut String, c: char)
    ensures
        final(s)@ == old(s)@.push(c),
{
    s.push(c)
}

/// The lower-case hex digit for a nibble.
pub fn nibble_digit(n: u8) -> (c: char)
    requires
        n < 16,
    ensures
        c == hex_digit(n),
{
    if n < 10 {
        (48 + n) as char
    } else {
        (87 + n) as char
    }
}

/// Append the hex rendering of `bytes[start..end]` to `out`.
pub fn push_hex(out: &mut String, bytes: &[u8], start: usize, end: usize)
    requires
        start <= end <= bytes@.len(),
    ensures
        final(out)@ == old(out)@ + spec_hex(bytes@.subrange(start as int, end as int)),
{
    let mut i = start;
    while i < end
        invariant
            start <= i <= end <= bytes@.len(),
            out@ == old(out)@ + spec_hex(bytes@.subrange(start as int, i as int)),
        decreases end - i,
    {
        let b = bytes[i];
        push_char(out, nibble_digit(b / 16));
        push_char(out, nibble_digit(b % 16));
        proof {
            let next = bytes@.subrange(start as int, i + 1);
            assert(next.drop_last() =~= bytes@.subrange(start as int, i as int));
            assert(next.last() == b);
        }
        i = i + 1;
    }
}

} // verus!
