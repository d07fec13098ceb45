use vstd::prelude::*;

use crate::hex::{push_hex, spec_hex, lemma_hex_len};

verus! {

/// What a spawning process needs to reach the broker: its port and auth token.
#[derive(Clone, Debug, Default, PartialEq, Eq, Hash, PartialOrd, Ord)]
pub struct Handshake {
    pub port: u16,
    pub token: String,
}

/// Thirty-two bytes from `rand::rng()` (`RngCore::fill_bytes`). Nothing is
/// claimed of the bytes: they are random.
#[verifier::external_body]
fn random_token_bytes() -> (r: [u8; 32]) {
    let mut bytes = [0u8; 32];
    rand::RngCore::fill_bytes(&mut rand::rng(), &mut bytes);
    bytes
}

impl Handshake {
    /// Mint a handshake for `port` with a fresh 256-bit token, written as 64
    /// lower-case hex digits (hex avoids URL-encoding concerns when the token
    /// comes back as a `?token=` query parameter).
    pub fn generate(port: u16) -> (r: Self)
        ensures
            r.port == port,
            exists|bytes: Seq<u8>| bytes.len() == 32 && r.token@ == spec_hex(bytes),
            r.token@.len() == 64,
    {
        let bytes = random_token_bytes();
        let token = Self::token_from_bytes(&bytes);
        Handshake { port, token }
    }

    /// The token text for the given random bytes: their lower-case hex digits.
    pub fn token_from_bytes(bytes: &[u8]) -> (token: String)
        ensures
            token@ == spec_hex(bytes@),
            token@.len() == 2 * bytes@.len(),
    {
        let mut token = String::new();
        push_hex(&mut token, bytes, 0, bytes.len());
        proof {
            assert(bytes@.subrange(0, bytes@.len() as int) =~= bytes@);
            lemma_hex_len(bytes@);
        }
        token
    }
}

} // verus!
