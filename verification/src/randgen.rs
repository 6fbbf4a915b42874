//! Random markers, drawn through the `rand` crate behind trusted wrappers.
//! Nothing is assumed of which values come out beyond their character set.

use vstd::prelude::*;
use crate::text::string_from_chars;

verus! {

#[verifier::external_type_specification]
#[verifier::external_body]
pub struct ExThreadRng(rand::rngs::ThreadRng);

/// An ASCII digit or letter.
pub open spec fn is_alnum_char(c: char) -> bool {
    ('0' <= c && c <= '9') || ('A' <= c && c <= 'Z') || ('a' <= c && c <= 'z')
}

/// Relies on `rand::thread_rng`: a lazily seeded random number generator
/// local to the current thread. Nothing is assumed of its state.
#[verifier::external_body]
pub fn fresh_rng() -> rand::rngs::ThreadRng {
    rand::thread_rng()
}

/// Relies on `Rng::sample` with the `Alphanumeric` distribution of rand,
/// which draws one byte uniformly from 0-9, A-Z, a-z. Which byte comes out
/// is left open.
#[verifier::external_body]
fn sample_alphanumeric(rng: &mut rand::rngs::ThreadRng) -> (b: u8)
    ensures
        (48 <= b && b <= 57) || (65 <= b && b <= 90) || (97 <= b && b <= 122),
{
    rand::Rng::sample(rng, rand::distributions::Alphanumeric)
}

/// A random token of `n` alphanumeric characters.
pub fn random_token(rng: &mut rand::rngs::ThreadRng, n: usize) -> (r: String)
    ensures
        r@.len() == n,
        forall|i: int| 0 <= i < n ==> is_alnum_char(#[trigger] r@[i]),
{
    let mut chars: Vec<char> = Vec::new();
    let mut i: usize = 0;
    while i < n
        invariant
            i <= n,
            chars@.len() == i,
            forall|j: int| 0 <= j < i ==> is_alnum_char(#[trigger] chars@[j]),
        decreases n - i,
    {
        let b = sample_alphanumeric(rng);
        let c = b as char;
        proof {
            assert(is_alnum_char(c));
        }
        chars.push(c);
        i = i + 1;
    }
    string_from_chars(&chars)
}

} // verus!
