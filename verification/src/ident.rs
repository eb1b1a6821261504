//! Fresh poll ids, drawn at random.

use vstd::prelude::*;

verus! {

/// How many characters a poll id has.
pub const POLL_ID_LENGTH: usize = 10;

/// Whether the character is an ASCII letter or digit.
pub open spec fn is_alphanumeric(c: char) -> bool {
    ('0' <= c && c <= '9') || ('A' <= c && c <= 'Z') || ('a' <= c && c <= 'z')
}

/// Whether the text is a poll id as the engine draws them: ten ASCII letters
/// and digits.
pub open spec fn is_poll_id(id: Seq<char>) -> bool {
    id.len() == POLL_ID_LENGTH && forall|i: int|
        0 <= i < id.len() ==> is_alphanumeric(#[trigger] id[i])
}

/// Draws `len` characters from `rand::distributions::Alphanumeric` with the
/// thread's generator (`rand::thread_rng`, `Rng::sample_iter`) and collects
/// them into a string. Claimed of every outcome: it has `len` characters,
/// each an ASCII letter or digit. Which ones is left open. `thread_rng`
/// panics where the system gives the generator no seed.
#[verifier::external_body]
fn random_alphanumeric(len: usize) -> (text: String)
    ensures
        text@.len() == len,
        forall|i: int| 0 <= i < text@.len() ==> is_alphanumeric(#[trigger] text@[i]),
{
    rand::Rng::sample_iter(rand::thread_rng(), &rand::distributions::Alphanumeric)
        .take(len)
        .collect()
}

/// A fresh poll id, drawn at random.
pub fn new_poll_id() -> (id: String)
    ensures
        is_poll_id(id@),
{
    random_alphanumeric(POLL_ID_LENGTH)
}

} // verus!
