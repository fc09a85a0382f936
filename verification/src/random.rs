//! Random alphanumeric strings.
use rand::rngs::ThreadRng;
use rand::Rng;
use vstd::prelude::*;

verus! {

#[verifier::external_type_specification]
#[verifier::external_body]
pub struct ExThreadRng(ThreadRng);

/// An ASCII letter or digit.
pub open spec fn is_alphanumeric(c: char) -> bool {
    ('A' <= c <= 'Z') || ('a' <= c <= 'z') || ('0' <= c <= '9')
}

/// Calls `rand::thread_rng`, the handle to the thread's generator. Nothing is
/// stated of the handle.
#[verifier::external_body]
fn thread_generator() -> ThreadRng {
    rand::thread_rng()
}

/// Calls `Rng::sample` with `rand::distributions::Alphanumeric`, which draws
/// one byte from `A`-`Z`, `a`-`z` and `0`-`9`. Which one is not stated: it is
/// random.
#[verifier::external_body]
fn sample_alphanumeric(rng: &mut ThreadRng) -> (b: u8)
    ensures
        is_alphanumeric(b as char),
{
    rng.sample(rand::distributions::Alphanumeric)
}

/// A string of `limit` random ASCII letters and digits.
pub fn random_string(limit: usize) -> (s: String)
    ensures
        s@.len() == limit,
        forall|i: int| 0 <= i < limit ==> is_alphanumeric(#[trigger] s@[i]),
{
    let mut s = String::new();
    let mut i: usize = 0;
    while i < limit
        invariant
            i <= limit,
            s@.len() == i,
            forall|j: int| 0 <= j < i ==> is_alphanumeric(#[trigger] s@[j]),
        decreases limit - i,
    {
        let mut rng = thread_generator();
        let b = sample_alphanumeric(&mut rng);
        crate::text::push_char(&mut s, b as char);
        i = i + 1;
    }
    s
}

} // verus!
