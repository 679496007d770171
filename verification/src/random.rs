//! The injected randomness behind the reports' flavor text: a single random
//! index, and the choice of one phrase from a pool.

use vstd::prelude::*;

use rand::Rng;

verus! {

/// Relies on rand's `Rng::gen_range` on `thread_rng`: a value drawn from the
/// half-open range below `n`, which is nonempty, so the call cannot panic
/// and the result is below `n`. Nothing more is assumed of a random draw.
#[verifier::external_body]
fn random_below(n: usize) -> (r: usize)
    requires
        n >= 1,
    ensures
        r < n,
{
    rand::thread_rng().gen_range(0..n)
}

/// Picks a random element of a phrase pool: some element of the list when it
/// has any, nothing when it is empty.
pub fn random_element<'a>(list: &'a Vec<String>) -> (r: Option<&'a String>)
    ensures
        (r is Some) == (list@.len() > 0),
        r is Some ==> exists|i: int| 0 <= i < list@.len() && *r->0 == #[trigger] list@[i],
{
    if list.len() == 0 {
        None
    } else {
        let i = random_below(list.len());
        Some(&list[i])
    }
}

} // verus!
