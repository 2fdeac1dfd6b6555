//! Drawing from the random number generators of the `rand` crate, for the
//! widgets and wires of a bomb that may be any.

use rand::rngs::StdRng;
use vstd::prelude::*;

verus! {

/// The standard random number generator of the `rand` crate.
#[verifier::external_type_specification]
#[verifier::external_body]
pub struct ExStdRng(StdRng);

/// `Rng::gen_range` returns a number that is at least `low` and less than
/// `high`. It panics where there is no such number.
#[verifier::external_body]
pub(crate) fn draw_between(rng: &mut StdRng, low: u32, high: u32) -> (drawn: u32)
    requires
        low < high,
    ensures
        low <= drawn < high,
{
    rand::Rng::gen_range(rng, low, high)
}

/// `Rng::gen` returns either truth value.
#[verifier::external_body]
pub(crate) fn draw_bool(rng: &mut StdRng) -> (drawn: bool) {
    rand::Rng::gen(rng)
}

/// `Rng::gen_ratio` returns a truth value, `true` with a chance of
/// `numerator` in `denominator`. It panics where the numerator is the
/// greater.
#[verifier::external_body]
pub(crate) fn draw_ratio(rng: &mut StdRng, numerator: u32, denominator: u32) -> (drawn: bool)
    requires
        0 < denominator,
        numerator <= denominator,
{
    rand::Rng::gen_ratio(rng, numerator, denominator)
}

/// `SliceRandom::partial_shuffle` changes the places of the items of a
/// slice, so that its last `amount` items are drawn evenly from all.
#[verifier::external_body]
pub(crate) fn partial_shuffle(rng: &mut StdRng, items: &mut Vec<u8>, amount: usize)
    ensures
        final(items)@.to_multiset() == old(items)@.to_multiset(),
{
    rand::seq::SliceRandom::partial_shuffle(items.as_mut_slice(), rng, amount);
}

/// Items that are the same as others, in other places, differ from each
/// other where the others do, and each of them is one of the others.
pub proof fn lemma_shuffled(before: Seq<u8>, after: Seq<u8>)
    requires
        after.to_multiset() == before.to_multiset(),
        before.no_duplicates(),
    ensures
        after.len() == before.len(),
        after.no_duplicates(),
        forall|i: int| 0 <= i < after.len() ==> before.contains(#[trigger] after[i]),
{
    before.to_multiset_ensures();
    after.to_multiset_ensures();
    before.lemma_multiset_has_no_duplicates();
    after.lemma_multiset_has_no_duplicates_conv();
    assert forall|i: int| 0 <= i < after.len() implies before.contains(#[trigger] after[i]) by {
        assert(after.contains(after[i]));
        assert(after.to_multiset().count(after[i]) > 0);
        assert(before.to_multiset().count(after[i]) > 0);
    }
}

/// The numbers below `n`, in their order.
pub fn numbers_below(n: u8) -> (numbers: Vec<u8>)
    ensures
        numbers@ == Seq::new(n as nat, |i: int| i as u8),
        numbers@.no_duplicates(),
{
    let mut numbers: Vec<u8> = Vec::new();
    let mut i: u8 = 0;
    while i < n
        invariant
            i <= n,
            numbers@ == Seq::new(i as nat, |k: int| k as u8),
        decreases n - i,
    {
        numbers.push(i);
        assert(numbers@ =~= Seq::new((i + 1) as nat, |k: int| k as u8));
        i = i + 1;
    }
    numbers
}

} // verus!
