//! Random sampling of distinct numbers: an ordered draw of `k` distinct
//! values from `1..=n`, done by shuffling the full range and keeping the
//! first `k`.

use crate::BingoError;
use rand::seq::SliceRandom;
use vstd::prelude::*;

verus! {

/// Trusted view of rand's thread-local generator handle.
#[verifier::external_type_specification]
#[verifier::external_body]
pub struct ExThreadRng(rand::rngs::ThreadRng);

/// Relies on rand::thread_rng: hands out the thread-local generator.
/// Nothing is promised of it; every draw made through it is treated as
/// arbitrary.
#[verifier::external_body]
fn fresh_rng() -> rand::rngs::ThreadRng {
    rand::thread_rng()
}

/// Relies on rand's `SliceRandom::shuffle`: a Fisher-Yates pass that only
/// swaps elements in place, so it permutes the slice — the multiset of
/// elements (and so the length) is unchanged. Which permutation comes out
/// depends on the generator, so nothing more is stated.
#[verifier::external_body]
fn shuffle(v: &mut Vec<u8>, rng: &mut rand::rngs::ThreadRng)
    ensures
        final(v)@.to_multiset() == old(v)@.to_multiset(),
        final(v)@.len() == old(v)@.len(),
{
    v.as_mut_slice().shuffle(rng)
}

/// Every element of `s` lies in `1..=n`.
pub open spec fn all_in_range(s: Seq<u8>, n: int) -> bool {
    forall|i: int| 0 <= i < s.len() ==> 1 <= #[trigger] s[i] <= n
}

/// A permutation of a duplicate-free sequence is duplicate-free, and its
/// elements are elements of the original.
proof fn lemma_permutation_keeps_shape(s0: Seq<u8>, s1: Seq<u8>, n: int)
    requires
        s0.to_multiset() == s1.to_multiset(),
        s0.no_duplicates(),
        all_in_range(s0, n),
    ensures
        s1.no_duplicates(),
        all_in_range(s1, n),
{
    broadcast use vstd::seq_lib::group_to_multiset_ensures;

    s0.lemma_multiset_has_no_duplicates();
    s1.lemma_multiset_has_no_duplicates_conv();
    assert forall|i: int| 0 <= i < s1.len() implies 1 <= #[trigger] s1[i] <= n by {
        assert(s1.contains(s1[i]));
        assert(s0.to_multiset().count(s1[i]) > 0);
        assert(s0.contains(s1[i]));
        let j = choose|j: int| 0 <= j < s0.len() && s0[j] == s1[i];
        assert(1 <= s0[j] <= n);
    }
}

/// Draw `k` distinct values from `1..=n`, uniformly and without
/// replacement, in a random order: list the whole range, shuffle it, keep
/// the first `k`. Asking for more values than the domain holds is refused.
pub fn sample(n: u8, k: u8) -> (r: Result<Vec<u8>, BingoError>)
    ensures
        k <= n ==> (r matches Ok(v) && v@.len() == k as int && v@.no_duplicates()
            && all_in_range(v@, n as int)),
        k > n ==> r == Err::<Vec<u8>, BingoError>(BingoError::InvalidArgument),
{
    if k > n {
        return Err(BingoError::InvalidArgument);
    }
    let mut numbers: Vec<u8> = Vec::new();
    let mut idx: usize = 0;
    while idx < n as usize
        invariant
            idx <= n as usize,
            numbers@.len() == idx,
            forall|j: int| 0 <= j < idx ==> numbers@[j] == j + 1,
        decreases n as usize - idx,
    {
        numbers.push((idx + 1) as u8);
        idx = idx + 1;
    }
    let ghost ordered = numbers@;
    assert(ordered.no_duplicates());
    assert(all_in_range(ordered, n as int));

    let mut rng = fresh_rng();
    shuffle(&mut numbers, &mut rng);
    proof {
        lemma_permutation_keeps_shape(ordered, numbers@, n as int);
    }

    let ghost shuffled = numbers@;
    numbers.truncate(k as usize);
    assert(numbers@ == shuffled.subrange(0, k as int));
    Ok(numbers)
}

/// Build a fresh board's numbers: the 25 cell values, distinct, each in
/// `1..=75`, in the random order the cells will show them.
pub fn generate_board() -> (r: Vec<u8>)
    ensures
        r@.len() == crate::BOARD_CELLS as int,
        r@.no_duplicates(),
        all_in_range(r@, crate::MAX_NUMBER as int),
{
    let drawn = sample(crate::MAX_NUMBER, 25);
    match drawn {
        Ok(v) => v,
        Err(_) => Vec::new(),
    }
}

} // verus!
