use rand::rngs::StdRng;
use rand::seq::{IteratorRandom, SliceRandom};
use vstd::prelude::*;

verus! {

/// `rand::rngs::StdRng`, the generator that decides what chance is to
/// decide. Whoever makes it chooses the seed; it is handed on, never looked
/// into.
#[verifier::external_type_specification]
#[verifier::external_body]
pub struct ExStdRng(rand::rngs::StdRng);

/// Item `k` of `after` is the item of `before` at place `places[k]`, and no
/// place is used twice.
pub open spec fn taken_at<T>(after: Seq<T>, before: Seq<T>, places: Seq<int>) -> bool {
    &&& places.len() == after.len()
    &&& places.no_duplicates()
    &&& forall|k: int|
        0 <= k < after.len() ==> 0 <= #[trigger] places[k] < before.len() && after[k]
            == before[places[k]]
}

/// `after` holds items of `before`, each place of `before` used at most once.
pub open spec fn sample_of<T>(after: Seq<T>, before: Seq<T>) -> bool {
    exists|places: Seq<int>| taken_at(after, before, places)
}

/// `after` holds the items of `before` in some order: each place of `before`
/// is used exactly once.
pub open spec fn rearrangement_of<T>(after: Seq<T>, before: Seq<T>) -> bool {
    exists|places: Seq<int>|
        taken_at(after, before, places) && after.len() == before.len() && forall|j: int|
            0 <= j < before.len() ==> places.contains(j)
}

/// `SliceRandom::shuffle`, which only swaps items: afterwards the vector
/// holds the same items in an order that the generator decides.
#[verifier::external_body]
pub(crate) fn shuffle<T>(items: &mut Vec<T>, rng: &mut StdRng)
    ensures
        rearrangement_of(final(items)@, old(items)@),
{
    items.shuffle(rng);
}

/// `IteratorRandom::choose_multiple` on the items of a vector: `amount` of
/// them, from places that the generator decides, none taken twice.
#[verifier::external_body]
pub(crate) fn choose_some<T>(items: Vec<T>, amount: usize, rng: &mut StdRng) -> (picked: Vec<T>)
    requires
        amount <= items.len(),
    ensures
        picked.len() == amount,
        sample_of(picked@, items@),
{
    items.into_iter().choose_multiple(rng, amount)
}

/// `IteratorRandom::choose` on the items of a vector: one of them, or `None`
/// if and only if there is none.
#[verifier::external_body]
pub(crate) fn choose_one(items: &Vec<usize>, rng: &mut StdRng) -> (picked: Option<usize>)
    ensures
        picked is None <==> items.len() == 0,
        picked matches Some(item) ==> items@.contains(item),
{
    items.iter().copied().choose(rng)
}

/// What a sample keeps of a list of texts in which none occurs twice: none
/// occurs twice in the sample either, and each text of the sample is one of
/// the list.
pub proof fn lemma_sample_texts(after: Seq<String>, before: Seq<String>)
    requires
        sample_of(after, before),
        forall|i: int, j: int|
            0 <= i < j < before.len() ==> (#[trigger] before[i])@ != (#[trigger] before[j])@,
    ensures
        forall|i: int, j: int|
            0 <= i < j < after.len() ==> (#[trigger] after[i])@ != (#[trigger] after[j])@,
        forall|k: int| 0 <= k < after.len() ==> before.contains(#[trigger] after[k]),
{
    let places = choose|places: Seq<int>| taken_at(after, before, places);
    assert forall|i: int, j: int| 0 <= i < j < after.len() implies (#[trigger] after[i])@ != (
    #[trigger] after[j])@ by {
        let a = places[i];
        let b = places[j];
        assert(a != b);
        if a < b {
            assert(before[a]@ != before[b]@);
        } else {
            assert(before[b]@ != before[a]@);
        }
    }
    assert forall|k: int| 0 <= k < after.len() implies before.contains(#[trigger] after[k]) by {
        assert(before[places[k]] == after[k]);
    }
}

/// A rearrangement loses nothing: each item of the list is in it.
pub proof fn lemma_rearrangement_keeps<T>(after: Seq<T>, before: Seq<T>)
    requires
        rearrangement_of(after, before),
    ensures
        sample_of(after, before),
        after.len() == before.len(),
        forall|j: int| 0 <= j < before.len() ==> after.contains(#[trigger] before[j]),
{
    let places = choose|places: Seq<int>|
        taken_at(after, before, places) && after.len() == before.len() && forall|j: int|
            0 <= j < before.len() ==> places.contains(j);
    assert forall|j: int| 0 <= j < before.len() implies after.contains(#[trigger] before[j]) by {
        assert(places.contains(j));
        let k = choose|k: int| 0 <= k < places.len() && places[k] == j;
        assert(after[k] == before[j]);
    }
}

} // verus!
