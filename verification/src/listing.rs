use vstd::prelude::*;

verus! {

/// Every weight fits in a machine word.
pub open spec fn fits<K>(weights: Map<K, nat>) -> bool {
    forall|key: K| weights.dom().contains(key) ==> #[trigger] weights[key] <= usize::MAX
}

/// No key is listed twice.
pub open spec fn distinct_keys<K>(listing: Seq<(K, nat)>) -> bool {
    forall|i: int, j: int|
        0 <= i < j < listing.len() ==> (#[trigger] listing[i]).0 != (#[trigger] listing[j]).0
}

/// Where `key` stands in the listing.
pub open spec fn listed_at<K>(listing: Seq<(K, nat)>, key: K) -> int {
    choose|i: int| 0 <= i < listing.len() && (#[trigger] listing[i]).0 == key
}

/// The weights of a listing, by key.
pub open spec fn weights_of<K>(listing: Seq<(K, nat)>) -> Map<K, nat> {
    Map::new(
        |key: K| exists|i: int| 0 <= i < listing.len() && (#[trigger] listing[i]).0 == key,
        |key: K| listing[listed_at(listing, key)].1,
    )
}

/// The weight that a listing gives a key; 0 for a key that it does not
/// hold.
pub open spec fn weight_in<K>(listing: Seq<(K, nat)>, key: K) -> nat {
    if weights_of(listing).dom().contains(key) {
        weights_of(listing)[key]
    } else {
        0
    }
}

/// The sum of the weights of a listing.
pub open spec fn sum_weights<K>(listing: Seq<(K, nat)>) -> nat
    decreases listing.len(),
{
    if listing.len() == 0 {
        0
    } else {
        sum_weights(listing.drop_last()) + listing.last().1
    }
}

/// In a listing without repetitions each key has the weight that stands
/// beside it.
pub proof fn lemma_weights_of<K>(listing: Seq<(K, nat)>, i: int)
    requires
        distinct_keys(listing),
        0 <= i < listing.len(),
    ensures
        weights_of(listing).dom().contains(listing[i].0),
        weights_of(listing)[listing[i].0] == listing[i].1,
        weight_in(listing, listing[i].0) == listing[i].1,
{
    let key = listing[i].0;
    let at = listed_at(listing, key);
    assert(0 <= at < listing.len() && listing[at].0 == key);
    if at < i {
        assert(listing[at].0 != listing[i].0);
    } else if i < at {
        assert(listing[i].0 != listing[at].0);
    }
}

} // verus!
