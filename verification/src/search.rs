//! Keys in order: what binary search finds among them, and where a new key
//! goes.
use vstd::prelude::*;

verus! {

/// The keys are strictly increasing.
pub open spec fn ordered(keys: Seq<u32>) -> bool {
    forall|i: int, j: int| 0 <= i < j < keys.len() ==> keys[i] < keys[j]
}

/// Each key is smaller than the key next to it.
pub open spec fn ordered_next(keys: Seq<u32>) -> bool {
    forall|i: int| 0 <= i < keys.len() - 1 ==> #[trigger] keys[i] < keys[i + 1]
}

/// Keys of which each is smaller than the next are strictly increasing, and
/// the other way round.
pub proof fn lemma_ordered_next(keys: Seq<u32>)
    ensures
        ordered(keys) <==> ordered_next(keys),
{
    if ordered_next(keys) {
        assert forall|i: int, j: int| 0 <= i < j < keys.len() implies keys[i] < keys[j] by {
            lemma_ordered_from(keys, i, j);
        }
    }
    if ordered(keys) {
        assert forall|i: int| 0 <= i < keys.len() - 1 implies #[trigger] keys[i] < keys[i + 1] by {
        }
    }
}

/// Among keys of which each is smaller than the next, a key is smaller than
/// every key behind it.
pub proof fn lemma_ordered_from(keys: Seq<u32>, i: int, j: int)
    requires
        ordered_next(keys),
        0 <= i < j < keys.len(),
    ensures
        keys[i] < keys[j],
    decreases j - i,
{
    if i + 1 < j {
        lemma_ordered_from(keys, i, j - 1);
    }
    assert(keys[j - 1] < keys[j - 1 + 1]);
}

/// Whether `key` is among the keys.
pub open spec fn has_key(keys: Seq<u32>, key: u32) -> bool {
    exists|i: int| 0 <= i < keys.len() && keys[i] == key
}

/// `at` is the place of `key` among the keys: every key before it is
/// smaller, and no key from it on is.
pub open spec fn is_insertion_point(keys: Seq<u32>, key: u32, at: int) -> bool {
    &&& 0 <= at <= keys.len()
    &&& forall|i: int| 0 <= i < at ==> keys[i] < key
    &&& forall|i: int| at <= i < keys.len() ==> key <= keys[i]
}

/// The index at which binary search for `key` stops between `low` and
/// `high`: it probes the middle, stops there on a match, and goes on in the
/// half that the order of the keys points to.
pub open spec fn probe(keys: Seq<u32>, key: u32, low: int, high: int) -> int
    decreases high - low,
{
    if low >= high {
        low
    } else {
        let mid = (low + high) / 2;
        if keys[mid] == key {
            mid
        } else if keys[mid] < key {
            probe(keys, key, mid + 1, high)
        } else {
            probe(keys, key, low, mid)
        }
    }
}

/// Binary search stays between its bounds.
pub proof fn lemma_probe_bounds(keys: Seq<u32>, key: u32, low: int, high: int)
    requires
        0 <= low <= high <= keys.len(),
    ensures
        low <= probe(keys, key, low, high) <= high,
    decreases high - low,
{
    if low < high {
        let mid = (low + high) / 2;
        if keys[mid] == key {
        } else if keys[mid] < key {
            lemma_probe_bounds(keys, key, mid + 1, high);
        } else {
            lemma_probe_bounds(keys, key, low, mid);
        }
    }
}

/// Among keys in order, binary search between bounds that enclose the place
/// of `key` stops at that place.
pub proof fn lemma_probe_finds(keys: Seq<u32>, key: u32, low: int, high: int)
    requires
        ordered(keys),
        0 <= low <= high <= keys.len(),
        forall|i: int| 0 <= i < low ==> keys[i] < key,
        forall|i: int| high <= i < keys.len() ==> key < keys[i],
    ensures
        is_insertion_point(keys, key, probe(keys, key, low, high)),
    decreases high - low,
{
    if low < high {
        let mid = (low + high) / 2;
        if keys[mid] == key {
        } else if keys[mid] < key {
            lemma_probe_finds(keys, key, mid + 1, high);
        } else {
            lemma_probe_finds(keys, key, low, mid);
        }
    }
}

/// Search correctness: among keys in order, binary search over all of them
/// stops at the place of `key`. Where `key` is among the keys, that is its
/// index; where it is not, that is the index at which it keeps the order.
pub proof fn lemma_search_correct(keys: Seq<u32>, key: u32)
    requires
        ordered(keys),
    ensures
        is_insertion_point(keys, key, probe(keys, key, 0, keys.len() as int)),
        has_key(keys, key) ==> probe(keys, key, 0, keys.len() as int) < keys.len() && keys[probe(
            keys,
            key,
            0,
            keys.len() as int,
        )] == key,
        !has_key(keys, key) ==> ordered(keys.insert(probe(keys, key, 0, keys.len() as int), key)),
{
    let at = probe(keys, key, 0, keys.len() as int);
    lemma_probe_finds(keys, key, 0, keys.len() as int);
    lemma_insertion_point(keys, key, at);
    if !has_key(keys, key) {
        if at < keys.len() {
            assert(keys[at] != key);
        }
        lemma_insert_keeps_order(keys, key, at);
    }
}

/// Among keys in order a key has one place only, and a key that is among
/// them is at its place.
pub proof fn lemma_insertion_point(keys: Seq<u32>, key: u32, at: int)
    requires
        ordered(keys),
        is_insertion_point(keys, key, at),
    ensures
        forall|other: int| is_insertion_point(keys, key, other) ==> other == at,
        has_key(keys, key) <==> at < keys.len() && keys[at] == key,
{
    assert forall|other: int| is_insertion_point(keys, key, other) implies other == at by {
        if other < at {
            assert(keys[other] < key);
        } else if at < other {
            assert(keys[at] < key);
        }
    }
    if has_key(keys, key) {
        let i = choose|i: int| 0 <= i < keys.len() && keys[i] == key;
        if i < at {
            assert(keys[i] < key);
        } else if at < i {
            assert(keys[at] < keys[i]);
        }
    }
}

/// Sortedness: a new key put at its place among keys in order leaves them
/// in order.
pub proof fn lemma_insert_keeps_order(keys: Seq<u32>, key: u32, at: int)
    requires
        ordered(keys),
        is_insertion_point(keys, key, at),
        at == keys.len() || keys[at] != key,
    ensures
        ordered(keys.insert(at, key)),
{
    let after = keys.insert(at, key);
    assert forall|i: int, j: int| 0 <= i < j < after.len() implies after[i] < after[j] by {
        if j < at {
            assert(after[i] == keys[i] && after[j] == keys[j]);
        } else if j == at {
            assert(after[i] == keys[i]);
        } else if i < at {
            assert(after[i] == keys[i] && after[j] == keys[j - 1]);
            assert(key <= keys[j - 1]);
        } else if i == at {
            assert(after[j] == keys[j - 1]);
            assert(key <= keys[j - 1]);
            if j - 1 > at {
                assert(keys[at] < keys[j - 1]);
            }
        } else {
            assert(after[i] == keys[i - 1] && after[j] == keys[j - 1]);
        }
    }
}

} // verus!
