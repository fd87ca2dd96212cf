//! Laws relating insertion and lookup.
//!
//! `Trie::insert` states its effect as an update of `Trie::as_map`, and
//! `Trie::get` reads `Trie::as_map`, so composite behaviour over several
//! calls is a statement about compositions of map updates. The proof
//! functions here state those compositions for every key and value.

use vstd::prelude::*;

verus! {

/// The map reached from `m` by performing the insertions of `pairs`, in
/// order: what a trie with contents `m` holds after `Trie::insert` is called
/// with each `(key, value)` pair in turn.
pub open spec fn insert_all<V>(m: Map<Seq<char>, V>, pairs: Seq<(Seq<char>, V)>) -> Map<
    Seq<char>,
    V,
>
    decreases pairs.len(),
{
    if pairs.len() == 0 {
        m
    } else {
        insert_all(m, pairs.drop_last()).insert(pairs.last().0, pairs.last().1)
    }
}

/// Round-trip: after inserting any sequence of pairs with pairwise distinct
/// keys, every inserted key is present and maps to exactly the value that
/// was inserted with it.
pub proof fn lemma_round_trip<V>(m: Map<Seq<char>, V>, pairs: Seq<(Seq<char>, V)>, i: int)
    requires
        0 <= i < pairs.len(),
        forall|a: int, b: int|
            0 <= a < b < pairs.len() ==> (#[trigger] pairs[a]).0 != (#[trigger] pairs[b]).0,
    ensures
        insert_all(m, pairs).contains_key(pairs[i].0),
        insert_all(m, pairs)[pairs[i].0] == pairs[i].1,
    decreases pairs.len(),
{
    if i < pairs.len() - 1 {
        let shorter = pairs.drop_last();
        assert forall|a: int, b: int|
            0 <= a < b < shorter.len() implies (#[trigger] shorter[a]).0 != (
        #[trigger] shorter[b]).0 by {
            assert(shorter[a] == pairs[a] && shorter[b] == pairs[b]);
        }
        lemma_round_trip(m, shorter, i);
        assert(shorter[i] == pairs[i]);
        assert(pairs[i].0 != pairs.last().0);
    }
}

/// Overwrite: inserting twice at the same key leaves the trie exactly as if
/// only the later insertion had happened, so a lookup returns only the most
/// recent value.
pub proof fn lemma_overwrite<V>(m: Map<Seq<char>, V>, k: Seq<char>, v1: V, v2: V)
    ensures
        m.insert(k, v1).insert(k, v2) == m.insert(k, v2),
{
    assert(m.insert(k, v1).insert(k, v2) =~= m.insert(k, v2));
}

/// Prefix independence: insertions at two distinct keys leave both
/// retrievable with their own values and commute — the observable mapping
/// does not depend on the order. This holds for any pair of distinct keys,
/// in particular when one key is a strict prefix of the other.
pub proof fn lemma_insert_commutes<V>(m: Map<Seq<char>, V>, k1: Seq<char>, v1: V, k2: Seq<char>, v2: V)
    requires
        k1 != k2,
    ensures
        m.insert(k1, v1).insert(k2, v2) == m.insert(k2, v2).insert(k1, v1),
        m.insert(k1, v1).insert(k2, v2).contains_key(k1),
        m.insert(k1, v1).insert(k2, v2).contains_key(k2),
        m.insert(k1, v1).insert(k2, v2)[k1] == v1,
        m.insert(k1, v1).insert(k2, v2)[k2] == v2,
{
    assert(m.insert(k1, v1).insert(k2, v2) =~= m.insert(k2, v2).insert(k1, v1));
}

/// Empty key: inserting at the empty string stores a value that a lookup of
/// the empty string returns, and every non-empty key's value is unaffected.
pub proof fn lemma_empty_key<V>(m: Map<Seq<char>, V>, v: V, k: Seq<char>)
    requires
        k.len() > 0,
    ensures
        m.insert(Seq::empty(), v).contains_key(Seq::empty()),
        m.insert(Seq::empty(), v)[Seq::empty()] == v,
        m.insert(Seq::empty(), v).contains_key(k) == m.contains_key(k),
        m.contains_key(k) ==> m.insert(Seq::empty(), v)[k] == m[k],
{
}

/// Miss behaviour: a key that none of the insertions touched is unaffected
/// by them. Starting from an empty trie, looking up a key never inserted —
/// including a key that is only a partial prefix of an inserted key — finds
/// nothing.
pub proof fn lemma_miss<V>(m: Map<Seq<char>, V>, pairs: Seq<(Seq<char>, V)>, k: Seq<char>)
    requires
        forall|a: int| 0 <= a < pairs.len() ==> (#[trigger] pairs[a]).0 != k,
    ensures
        insert_all(m, pairs).contains_key(k) == m.contains_key(k),
        m.contains_key(k) ==> insert_all(m, pairs)[k] == m[k],
    decreases pairs.len(),
{
    if pairs.len() > 0 {
        let shorter = pairs.drop_last();
        assert forall|a: int| 0 <= a < shorter.len() implies (#[trigger] shorter[a]).0 != k by {
            assert(shorter[a] == pairs[a]);
        }
        lemma_miss(m, shorter, k);
        assert(pairs.last().0 != k);
    }
}

} // verus!
