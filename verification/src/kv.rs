//! Association sequences: spec-level lookup over sequences of
//! key–value pairs with 64-bit keys.
use vstd::prelude::*;

verus! {

/// Whether some entry bears the key `k`.
pub open spec fn kv_has<V>(s: Seq<(u64, V)>, k: u64) -> bool {
    exists|i: int| 0 <= i < s.len() && s[i].0 == k
}

/// An index of the entry bearing `k` (the only one, when keys are unique).
pub open spec fn kv_index<V>(s: Seq<(u64, V)>, k: u64) -> int {
    choose|i: int| 0 <= i < s.len() && s[i].0 == k
}

/// The value stored under `k`.
pub open spec fn kv_get<V>(s: Seq<(u64, V)>, k: u64) -> V {
    s[kv_index(s, k)].1
}

/// No two entries bear the same key.
pub open spec fn kv_unique<V>(s: Seq<(u64, V)>) -> bool {
    forall|i: int, j: int| 0 <= i < j < s.len() ==> s[i].0 != s[j].0
}

/// With unique keys, an entry's position is the position `kv_index` picks.
pub proof fn lemma_kv_index<V>(s: Seq<(u64, V)>, k: u64, i: int)
    requires
        kv_unique(s),
        0 <= i < s.len(),
        s[i].0 == k,
    ensures
        kv_has(s, k),
        kv_index(s, k) == i,
        kv_get(s, k) == s[i].1,
{
    assert(kv_has(s, k));
    let j = kv_index(s, k);
    if j < i {
        assert(s[j].0 != s[i].0);
    } else if i < j {
        assert(s[i].0 != s[j].0);
    }
}

} // verus!
