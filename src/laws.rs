use vstd::prelude::*;

use crate::indexed_map::{index_hits, is_index_scan, IndexedRecord};
use crate::order::lemma_key_lt_irreflexive;

verus! {

/// In a scan, a primary key appears at most once.
proof fn lemma_scan_keys_distinct<R: IndexedRecord>(
    m: Map<Seq<char>, R::V>,
    idx: int,
    sk: Seq<u8>,
    s: Seq<(Seq<char>, R::V)>,
    a: int,
    b: int,
)
    requires
        is_index_scan::<R>(m, idx, sk, s),
        0 <= a < s.len(),
        0 <= b < s.len(),
        s[a].0 == s[b].0,
    ensures
        a == b,
{
    lemma_key_lt_irreflexive(s[a].0);
    if a < b {
        assert(crate::order::key_lt(s[a].0, s[b].0));
    } else if b < a {
        assert(crate::order::key_lt(s[b].0, s[a].0));
    }
}

/// Index consistency: every stored record shows up exactly once, with its
/// current value, in a scan of any index for the secondary key derived from
/// it; and every entry of any scan resolves to a stored record with that
/// secondary key.
pub proof fn lemma_index_consistency<R: IndexedRecord>(
    m: Map<Seq<char>, R::V>,
    k: Seq<char>,
    idx: int,
    s: Seq<(Seq<char>, R::V)>,
)
    requires
        m.contains_key(k),
        is_index_scan::<R>(m, idx, R::index_key_spec(m[k], idx), s),
    ensures
        exists|a: int| 0 <= a < s.len() && s[a].0 == k && s[a].1 == m[k],
        forall|a: int, b: int|
            0 <= a < s.len() && 0 <= b < s.len() && s[a].0 == k && s[b].0 == k ==> a == b,
        forall|a: int|
            0 <= a < s.len() ==> m.contains_key(#[trigger] s[a].0) && m[s[a].0] == s[a].1
                && R::index_key_spec(s[a].1, idx) == R::index_key_spec(m[k], idx),
{
    let sk = R::index_key_spec(m[k], idx);
    assert(index_hits::<R>(m, idx, sk).contains(k));
    assert forall|a: int, b: int|
        0 <= a < s.len() && 0 <= b < s.len() && s[a].0 == k && s[b].0 == k implies a == b by {
        lemma_scan_keys_distinct::<R>(m, idx, sk, s, a, b);
    }
}

/// Update reconciliation: after the record under `k` is replaced by one with
/// another secondary key, a scan for the old secondary key no longer lists
/// `k`, and a scan for the new one lists it exactly once, with the new value.
pub proof fn lemma_update_moves_index_entry<R: IndexedRecord>(
    m: Map<Seq<char>, R::V>,
    k: Seq<char>,
    new_record: R::V,
    idx: int,
    old_scan: Seq<(Seq<char>, R::V)>,
    new_scan: Seq<(Seq<char>, R::V)>,
)
    requires
        m.contains_key(k),
        R::index_key_spec(m[k], idx) != R::index_key_spec(new_record, idx),
        is_index_scan::<R>(m.insert(k, new_record), idx, R::index_key_spec(m[k], idx), old_scan),
        is_index_scan::<R>(
            m.insert(k, new_record),
            idx,
            R::index_key_spec(new_record, idx),
            new_scan,
        ),
    ensures
        forall|a: int| 0 <= a < old_scan.len() ==> #[trigger] old_scan[a].0 != k,
        exists|a: int| 0 <= a < new_scan.len() && new_scan[a].0 == k && new_scan[a].1 == new_record,
        forall|a: int, b: int|
            0 <= a < new_scan.len() && 0 <= b < new_scan.len() && new_scan[a].0 == k
                && new_scan[b].0 == k ==> a == b,
{
    let m2 = m.insert(k, new_record);
    assert(m2[k] == new_record);
    lemma_index_consistency::<R>(m2, k, idx, new_scan);
}

/// Removal cleans up: after `k` is removed, it has no record, and no scan of
/// any index for any secondary key lists it.
pub proof fn lemma_remove_cleans_up<R: IndexedRecord>(
    m: Map<Seq<char>, R::V>,
    k: Seq<char>,
    idx: int,
    sk: Seq<u8>,
    s: Seq<(Seq<char>, R::V)>,
)
    requires
        is_index_scan::<R>(m.remove(k), idx, sk, s),
    ensures
        !m.remove(k).contains_key(k),
        forall|a: int| 0 <= a < s.len() ==> #[trigger] s[a].0 != k,
{
}

/// Removing an absent key leaves the records unchanged.
pub proof fn lemma_remove_absent_is_identity<V>(m: Map<Seq<char>, V>, k: Seq<char>)
    requires
        !m.contains_key(k),
    ensures
        m.remove(k) == m,
{
    assert(m.remove(k) =~= m);
}

/// Counting from a fresh count: where each increment returns one more than
/// the count before it, as `increment_tokens` does, and the first starts from
/// the zero of a fresh count, the increment at position `i`, counting from
/// zero, returns `i + 1`.
pub proof fn lemma_increments_count_up(returned: Seq<u64>)
    requires
        forall|i: int|
            0 <= i < returned.len() ==> #[trigger] returned[i] == (if i == 0 {
                0
            } else {
                returned[i - 1] as int
            }) + 1,
    ensures
        forall|i: int| 0 <= i < returned.len() ==> #[trigger] returned[i] == i + 1,
    decreases returned.len(),
{
    if returned.len() > 0 {
        let front = returned.drop_last();
        assert forall|i: int| 0 <= i < front.len() implies #[trigger] front[i] == (if i == 0 {
            0
        } else {
            front[i - 1] as int
        }) + 1 by {
            assert(front[i] == returned[i]);
            if i > 0 {
                assert(front[i - 1] == returned[i - 1]);
            }
        }
        lemma_increments_count_up(front);
        assert forall|i: int| 0 <= i < returned.len() implies #[trigger] returned[i] == i + 1 by {
            if i < front.len() {
                assert(front[i] == returned[i]);
            } else if i > 0 {
                assert(front[i - 1] == returned[i - 1]);
            }
        }
    }
}

} // verus!
