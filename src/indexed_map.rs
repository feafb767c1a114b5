use vstd::prelude::*;
use vstd::utf8::encode_utf8;

use crate::codec::{
    index_entry_key, index_entry_key_spec, index_prefix, index_prefix_spec, namespaced_key,
    namespaced_key_spec, MAX_PREFIXED_LEN,
};
use crate::order::{key_lt, lemma_key_lt_irreflexive, lemma_key_lt_total, lemma_key_lt_transitive, str_lt};

verus! {

/// Errors reported by an indexed map.
#[derive(Debug, Clone, Copy, PartialEq, Eq, Structural)]
pub enum StorageError {
    /// No record is stored under the requested primary key.
    NotFound,
    /// The map has no secondary index of the requested name.
    UnknownIndex,
    /// An index entry points at a primary key that has no record.
    IndexCorruption,
}

/// One write to an ordered byte store.
pub enum StoreOp {
    /// Delete the entry at this key.
    Remove(Vec<u8>),
    /// Write an index entry at this key; its value is the primary key.
    SetIndex(Vec<u8>),
    /// Write the record at this key.
    SetRecord(Vec<u8>),
}

pub enum StoreOpView {
    Remove(Seq<u8>),
    SetIndex(Seq<u8>),
    SetRecord(Seq<u8>),
}

impl View for StoreOp {
    type V = StoreOpView;

    open spec fn view(&self) -> StoreOpView {
        match self {
            StoreOp::Remove(k) => StoreOpView::Remove(k@),
            StoreOp::SetIndex(k) => StoreOpView::SetIndex(k@),
            StoreOp::SetRecord(k) => StoreOpView::SetRecord(k@),
        }
    }
}

pub open spec fn ops_view(v: Seq<StoreOp>) -> Seq<StoreOpView> {
    v.map_values(|o: StoreOp| o@)
}

/// The records of a scan, unless some entry found no record.
pub open spec fn resolved<V>(found: Seq<(Seq<char>, Option<V>)>) -> Option<Seq<(Seq<char>, V)>> {
    if forall|i: int| 0 <= i < found.len() ==> (#[trigger] found[i]).1 is Some {
        Some(found.map_values(|p: (Seq<char>, Option<V>)| (p.0, p.1->Some_0)))
    } else {
        None
    }
}

/// Pairs each primary key found by an index scan with its record; an entry
/// whose record is missing is reported as `IndexCorruption`.
pub fn resolve_scan<R: IndexedRecord>(found: Vec<(String, Option<R>)>) -> (r: Result<
    Vec<(String, R)>,
    StorageError,
>)
    ensures
        match r {
            Ok(v) => resolved::<R::V>(found_view(found@))
                == Some(scan_view(v@)),
            Err(e) => e == StorageError::IndexCorruption && resolved::<R::V>(
                found_view(found@),
            ) is None,
        },
{
    let ghost fv = found_view(found@);
    let mut out: Vec<(String, R)> = Vec::new();
    let mut rest = found;
    let ghost all = rest@;
    let mut i: usize = 0;
    let n = rest.len();
    while rest.len() > 0
        invariant
            n == all.len(),
            i + rest@.len() == n,
            rest@ == all.skip(i as int),
            out@.len() == i,
            forall|j: int| 0 <= j < i ==> (#[trigger] all[j]).1 is Some,
            forall|j: int| 0 <= j < i ==> (#[trigger] out@[j]).0@ == all[j].0@ && out@[j].1@ == all[j].1->Some_0@,
            fv == found_view(all),
            all == found@,
        decreases rest@.len(),
    {
        assert(rest@[0] == all[i as int]);
        let (k, v) = rest.remove(0);
        assert(rest@ =~= all.skip(i + 1));
        assert(v == all[i as int].1);
        match v {
            Some(rec) => {
                out.push((k, rec));
                i = i + 1;
            },
            None => {
                assert(fv[i as int].1 is None);
                assert(!(forall|j: int| 0 <= j < fv.len() ==> (#[trigger] fv[j]).1 is Some));
                assert(resolved::<R::V>(fv) is None);
                return Err(StorageError::IndexCorruption);
            },
        }
    }
    proof {
        assert forall|j: int| 0 <= j < fv.len() implies (#[trigger] fv[j]).1 is Some by {
            assert(all[j].1 is Some);
        }
        assert(fv.map_values(|p: (Seq<char>, Option<R::V>)| (p.0, p.1->Some_0)) =~= scan_view(out@));
    }
    Ok(out)
}

/// The primary keys and optional records of a scan, as views.
pub open spec fn found_view<R: View>(found: Seq<(String, Option<R>)>) -> Seq<(Seq<char>, Option<R::V>)> {
    found.map_values(|p: (String, Option<R>)| (p.0@, opt_view(p.1)))
}

pub open spec fn opt_view<R: View>(o: Option<R>) -> Option<R::V> {
    match o {
        Some(v) => Some(v@),
        None => None,
    }
}

/// A record kind that can live in an `IndexedMap`.
///
/// Each secondary index of the map is numbered; `index_key(i)` derives the
/// record's secondary key for index `i`. The derivation is a pure function of
/// the record's value.
pub trait IndexedRecord: Sized + View {
    spec fn index_key_spec(v: Self::V, idx: int) -> Seq<u8>;

    fn index_key(&self, idx: usize) -> (r: Vec<u8>)
        ensures
            r@ == Self::index_key_spec(self@, idx as int),
    ;

    fn duplicate(&self) -> (r: Self)
        ensures
            r@ == self@,
    ;

    /// The number of secondary indexes of this record kind.
    spec fn index_count() -> nat;

    fn num_indexes() -> (r: usize)
        ensures
            r == Self::index_count(),
    ;
}

/// The keys of `m` whose record has secondary key `sk` in index `idx`.
pub open spec fn index_hits<R: IndexedRecord>(
    m: Map<Seq<char>, R::V>,
    idx: int,
    sk: Seq<u8>,
) -> Set<Seq<char>> {
    m.dom().filter(|k: Seq<char>| R::index_key_spec(m[k], idx) == sk)
}

/// `s` is what a scan of index `idx` for secondary key `sk` yields on the
/// records `m`: each record of `m` whose secondary key is `sk`, paired with its
/// primary key, in strictly ascending primary-key order, and nothing else.
pub open spec fn is_index_scan<R: IndexedRecord>(
    m: Map<Seq<char>, R::V>,
    idx: int,
    sk: Seq<u8>,
    s: Seq<(Seq<char>, R::V)>,
) -> bool {
    &&& forall|a: int, b: int|
        0 <= a < b < s.len() ==> key_lt(#[trigger] s[a].0, #[trigger] s[b].0)
    &&& forall|a: int|
        0 <= a < s.len() ==> {
            &&& m.contains_key(#[trigger] s[a].0)
            &&& m[s[a].0] == s[a].1
            &&& R::index_key_spec(s[a].1, idx) == sk
        }
    &&& forall|k: Seq<char>|
        #[trigger] index_hits::<R>(m, idx, sk).contains(k) ==> exists|a: int|
            0 <= a < s.len() && #[trigger] s[a].0 == k
}

/// The primary keys and record values of a list of scan results.
pub open spec fn scan_view<R: IndexedRecord>(v: Seq<(String, R)>) -> Seq<(Seq<char>, R::V)> {
    v.map_values(|p: (String, R)| (p.0@, p.1@))
}

/// One primary record together with its secondary-index entries.
struct Slot<R> {
    key: String,
    record: R,
    index_keys: Vec<Vec<u8>>,
}

/// The records of one namespace, with their secondary-index entries.
struct Table<R: IndexedRecord> {
    namespace: String,
    n: usize,
    slots: Vec<Slot<R>>,
    model: Ghost<Map<Seq<char>, R::V>>,
}

impl<R: IndexedRecord> View for Table<R> {
    type V = Map<Seq<char>, R::V>;

    closed spec fn view(&self) -> Map<Seq<char>, R::V> {
        self.model@
    }
}

/// Bytewise equality of two byte strings.
fn bytes_eq(a: &[u8], b: &[u8]) -> (r: bool)
    ensures
        r == (a@ == b@),
{
    if a.len() != b.len() {
        return false;
    }
    let mut i: usize = 0;
    while i < a.len()
        invariant
            a@.len() == b@.len(),
            i <= a@.len(),
            forall|j: int| 0 <= j < i ==> a@[j] == b@[j],
        decreases a@.len() - i,
    {
        if a[i] != b[i] {
            return false;
        }
        i = i + 1;
    }
    assert(a@ =~= b@);
    true
}

/// Equality of two strings, decided through `key_lt` in both directions.
fn str_eq(a: &str, b: &str) -> (r: bool)
    ensures
        r == (a@ == b@),
{
    let lt = str_lt(a, b);
    let gt = str_lt(b, a);
    proof {
        if a@ == b@ {
            lemma_key_lt_irreflexive(a@);
        } else {
            lemma_key_lt_total(a@, b@);
        }
    }
    !lt && !gt
}

impl<R: IndexedRecord> Table<R> {
    /// The namespace that the map's keys live in.
    pub closed spec fn namespace_view(&self) -> Seq<char> {
        self.namespace@
    }

    /// The primary records are held in strictly ascending key order, the model
    /// holds exactly them, and each record carries one entry per index whose
    /// secondary key is the current derivation from the record.
    pub closed spec fn wf(&self) -> bool {
        &&& self.n == R::index_count()
        &&& forall|a: int, b: int|
            0 <= a < b < self.slots@.len() ==> key_lt(
                #[trigger] self.slots@[a].key@,
                #[trigger] self.slots@[b].key@,
            )
        &&& forall|a: int|
            0 <= a < self.slots@.len() ==> {
                &&& self.model@.contains_key(#[trigger] self.slots@[a].key@)
                &&& self.model@[self.slots@[a].key@] == self.slots@[a].record@
                &&& self.slots@[a].index_keys@.len() == R::index_count()
                &&& forall|j: int|
                    0 <= j < R::index_count() ==> (#[trigger] self.slots@[a].index_keys@[j])@
                        == R::index_key_spec(self.slots@[a].record@, j)
            }
        &&& forall|k: Seq<char>|
            #[trigger] self.model@.contains_key(k) ==> exists|a: int|
                0 <= a < self.slots@.len() && #[trigger] self.slots@[a].key@ == k
    }

    /// An empty table for `namespace`.
    pub fn new(namespace: String) -> (r: Self)
        ensures
            r.wf(),
            r@ == Map::<Seq<char>, R::V>::empty(),
            r.namespace_view() == namespace@,
    {
        Table { namespace, n: R::num_indexes(), slots: Vec::new(), model: Ghost(Map::empty()) }
    }

    /// The position of `key` among the primary records: either the slot that
    /// holds it, or the slot before which it would be inserted.
    fn find(&self, key: &str) -> (r: (usize, bool))
        requires
            self.wf(),
        ensures
            r.0 <= self.slots@.len(),
            forall|j: int| 0 <= j < r.0 ==> key_lt(#[trigger] self.slots@[j].key@, key@),
            r.1 ==> r.0 < self.slots@.len() && self.slots@[r.0 as int].key@ == key@,
            !r.1 ==> r.0 < self.slots@.len() ==> key_lt(key@, self.slots@[r.0 as int].key@),
            r.1 == self@.contains_key(key@),
    {
        let mut i: usize = 0;
        while i < self.slots.len() && str_lt(self.slots[i].key.as_str(), key)
            invariant
                self.wf(),
                i <= self.slots@.len(),
                forall|j: int| 0 <= j < i ==> key_lt(#[trigger] self.slots@[j].key@, key@),
            decreases self.slots@.len() - i,
        {
            i = i + 1;
        }
        if i == self.slots.len() {
            proof {
                if self@.contains_key(key@) {
                    let a = choose|a: int| 0 <= a < self.slots@.len() && #[trigger] self.slots@[a].key@ == key@;
                    lemma_key_lt_irreflexive(key@);
                }
            }
            return (i, false);
        }
        let found = !str_lt(key, self.slots[i].key.as_str());
        proof {
            if found {
                if key@ != self.slots@[i as int].key@ {
                    lemma_key_lt_total(key@, self.slots@[i as int].key@);
                }
            } else if self@.contains_key(key@) {
                let a = choose|a: int| 0 <= a < self.slots@.len() && #[trigger] self.slots@[a].key@ == key@;
                lemma_key_lt_irreflexive(key@);
                if a > i {
                    lemma_key_lt_transitive(key@, self.slots@[i as int].key@, self.slots@[a].key@);
                }
            }
        }
        (i, found)
    }

    /// The record stored under `key`.
    pub fn load(&self, key: &str) -> (r: Result<R, StorageError>)
        requires
            self.wf(),
        ensures
            match r {
                Ok(v) => self@.contains_key(key@) && v@ == self@[key@],
                Err(e) => !self@.contains_key(key@) && e == StorageError::NotFound,
            },
    {
        let (i, found) = self.find(key);
        if found {
            Ok(self.slots[i].record.duplicate())
        } else {
            Err(StorageError::NotFound)
        }
    }

    /// The record stored under `key`, if any.
    pub fn may_load(&self, key: &str) -> (r: Option<R>)
        requires
            self.wf(),
        ensures
            match r {
                Some(v) => self@.contains_key(key@) && v@ == self@[key@],
                None => !self@.contains_key(key@),
            },
    {
        let (i, found) = self.find(key);
        if found {
            Some(self.slots[i].record.duplicate())
        } else {
            None
        }
    }

    /// The secondary keys of `record`, one per index, in index order.
    fn derive_index_keys(&self, record: &R) -> (r: Vec<Vec<u8>>)
        requires
            self.wf(),
        ensures
            r@.len() == R::index_count(),
            forall|j: int|
                0 <= j < R::index_count() ==> (#[trigger] r@[j])@ == R::index_key_spec(
                    record@,
                    j,
                ),
    {
        let n = self.n;
        let mut keys: Vec<Vec<u8>> = Vec::new();
        let mut j: usize = 0;
        while j < n
            invariant
                n == R::index_count(),
                j <= n,
                keys@.len() == j,
                forall|t: int| 0 <= t < j ==> (#[trigger] keys@[t])@ == R::index_key_spec(record@, t),
            decreases n - j,
        {
            keys.push(record.index_key(j));
            j = j + 1;
        }
        keys
    }

    /// Stores `record` under `key`, replacing any record there. The entries
    /// that the previous record had in each secondary index are dropped and
    /// the entries derived from `record` take their place.
    pub fn save(&mut self, key: &str, record: R)
        requires
            old(self).wf(),
        ensures
            final(self).wf(),
            final(self)@ == old(self)@.insert(key@, record@),
            final(self).namespace_view() == old(self).namespace_view(),
    {
        let index_keys = self.derive_index_keys(&record);
        let (i, found) = self.find(key);
        let ghost old_slots = self.slots@;
        let ghost old_model = self.model@;
        let ghost rv = record@;
        let slot = Slot { key: key.to_owned(), record, index_keys };
        if found {
            self.slots[i] = slot;
            self.model = Ghost(old_model.insert(key@, rv));
            proof {
                assert forall|a: int, b: int|
                    0 <= a < b < self.slots@.len() implies key_lt(
                    #[trigger] self.slots@[a].key@,
                    #[trigger] self.slots@[b].key@,
                ) by {
                    assert(old_slots[a].key@ == self.slots@[a].key@);
                    assert(old_slots[b].key@ == self.slots@[b].key@);
                }
                assert forall|a: int| 0 <= a < self.slots@.len() && a != i implies
                    #[trigger] self.slots@[a].key@ != key@ by {
                    lemma_key_lt_irreflexive(key@);
                    assert(old_slots[a].key@ == self.slots@[a].key@);
                    if a < i {
                        assert(key_lt(old_slots[a].key@, old_slots[i as int].key@));
                    } else {
                        assert(key_lt(old_slots[i as int].key@, old_slots[a].key@));
                    }
                }
                assert forall|k: Seq<char>| #[trigger] self.model@.contains_key(k) implies exists|a: int|
                    0 <= a < self.slots@.len() && #[trigger] self.slots@[a].key@ == k by {
                    if k != key@ {
                        assert(old_model.contains_key(k));
                        let a = choose|a: int| 0 <= a < old_slots.len() && #[trigger] old_slots[a].key@ == k;
                        assert(self.slots@[a].key@ == k);
                    } else {
                        assert(self.slots@[i as int].key@ == k);
                    }
                }
            }
        } else {
            self.slots.insert(i, slot);
            self.model = Ghost(old_model.insert(key@, rv));
            proof {
                lemma_key_lt_irreflexive(key@);
                assert forall|a: int| i < a < old_slots.len() implies key_lt(
                    key@,
                    #[trigger] old_slots[a].key@,
                ) by {
                    lemma_key_lt_transitive(key@, old_slots[i as int].key@, old_slots[a].key@);
                }
                assert forall|a: int| 0 <= a < self.slots@.len() implies
                    #[trigger] self.slots@[a].key@ == if a < i {
                        old_slots[a].key@
                    } else if a == i {
                        key@
                    } else {
                        old_slots[a - 1].key@
                    } by {}
                assert forall|a: int, b: int|
                    0 <= a < b < self.slots@.len() implies key_lt(
                    #[trigger] self.slots@[a].key@,
                    #[trigger] self.slots@[b].key@,
                ) by {
                    if b < i {
                    } else if b == i {
                    } else if a < i {
                        assert(key_lt(old_slots[a].key@, key@));
                        if b - 1 > i {
                            assert(key_lt(key@, old_slots[b - 1].key@));
                        }
                        lemma_key_lt_transitive(old_slots[a].key@, key@, old_slots[b - 1].key@);
                    } else if a == i {
                    } else {
                        assert(key_lt(old_slots[a - 1].key@, old_slots[b - 1].key@));
                    }
                }
                assert forall|a: int| 0 <= a < self.slots@.len() && a != i implies
                    #[trigger] self.slots@[a].key@ != key@ by {
                    if a < i {
                        assert(key_lt(old_slots[a].key@, key@));
                    } else if a - 1 > i {
                        assert(key_lt(key@, old_slots[a - 1].key@));
                    }
                }
                assert forall|a: int| 0 <= a < self.slots@.len() && a != i implies
                    #[trigger] self.slots@[a] == if a < i {
                        old_slots[a]
                    } else {
                        old_slots[a - 1]
                    } by {}
                assert forall|k: Seq<char>| #[trigger] self.model@.contains_key(k) implies exists|a: int|
                    0 <= a < self.slots@.len() && #[trigger] self.slots@[a].key@ == k by {
                    if k != key@ {
                        assert(old_model.contains_key(k));
                        let a = choose|a: int| 0 <= a < old_slots.len() && #[trigger] old_slots[a].key@ == k;
                        if a < i {
                            assert(self.slots@[a].key@ == k);
                        } else {
                            assert(self.slots@[a + 1].key@ == k);
                        }
                    } else {
                        assert(self.slots@[i as int].key@ == k);
                    }
                }
            }
        }
    }

    /// Removes the record under `key` together with all of its index
    /// entries. Removing an absent key succeeds and changes nothing.
    pub fn remove(&mut self, key: &str)
        requires
            old(self).wf(),
        ensures
            final(self).wf(),
            final(self)@ == old(self)@.remove(key@),
            final(self).namespace_view() == old(self).namespace_view(),
            !old(self)@.contains_key(key@) ==> *final(self) == *old(self),
    {
        let (i, found) = self.find(key);
        if !found {
            assert(self.model@.remove(key@) =~= self.model@);
            return;
        }
        let ghost old_slots = self.slots@;
        let ghost old_model = self.model@;
        self.slots.remove(i);
        self.model = Ghost(old_model.remove(key@));
        proof {
            lemma_key_lt_irreflexive(key@);
            assert forall|a: int| 0 <= a < self.slots@.len() implies #[trigger] self.slots@[a]
                == if a < i {
                old_slots[a]
            } else {
                old_slots[a + 1]
            } by {}
            assert forall|a: int, b: int|
                0 <= a < b < self.slots@.len() implies key_lt(
                #[trigger] self.slots@[a].key@,
                #[trigger] self.slots@[b].key@,
            ) by {
                if a < i && b >= i {
                    assert(key_lt(old_slots[a].key@, old_slots[b + 1].key@));
                } else if a >= i {
                    assert(key_lt(old_slots[a + 1].key@, old_slots[b + 1].key@));
                }
            }
            assert forall|a: int| 0 <= a < self.slots@.len() implies #[trigger] self.slots@[a].key@
                != key@ by {
                if a < i {
                    assert(key_lt(old_slots[a].key@, old_slots[i as int].key@));
                } else {
                    assert(key_lt(old_slots[i as int].key@, old_slots[a + 1].key@));
                }
            }
            assert forall|k: Seq<char>| #[trigger] self.model@.contains_key(k) implies exists|a: int|
                0 <= a < self.slots@.len() && #[trigger] self.slots@[a].key@ == k by {
                assert(old_model.contains_key(k));
                let a = choose|a: int| 0 <= a < old_slots.len() && #[trigger] old_slots[a].key@ == k;
                if a < i {
                    assert(self.slots@[a].key@ == k);
                } else {
                    assert(a != i);
                    assert(self.slots@[a - 1].key@ == k);
                }
            }
        }
    }

    /// Every record whose secondary key in index `idx` is `sk`, with its
    /// primary key, in ascending primary-key order.
    pub fn scan_index(&self, idx: usize, sk: &[u8]) -> (r: Vec<(String, R)>)
        requires
            self.wf(),
            idx < R::index_count(),
        ensures
            is_index_scan::<R>(self@, idx as int, sk@, scan_view(r@)),
    {
        let mut out: Vec<(String, R)> = Vec::new();
        let ghost mut pos: Seq<int> = Seq::empty();
        let mut i: usize = 0;
        while i < self.slots.len()
            invariant
                self.wf(),
                idx < R::index_count(),
                i <= self.slots@.len(),
                pos.len() == out@.len(),
                forall|a: int, b: int| 0 <= a < b < out@.len() ==> pos[a] < pos[b],
                forall|a: int|
                    0 <= a < out@.len() ==> {
                        &&& 0 <= #[trigger] pos[a] < i
                        &&& self.slots@[pos[a]].key@ == out@[a].0@
                        &&& self.slots@[pos[a]].record@ == out@[a].1@
                        &&& R::index_key_spec(out@[a].1@, idx as int) == sk@
                    },
                forall|t: int|
                    0 <= t < i && R::index_key_spec(#[trigger] self.slots@[t].record@, idx as int)
                        == sk@ ==> exists|a: int| 0 <= a < out@.len() && pos[a] == t,
            decreases self.slots@.len() - i,
        {
            let slot = &self.slots[i];
            assert(self.model@.contains_key(self.slots@[i as int].key@));
            if bytes_eq(slot.index_keys[idx].as_slice(), sk) {
                assert(slot.index_keys@[idx as int]@ == R::index_key_spec(slot.record@, idx as int));
                let ghost old_out = out@;
                let ghost old_pos = pos;
                out.push((slot.key.clone(), slot.record.duplicate()));
                proof {
                    pos = pos.push(i as int);
                    assert forall|a: int| 0 <= a < out@.len() implies {
                        &&& 0 <= #[trigger] pos[a] < i + 1
                        &&& self.slots@[pos[a]].key@ == out@[a].0@
                        &&& self.slots@[pos[a]].record@ == out@[a].1@
                        &&& R::index_key_spec(out@[a].1@, idx as int) == sk@
                    } by {
                        if a < old_out.len() {
                            assert(out@[a] == old_out[a]);
                            assert(pos[a] == old_pos[a]);
                        }
                    }
                    assert forall|t: int|
                        0 <= t < i + 1 && R::index_key_spec(#[trigger] self.slots@[t].record@, idx as int)
                            == sk@ implies exists|a: int| 0 <= a < out@.len() && pos[a] == t by {
                        if t < i {
                            let a = choose|a: int| 0 <= a < old_out.len() && old_pos[a] == t;
                            assert(pos[a] == t);
                        } else {
                            assert(pos[old_out.len() as int] == t);
                        }
                    }
                }
            } else {
                proof {
                    assert forall|t: int|
                        0 <= t < i + 1 && R::index_key_spec(#[trigger] self.slots@[t].record@, idx as int)
                            == sk@ implies exists|a: int| 0 <= a < out@.len() && pos[a] == t by {
                        if t == i {
                            assert(slot.index_keys@[idx as int]@ == R::index_key_spec(
                                slot.record@,
                                idx as int,
                            ));
                        }
                    }
                }
            }
            i = i + 1;
        }
        proof {
            let sv = scan_view(out@);
            assert forall|a: int| 0 <= a < out@.len() implies #[trigger] sv[a] == (
            out@[a].0@,
            out@[a].1@,
            ) by {}
            assert forall|a: int, b: int| 0 <= a < b < sv.len() implies key_lt(
                #[trigger] sv[a].0,
                #[trigger] sv[b].0,
            ) by {
                assert(pos[a] < pos[b]);
            }
            assert forall|a: int| 0 <= a < sv.len() implies {
                &&& self@.contains_key(#[trigger] sv[a].0)
                &&& self@[sv[a].0] == sv[a].1
                &&& R::index_key_spec(sv[a].1, idx as int) == sk@
            } by {
                assert(self.model@.contains_key(self.slots@[pos[a]].key@));
            }
            assert forall|k: Seq<char>| #[trigger] index_hits::<R>(self@, idx as int, sk@).contains(
                k,
            ) implies exists|a: int| 0 <= a < sv.len() && #[trigger] sv[a].0 == k by {
                let t = choose|t: int| 0 <= t < self.slots@.len() && #[trigger] self.slots@[t].key@ == k;
                assert(R::index_key_spec(self.slots@[t].record@, idx as int) == sk@);
                let a = choose|a: int| 0 <= a < out@.len() && pos[a] == t;
                assert(sv[a].0 == k);
            }
        }
        out
    }

    /// One page of `scan_index`: the first `limit` matching records whose
    /// primary key comes after `start_after`, in ascending primary-key order.
    /// Passing the last key of a page as `start_after` yields the next page.
    #[verifier::rlimit(40)]
    pub fn scan_index_page(&self, idx: usize, sk: &[u8], start_after: Option<&str>, limit: usize) -> (r:
        Vec<(String, R)>)
        requires
            self.wf(),
            idx < R::index_count(),
        ensures
            is_index_page::<R>(self@, idx as int, sk@, after_view(start_after), limit as int, scan_view(r@)),
    {
        let mut out: Vec<(String, R)> = Vec::new();
        let ghost mut pos: Seq<int> = Seq::empty();
        let ghost after = after_view(start_after);
        let mut i: usize = 0;
        while i < self.slots.len() && out.len() < limit
            invariant
                self.wf(),
                idx < R::index_count(),
                i <= self.slots@.len(),
                out@.len() <= limit,
                pos.len() == out@.len(),
                after == after_view(start_after),
                forall|a: int, b: int| 0 <= a < b < out@.len() ==> pos[a] < pos[b],
                forall|a: int|
                    0 <= a < out@.len() ==> {
                        &&& 0 <= #[trigger] pos[a] < i
                        &&& self.slots@[pos[a]].key@ == out@[a].0@
                        &&& self.slots@[pos[a]].record@ == out@[a].1@
                        &&& R::index_key_spec(out@[a].1@, idx as int) == sk@
                        &&& comes_after(after, out@[a].0@)
                    },
                forall|t: int|
                    0 <= t < i && R::index_key_spec(#[trigger] self.slots@[t].record@, idx as int)
                        == sk@ && comes_after(after, self.slots@[t].key@) ==> exists|a: int|
                        0 <= a < out@.len() && pos[a] == t,
            decreases self.slots@.len() - i,
        {
            let slot = &self.slots[i];
            assert(self.model@.contains_key(self.slots@[i as int].key@));
            assert(slot.index_keys@[idx as int]@ == R::index_key_spec(slot.record@, idx as int));
            let matches = bytes_eq(slot.index_keys[idx].as_slice(), sk);
            let past = match start_after {
                Some(a) => str_lt(a, slot.key.as_str()),
                None => true,
            };
            assert(past == comes_after(after, slot.key@));
            if matches && past {
                let ghost old_out = out@;
                let ghost old_pos = pos;
                out.push((slot.key.clone(), slot.record.duplicate()));
                proof {
                    pos = pos.push(i as int);
                    assert forall|a: int| 0 <= a < out@.len() implies {
                        &&& 0 <= #[trigger] pos[a] < i + 1
                        &&& self.slots@[pos[a]].key@ == out@[a].0@
                        &&& self.slots@[pos[a]].record@ == out@[a].1@
                        &&& R::index_key_spec(out@[a].1@, idx as int) == sk@
                        &&& comes_after(after, out@[a].0@)
                    } by {
                        if a < old_out.len() {
                            assert(out@[a] == old_out[a]);
                            assert(pos[a] == old_pos[a]);
                        }
                    }
                    assert forall|t: int|
                        0 <= t < i + 1 && R::index_key_spec(#[trigger] self.slots@[t].record@, idx as int)
                            == sk@ && comes_after(after, self.slots@[t].key@) implies exists|a: int|
                        0 <= a < out@.len() && pos[a] == t by {
                        if t < i {
                            let a = choose|a: int| 0 <= a < old_out.len() && old_pos[a] == t;
                            assert(pos[a] == t);
                        } else {
                            assert(pos[old_out.len() as int] == t);
                        }
                    }
                }
            }
            i = i + 1;
        }
        proof {
            let sv = scan_view(out@);
            assert forall|a: int| 0 <= a < out@.len() implies #[trigger] sv[a] == (
            out@[a].0@,
            out@[a].1@,
            ) by {}
            assert forall|a: int, b: int| 0 <= a < b < sv.len() implies key_lt(
                #[trigger] sv[a].0,
                #[trigger] sv[b].0,
            ) by {
                assert(pos[a] < pos[b]);
            }
            assert forall|a: int| 0 <= a < sv.len() implies {
                &&& self@.contains_key(#[trigger] sv[a].0)
                &&& self@[sv[a].0] == sv[a].1
                &&& R::index_key_spec(sv[a].1, idx as int) == sk@
                &&& comes_after(after, sv[a].0)
            } by {
                assert(self.model@.contains_key(self.slots@[pos[a]].key@));
            }
            assert forall|k: Seq<char>|
                #[trigger] index_hits::<R>(self@, idx as int, sk@).contains(k) && comes_after(after, k)
                implies (exists|a: int| 0 <= a < sv.len() && #[trigger] sv[a].0 == k) || (sv.len()
                == limit && (sv.len() == 0 || key_lt(sv.last().0, k))) by {
                let t = choose|t: int| 0 <= t < self.slots@.len() && #[trigger] self.slots@[t].key@ == k;
                assert(R::index_key_spec(self.slots@[t].record@, idx as int) == sk@);
                if t < i {
                    let a = choose|a: int| 0 <= a < out@.len() && pos[a] == t;
                    assert(sv[a].0 == k);
                } else if sv.len() > 0 {
                    let l = sv.len() - 1;
                    assert(pos[l] < t);
                    assert(key_lt(self.slots@[pos[l]].key@, self.slots@[t].key@));
                }
            }
        }
        out
    }

}

/// The records of every namespace. Maps are handles onto a store that the
/// caller passes to each operation; two maps with the same namespace see the
/// same records.
pub struct Store<R: IndexedRecord> {
    tables: Vec<Table<R>>,
    model: Ghost<Map<Seq<char>, Map<Seq<char>, R::V>>>,
}

impl<R: IndexedRecord> Store<R> {
    /// Each namespace has at most one table, each table is well formed, and
    /// the model holds exactly the tables' records.
    pub closed spec fn wf(&self) -> bool {
        &&& forall|i: int|
            0 <= i < self.tables@.len() ==> {
                &&& (#[trigger] self.tables@[i]).wf()
                &&& self.model@.contains_key(self.tables@[i].namespace@)
                &&& self.model@[self.tables@[i].namespace@] == self.tables@[i]@
            }
        &&& forall|i: int, j: int|
            0 <= i < j < self.tables@.len() ==> (#[trigger] self.tables@[i]).namespace@
                != (#[trigger] self.tables@[j]).namespace@
        &&& forall|ns: Seq<char>|
            #[trigger] self.model@.contains_key(ns) ==> exists|i: int|
                0 <= i < self.tables@.len() && #[trigger] self.tables@[i].namespace@ == ns
    }

    /// The records stored in namespace `ns`.
    pub closed spec fn records(&self, ns: Seq<char>) -> Map<Seq<char>, R::V> {
        if self.model@.contains_key(ns) {
            self.model@[ns]
        } else {
            Map::empty()
        }
    }

    /// A store that holds no records.
    pub fn new() -> (r: Self)
        ensures
            r.wf(),
            forall|ns: Seq<char>| #[trigger] r.records(ns) == Map::<Seq<char>, R::V>::empty(),
    {
        Store { tables: Vec::new(), model: Ghost(Map::empty()) }
    }

    /// The position of the table of namespace `ns`, if it has one.
    fn table_position(&self, ns: &str) -> (r: Option<usize>)
        requires
            self.wf(),
        ensures
            match r {
                Some(i) => i < self.tables@.len() && self.tables@[i as int].namespace@ == ns@,
                None => !self.model@.contains_key(ns@),
            },
    {
        let mut i: usize = 0;
        while i < self.tables.len()
            invariant
                self.wf(),
                i <= self.tables@.len(),
                forall|j: int| 0 <= j < i ==> #[trigger] self.tables@[j].namespace@ != ns@,
            decreases self.tables@.len() - i,
        {
            if str_eq(self.tables[i].namespace.as_str(), ns) {
                return Some(i);
            }
            i = i + 1;
        }
        None
    }

    /// The position of the table of namespace `ns`, made empty if missing.
    fn table_for(&mut self, ns: &str) -> (r: usize)
        requires
            old(self).wf(),
        ensures
            final(self).wf(),
            r < final(self).tables@.len(),
            final(self).tables@[r as int].namespace@ == ns@,
            forall|n: Seq<char>| #[trigger] final(self).records(n) == old(self).records(n),
    {
        match self.table_position(ns) {
            Some(i) => i,
            None => {
                let ghost old_tables = self.tables@;
                let ghost old_model = self.model@;
                let t = Table::<R>::new(ns.to_owned());
                self.tables.push(t);
                self.model = Ghost(old_model.insert(ns@, Map::empty()));
                proof {
                    let last = old_tables.len() as int;
                    assert(self.tables@[last].namespace@ == ns@);
                    assert forall|i: int| 0 <= i < self.tables@.len() implies {
                        &&& (#[trigger] self.tables@[i]).wf()
                        &&& self.model@.contains_key(self.tables@[i].namespace@)
                        &&& self.model@[self.tables@[i].namespace@] == self.tables@[i]@
                    } by {
                        if i < last {
                            assert(self.tables@[i] == old_tables[i]);
                        }
                    }
                    assert forall|ns2: Seq<char>| #[trigger] self.model@.contains_key(ns2) implies exists|
                        i: int,
                    | 0 <= i < self.tables@.len() && #[trigger] self.tables@[i].namespace@ == ns2 by {
                        if ns2 != ns@ {
                            let i = choose|i: int|
                                0 <= i < old_tables.len() && #[trigger] old_tables[i].namespace@ == ns2;
                            assert(self.tables@[i] == old_tables[i]);
                        }
                    }
                    assert forall|n: Seq<char>| #[trigger] self.records(n) == old(self).records(n) by {
                        if n == ns@ {
                            assert(self.records(n) =~= old(self).records(n));
                        }
                    }
                }
                self.tables.len() - 1
            },
        }
    }

    /// Stores `record` under `key` in namespace `ns`, with its index entries.
    fn save(&mut self, ns: &str, key: &str, record: R)
        requires
            old(self).wf(),
        ensures
            final(self).wf(),
            final(self).records(ns@) == old(self).records(ns@).insert(key@, record@),
            forall|n: Seq<char>| n != ns@ ==> #[trigger] final(self).records(n) == old(self).records(n),
    {
        let i = self.table_for(ns);
        let ghost mid = *self;
        let mut t = self.tables.remove(i);
        self.tables.insert(i, Table::new(ns.to_owned()));
        proof {
            assert(mid.tables@[i as int].wf());
            assert(mid.model@.contains_key(mid.tables@[i as int].namespace@));
            assert(t == mid.tables@[i as int]);
            assert(mid.records(ns@) == t@);
        }
        t.save(key, record);
        self.restore_table(i, t, Ghost(mid));
    }

    /// Removes the record under `key` in namespace `ns` with its index
    /// entries; an absent key leaves the store as it was.
    fn remove(&mut self, ns: &str, key: &str)
        requires
            old(self).wf(),
        ensures
            final(self).wf(),
            final(self).records(ns@) == old(self).records(ns@).remove(key@),
            forall|n: Seq<char>| n != ns@ ==> #[trigger] final(self).records(n) == old(self).records(n),
            !old(self).records(ns@).contains_key(key@) ==> *final(self) == *old(self),
    {
        let i = match self.table_position(ns) {
            Some(i) => i,
            None => {
                assert(self.records(ns@).remove(key@) =~= self.records(ns@));
                return;
            },
        };
        proof {
            assert(self.tables@[i as int].wf());
            assert(self.model@.contains_key(self.tables@[i as int].namespace@));
        }
        let (_, found) = self.tables[i].find(key);
        if !found {
            assert(self.records(ns@).remove(key@) =~= self.records(ns@));
            return;
        }
        let ghost mid = *self;
        let mut t = self.tables.remove(i);
        self.tables.insert(i, Table::new(ns.to_owned()));
        proof {
            assert(t == mid.tables@[i as int]);
            assert(mid.records(ns@) == t@);
        }
        t.remove(key);
        self.restore_table(i, t, Ghost(mid));
    }

    /// The table of namespace `ns`, if it has one.
    fn table(&self, ns: &str) -> (r: Option<&Table<R>>)
        requires
            self.wf(),
        ensures
            match r {
                Some(t) => t.wf() && t@ == self.records(ns@),
                None => self.records(ns@) == Map::<Seq<char>, R::V>::empty(),
            },
    {
        match self.table_position(ns) {
            Some(i) => {
                proof {
                    assert(self.tables@[i as int].wf());
                    assert(self.model@.contains_key(self.tables@[i as int].namespace@));
                }
                Some(&self.tables[i])
            },
            None => None,
        }
    }

    /// Puts `t` back at `i` after it was taken out of `mid` and changed.
    fn restore_table(&mut self, i: usize, t: Table<R>, mid: Ghost<Store<R>>)
        requires
            mid@.wf(),
            i < mid@.tables@.len(),
            old(self).tables@.len() == mid@.tables@.len(),
            forall|j: int| 0 <= j < mid@.tables@.len() && j != i ==> #[trigger] old(self).tables@[j] == mid@.tables@[j],
            old(self).model@ == mid@.model@,
            old(self).tables@[i as int].namespace@ == mid@.tables@[i as int].namespace@,
            t.wf(),
            t.namespace@ == mid@.tables@[i as int].namespace@,
        ensures
            final(self).wf(),
            final(self).records(t.namespace@) == t@,
            forall|n: Seq<char>| n != t.namespace@ ==> #[trigger] final(self).records(n) == mid@.records(n),
    {
        let ghost old_tables = self.tables@;
        let ghost ns = t.namespace@;
        let ghost tv = t@;
        self.tables.remove(i);
        self.tables.insert(i, t);
        self.model = Ghost(mid@.model@.insert(ns, tv));
        proof {
            let mt = mid@.tables@;
            assert(self.tables@ =~= mt.update(i as int, t));
            assert forall|j: int| 0 <= j < self.tables@.len() implies {
                &&& (#[trigger] self.tables@[j]).wf()
                &&& self.model@.contains_key(self.tables@[j].namespace@)
                &&& self.model@[self.tables@[j].namespace@] == self.tables@[j]@
            } by {
                if j != i {
                    assert(self.tables@[j] == mt[j]);
                    assert(mt[j].wf());
                    assert(mt[j].namespace@ != ns) by {
                        if j < i {
                            assert(mt[j].namespace@ != mt[i as int].namespace@);
                        } else {
                            assert(mt[i as int].namespace@ != mt[j].namespace@);
                        }
                    }
                }
            }
            assert forall|a: int, b: int| 0 <= a < b < self.tables@.len() implies (#[trigger] self.tables@[a]).namespace@
                != (#[trigger] self.tables@[b]).namespace@ by {
                assert(mt[a].namespace@ != mt[b].namespace@);
            }
            assert forall|n: Seq<char>| #[trigger] self.model@.contains_key(n) implies exists|j: int|
                0 <= j < self.tables@.len() && #[trigger] self.tables@[j].namespace@ == n by {
                if n != ns {
                    assert(mid@.model@.contains_key(n));
                    let j = choose|j: int| 0 <= j < mt.len() && #[trigger] mt[j].namespace@ == n;
                    assert(self.tables@[j].namespace@ == n);
                } else {
                    assert(self.tables@[i as int].namespace@ == n);
                }
            }
        }
    }
}

/// A handle onto the records of one namespace of a store, with named
/// secondary indexes. The handle holds no records itself.
pub struct IndexedMap {
    namespace: String,
    index_names: Vec<String>,
}

impl IndexedMap {
    /// The namespace that the map's records live in.
    pub closed spec fn namespace_view(&self) -> Seq<char> {
        self.namespace@
    }

    /// The names of the secondary indexes, in index order.
    pub closed spec fn index_names_view(&self) -> Seq<Seq<char>> {
        self.index_names@.map_values(|s: String| s@)
    }

    /// A map over namespace `namespace` with the named secondary indexes.
    pub fn new(namespace: String, index_names: Vec<String>) -> (r: Self)
        ensures
            r.namespace_view() == namespace@,
            r.index_names_view() == index_names@.map_values(|s: String| s@),
    {
        IndexedMap { namespace, index_names }
    }

    /// The names of the secondary indexes, in index order.
    pub fn get_indexes(&self) -> (r: Vec<String>)
        ensures
            r@.map_values(|s: String| s@) == self.index_names_view(),
    {
        let mut r: Vec<String> = Vec::new();
        let mut i: usize = 0;
        while i < self.index_names.len()
            invariant
                i <= self.index_names@.len(),
                r@.len() == i,
                forall|j: int| 0 <= j < i ==> #[trigger] r@[j]@ == self.index_names@[j]@,
            decreases self.index_names@.len() - i,
        {
            r.push(self.index_names[i].clone());
            i = i + 1;
        }
        assert(r@.map_values(|s: String| s@) =~= self.index_names_view());
        r
    }

    /// The position of the first secondary index named `name`.
    pub fn index_position(&self, name: &str) -> (r: Option<usize>)
        ensures
            match r {
                Some(i) => is_first_position(self.index_names_view(), name@, i as int),
                None => !self.index_names_view().contains(name@),
            },
    {
        let mut i: usize = 0;
        while i < self.index_names.len()
            invariant
                i <= self.index_names@.len(),
                forall|j: int| 0 <= j < i ==> #[trigger] self.index_names_view()[j] != name@,
            decreases self.index_names@.len() - i,
        {
            if str_eq(self.index_names[i].as_str(), name) {
                return Some(i);
            }
            i = i + 1;
        }
        None
    }

    /// The record stored under `key`.
    pub fn load<R: IndexedRecord>(&self, store: &Store<R>, key: &str) -> (r: Result<R, StorageError>)
        requires
            store.wf(),
        ensures
            match r {
                Ok(v) => store.records(self.namespace_view()).contains_key(key@) && v@ == store.records(
                    self.namespace_view(),
                )[key@],
                Err(e) => !store.records(self.namespace_view()).contains_key(key@) && e
                    == StorageError::NotFound,
            },
    {
        match store.table(self.namespace.as_str()) {
            Some(t) => t.load(key),
            None => Err(StorageError::NotFound),
        }
    }

    /// The record stored under `key`, if any.
    pub fn may_load<R: IndexedRecord>(&self, store: &Store<R>, key: &str) -> (r: Option<R>)
        requires
            store.wf(),
        ensures
            match r {
                Some(v) => store.records(self.namespace_view()).contains_key(key@) && v@
                    == store.records(self.namespace_view())[key@],
                None => !store.records(self.namespace_view()).contains_key(key@),
            },
    {
        match store.table(self.namespace.as_str()) {
            Some(t) => t.may_load(key),
            None => None,
        }
    }

    /// Stores `record` under `key`, replacing any record there. The entries
    /// that the previous record had in each secondary index are dropped and
    /// the entries derived from `record` take their place. Other namespaces
    /// are left alone.
    pub fn save<R: IndexedRecord>(&self, store: &mut Store<R>, key: &str, record: R)
        requires
            old(store).wf(),
        ensures
            final(store).wf(),
            final(store).records(self.namespace_view()) == old(store).records(
                self.namespace_view(),
            ).insert(key@, record@),
            forall|n: Seq<char>|
                n != self.namespace_view() ==> #[trigger] final(store).records(n) == old(
                    store,
                ).records(n),
    {
        store.save(self.namespace.as_str(), key, record);
    }

    /// Removes the record under `key` together with all of its index
    /// entries. Removing an absent key succeeds and leaves the store as it
    /// was.
    pub fn remove<R: IndexedRecord>(&self, store: &mut Store<R>, key: &str)
        requires
            old(store).wf(),
        ensures
            final(store).wf(),
            final(store).records(self.namespace_view()) == old(store).records(
                self.namespace_view(),
            ).remove(key@),
            forall|n: Seq<char>|
                n != self.namespace_view() ==> #[trigger] final(store).records(n) == old(
                    store,
                ).records(n),
            !old(store).records(self.namespace_view()).contains_key(key@) ==> *final(store) == *old(
                store,
            ),
    {
        store.remove(self.namespace.as_str(), key);
    }

    /// Every record whose secondary key in the index named `index_name` is
    /// `sk`, with its primary key, in ascending primary-key order.
    pub fn range_by_index<R: IndexedRecord>(&self, store: &Store<R>, index_name: &str, sk: &[u8]) -> (r:
        Result<Vec<(String, R)>, StorageError>)
        requires
            store.wf(),
            self.index_names_view().len() == R::index_count(),
        ensures
            match r {
                Ok(v) => exists|i: int|
                    is_first_position(self.index_names_view(), index_name@, i) && is_index_scan::<R>(
                        store.records(self.namespace_view()),
                        i,
                        sk@,
                        scan_view(v@),
                    ),
                Err(e) => !self.index_names_view().contains(index_name@) && e
                    == StorageError::UnknownIndex,
            },
    {
        match self.index_position(index_name) {
            Some(idx) => match store.table(self.namespace.as_str()) {
                Some(t) => Ok(t.scan_index(idx, sk)),
                None => {
                    let v: Vec<(String, R)> = Vec::new();
                    assert(scan_view(v@) =~= Seq::<(Seq<char>, R::V)>::empty());
                    Ok(v)
                },
            },
            None => Err(StorageError::UnknownIndex),
        }
    }

    /// One page of `range_by_index`: the first `limit` matching records
    /// whose primary key comes after `start_after`. Passing the last key of a
    /// page as `start_after` yields the next page.
    pub fn range_by_index_page<R: IndexedRecord>(
        &self,
        store: &Store<R>,
        index_name: &str,
        sk: &[u8],
        start_after: Option<&str>,
        limit: usize,
    ) -> (r: Result<Vec<(String, R)>, StorageError>)
        requires
            store.wf(),
            self.index_names_view().len() == R::index_count(),
        ensures
            match r {
                Ok(v) => exists|i: int|
                    is_first_position(self.index_names_view(), index_name@, i) && is_index_page::<R>(
                        store.records(self.namespace_view()),
                        i,
                        sk@,
                        after_view(start_after),
                        limit as int,
                        scan_view(v@),
                    ),
                Err(e) => !self.index_names_view().contains(index_name@) && e
                    == StorageError::UnknownIndex,
            },
    {
        match self.index_position(index_name) {
            Some(idx) => match store.table(self.namespace.as_str()) {
                Some(t) => Ok(t.scan_index_page(idx, sk, start_after, limit)),
                None => {
                    let v: Vec<(String, R)> = Vec::new();
                    assert(scan_view(v@) =~= Seq::<(Seq<char>, R::V)>::empty());
                    Ok(v)
                },
            },
            None => Err(StorageError::UnknownIndex),
        }
    }

    /// The store key of the entry that index `idx` holds from `sk` to `key`.
    pub open spec fn entry_key(&self, idx: int, key: Seq<char>, sk: Seq<u8>) -> Seq<u8> {
        index_entry_key_spec(
            encode_utf8(self.namespace_view()),
            encode_utf8(self.index_names_view()[idx]),
            sk,
            encode_utf8(key),
        )
    }

    /// Every index key of `v` fits its length prefix, as do the namespace
    /// and the index names.
    pub open spec fn fits<R: IndexedRecord>(&self, v: R::V) -> bool {
        &&& encode_utf8(self.namespace_view()).len() <= MAX_PREFIXED_LEN
        &&& forall|i: int|
            0 <= i < self.index_names_view().len() ==> {
                &&& encode_utf8(#[trigger] self.index_names_view()[i]).len() <= MAX_PREFIXED_LEN
                &&& R::index_key_spec(v, i).len() <= MAX_PREFIXED_LEN
            }
    }

    /// One write per index for the entries of `v` under `key`: removals or
    /// additions.
    pub open spec fn index_ops<R: IndexedRecord>(&self, key: Seq<char>, v: R::V, removal: bool) -> Seq<
        StoreOpView,
    > {
        Seq::new(
            self.index_names_view().len(),
            |i: int|
                if removal {
                    StoreOpView::Remove(self.entry_key(i, key, R::index_key_spec(v, i)))
                } else {
                    StoreOpView::SetIndex(self.entry_key(i, key, R::index_key_spec(v, i)))
                },
        )
    }

    /// The store key of the record under `key`.
    pub open spec fn record_key(&self, key: Seq<char>) -> Seq<u8> {
        namespaced_key_spec(encode_utf8(self.namespace_view()), encode_utf8(key))
    }

    /// The writes that save `new` under `key` where `old` is stored now:
    /// the entries of `old` go, those of `new` come, then the record.
    pub open spec fn save_ops_spec<R: IndexedRecord>(&self, key: Seq<char>, old: Option<R::V>, new: R::V) -> Seq<
        StoreOpView,
    > {
        let removals = match old {
            Some(o) => self.index_ops::<R>(key, o, true),
            None => Seq::empty(),
        };
        removals + self.index_ops::<R>(key, new, false) + seq![StoreOpView::SetRecord(self.record_key(key))]
    }

    /// The writes that remove the record `old` under `key`: its entries,
    /// then the record. Nothing where no record is stored.
    pub open spec fn remove_ops_spec<R: IndexedRecord>(&self, key: Seq<char>, old: Option<R::V>) -> Seq<
        StoreOpView,
    > {
        match old {
            Some(o) => self.index_ops::<R>(key, o, true) + seq![StoreOpView::Remove(self.record_key(key))],
            None => Seq::empty(),
        }
    }

    /// Appends to `ops` one write per index for the entries of `rec`.
    fn push_index_ops<R: IndexedRecord>(&self, ops: &mut Vec<StoreOp>, key: &str, rec: &R, removal: bool) -> (ok:
        bool)
        ensures
            ok ==> ops_view(final(ops)@) == ops_view(old(ops)@) + self.index_ops::<R>(key@, rec@, removal),
            !ok ==> !self.fits::<R>(rec@),
    {
        let ghost start = ops_view(ops@);
        let mut i: usize = 0;
        while i < self.index_names.len()
            invariant
                i <= self.index_names@.len(),
                ops_view(ops@) == start + self.index_ops::<R>(key@, rec@, removal).take(i as int),
            decreases self.index_names@.len() - i,
        {
            match self.index_storage_key(i, key, rec) {
                Some(k) => {
                    let ghost before = ops_view(ops@);
                    if removal {
                        ops.push(StoreOp::Remove(k));
                    } else {
                        ops.push(StoreOp::SetIndex(k));
                    }
                    assert(ops_view(ops@) =~= before.push(self.index_ops::<R>(key@, rec@, removal)[i as int]));
                    assert(self.index_ops::<R>(key@, rec@, removal).take(i + 1) =~= self.index_ops::<R>(
                        key@,
                        rec@,
                        removal,
                    ).take(i as int).push(self.index_ops::<R>(key@, rec@, removal)[i as int]));
                },
                None => {
                    assert(self.index_names_view()[i as int] == self.index_names_view()[i as int]);
                    return false;
                },
            }
            i = i + 1;
        }
        assert(self.index_ops::<R>(key@, rec@, removal).take(i as int) =~= self.index_ops::<R>(
            key@,
            rec@,
            removal,
        ));
        true
    }

    /// The store writes that save `new` under `key`, where `old` is what the
    /// store holds there now. `None` where a key segment is too long for its
    /// length prefix.
    pub fn save_ops<R: IndexedRecord>(&self, key: &str, old: Option<&R>, new: &R) -> (r: Option<Vec<StoreOp>>)
        ensures
            match r {
                Some(ops) => ops_view(ops@) == self.save_ops_spec::<R>(key@, opt_view(old), new@),
                None => !self.fits::<R>(new@) || (old is Some && !self.fits::<R>(old->Some_0@)),
            },
    {
        let mut ops: Vec<StoreOp> = Vec::new();
        assert(ops_view(ops@) =~= Seq::<StoreOpView>::empty());
        if let Some(o) = old {
            if !self.push_index_ops(&mut ops, key, o, true) {
                return None;
            }
        }
        if !self.push_index_ops(&mut ops, key, new, false) {
            return None;
        }
        match self.primary_storage_key(key) {
            Some(k) => {
                let ghost before = ops_view(ops@);
                ops.push(StoreOp::SetRecord(k));
                assert(ops_view(ops@) =~= before.push(StoreOpView::SetRecord(self.record_key(key@))));
                assert(ops_view(ops@) =~= self.save_ops_spec::<R>(key@, opt_view(old), new@));
                Some(ops)
            },
            None => None,
        }
    }

    /// The store writes that remove the record `old` stored under `key`;
    /// none where nothing is stored. `None` where a key segment is too long
    /// for its length prefix.
    pub fn remove_ops<R: IndexedRecord>(&self, key: &str, old: Option<&R>) -> (r: Option<Vec<StoreOp>>)
        ensures
            match r {
                Some(ops) => ops_view(ops@) == self.remove_ops_spec::<R>(key@, opt_view(old)),
                None => old is Some && !self.fits::<R>(old->Some_0@),
            },
    {
        let mut ops: Vec<StoreOp> = Vec::new();
        assert(ops_view(ops@) =~= Seq::<StoreOpView>::empty());
        match old {
            None => Some(ops),
            Some(o) => {
                if !self.push_index_ops(&mut ops, key, o, true) {
                    return None;
                }
                match self.primary_storage_key(key) {
                    Some(k) => {
                        let ghost before = ops_view(ops@);
                        ops.push(StoreOp::Remove(k));
                        assert(ops_view(ops@) =~= before.push(StoreOpView::Remove(self.record_key(key@))));
                        assert(ops_view(ops@) =~= self.remove_ops_spec::<R>(key@, opt_view(old)));
                        Some(ops)
                    },
                    None => None,
                }
            },
        }
    }

    /// The start of the store keys of every entry for `sk` in the index
    /// named `index_name`; a prefix scan over it yields exactly those
    /// entries, in ascending primary-key byte order. `None` where the index
    /// is unknown or a segment is too long for its length prefix.
    pub fn index_scan_prefix(&self, index_name: &str, sk: &[u8]) -> (r: Option<Vec<u8>>)
        ensures
            r is Some ==> exists|i: int|
                is_first_position(self.index_names_view(), index_name@, i) && r->Some_0@
                    == index_prefix_spec(
                    encode_utf8(self.namespace_view()),
                    encode_utf8(self.index_names_view()[i]),
                    sk@,
                ),
            r is None ==> !self.index_names_view().contains(index_name@) || encode_utf8(
                self.namespace_view(),
            ).len() > MAX_PREFIXED_LEN || encode_utf8(index_name@).len() > MAX_PREFIXED_LEN
                || sk@.len() > MAX_PREFIXED_LEN,
    {
        let idx = match self.index_position(index_name) {
            Some(i) => i,
            None => return None,
        };
        let ns = self.namespace.as_str().as_bytes_vec();
        let name = self.index_names[idx].as_str().as_bytes_vec();
        if ns.len() > MAX_PREFIXED_LEN || name.len() > MAX_PREFIXED_LEN || sk.len() > MAX_PREFIXED_LEN {
            return None;
        }
        Some(index_prefix(ns.as_slice(), name.as_slice(), sk))
    }

    /// The store key under which the record for `key` is persisted: the
    /// map's namespace, length-prefixed, then the key's UTF-8 bytes. `None`
    /// where the namespace is too long for its length prefix.
    pub fn primary_storage_key(&self, key: &str) -> (r: Option<Vec<u8>>)
        ensures
            r is Some <==> encode_utf8(self.namespace_view()).len() <= MAX_PREFIXED_LEN,
            r is Some ==> r->Some_0@ == namespaced_key_spec(
                encode_utf8(self.namespace_view()),
                encode_utf8(key@),
            ),
    {
        let ns = self.namespace.as_str().as_bytes_vec();
        if ns.len() > MAX_PREFIXED_LEN {
            return None;
        }
        let k = key.as_bytes_vec();
        Some(namespaced_key(ns.as_slice(), k.as_slice()))
    }

    /// The store key of the entry that index `idx` holds for `record` under
    /// `key`: the map's namespace, the index name and the record's secondary
    /// key, each length-prefixed, then the key's UTF-8 bytes. `None` where
    /// there is no index `idx` or a segment is too long for its length
    /// prefix.
    pub fn index_storage_key<R: IndexedRecord>(&self, idx: usize, key: &str, record: &R) -> (r: Option<
        Vec<u8>,
    >)
        ensures
            r is Some <==> {
                &&& idx < self.index_names_view().len()
                &&& encode_utf8(self.namespace_view()).len() <= MAX_PREFIXED_LEN
                &&& encode_utf8(self.index_names_view()[idx as int]).len() <= MAX_PREFIXED_LEN
                &&& R::index_key_spec(record@, idx as int).len() <= MAX_PREFIXED_LEN
            },
            r is Some ==> r->Some_0@ == index_entry_key_spec(
                encode_utf8(self.namespace_view()),
                encode_utf8(self.index_names_view()[idx as int]),
                R::index_key_spec(record@, idx as int),
                encode_utf8(key@),
            ),
    {
        if idx >= self.index_names.len() {
            return None;
        }
        let ns = self.namespace.as_str().as_bytes_vec();
        let name = self.index_names[idx].as_str().as_bytes_vec();
        let sk = record.index_key(idx);
        if ns.len() > MAX_PREFIXED_LEN || name.len() > MAX_PREFIXED_LEN || sk.len() > MAX_PREFIXED_LEN {
            return None;
        }
        let k = key.as_bytes_vec();
        Some(index_entry_key(ns.as_slice(), name.as_slice(), sk.as_slice(), k.as_slice()))
    }
}

/// The cursor of a page, as characters.
pub open spec fn after_view(start_after: Option<&str>) -> Option<Seq<char>> {
    match start_after {
        Some(a) => Some(a@),
        None => None,
    }
}

/// `k` lies past the cursor `after`.
pub open spec fn comes_after(after: Option<Seq<char>>, k: Seq<char>) -> bool {
    match after {
        Some(a) => key_lt(a, k),
        None => true,
    }
}

/// `s` is one page of a scan of index `idx` for `sk` on the records `m`: the
/// matching records past the cursor `after`, in strictly ascending key
/// order, at most `limit` of them, and where any is left out the page is
/// full and ends before it.
pub open spec fn is_index_page<R: IndexedRecord>(
    m: Map<Seq<char>, R::V>,
    idx: int,
    sk: Seq<u8>,
    after: Option<Seq<char>>,
    limit: int,
    s: Seq<(Seq<char>, R::V)>,
) -> bool {
    &&& s.len() <= limit
    &&& forall|a: int, b: int|
        0 <= a < b < s.len() ==> key_lt(#[trigger] s[a].0, #[trigger] s[b].0)
    &&& forall|a: int|
        0 <= a < s.len() ==> {
            &&& m.contains_key(#[trigger] s[a].0)
            &&& m[s[a].0] == s[a].1
            &&& R::index_key_spec(s[a].1, idx) == sk
            &&& comes_after(after, s[a].0)
        }
    &&& forall|k: Seq<char>|
        #[trigger] index_hits::<R>(m, idx, sk).contains(k) && comes_after(after, k) ==> (exists|a: int|
            0 <= a < s.len() && #[trigger] s[a].0 == k) || (s.len() == limit && (s.len() == 0
            || key_lt(s.last().0, k)))
}

/// `i` is the first position of `name` in `names`.
pub open spec fn is_first_position(names: Seq<Seq<char>>, name: Seq<char>, i: int) -> bool {
    &&& 0 <= i < names.len()
    &&& names[i] == name
    &&& forall|j: int| 0 <= j < i ==> names[j] != name
}

} // verus!
