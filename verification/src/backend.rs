//! An in-memory versioned backend carrying the capability surface the
//! adapter consumes: capability flags queried per call, byte-range reads,
//! whole-object writes, capability-gated deletes, flat and one-level
//! listings, per-key sizes, and snapshot commit/checkout.
//!
//! The namespace is a sequence of entries with pairwise-distinct, valid
//! keys; its mathematical model is the map from each key to its payload.
//! Existence is version-relative: a commit records the current namespace
//! as a snapshot, and a checkout replaces the namespace with a recorded
//! one.

use vstd::prelude::*;

verus! {

use crate::byte_range::{BackendRange, apply_backend_range, extract_range};
use crate::error::BackendError;
use crate::key::{bytes_eq, bytes_prefix_of, copy_bytes, valid_key_bytes, valid_prefix_bytes};
use crate::listing::{DirItem, dir_items_of, dir_items_valid, dir_listing_ok, matching_keys};
use crate::listing::views_of;
use vstd::pervasive::VecAdditionalExecFns;

/// The keys of a sequence of namespace entries, in order.
pub open spec fn entry_keys(s: Seq<(Vec<u8>, Vec<u8>)>) -> Seq<Seq<u8>> {
    s.map_values(|e: (Vec<u8>, Vec<u8>)| e.0@)
}

/// The map from each entry's key to its payload; a later entry for the
/// same key would win, but well-formed namespaces list each key once.
pub open spec fn map_of(s: Seq<(Vec<u8>, Vec<u8>)>) -> Map<Seq<u8>, Seq<u8>>
    decreases s.len(),
{
    if s.len() == 0 {
        Map::empty()
    } else {
        map_of(s.drop_last()).insert(s.last().0@, s.last().1@)
    }
}

/// Namespace entries are well formed: every key valid, no key twice.
pub open spec fn entries_wf(s: Seq<(Vec<u8>, Vec<u8>)>) -> bool {
    &&& forall|i: int, j: int| 0 <= i < j < s.len() ==> (#[trigger] s[i].0@) != (#[trigger] s[j].0@)
    &&& forall|i: int| 0 <= i < s.len() ==> valid_key_bytes((#[trigger] s[i]).0@)
}

/// A key is in the map exactly when some entry carries it.
pub proof fn lemma_map_of_contains(s: Seq<(Vec<u8>, Vec<u8>)>, k: Seq<u8>)
    ensures
        map_of(s).contains_key(k) <==> (exists|i: int| 0 <= i < s.len() && (#[trigger] s[i]).0@
            == k),
    decreases s.len(),
{
    if s.len() == 0 {
    } else {
        let dl = s.drop_last();
        lemma_map_of_contains(dl, k);
        if map_of(s).contains_key(k) {
            if k == s.last().0@ {
                assert(s[s.len() - 1].0@ == k);
            } else {
                assert(map_of(dl).contains_key(k));
                let i = choose|i: int| 0 <= i < dl.len() && (#[trigger] dl[i]).0@ == k;
                assert(s[i].0@ == k);
            }
        }
        if exists|i: int| 0 <= i < s.len() && (#[trigger] s[i]).0@ == k {
            let i = choose|i: int| 0 <= i < s.len() && (#[trigger] s[i]).0@ == k;
            if i < s.len() - 1 {
                assert(dl[i].0@ == k);
                assert(map_of(dl).contains_key(k));
            }
            assert(map_of(s).contains_key(k));
        }
    }
}

/// In a well-formed namespace the map sends each entry's key to that
/// entry's payload.
pub proof fn lemma_map_of_value(s: Seq<(Vec<u8>, Vec<u8>)>, i: int)
    requires
        entries_wf(s),
        0 <= i < s.len(),
    ensures
        map_of(s).contains_key(s[i].0@),
        map_of(s)[s[i].0@] == s[i].1@,
    decreases s.len(),
{
    if i == s.len() - 1 {
    } else {
        let dl = s.drop_last();
        assert(entries_wf(dl)) by {
            assert(forall|a: int| 0 <= a < dl.len() ==> dl[a] == s[a]);
        }
        assert(dl[i] == s[i]);
        lemma_map_of_value(dl, i);
        assert(s[i].0@ != s.last().0@);
    }
}

/// Replacing the payload of an entry updates exactly that key's image.
pub proof fn lemma_map_of_update(s: Seq<(Vec<u8>, Vec<u8>)>, i: int, e: (Vec<u8>, Vec<u8>))
    requires
        entries_wf(s),
        0 <= i < s.len(),
        e.0@ == s[i].0@,
    ensures
        map_of(s.update(i, e)) == map_of(s).insert(e.0@, e.1@),
    decreases s.len(),
{
    let u = s.update(i, e);
    if i == s.len() - 1 {
        assert(u.drop_last() =~= s.drop_last());
        assert(u.last() == e);
        assert(map_of(u) =~= map_of(s).insert(e.0@, e.1@));
    } else {
        let dl = s.drop_last();
        assert(entries_wf(dl)) by {
            assert(forall|a: int| 0 <= a < dl.len() ==> dl[a] == s[a]);
        }
        assert(dl[i] == s[i]);
        lemma_map_of_update(dl, i, e);
        assert(u.drop_last() =~= dl.update(i, e));
        assert(u.last() == s.last());
        assert(s[i].0@ != s.last().0@);
        assert(map_of(u) =~= map_of(s).insert(e.0@, e.1@));
    }
}

/// Removing an entry removes exactly that key from the map of a
/// well-formed namespace.
pub proof fn lemma_map_of_remove(s: Seq<(Vec<u8>, Vec<u8>)>, i: int)
    requires
        entries_wf(s),
        0 <= i < s.len(),
    ensures
        map_of(s.remove(i)) == map_of(s).remove(s[i].0@),
    decreases s.len(),
{
    let u = s.remove(i);
    if i == s.len() - 1 {
        assert(u =~= s.drop_last());
        lemma_map_of_contains(s.drop_last(), s[i].0@);
        assert(!map_of(s.drop_last()).contains_key(s[i].0@)) by {
            if exists|a: int|
                0 <= a < s.drop_last().len() && (#[trigger] s.drop_last()[a]).0@ == s[i].0@ {
                let a = choose|a: int|
                    0 <= a < s.drop_last().len() && (#[trigger] s.drop_last()[a]).0@ == s[i].0@;
                assert(s[a].0@ == s[i].0@);
            }
        }
        assert(map_of(u) =~= map_of(s).remove(s[i].0@));
    } else {
        let dl = s.drop_last();
        assert(entries_wf(dl)) by {
            assert(forall|a: int| 0 <= a < dl.len() ==> dl[a] == s[a]);
        }
        assert(dl[i] == s[i]);
        lemma_map_of_remove(dl, i);
        assert(u.drop_last() =~= dl.remove(i));
        assert(u.last() == s.last());
        assert(s[i].0@ != s.last().0@);
        assert(map_of(u) =~= map_of(s).remove(s[i].0@));
    }
}

/// Entries with elementwise equal keys and payloads have the same map and
/// the same key list.
pub proof fn lemma_map_of_congruent(a: Seq<(Vec<u8>, Vec<u8>)>, b: Seq<(Vec<u8>, Vec<u8>)>)
    requires
        a.len() == b.len(),
        forall|i: int|
            0 <= i < a.len() ==> (#[trigger] a[i]).0@ == (#[trigger] b[i]).0@ && a[i].1@ == b[i].1@,
    ensures
        map_of(a) == map_of(b),
        entry_keys(a) == entry_keys(b),
        entries_wf(a) == entries_wf(b),
    decreases a.len(),
{
    if a.len() == 0 {
        assert(map_of(a) =~= map_of(b));
        assert(entry_keys(a) =~= entry_keys(b));
    } else {
        let da = a.drop_last();
        let db = b.drop_last();
        assert(forall|i: int|
            0 <= i < da.len() ==> (#[trigger] da[i]) == a[i] && (#[trigger] db[i]) == b[i]);
        lemma_map_of_congruent(da, db);
        assert(map_of(a) =~= map_of(b));
        assert(entry_keys(a) =~= entry_keys(b));
        assert(entries_wf(a) == entries_wf(b)) by {
            if entries_wf(a) {
                assert forall|i: int, j: int|
                    0 <= i < j < b.len() implies (#[trigger] b[i].0@) != (#[trigger] b[j].0@) by {
                    assert(a[i].0@ != a[j].0@);
                }
                assert forall|i: int| 0 <= i < b.len() implies valid_key_bytes(
                    (#[trigger] b[i]).0@,
                ) by {
                    assert(valid_key_bytes(a[i].0@));
                }
            }
            if entries_wf(b) {
                assert forall|i: int, j: int|
                    0 <= i < j < a.len() implies (#[trigger] a[i].0@) != (#[trigger] a[j].0@) by {
                    assert(b[i].0@ != b[j].0@);
                }
                assert forall|i: int| 0 <= i < a.len() implies valid_key_bytes(
                    (#[trigger] a[i]).0@,
                ) by {
                    assert(valid_key_bytes(b[i].0@));
                }
            }
        }
    }
}

/// The capability flags of the two states agree.
pub open spec fn same_caps(a: MemoryBackend, b: MemoryBackend) -> bool {
    &&& a.deletes_enabled() == b.deletes_enabled()
    &&& a.partial_writes_enabled() == b.partial_writes_enabled()
    &&& a.sizes_enabled() == b.sizes_enabled()
}

/// The recorded snapshots of the two states agree.
pub open spec fn same_history(a: MemoryBackend, b: MemoryBackend) -> bool {
    &&& a.snapshot_count() == b.snapshot_count()
    &&& forall|v: int| 0 <= v < a.snapshot_count() ==> a.snapshot_ns(v) == b.snapshot_ns(v)
}

/// The length the backend reports for a key: the payload's length, and
/// nothing for an absent object.
pub open spec fn size_of_spec(ns: Map<Seq<u8>, Seq<u8>>, k: Seq<u8>) -> int {
    if ns.contains_key(k) {
        ns[k].len() as int
    } else {
        0
    }
}

/// The total of the lengths the backend reports for the given keys, in
/// listing order.
pub open spec fn total_size_spec(ns: Map<Seq<u8>, Seq<u8>>, keys: Seq<Seq<u8>>) -> int
    decreases keys.len(),
{
    if keys.len() == 0 {
        0
    } else {
        total_size_spec(ns, keys.drop_last()) + size_of_spec(ns, keys.last())
    }
}

/// The versioned store beneath the adapter: a namespace of byte payloads
/// at validated keys, recorded snapshots, and capability flags.
pub struct MemoryBackend {
    entries: Vec<(Vec<u8>, Vec<u8>)>,
    snapshots: Vec<Vec<(Vec<u8>, Vec<u8>)>>,
    deletes: bool,
    partial_writes: bool,
    sizes: bool,
}

impl MemoryBackend {
    /// The namespace of the checked-out version, as a map from key to
    /// payload.
    pub closed spec fn ns(&self) -> Map<Seq<u8>, Seq<u8>> {
        map_of(self.entries@)
    }

    /// The keys of the checked-out version, in listing order.
    pub closed spec fn key_list(&self) -> Seq<Seq<u8>> {
        entry_keys(self.entries@)
    }

    /// Whether the store supports deletes.
    pub closed spec fn deletes_enabled(&self) -> bool {
        self.deletes
    }

    /// Whether the store reports theoretical support for partial writes.
    pub closed spec fn partial_writes_enabled(&self) -> bool {
        self.partial_writes
    }

    /// Whether the store can report an object's byte length directly.
    pub closed spec fn sizes_enabled(&self) -> bool {
        self.sizes
    }

    /// How many snapshots have been recorded.
    pub closed spec fn snapshot_count(&self) -> int {
        self.snapshots@.len() as int
    }

    /// The namespace a recorded snapshot holds.
    pub closed spec fn snapshot_ns(&self, v: int) -> Map<Seq<u8>, Seq<u8>> {
        map_of(self.snapshots@[v]@)
    }

    /// The namespace and every snapshot are well formed.
    pub closed spec fn wf(&self) -> bool {
        &&& entries_wf(self.entries@)
        &&& forall|v: int| 0 <= v < self.snapshots@.len() ==> entries_wf(
            (#[trigger] self.snapshots@[v])@,
        )
    }

    /// What ties the listing order to the namespace: each key once, each
    /// valid, and exactly the keys the namespace holds.
    pub proof fn lemma_key_list(&self)
        requires
            self.wf(),
        ensures
            self.key_list().no_duplicates(),
            forall|i: int|
                0 <= i < self.key_list().len() ==> valid_key_bytes(#[trigger] self.key_list()[i]),
            forall|k: Seq<u8>| self.ns().contains_key(k) <==> self.key_list().contains(k),
    {
        let s = self.entries@;
        let kl = self.key_list();
        assert(forall|i: int| 0 <= i < kl.len() ==> kl[i] == (#[trigger] s[i]).0@);
        assert forall|a: int, b: int|
            0 <= a < kl.len() && 0 <= b < kl.len() && a != b implies kl[a] != kl[b] by {
            if a < b {
                assert(s[a].0@ != s[b].0@);
            } else {
                assert(s[b].0@ != s[a].0@);
            }
        }
        assert forall|k: Seq<u8>| self.ns().contains_key(k) <==> self.key_list().contains(k) by {
            lemma_map_of_contains(s, k);
            if exists|i: int| 0 <= i < s.len() && (#[trigger] s[i]).0@ == k {
                let i = choose|i: int| 0 <= i < s.len() && (#[trigger] s[i]).0@ == k;
                assert(kl[i] == k);
            }
            if kl.contains(k) {
                let i = choose|i: int| 0 <= i < kl.len() && kl[i] == k;
                assert(s[i].0@ == k);
            }
        }
    }

    /// A fresh backend with an empty namespace, no snapshots, and the
    /// given capability flags.
    pub fn new(deletes: bool, partial_writes: bool, sizes: bool) -> (r: MemoryBackend)
        ensures
            r.wf(),
            r.ns() == Map::<Seq<u8>, Seq<u8>>::empty(),
            r.key_list() == Seq::<Seq<u8>>::empty(),
            r.snapshot_count() == 0,
            r.deletes_enabled() == deletes,
            r.partial_writes_enabled() == partial_writes,
            r.sizes_enabled() == sizes,
    {
        let r = MemoryBackend {
            entries: Vec::new(),
            snapshots: Vec::new(),
            deletes,
            partial_writes,
            sizes,
        };
        proof {
            assert(r.key_list() =~= Seq::<Seq<u8>>::empty());
        }
        r
    }

    /// Queries the delete capability; the answer may differ between calls
    /// on other stores, so callers must not cache it.
    pub fn supports_deletes(&self) -> (r: Result<bool, BackendError>)
        ensures
            r matches Ok(b) && b == self.deletes_enabled(),
    {
        Ok(self.deletes)
    }

    /// Queries the partial-write capability.
    pub fn supports_partial_writes(&self) -> (r: Result<bool, BackendError>)
        ensures
            r matches Ok(b) && b == self.partial_writes_enabled(),
    {
        Ok(self.partial_writes)
    }

    /// Queries whether direct size reporting is available.
    pub fn supports_sizes(&self) -> (r: Result<bool, BackendError>)
        ensures
            r matches Ok(b) && b == self.sizes_enabled(),
    {
        Ok(self.sizes)
    }

    fn find(&self, key: &Vec<u8>) -> (r: Option<usize>)
        ensures
            match r {
                Some(i) => 0 <= i < self.entries@.len() && self.entries@[i as int].0@ == key@,
                None => forall|j: int|
                    0 <= j < self.entries@.len() ==> (#[trigger] self.entries@[j]).0@ != key@,
            },
    {
        let mut i: usize = 0;
        while i < self.entries.len()
            invariant
                i <= self.entries@.len(),
                forall|j: int| 0 <= j < i ==> (#[trigger] self.entries@[j]).0@ != key@,
            decreases self.entries@.len() - i,
        {
            if bytes_eq(&self.entries[i].0, key) {
                return Some(i);
            }
            i += 1;
        }
        None
    }

    /// Reads the selected bytes of the object at `key` in the checked-out
    /// version; an absent object is a not-found outcome.
    pub fn get(&self, key: &Vec<u8>, range: &BackendRange) -> (r: Result<Vec<u8>, BackendError>)
        requires
            self.wf(),
        ensures
            self.ns().contains_key(key@) ==> (r matches Ok(v) && v@ == apply_backend_range(
                self.ns()[key@],
                *range,
            )),
            !self.ns().contains_key(key@) ==> (r matches Err(e) && e.kind is NotFound),
    {
        proof {
            lemma_map_of_contains(self.entries@, key@);
        }
        match self.find(key) {
            Some(i) => {
                proof {
                    lemma_map_of_value(self.entries@, i as int);
                }
                Ok(extract_range(&self.entries[i].1, range))
            },
            None => Err(
                BackendError::not_found(
                    "object not found in the checked-out version".to_owned(),
                ),
            ),
        }
    }

    /// Reads several selected ranges of the one object at `key` in a
    /// single call; an absent object is a not-found outcome for the whole
    /// batch.
    pub fn get_partial_values(&self, key: &Vec<u8>, ranges: &Vec<BackendRange>) -> (r: Result<
        Vec<Result<Vec<u8>, BackendError>>,
        BackendError,
    >)
        requires
            self.wf(),
        ensures
            self.ns().contains_key(key@) ==> (r matches Ok(rs) && rs@.len() == ranges@.len() && (
            forall|i: int|
                0 <= i < rs@.len() ==> (#[trigger] rs@[i] matches Ok(v) && v@
                    == apply_backend_range(self.ns()[key@], ranges@[i])))),
            !self.ns().contains_key(key@) ==> (r matches Err(e) && e.kind is NotFound),
    {
        proof {
            lemma_map_of_contains(self.entries@, key@);
        }
        match self.find(key) {
            Some(i) => {
                proof {
                    lemma_map_of_value(self.entries@, i as int);
                }
                let mut out: Vec<Result<Vec<u8>, BackendError>> = Vec::new();
                let mut j: usize = 0;
                while j < ranges.len()
                    invariant
                        j <= ranges@.len(),
                        out@.len() == j,
                        0 <= i < self.entries@.len(),
                        self.wf(),
                        self.ns().contains_key(key@),
                        self.ns()[key@] == self.entries@[i as int].1@,
                        forall|a: int|
                            0 <= a < j ==> (#[trigger] out@[a] matches Ok(v) && v@
                                == apply_backend_range(self.ns()[key@], ranges@[a])),
                    decreases ranges@.len() - j,
                {
                    out.push(Ok(extract_range(&self.entries[i].1, &ranges[j])));
                    j += 1;
                }
                Ok(out)
            },
            None => Err(
                BackendError::not_found(
                    "object not found in the checked-out version".to_owned(),
                ),
            ),
        }
    }

    /// Reports the byte length of the object at `key`; an absent object
    /// reports no length. Callable only when the store supports direct
    /// size queries.
    pub fn getsize(&self, key: &Vec<u8>) -> (r: Result<u64, BackendError>)
        requires
            self.wf(),
            self.sizes_enabled(),
        ensures
            r matches Ok(n) && n == size_of_spec(self.ns(), key@),
    {
        proof {
            lemma_map_of_contains(self.entries@, key@);
        }
        match self.find(key) {
            Some(i) => {
                proof {
                    lemma_map_of_value(self.entries@, i as int);
                }
                Ok(self.entries[i].1.len() as u64)
            },
            None => Ok(0),
        }
    }

    /// Writes or overwrites the whole object at `key`.
    pub fn set(&mut self, key: &Vec<u8>, value: Vec<u8>) -> (r: Result<(), BackendError>)
        requires
            old(self).wf(),
            valid_key_bytes(key@),
        ensures
            final(self).wf(),
            r is Ok,
            final(self).ns() == old(self).ns().insert(key@, value@),
            final(self).key_list() == (if old(self).ns().contains_key(key@) {
                old(self).key_list()
            } else {
                old(self).key_list().push(key@)
            }),
            same_caps(*old(self), *final(self)),
            same_history(*old(self), *final(self)),
    {
        proof {
            lemma_map_of_contains(self.entries@, key@);
        }
        let kb = copy_bytes(key);
        let ghost s0 = self.entries@;
        match self.find(key) {
            Some(i) => {
                self.entries.set(i, (kb, value));
                proof {
                    let e = self.entries@[i as int];
                    assert(self.entries@ == s0.update(i as int, e));
                    lemma_map_of_update(s0, i as int, e);
                    assert forall|a: int, b: int|
                        0 <= a < b < self.entries@.len() implies (#[trigger] self.entries@[a].0@)
                        != (#[trigger] self.entries@[b].0@) by {
                        assert(self.entries@[a].0@ == s0[a].0@);
                        assert(self.entries@[b].0@ == s0[b].0@);
                    }
                    assert forall|a: int| 0 <= a < self.entries@.len() implies valid_key_bytes(
                        (#[trigger] self.entries@[a]).0@,
                    ) by {
                        assert(self.entries@[a].0@ == s0[a].0@);
                    }
                    assert(self.key_list() =~= entry_keys(s0));
                }
            },
            None => {
                self.entries.push((kb, value));
                proof {
                    assert(self.entries@.drop_last() =~= s0);
                    assert(self.entries@.last() == (kb, value));
                    assert(!old(self).ns().contains_key(key@));
                    assert forall|a: int, b: int|
                        0 <= a < b < self.entries@.len() implies (#[trigger] self.entries@[a].0@)
                        != (#[trigger] self.entries@[b].0@) by {
                        if b < s0.len() {
                            assert(self.entries@[a] == s0[a] && self.entries@[b] == s0[b]);
                        } else {
                            assert(self.entries@[a] == s0[a]);
                            assert(self.entries@[b].0@ == key@);
                        }
                    }
                    assert forall|a: int| 0 <= a < self.entries@.len() implies valid_key_bytes(
                        (#[trigger] self.entries@[a]).0@,
                    ) by {
                        if a < s0.len() {
                            assert(self.entries@[a] == s0[a]);
                        }
                    }
                    assert(self.key_list() =~= entry_keys(s0).push(key@));
                }
            },
        }
        Ok(())
    }

    /// Deletes the object at `key`; an absent object is a not-found
    /// outcome, and nothing changes.
    pub fn delete(&mut self, key: &Vec<u8>) -> (r: Result<(), BackendError>)
        requires
            old(self).wf(),
        ensures
            final(self).wf(),
            same_caps(*old(self), *final(self)),
            same_history(*old(self), *final(self)),
            old(self).ns().contains_key(key@) ==> (r is Ok && final(self).ns() == old(
                self,
            ).ns().remove(key@)),
            !old(self).ns().contains_key(key@) ==> (r matches Err(e) && e.kind is NotFound
                && *final(self) == *old(self)),
    {
        proof {
            lemma_map_of_contains(self.entries@, key@);
        }
        let ghost s0 = self.entries@;
        match self.find(key) {
            Some(i) => {
                self.entries.remove(i);
                proof {
                    lemma_map_of_remove(s0, i as int);
                    assert(self.entries@ == s0.remove(i as int));
                    let u = self.entries@;
                    assert forall|a: int, b: int|
                        0 <= a < b < u.len() implies (#[trigger] u[a].0@) != (
                    #[trigger] u[b].0@) by {
                        let a0: int = if a < i { a } else { a + 1 };
                        let b0: int = if b < i { b } else { b + 1 };
                        assert(u[a] == s0[a0]);
                        assert(u[b] == s0[b0]);
                    }
                    assert forall|a: int| 0 <= a < u.len() implies valid_key_bytes(
                        (#[trigger] u[a]).0@,
                    ) by {
                        let a0: int = if a < i { a } else { a + 1 };
                        assert(u[a] == s0[a0]);
                    }
                }
                Ok(())
            },
            None => Err(
                BackendError::not_found(
                    "object not found in the checked-out version".to_owned(),
                ),
            ),
        }
    }

    /// Lists every key in the namespace, as the raw strings the backend
    /// stores.
    pub fn list(&self) -> (r: Result<Vec<Vec<u8>>, BackendError>)
        requires
            self.wf(),
        ensures
            r matches Ok(ks) && views_of(ks@) == self.key_list(),
    {
        let mut out: Vec<Vec<u8>> = Vec::new();
        let mut i: usize = 0;
        while i < self.entries.len()
            invariant
                i <= self.entries@.len(),
                out@.len() == i,
                forall|j: int| 0 <= j < i ==> (#[trigger] out@[j])@ == self.entries@[j].0@,
            decreases self.entries@.len() - i,
        {
            out.push(copy_bytes(&self.entries[i].0));
            i += 1;
        }
        proof {
            assert(views_of(out@) =~= self.key_list());
        }
        Ok(out)
    }

    /// Lists every key under `prefix`, as raw strings, in listing order.
    pub fn list_prefix(&self, prefix: &Vec<u8>) -> (r: Result<Vec<Vec<u8>>, BackendError>)
        requires
            self.wf(),
        ensures
            r matches Ok(ks) && views_of(ks@) == matching_keys(self.key_list(), prefix@),
    {
        let ghost kl = self.key_list();
        let mut out: Vec<Vec<u8>> = Vec::new();
        let mut i: usize = 0;
        while i < self.entries.len()
            invariant
                i <= self.entries@.len(),
                kl == self.key_list(),
                self.wf(),
                views_of(out@) == matching_keys(kl.take(i as int), prefix@),
            decreases self.entries@.len() - i,
        {
            let ghost prev = out@;
            proof {
                assert(kl.take(i + 1).drop_last() =~= kl.take(i as int));
                assert(kl.take(i + 1).last() == kl[i as int]);
                assert(kl[i as int] == self.entries@[i as int].0@);
            }
            if bytes_prefix_of(prefix, &self.entries[i].0) {
                out.push(copy_bytes(&self.entries[i].0));
                proof {
                    assert(views_of(out@) =~= views_of(prev).push(kl[i as int]));
                    assert(matching_keys(kl.take(i + 1), prefix@) =~= matching_keys(
                        kl.take(i as int),
                        prefix@,
                    ).push(kl[i as int]));
                }
            } else {
                proof {
                    assert(matching_keys(kl.take(i + 1), prefix@) =~= matching_keys(
                        kl.take(i as int),
                        prefix@,
                    ));
                }
            }
            i += 1;
        }
        proof {
            assert(kl.take(kl.len() as int) =~= kl);
        }
        Ok(out)
    }

    /// Lists one level of the hierarchy under `prefix`: the keys directly
    /// under it, and each deeper child scope once.
    pub fn list_dir_items(&self, prefix: &Vec<u8>) -> (r: Result<Vec<DirItem>, BackendError>)
        requires
            self.wf(),
            valid_prefix_bytes(prefix@),
        ensures
            r matches Ok(items) && dir_listing_ok(items@, self.key_list(), prefix@)
                && dir_items_valid(items@),
    {
        proof {
            self.lemma_key_list();
        }
        let keys = match self.list() {
            Ok(ks) => ks,
            Err(e) => {
                return Err(e);
            },
        };
        proof {
            assert forall|i: int| 0 <= i < keys@.len() implies valid_key_bytes(
                (#[trigger] keys@[i])@,
            ) by {
                assert(keys@[i]@ == views_of(keys@)[i]);
            }
        }
        let items = dir_items_of(&keys, prefix);
        Ok(items)
    }

    /// Records the current namespace as a new snapshot and hands back its
    /// identifier; the namespace itself does not change.
    pub fn commit(&mut self) -> (v: usize)
        requires
            old(self).wf(),
        ensures
            final(self).wf(),
            v as int == old(self).snapshot_count(),
            final(self).snapshot_count() == old(self).snapshot_count() + 1,
            final(self).ns() == old(self).ns(),
            final(self).key_list() == old(self).key_list(),
            same_caps(*old(self), *final(self)),
            forall|w: int|
                0 <= w < old(self).snapshot_count() ==> final(self).snapshot_ns(w) == old(
                    self,
                ).snapshot_ns(w),
            final(self).snapshot_ns(old(self).snapshot_count()) == old(self).ns(),
    {
        let v = self.snapshots.len();
        let ghost s0 = self.entries@;
        let mut record: Vec<(Vec<u8>, Vec<u8>)> = Vec::new();
        let mut i: usize = 0;
        while i < self.entries.len()
            invariant
                i <= self.entries@.len(),
                self.entries@ == s0,
                record@.len() == i,
                forall|j: int|
                    0 <= j < i ==> (#[trigger] record@[j]).0@ == s0[j].0@ && record@[j].1@
                        == s0[j].1@,
            decreases self.entries@.len() - i,
        {
            let kb = copy_bytes(&self.entries[i].0);
            let vb = copy_bytes(&self.entries[i].1);
            record.push((kb, vb));
            i += 1;
        }
        proof {
            lemma_map_of_congruent(record@, s0);
        }
        let ghost snaps0 = self.snapshots@;
        self.snapshots.push(record);
        proof {
            assert forall|w: int|
                0 <= w < self.snapshots@.len() implies entries_wf(
                (#[trigger] self.snapshots@[w])@,
            ) by {
                if w < snaps0.len() {
                    assert(self.snapshots@[w] == snaps0[w]);
                }
            }
            assert forall|w: int| 0 <= w < snaps0.len() implies final(self).snapshot_ns(w) == old(
                self,
            ).snapshot_ns(w) by {
                assert(self.snapshots@[w] == snaps0[w]);
            }
        }
        v
    }

    /// Replaces the namespace with the one a recorded snapshot holds; an
    /// unknown snapshot identifier is a not-found outcome, and nothing
    /// changes.
    pub fn checkout(&mut self, v: usize) -> (r: Result<(), BackendError>)
        requires
            old(self).wf(),
        ensures
            final(self).wf(),
            same_caps(*old(self), *final(self)),
            same_history(*old(self), *final(self)),
            (v as int) < old(self).snapshot_count() ==> (r is Ok && final(self).ns() == old(
                self,
            ).snapshot_ns(v as int)),
            (v as int) >= old(self).snapshot_count() ==> (r matches Err(e) && e.kind is NotFound
                && *final(self) == *old(self)),
    {
        if v < self.snapshots.len() {
            let ghost snap = self.snapshots@[v as int]@;
            let mut restored: Vec<(Vec<u8>, Vec<u8>)> = Vec::new();
            let mut i: usize = 0;
            while i < self.snapshots[v].len()
                invariant
                    (v as int) < self.snapshots@.len(),
                    snap == self.snapshots@[v as int]@,
                    i <= snap.len(),
                    restored@.len() == i,
                    forall|j: int|
                        0 <= j < i ==> (#[trigger] restored@[j]).0@ == snap[j].0@ && restored@[j].1@
                            == snap[j].1@,
                decreases snap.len() - i,
            {
                let kb = copy_bytes(&self.snapshots[v][i].0);
                let vb = copy_bytes(&self.snapshots[v][i].1);
                restored.push((kb, vb));
                i += 1;
            }
            proof {
                lemma_map_of_congruent(restored@, snap);
            }
            self.entries = restored;
            Ok(())
        } else {
            Err(BackendError::not_found("no such snapshot".to_owned()))
        }
    }
}

} // verus!
