//! The storage adapter facade: the exclusive public surface over a
//! backend handle.
//!
//! Every operation observes the backend's current checked-out version.
//! Reads surface absence as `None`, never as an error; deletes treat
//! absence as a successful no-op; capability-gated operations query the
//! backend's flags fresh on every call; and version changes (commit,
//! checkout) pass through to the backend via the same handle, outside the
//! storage surface itself.

use vstd::prelude::*;

verus! {

use crate::aggregate::{all_ok, sum_of_sizes, sum_size_results};
use crate::backend::{
    MemoryBackend,
    same_caps,
    same_history,
    size_of_spec,
    total_size_spec,
};
use crate::byte_range::{
    BackendRange,
    ByteRange,
    apply_backend_range,
    representable,
    translate,
    translate_spec,
};
use crate::error::{BackendError, StorageError, handle_err, handle_result, handle_result_notfound};
use crate::guard::{refuse_partial_writes, require_deletes, require_sizes};
use crate::key::{Key, Prefix, copy_bytes, prefix_matches, valid_key_bytes};
use crate::listing::{
    DirItem,
    child_prefix_of,
    collect_keys,
    dir_items_valid,
    is_immediate_key,
    is_nested_key,
    item_key_views,
    item_prefix_views,
    lemma_item_views_push,
    matching_keys,
    lemma_matching_keys,
    views_of,
};

/// The views of a sequence of keys.
pub open spec fn key_views(ks: Seq<Key>) -> Seq<Seq<u8>> {
    ks.map_values(|k: Key| k@)
}

/// The views of a sequence of prefixes.
pub open spec fn prefix_views(ps: Seq<Prefix>) -> Seq<Seq<u8>> {
    ps.map_values(|p: Prefix| p@)
}

/// What a one-level directory listing must hold, stated over the views of
/// its two sides: exactly the keys directly under `p`, and exactly the
/// child scopes of the deeper keys, each once.
pub open spec fn dir_view_ok(
    keys: Seq<Seq<u8>>,
    prefixes: Seq<Seq<u8>>,
    ks: Seq<Seq<u8>>,
    p: Seq<u8>,
) -> bool {
    &&& keys.no_duplicates()
    &&& forall|q: Seq<u8>|
        keys.contains(q) <==> (exists|i: int|
            0 <= i < ks.len() && #[trigger] ks[i] == q && is_immediate_key(p, q))
    &&& prefixes.no_duplicates()
    &&& forall|q: Seq<u8>|
        prefixes.contains(q) <==> (exists|i: int|
            0 <= i < ks.len() && is_nested_key(p, #[trigger] ks[i]) && child_prefix_of(p, ks[i])
                == q)
}

/// A one-level directory listing, partitioned into the keys and the child
/// prefixes directly under the requested scope.
pub struct KeysPrefixes {
    pub keys: Vec<Key>,
    pub prefixes: Vec<Prefix>,
}

/// Translates every requested range into the backend's addressing form,
/// in request order; the first unrepresentable shape fails the whole
/// request.
pub fn translate_ranges(ranges: &Vec<ByteRange>) -> (r: Result<Vec<BackendRange>, StorageError>)
    ensures
        (forall|i: int| 0 <= i < ranges@.len() ==> representable(#[trigger] ranges@[i])) ==> (
        r matches Ok(bs) && bs@.len() == ranges@.len() && (forall|i: int|
            0 <= i < bs@.len() ==> #[trigger] bs@[i] == translate_spec(ranges@[i]))),
        (exists|i: int| 0 <= i < ranges@.len() && !representable(#[trigger] ranges@[i])) ==> (
        r matches Err(e) && e is Unsupported),
{
    let mut out: Vec<BackendRange> = Vec::new();
    let mut i: usize = 0;
    while i < ranges.len()
        invariant
            i <= ranges@.len(),
            out@.len() == i,
            forall|j: int| 0 <= j < i ==> representable(#[trigger] ranges@[j]),
            forall|j: int| 0 <= j < i ==> #[trigger] out@[j] == translate_spec(ranges@[j]),
        decreases ranges@.len() - i,
    {
        match translate(&ranges[i]) {
            Ok(b) => {
                out.push(b);
            },
            Err(e) => {
                assert(!representable(ranges@[i as int]));
                return Err(e);
            },
        }
        i += 1;
    }
    Ok(out)
}

/// Unpacks the per-range results of a batched read on a resolved key, in
/// request order. A per-range failure once the key was resolved — even a
/// not-found — is a backend contract violation and aborts the whole call
/// with an opaque error; no range is silently substituted.
pub fn unpack_partial(results: &Vec<Result<Vec<u8>, BackendError>>) -> (r: Result<
    Vec<Vec<u8>>,
    StorageError,
>)
    ensures
        (forall|i: int| 0 <= i < results@.len() ==> #[trigger] results@[i] is Ok) ==> (
        r matches Ok(vs) && vs@.len() == results@.len() && (forall|i: int|
            0 <= i < vs@.len() ==> (results@[i] matches Ok(v) && (#[trigger] vs@[i])@ == v@))),
        (exists|i: int| 0 <= i < results@.len() && !(#[trigger] results@[i] is Ok)) ==> (
        r matches Err(e) && e is Other),
{
    let mut out: Vec<Vec<u8>> = Vec::new();
    let mut i: usize = 0;
    while i < results.len()
        invariant
            i <= results@.len(),
            out@.len() == i,
            forall|j: int| 0 <= j < i ==> #[trigger] results@[j] is Ok,
            forall|j: int|
                0 <= j < i ==> (results@[j] matches Ok(v) && (#[trigger] out@[j])@ == v@),
        decreases results@.len() - i,
    {
        match &results[i] {
            Ok(v) => {
                out.push(copy_bytes(v));
            },
            Err(_) => {
                return Err(
                    StorageError::Other(
                        "a resolved key reported a missing range".to_owned(),
                    ),
                );
            },
        }
        i += 1;
    }
    Ok(out)
}

/// The storage adapter. It owns the handle to the backend; all operations
/// go through that one logical instance and observe its state at call
/// time.
pub struct StorageAdapter {
    backend: MemoryBackend,
}

impl StorageAdapter {
    /// The backend handle's current state.
    pub closed spec fn model(&self) -> MemoryBackend {
        self.backend
    }

    /// The adapter is well formed when its backend is.
    pub open spec fn wf(&self) -> bool {
        self.model().wf()
    }

    /// The namespace of the checked-out version.
    pub open spec fn ns(&self) -> Map<Seq<u8>, Seq<u8>> {
        self.model().ns()
    }

    /// The keys of the checked-out version, in listing order.
    pub open spec fn key_list(&self) -> Seq<Seq<u8>> {
        self.model().key_list()
    }

    /// Whether the backend supports deletes.
    pub open spec fn deletes_enabled(&self) -> bool {
        self.model().deletes_enabled()
    }

    /// Whether the backend reports theoretical partial-write support.
    pub open spec fn partial_writes_enabled(&self) -> bool {
        self.model().partial_writes_enabled()
    }

    /// Whether the backend can report sizes directly.
    pub open spec fn sizes_enabled(&self) -> bool {
        self.model().sizes_enabled()
    }

    /// Creates a new adapter over the given backend handle.
    pub fn new(backend: MemoryBackend) -> (r: StorageAdapter)
        ensures
            r.model() == backend,
    {
        StorageAdapter { backend }
    }

    /// Hands out the backend handle, for the versioning calls (commit,
    /// checkout) that pass through outside the storage surface.
    pub fn session(&mut self) -> (r: &mut MemoryBackend)
        ensures
            *r == old(self).model(),
            final(self).model() == *final(r),
    {
        &mut self.backend
    }

    /// Fetches the whole object at `key`; absence maps to `None`, not an
    /// error.
    pub fn get(&self, key: &Key) -> (r: Result<Option<Vec<u8>>, StorageError>)
        requires
            self.wf(),
            key.wf(),
        ensures
            self.ns().contains_key(key@) ==> (r matches Ok(o) && o matches Some(v) && v@
                == self.ns()[key@]),
            !self.ns().contains_key(key@) ==> (r matches Ok(o) && o is None),
    {
        let result = self.backend.get(key.as_bytes(), &BackendRange::OffsetToEnd(0));
        proof {
            if self.ns().contains_key(key@) {
                assert(self.ns()[key@].skip(0) =~= self.ns()[key@]);
            }
        }
        handle_result_notfound(result)
    }

    /// Reads an ordered list of byte ranges of the one object at `key`:
    /// translates each range, issues one batched backend call, and
    /// unpacks the per-range results in request order. An absent object
    /// makes the whole call `None`; an unrepresentable range shape fails
    /// before any backend call.
    pub fn get_partial_values_key(&self, key: &Key, byte_ranges: &Vec<ByteRange>) -> (r: Result<
        Option<Vec<Vec<u8>>>,
        StorageError,
    >)
        requires
            self.wf(),
            key.wf(),
        ensures
            (exists|i: int|
                0 <= i < byte_ranges@.len() && !representable(#[trigger] byte_ranges@[i])) ==> (
            r matches Err(e) && e is Unsupported),
            (forall|i: int| 0 <= i < byte_ranges@.len() ==> representable(#[trigger] byte_ranges@[i]))
                ==> (if self.ns().contains_key(key@) {
                r matches Ok(o) && o matches Some(vs) && vs@.len() == byte_ranges@.len() && (
                forall|i: int|
                    0 <= i < vs@.len() ==> (#[trigger] vs@[i])@ == apply_backend_range(
                        self.ns()[key@],
                        translate_spec(byte_ranges@[i]),
                    ))
            } else {
                r matches Ok(o) && o is None
            }),
    {
        let backend_ranges = match translate_ranges(byte_ranges) {
            Ok(bs) => bs,
            Err(e) => {
                return Err(e);
            },
        };
        let result = self.backend.get_partial_values(key.as_bytes(), &backend_ranges);
        match handle_result_notfound(result) {
            Ok(None) => Ok(None),
            Ok(Some(rs)) => match unpack_partial(&rs) {
                Ok(vs) => Ok(Some(vs)),
                Err(e) => Err(e),
            },
            Err(e) => Err(e),
        }
    }

    /// Reports the object's byte length when the backend can answer size
    /// queries directly; otherwise the operation is unsupported — size
    /// queries are not always available, let alone cheap.
    pub fn size_key(&self, key: &Key) -> (r: Result<Option<u64>, StorageError>)
        requires
            self.wf(),
            key.wf(),
        ensures
            !self.sizes_enabled() ==> (r matches Err(e) && e is Unsupported),
            self.sizes_enabled() ==> (r matches Ok(o) && o matches Some(n) && n == size_of_spec(
                self.ns(),
                key@,
            )),
    {
        let supported = match self.backend.supports_sizes() {
            Ok(b) => b,
            Err(e) => {
                return Err(handle_err(e));
            },
        };
        match require_sizes(supported) {
            Ok(()) => {},
            Err(e) => {
                return Err(e);
            },
        }
        match handle_result(self.backend.getsize(key.as_bytes())) {
            Ok(n) => Ok(Some(n)),
            Err(e) => Err(e),
        }
    }

    /// Writes or overwrites the whole object at `key`. Always supported:
    /// no capability gate.
    pub fn set(&mut self, key: &Key, value: Vec<u8>) -> (r: Result<(), StorageError>)
        requires
            old(self).wf(),
            key.wf(),
        ensures
            final(self).wf(),
            r is Ok,
            final(self).ns() == old(self).ns().insert(key@, value@),
            final(self).key_list() == (if old(self).ns().contains_key(key@) {
                old(self).key_list()
            } else {
                old(self).key_list().push(key@)
            }),
            same_caps(old(self).model(), final(self).model()),
            same_history(old(self).model(), final(self).model()),
    {
        match handle_result(self.backend.set(key.as_bytes(), value)) {
            Ok(()) => Ok(()),
            Err(e) => Err(e),
        }
    }

    /// Writing a sub-range of an existing object in place always fails
    /// unsupported, whatever the backend's flag says: the adapter never
    /// implements the encoding needed to use that capability safely.
    pub fn set_partial_values(&self, _key_start_values: &Vec<(Key, u64, Vec<u8>)>) -> (r: Result<
        (),
        StorageError,
    >)
        requires
            self.wf(),
        ensures
            r matches Err(e) && e is Unsupported,
    {
        let supported = match self.backend.supports_partial_writes() {
            Ok(b) => b,
            Err(e) => {
                return Err(handle_err(e));
            },
        };
        match refuse_partial_writes(supported) {
            Ok(()) => Ok(()),
            Err(e) => Err(e),
        }
    }

    /// Erases the object at `key`. Capability-gated: an unsupported
    /// backend fails; with support, absence is a successful no-op.
    pub fn erase(&mut self, key: &Key) -> (r: Result<(), StorageError>)
        requires
            old(self).wf(),
            key.wf(),
        ensures
            final(self).wf(),
            same_caps(old(self).model(), final(self).model()),
            same_history(old(self).model(), final(self).model()),
            !old(self).deletes_enabled() ==> (r matches Err(e) && e is Unsupported && final(self).ns() == old(self).ns()),
            old(self).deletes_enabled() ==> (r is Ok && final(self).ns() == old(self).ns().remove(
                key@,
            )),
    {
        let supported = match self.backend.supports_deletes() {
            Ok(b) => b,
            Err(e) => {
                return Err(handle_err(e));
            },
        };
        match require_deletes(supported) {
            Ok(()) => {},
            Err(e) => {
                return Err(e);
            },
        }
        let result = self.backend.delete(key.as_bytes());
        proof {
            if !old(self).ns().contains_key(key@) {
                assert(old(self).ns().remove(key@) =~= old(self).ns());
            }
        }
        match handle_result_notfound(result) {
            Ok(_) => Ok(()),
            Err(e) => Err(e),
        }
    }

    /// Erases every object under `prefix`, one delete per key.
    /// Capability-gated like `erase`. Not atomic: a failure partway
    /// through would leave an undefined subset erased.
    pub fn erase_prefix(&mut self, prefix: &Prefix) -> (r: Result<(), StorageError>)
        requires
            old(self).wf(),
            prefix.wf(),
        ensures
            final(self).wf(),
            same_caps(old(self).model(), final(self).model()),
            same_history(old(self).model(), final(self).model()),
            !old(self).deletes_enabled() ==> (r matches Err(e) && e is Unsupported && final(self).ns() == old(self).ns()),
            old(self).deletes_enabled() ==> (r is Ok && final(self).ns() == old(
                self,
            ).ns().remove_keys(Set::new(|k: Seq<u8>| prefix_matches(prefix@, k)))),
    {
        let supported = match self.backend.supports_deletes() {
            Ok(b) => b,
            Err(e) => {
                return Err(handle_err(e));
            },
        };
        match require_deletes(supported) {
            Ok(()) => {},
            Err(e) => {
                return Err(e);
            },
        }
        let raw = match handle_result(self.backend.list_prefix(prefix.as_bytes())) {
            Ok(ks) => ks,
            Err(e) => {
                return Err(e);
            },
        };
        let ghost m = Set::new(|k: Seq<u8>| prefix_matches(prefix@, k));
        let ghost listed = views_of(raw@);
        proof {
            old(self).model().lemma_key_list();
            lemma_matching_keys(old(self).key_list(), prefix@);
            assert(listed.no_duplicates());
            assert forall|j: int| 0 <= j < listed.len() implies old(self).ns().contains_key(
                #[trigger] listed[j],
            ) by {
                assert(listed.contains(listed[j]));
                assert(matching_keys(old(self).key_list(), prefix@).contains(listed[j]));
                assert(old(self).key_list().contains(listed[j]));
            }
        }
        let mut i: usize = 0;
        while i < raw.len()
            invariant
                i <= raw@.len(),
                listed == views_of(raw@),
                listed == matching_keys(old(self).key_list(), prefix@),
                listed.no_duplicates(),
                forall|j: int| 0 <= j < listed.len() ==> old(self).ns().contains_key(
                    #[trigger] listed[j],
                ),
                self.backend.wf(),
                same_caps(old(self).model(), self.model()),
                same_history(old(self).model(), self.model()),
                self.ns() == old(self).ns().remove_keys(listed.take(i as int).to_set()),
            decreases raw@.len() - i,
        {
            let ghost before = self.ns();
            proof {
                assert(listed[i as int] == raw@[i as int]@);
                assert(!listed.take(i as int).to_set().contains(listed[i as int])) by {
                    if listed.take(i as int).contains(listed[i as int]) {
                        let w = choose|w: int|
                            0 <= w < i && (#[trigger] listed.take(i as int)[w]) == listed[i as int];
                        assert(listed[w] == listed[i as int]);
                    }
                }
                assert(before.contains_key(listed[i as int]));
            }
            let result = self.backend.delete(&raw[i]);
            match handle_result(result) {
                Ok(_) => {},
                Err(e) => {
                    return Err(e);
                },
            }
            proof {
                assert(self.ns() == before.remove(listed[i as int]));
                assert(listed.take(i + 1).to_set() =~= listed.take(i as int).to_set().insert(
                    listed[i as int],
                )) by {
                    assert(listed.take(i + 1).drop_last() =~= listed.take(i as int));
                    assert forall|q: Seq<u8>|
                        listed.take(i + 1).contains(q) <==> (listed.take(i as int).contains(q) || q
                            == listed[i as int]) by {
                        if listed.take(i + 1).contains(q) {
                            let w = choose|w: int|
                                0 <= w < i + 1 && (#[trigger] listed.take(i + 1)[w]) == q;
                            if w < i {
                                assert(listed.take(i as int)[w] == q);
                            }
                        }
                        if listed.take(i as int).contains(q) {
                            let w = choose|w: int|
                                0 <= w < i && (#[trigger] listed.take(i as int)[w]) == q;
                            assert(listed.take(i + 1)[w] == q);
                        }
                        if q == listed[i as int] {
                            assert(listed.take(i + 1)[i as int] == q);
                        }
                    }
                }
                assert(self.ns() =~= old(self).ns().remove_keys(listed.take(i + 1).to_set()));
            }
            i += 1;
        }
        proof {
            assert(listed.take(listed.len() as int) =~= listed);
            assert(self.ns() =~= old(self).ns().remove_keys(m)) by {
                assert forall|k: Seq<u8>| #[trigger]
                    old(self).ns().dom().contains(k) implies (listed.to_set().contains(k) <==> m.contains(
                    k,
                )) by {
                    assert(listed.contains(k) <==> (old(self).key_list().contains(k)
                        && prefix_matches(prefix@, k)));
                }
            }
        }
        Ok(())
    }

    /// Lists every key in the namespace, validating each string the
    /// backend hands out. Order follows the backend's listing.
    pub fn list(&self) -> (r: Result<Vec<Key>, StorageError>)
        requires
            self.wf(),
        ensures
            r matches Ok(ks) && ks@.len() == self.key_list().len() && (forall|i: int|
                0 <= i < ks@.len() ==> (#[trigger] ks@[i])@ == self.key_list()[i]),
    {
        proof {
            self.backend.lemma_key_list();
        }
        let raw = match self.backend.list() {
            Ok(v) => v,
            Err(e) => {
                return Err(handle_err(e));
            },
        };
        proof {
            assert forall|i: int| 0 <= i < raw@.len() implies valid_key_bytes(
                (#[trigger] raw@[i])@,
            ) by {
                assert(views_of(raw@)[i] == raw@[i]@);
            }
        }
        match collect_keys(&raw) {
            Ok(ks) => {
                proof {
                    assert forall|i: int| 0 <= i < ks@.len() implies (#[trigger] ks@[i])@
                        == self.key_list()[i] by {
                        assert(ks@[i]@ == raw@[i]@);
                        assert(views_of(raw@)[i] == raw@[i]@);
                    }
                }
                Ok(ks)
            },
            Err(e) => Err(e),
        }
    }

    /// Lists every key whose address lies under `prefix`, validating each
    /// string the backend hands out.
    pub fn list_prefix(&self, prefix: &Prefix) -> (r: Result<Vec<Key>, StorageError>)
        requires
            self.wf(),
            prefix.wf(),
        ensures
            r matches Ok(ks) && {
                let listed = matching_keys(self.key_list(), prefix@);
                ks@.len() == listed.len() && (forall|i: int|
                    0 <= i < ks@.len() ==> (#[trigger] ks@[i])@ == listed[i])
            },
    {
        let ghost listed = matching_keys(self.key_list(), prefix@);
        proof {
            self.backend.lemma_key_list();
            lemma_matching_keys(self.key_list(), prefix@);
        }
        let raw = match handle_result(self.backend.list_prefix(prefix.as_bytes())) {
            Ok(v) => v,
            Err(e) => {
                return Err(e);
            },
        };
        proof {
            assert forall|i: int| 0 <= i < raw@.len() implies valid_key_bytes(
                (#[trigger] raw@[i])@,
            ) by {
                assert(views_of(raw@)[i] == raw@[i]@);
                assert(listed.contains(listed[i]));
                assert(matching_keys(self.key_list(), prefix@).contains(listed[i]));
                assert(self.key_list().contains(listed[i]));
                let w = choose|w: int|
                    0 <= w < self.key_list().len() && self.key_list()[w] == listed[i];
                assert(valid_key_bytes(self.key_list()[w]));
            }
        }
        match collect_keys(&raw) {
            Ok(ks) => {
                proof {
                    assert forall|i: int| 0 <= i < ks@.len() implies (#[trigger] ks@[i])@
                        == listed[i] by {
                        assert(ks@[i]@ == raw@[i]@);
                        assert(views_of(raw@)[i] == raw@[i]@);
                    }
                }
                Ok(ks)
            },
            Err(e) => Err(e),
        }
    }

    /// Lists one level of the hierarchy directly under `prefix`,
    /// partitioned into immediate keys and immediate child prefixes — a
    /// structural listing, distinct from the flat recursive listing.
    pub fn list_dir(&self, prefix: &Prefix) -> (r: Result<KeysPrefixes, StorageError>)
        requires
            self.wf(),
            prefix.wf(),
        ensures
            r matches Ok(kp) && dir_view_ok(
                key_views(kp.keys@),
                prefix_views(kp.prefixes@),
                self.key_list(),
                prefix@,
            ),
            r matches Ok(kp) && (forall|i: int| 0 <= i < kp.keys@.len() ==> (#[trigger] kp.keys@[i]).wf())
                && (forall|i: int| 0 <= i < kp.prefixes@.len() ==> (#[trigger] kp.prefixes@[i]).wf()),
    {
        let items = match self.backend.list_dir_items(prefix.as_bytes()) {
            Ok(it) => it,
            Err(e) => {
                return Err(handle_err(e));
            },
        };
        let mut keys: Vec<Key> = Vec::new();
        let mut prefixes: Vec<Prefix> = Vec::new();
        let mut i: usize = 0;
        while i < items.len()
            invariant
                i <= items@.len(),
                dir_items_valid(items@),
                key_views(keys@) == item_key_views(items@.take(i as int)),
                prefix_views(prefixes@) == item_prefix_views(items@.take(i as int)),
                forall|j: int| 0 <= j < keys@.len() ==> (#[trigger] keys@[j]).wf(),
                forall|j: int| 0 <= j < prefixes@.len() ==> (#[trigger] prefixes@[j]).wf(),
            decreases items@.len() - i,
        {
            proof {
                assert(items@.take(i + 1).drop_last() =~= items@.take(i as int));
                assert(items@.take(i + 1).last() == items@[i as int]);
                lemma_item_views_push(items@.take(i as int), items@[i as int]);
            }
            let ghost old_keys = keys@;
            let ghost old_prefixes = prefixes@;
            match &items[i] {
                DirItem::Key(kb) => {
                    let k = match Key::parse(copy_bytes(kb)) {
                        Ok(k) => k,
                        Err(_) => {
                            return Err(
                                StorageError::InvalidAddress(
                                    "the store listed a malformed key".to_owned(),
                                ),
                            );
                        },
                    };
                    keys.push(k);
                    proof {
                        assert(key_views(keys@) =~= key_views(old_keys).push(kb@));
                    }
                },
                DirItem::Prefix(qb) => {
                    let p = match Prefix::parse(copy_bytes(qb)) {
                        Ok(p) => p,
                        Err(_) => {
                            return Err(
                                StorageError::InvalidAddress(
                                    "the store listed a malformed prefix".to_owned(),
                                ),
                            );
                        },
                    };
                    prefixes.push(p);
                    proof {
                        assert(prefix_views(prefixes@) =~= prefix_views(old_prefixes).push(qb@));
                    }
                },
            }
            i += 1;
        }
        proof {
            assert(items@.take(items@.len() as int) =~= items@);
        }
        Ok(KeysPrefixes { keys, prefixes })
    }

    /// Derives the total size under `prefix` by listing the keys and
    /// summing their individually queried sizes: one listing call plus
    /// one size query per key, not a cheap aggregate. Size queries must
    /// be supported; the first failed query or an overflowing total
    /// aborts the aggregate.
    pub fn size_prefix(&self, prefix: &Prefix) -> (r: Result<u64, StorageError>)
        requires
            self.wf(),
            prefix.wf(),
        ensures
            !self.sizes_enabled() ==> (r matches Err(e) && e is Unsupported),
            self.sizes_enabled() ==> {
                let total = total_size_spec(self.ns(), matching_keys(self.key_list(), prefix@));
                &&& total <= u64::MAX ==> (r matches Ok(t) && t == total)
                &&& total > u64::MAX ==> (r matches Err(e) && e is Other)
            },
    {
        let supported = match self.backend.supports_sizes() {
            Ok(b) => b,
            Err(e) => {
                return Err(handle_err(e));
            },
        };
        match require_sizes(supported) {
            Ok(()) => {},
            Err(e) => {
                return Err(e);
            },
        }
        let ghost listed = matching_keys(self.key_list(), prefix@);
        let raw = match handle_result(self.backend.list_prefix(prefix.as_bytes())) {
            Ok(v) => v,
            Err(e) => {
                return Err(e);
            },
        };
        let mut results: Vec<Result<u64, BackendError>> = Vec::new();
        let mut i: usize = 0;
        while i < raw.len()
            invariant
                i <= raw@.len(),
                self.wf(),
                self.sizes_enabled(),
                listed == views_of(raw@),
                results@.len() == i,
                forall|j: int|
                    0 <= j < i ==> (#[trigger] results@[j] matches Ok(n) && n == size_of_spec(
                        self.ns(),
                        listed[j],
                    )),
            decreases raw@.len() - i,
        {
            proof {
                assert(listed[i as int] == raw@[i as int]@);
            }
            results.push(self.backend.getsize(&raw[i]));
            i += 1;
        }
        proof {
            lemma_sum_matches(self.ns(), results@, listed);
        }
        match sum_size_results(&results) {
            Ok(t) => Ok(t),
            Err(e) => Err(e),
        }
    }

    /// The total size of the whole namespace: the prefix total under the
    /// root.
    pub fn size(&self) -> (r: Result<u64, StorageError>)
        requires
            self.wf(),
        ensures
            !self.sizes_enabled() ==> (r matches Err(e) && e is Unsupported),
            self.sizes_enabled() ==> {
                let total = total_size_spec(self.ns(), self.key_list());
                &&& total <= u64::MAX ==> (r matches Ok(t) && t == total)
                &&& total > u64::MAX ==> (r matches Err(e) && e is Other)
            },
    {
        let root = Prefix::root();
        let r = self.size_prefix(&root);
        proof {
            crate::listing::lemma_matching_root(self.key_list());
            assert(matching_keys(self.key_list(), root@) == self.key_list());
        }
        r
    }
}

/// The per-index sizes of the listed keys sum to the prefix total.
proof fn lemma_sum_matches(
    ns: Map<Seq<u8>, Seq<u8>>,
    results: Seq<Result<u64, BackendError>>,
    keys: Seq<Seq<u8>>,
)
    requires
        results.len() == keys.len(),
        forall|j: int|
            0 <= j < results.len() ==> (#[trigger] results[j] matches Ok(n) && n == size_of_spec(
                ns,
                keys[j],
            )),
    ensures
        all_ok(results),
        sum_of_sizes(results) == total_size_spec(ns, keys),
    decreases results.len(),
{
    if results.len() == 0 {
    } else {
        let dr = results.drop_last();
        let dk = keys.drop_last();
        assert forall|j: int|
            0 <= j < dr.len() implies (#[trigger] dr[j] matches Ok(n) && n == size_of_spec(
            ns,
            dk[j],
        )) by {
            assert(dr[j] == results[j] && dk[j] == keys[j]);
        }
        lemma_sum_matches(ns, dr, dk);
        assert(results[results.len() - 1] matches Ok(n) && n == size_of_spec(ns, keys.last()));
    }
}

/// Read-your-writes: a write places exactly its payload at its key, so a
/// following read of the same key through the same handle returns that
/// payload — `set` ensures the namespace becomes `ns.insert(k, v)`, and
/// `get` returns the namespace's value at `k`.
pub proof fn lemma_read_your_writes(ns: Map<Seq<u8>, Seq<u8>>, k: Seq<u8>, v: Seq<u8>)
    ensures
        ns.insert(k, v).contains_key(k),
        ns.insert(k, v)[k] == v,
{
}

/// Erasing an absent key changes nothing: `erase` ensures the namespace
/// becomes `ns.remove(k)`, which is the namespace itself when the key is
/// not there — so, with deletes supported, the call is a successful
/// no-op whatever `k` held before.
pub proof fn lemma_erase_missing_is_noop(ns: Map<Seq<u8>, Seq<u8>>, k: Seq<u8>)
    requires
        !ns.contains_key(k),
    ensures
        ns.remove(k) == ns,
{
    assert(ns.remove(k) =~= ns);
}

/// The prefix total accumulated from the back, as `size_prefix`'s
/// contract states it, taken from the front instead.
pub open spec fn total_size_front(ns: Map<Seq<u8>, Seq<u8>>, keys: Seq<Seq<u8>>) -> int
    decreases keys.len(),
{
    if keys.len() == 0 {
        0
    } else {
        size_of_spec(ns, keys.first()) + total_size_front(ns, keys.drop_first())
    }
}

/// The prefix total equals the per-key sizes of exactly the keys the
/// flat listing returns, summed one by one in either direction:
/// `size_prefix` agrees with folding `size_key` over `list_prefix`.
pub proof fn lemma_size_prefix_is_sum(ns: Map<Seq<u8>, Seq<u8>>, listed: Seq<Seq<u8>>)
    ensures
        total_size_spec(ns, listed) == total_size_front(ns, listed),
        listed.len() == 0 ==> total_size_spec(ns, listed) == 0,
        listed.len() > 0 ==> total_size_spec(ns, listed) == size_of_spec(ns, listed.first())
            + total_size_spec(ns, listed.drop_first()),
    decreases listed.len(),
{
    if listed.len() == 0 {
    } else if listed.len() == 1 {
        assert(listed.drop_last() =~= Seq::<Seq<u8>>::empty());
        assert(listed.drop_first() =~= Seq::<Seq<u8>>::empty());
        assert(listed.last() == listed.first());
        assert(total_size_spec(ns, Seq::<Seq<u8>>::empty()) == 0);
        assert(total_size_front(ns, Seq::<Seq<u8>>::empty()) == 0);
    } else {
        let front = listed.drop_first();
        let dl = listed.drop_last();
        lemma_size_prefix_is_sum(ns, front);
        lemma_size_prefix_is_sum(ns, dl);
        assert(dl.drop_first() =~= front.drop_last());
        assert(dl.first() == listed.first());
        assert(dl.len() > 0);
        assert(front.last() == listed.last());
        assert(total_size_spec(ns, front) == total_size_spec(ns, front.drop_last())
            + size_of_spec(ns, front.last()));
        assert(total_size_spec(ns, listed) == total_size_spec(ns, dl) + size_of_spec(
            ns,
            listed.last(),
        ));
        assert(total_size_spec(ns, dl) == size_of_spec(ns, listed.first()) + total_size_spec(
            ns,
            front.drop_last(),
        ));
        assert(total_size_spec(ns, listed) == size_of_spec(ns, listed.first())
            + total_size_spec(ns, front));
        assert(total_size_front(ns, listed) == size_of_spec(ns, listed.first())
            + total_size_front(ns, front));
    }
}

} // verus!
