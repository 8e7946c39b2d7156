//! Validation of backend listings, and the one-level directory view of a
//! flat namespace.
//!
//! A flat listing returns every key under a prefix. A directory listing
//! returns one level of the hierarchy: the keys directly under the prefix,
//! and the immediate child prefixes that contain every deeper key, each
//! child reported once.

use vstd::prelude::*;

verus! {

use crate::error::StorageError;
use crate::key::{Key, SLASH};
use crate::key::{
    bytes_eq,
    bytes_prefix_of,
    copy_bytes,
    double_slash_at,
    no_double_slash,
    prefix_matches,
    valid_key_bytes,
    valid_prefix_bytes,
};

/// One entry of a backend directory listing: a leaf key or a child scope,
/// as the raw string the backend hands out.
pub enum DirItem {
    Key(Vec<u8>),
    Prefix(Vec<u8>),
}

/// The views of a sequence of byte strings.
pub open spec fn views_of(s: Seq<Vec<u8>>) -> Seq<Seq<u8>> {
    s.map_values(|v: Vec<u8>| v@)
}

/// The string contains no separator.
pub open spec fn slash_free(s: Seq<u8>) -> bool {
    forall|i: int| 0 <= i < s.len() ==> s[i] != SLASH
}

/// The index of the first separator, or the length if there is none.
pub open spec fn first_slash(s: Seq<u8>) -> int
    decreases s.len(),
{
    if s.len() == 0 {
        0
    } else if s[0] == SLASH {
        0
    } else {
        1 + first_slash(s.skip(1))
    }
}

/// `first_slash` points at the first separator: nothing before it is a
/// separator, and it is a separator unless the string has none.
pub proof fn lemma_first_slash(s: Seq<u8>)
    ensures
        0 <= first_slash(s) <= s.len(),
        first_slash(s) < s.len() ==> s[first_slash(s)] == SLASH,
        forall|j: int| 0 <= j < first_slash(s) ==> s[j] != SLASH,
    decreases s.len(),
{
    if s.len() == 0 {
    } else if s[0] == SLASH {
    } else {
        lemma_first_slash(s.skip(1));
        let f = first_slash(s);
        assert forall|j: int| 0 <= j < f implies s[j] != SLASH by {
            if j > 0 {
                assert(s.skip(1)[j - 1] == s[j]);
            }
        }
        if f < s.len() {
            assert(s.skip(1)[f - 1] == s[f]);
        }
    }
}

/// Any index with a separator at it and none before it is `first_slash`.
pub proof fn lemma_first_slash_unique(s: Seq<u8>, i: int)
    requires
        0 <= i <= s.len(),
        i < s.len() ==> s[i] == SLASH,
        i == s.len() ==> slash_free(s),
        forall|j: int| 0 <= j < i ==> s[j] != SLASH,
    ensures
        first_slash(s) == i,
    decreases s.len(),
{
    if s.len() == 0 {
    } else if s[0] == SLASH {
        assert(i == 0);
    } else {
        let t = s.skip(1);
        assert(i >= 1) by {
            if i == 0 {
                assert(s[0] == SLASH);
            }
        }
        assert forall|j: int| 0 <= j < i - 1 implies t[j] != SLASH by {
            assert(t[j] == s[j + 1]);
        }
        if i < s.len() {
            assert(t[i - 1] == s[i]);
        } else {
            assert forall|j: int| 0 <= j < t.len() implies t[j] != SLASH by {
                assert(t[j] == s[j + 1]);
            }
        }
        lemma_first_slash_unique(t, i - 1);
    }
}

/// A key directly under `p`: it matches, and the rest of its address has
/// no further separator.
pub open spec fn is_immediate_key(p: Seq<u8>, k: Seq<u8>) -> bool {
    prefix_matches(p, k) && slash_free(k.skip(p.len() as int))
}

/// A key deeper under `p`: it matches, and the rest of its address crosses
/// at least one more separator.
pub open spec fn is_nested_key(p: Seq<u8>, k: Seq<u8>) -> bool {
    prefix_matches(p, k) && !slash_free(k.skip(p.len() as int))
}

/// The immediate child scope of `p` that contains the nested key `k`: the
/// address of `k` cut just after the first separator past `p`.
pub open spec fn child_prefix_of(p: Seq<u8>, k: Seq<u8>) -> Seq<u8> {
    k.take(p.len() + first_slash(k.skip(p.len() as int)) + 1)
}

/// The child scope of a nested key under a valid prefix is itself a valid
/// prefix.
pub proof fn lemma_child_prefix_valid(p: Seq<u8>, k: Seq<u8>)
    requires
        valid_prefix_bytes(p),
        valid_key_bytes(k),
        is_nested_key(p, k),
    ensures
        valid_prefix_bytes(child_prefix_of(p, k)),
        p.len() < child_prefix_of(p, k).len() <= k.len(),
        prefix_matches(p, child_prefix_of(p, k)),
{
    let rest = k.skip(p.len() as int);
    let f = first_slash(rest);
    lemma_first_slash(rest);
    assert(f < rest.len()) by {
        if f == rest.len() {
            assert(slash_free(rest));
        }
    }
    let c = child_prefix_of(p, k);
    assert(c.len() == p.len() + f + 1);
    assert(c[0] == k[0]);
    assert(c[c.len() - 1] == k[p.len() + f]);
    assert(k[p.len() + f] == rest[f]);
    assert(no_double_slash(c)) by {
        assert forall|i: int| 0 <= i && i + 1 < c.len() implies !double_slash_at(c, i) by {
            assert(c[i] == k[i]);
            assert(c[i + 1] == k[i + 1]);
            assert(!double_slash_at(k, i));
        }
    }
    assert(prefix_matches(p, c)) by {
        assert(c.subrange(0, p.len() as int) =~= k.subrange(0, p.len() as int));
    }
}

/// The keys carried by the key entries of a directory listing, in order.
pub open spec fn item_key_views(items: Seq<DirItem>) -> Seq<Seq<u8>>
    decreases items.len(),
{
    if items.len() == 0 {
        Seq::empty()
    } else {
        item_key_views(items.drop_last()) + (match items.last() {
            DirItem::Key(k) => seq![k@],
            DirItem::Prefix(_) => Seq::empty(),
        })
    }
}

/// The prefixes carried by the prefix entries of a directory listing, in
/// order.
pub open spec fn item_prefix_views(items: Seq<DirItem>) -> Seq<Seq<u8>>
    decreases items.len(),
{
    if items.len() == 0 {
        Seq::empty()
    } else {
        item_prefix_views(items.drop_last()) + (match items.last() {
            DirItem::Key(_) => Seq::empty(),
            DirItem::Prefix(q) => seq![q@],
        })
    }
}

/// Appending one entry appends its payload to the matching side and leaves
/// the other side unchanged.
pub proof fn lemma_item_views_push(items: Seq<DirItem>, it: DirItem)
    ensures
        (it matches DirItem::Key(k) ==> item_key_views(items.push(it)) == item_key_views(
            items,
        ).push(k@) && item_prefix_views(items.push(it)) == item_prefix_views(items)),
        (it matches DirItem::Prefix(q) ==> item_prefix_views(items.push(it)) == item_prefix_views(
            items,
        ).push(q@) && item_key_views(items.push(it)) == item_key_views(items)),
{
    let e = items.push(it);
    assert(e.drop_last() =~= items);
    assert(e.last() == it);
    match it {
        DirItem::Key(k) => {
            assert(item_key_views(e) =~= item_key_views(items).push(k@));
            assert(item_prefix_views(e) =~= item_prefix_views(items));
        },
        DirItem::Prefix(q) => {
            assert(item_prefix_views(e) =~= item_prefix_views(items).push(q@));
            assert(item_key_views(e) =~= item_key_views(items));
        },
    }
}

/// What a one-level directory listing of the flat key list `ks` under the
/// prefix `p` must hold: exactly the keys directly under `p`, and exactly
/// the child scopes of the deeper keys, each reported once.
pub open spec fn dir_listing_ok(items: Seq<DirItem>, ks: Seq<Seq<u8>>, p: Seq<u8>) -> bool {
    &&& item_key_views(items).no_duplicates()
    &&& forall|q: Seq<u8>|
        item_key_views(items).contains(q) <==> (exists|i: int|
            0 <= i < ks.len() && #[trigger] ks[i] == q && is_immediate_key(p, q))
    &&& item_prefix_views(items).no_duplicates()
    &&& forall|q: Seq<u8>|
        item_prefix_views(items).contains(q) <==> (exists|i: int|
            0 <= i < ks.len() && is_nested_key(p, #[trigger] ks[i]) && child_prefix_of(p, ks[i])
                == q)
}

/// Every payload of a listing is valid for its side of the grammar.
pub open spec fn dir_items_valid(items: Seq<DirItem>) -> bool {
    forall|j: int|
        0 <= j < items.len() ==> (match #[trigger] items[j] {
            DirItem::Key(k) => valid_key_bytes(k@),
            DirItem::Prefix(q) => valid_prefix_bytes(q@),
        })
}

/// The keys of a flat listing that lie under `p`, in listing order.
pub open spec fn matching_keys(ks: Seq<Seq<u8>>, p: Seq<u8>) -> Seq<Seq<u8>>
    decreases ks.len(),
{
    if ks.len() == 0 {
        Seq::empty()
    } else {
        matching_keys(ks.drop_last(), p) + (if prefix_matches(p, ks.last()) {
            seq![ks.last()]
        } else {
            Seq::empty()
        })
    }
}

/// A flat prefix listing holds exactly the keys under the prefix, each
/// once when the input lists each key once.
pub proof fn lemma_matching_keys(ks: Seq<Seq<u8>>, p: Seq<u8>)
    ensures
        forall|q: Seq<u8>|
            matching_keys(ks, p).contains(q) <==> (ks.contains(q) && prefix_matches(p, q)),
        ks.no_duplicates() ==> matching_keys(ks, p).no_duplicates(),
    decreases ks.len(),
{
    broadcast use vstd::seq_lib::lemma_seq_contains_after_push;

    if ks.len() == 0 {
    } else {
        let dl = ks.drop_last();
        let l = ks.last();
        lemma_matching_keys(dl, p);
        assert forall|q: Seq<u8>|
            matching_keys(ks, p).contains(q) <==> (ks.contains(q) && prefix_matches(
                p,
                q,
            )) by {
            if prefix_matches(p, l) {
                assert(matching_keys(ks, p) =~= matching_keys(dl, p).push(l));
            } else {
                assert(matching_keys(ks, p) =~= matching_keys(dl, p));
            }
            if matching_keys(ks, p).contains(q) {
                if matching_keys(dl, p).contains(q) {
                    assert(dl.contains(q));
                    let i = choose|i: int| 0 <= i < dl.len() && dl[i] == q;
                    assert(ks[i] == q);
                } else {
                    assert(q == l);
                    assert(ks[ks.len() - 1] == q);
                }
            }
            if ks.contains(q) && prefix_matches(p, q) {
                let i = choose|i: int| 0 <= i < ks.len() && ks[i] == q;
                if i < ks.len() - 1 {
                    assert(dl[i] == q);
                    assert(dl.contains(q));
                } else {
                    assert(q == l);
                }
                assert(matching_keys(ks, p).contains(q));
            }
        }
        if ks.no_duplicates() {
            assert(dl.no_duplicates()) by {
                assert forall|a: int, b: int|
                    0 <= a < dl.len() && 0 <= b < dl.len() && a != b implies dl[a] != dl[b] by {
                    assert(dl[a] == ks[a] && dl[b] == ks[b]);
                }
            }
            if prefix_matches(p, l) {
                assert(!matching_keys(dl, p).contains(l)) by {
                    if matching_keys(dl, p).contains(l) {
                        let i = choose|i: int| 0 <= i < dl.len() && dl[i] == l;
                        assert(ks[i] == ks[ks.len() - 1]);
                    }
                }
                lemma_push_no_duplicates(matching_keys(dl, p), l);
                assert(matching_keys(ks, p) =~= matching_keys(dl, p).push(l));
            } else {
                assert(matching_keys(ks, p) =~= matching_keys(dl, p));
            }
        }
    }
}

/// Under the root prefix a flat listing filters nothing: every key is
/// listed.
pub proof fn lemma_matching_root(ks: Seq<Seq<u8>>)
    ensures
        matching_keys(ks, Seq::<u8>::empty()) == ks,
    decreases ks.len(),
{
    if ks.len() == 0 {
        assert(matching_keys(ks, Seq::<u8>::empty()) =~= ks);
    } else {
        lemma_matching_root(ks.drop_last());
        crate::key::lemma_root_matches_all(ks.last());
        assert(matching_keys(ks, Seq::<u8>::empty()) =~= ks);
    }
}

/// No element of a duplicate-free sequence recurs when a fresh element is
/// appended.
pub proof fn lemma_push_no_duplicates<A>(s: Seq<A>, v: A)
    requires
        s.no_duplicates(),
        !s.contains(v),
    ensures
        s.push(v).no_duplicates(),
{
    let e = s.push(v);
    assert forall|a: int, b: int|
        0 <= a < e.len() && 0 <= b < e.len() && a != b implies e[a] != e[b] by {
        if a < s.len() && b < s.len() {
        } else if a < s.len() {
            if e[a] == v {
                assert(s.contains(s[a]));
            }
        } else {
            if e[b] == v {
                assert(s.contains(s[b]));
            }
        }
    }
}

/// The index of the first separator at or after `from`, or the length if
/// the rest of the string has none.
fn find_slash_from(k: &Vec<u8>, from: usize) -> (r: usize)
    requires
        from <= k@.len(),
    ensures
        from + first_slash(k@.skip(from as int)) == r,
        from <= r <= k@.len(),
{
    let n = k.len();
    let mut i: usize = from;
    while i < n && k[i] != SLASH
        invariant
            from <= i <= n,
            n == k@.len(),
            forall|j: int| from <= j < i ==> k@[j] != SLASH,
        decreases n - i,
    {
        i += 1;
    }
    proof {
        let rest = k@.skip(from as int);
        assert forall|j: int| 0 <= j < i - from implies rest[j] != SLASH by {
            assert(rest[j] == k@[j + from]);
        }
        if i < n {
            assert(rest[i - from] == k@[i as int]);
        } else {
            assert forall|j: int| 0 <= j < rest.len() implies rest[j] != SLASH by {
                assert(rest[j] == k@[j + from]);
            }
        }
        lemma_first_slash_unique(rest, i - from);
    }
    i
}

/// A fresh copy of `v[start .. end]`.
fn sub_bytes(v: &Vec<u8>, start: usize, end: usize) -> (r: Vec<u8>)
    requires
        start <= end <= v@.len(),
    ensures
        r@ == v@.subrange(start as int, end as int),
{
    let mut out: Vec<u8> = Vec::new();
    let mut i: usize = start;
    while i < end
        invariant
            start <= i <= end <= v@.len(),
            out@ == v@.subrange(start as int, i as int),
        decreases end - i,
    {
        out.push(v[i]);
        i += 1;
    }
    assert(out@ =~= v@.subrange(start as int, end as int));
    out
}

/// Validates every raw string of a backend listing against the key
/// grammar. A backend returning a malformed string is an invalid-address
/// error, not a panic.
pub fn collect_keys(raw: &Vec<Vec<u8>>) -> (r: Result<Vec<Key>, StorageError>)
    ensures
        (forall|i: int| 0 <= i < raw@.len() ==> valid_key_bytes(#[trigger] raw@[i]@)) ==> (
        r matches Ok(ks) && ks@.len() == raw@.len() && (forall|i: int|
            0 <= i < ks@.len() ==> #[trigger] ks@[i]@ == raw@[i]@)),
        (exists|i: int| 0 <= i < raw@.len() && !valid_key_bytes(#[trigger] raw@[i]@)) ==> (
        r matches Err(e) && e is InvalidAddress),
{
    let mut out: Vec<Key> = Vec::new();
    let mut i: usize = 0;
    while i < raw.len()
        invariant
            i <= raw@.len(),
            out@.len() == i,
            forall|j: int| 0 <= j < i ==> #[trigger] out@[j]@ == raw@[j]@,
            forall|j: int| 0 <= j < i ==> valid_key_bytes(#[trigger] raw@[j]@),
        decreases raw@.len() - i,
    {
        let bytes = copy_bytes(&raw[i]);
        match Key::parse(bytes) {
            Ok(k) => {
                out.push(k);
            },
            Err(_) => {
                return Err(
                    StorageError::InvalidAddress(
                        "the store listed a malformed key".to_owned(),
                    ),
                );
            },
        }
        i += 1;
    }
    Ok(out)
}

/// Partitions a flat, duplicate-free key listing into the one-level
/// directory view under `prefix`: the keys directly under it, and each
/// child scope of the deeper keys, reported once. Keys outside the scope
/// are ignored.
pub fn dir_items_of(keys: &Vec<Vec<u8>>, prefix: &Vec<u8>) -> (r: Vec<DirItem>)
    requires
        valid_prefix_bytes(prefix@),
        forall|i: int| 0 <= i < keys@.len() ==> valid_key_bytes(#[trigger] keys@[i]@),
        views_of(keys@).no_duplicates(),
    ensures
        dir_listing_ok(r@, views_of(keys@), prefix@),
        dir_items_valid(r@),
{
    let ks = Ghost(views_of(keys@));
    let p = Ghost(prefix@);
    let mut items: Vec<DirItem> = Vec::new();
    let mut seen: Vec<Vec<u8>> = Vec::new();
    let mut idx: usize = 0;
    while idx < keys.len()
        invariant
            idx <= keys@.len(),
            ks@ == views_of(keys@),
            p@ == prefix@,
            valid_prefix_bytes(p@),
            forall|i: int| 0 <= i < keys@.len() ==> valid_key_bytes(#[trigger] keys@[i]@),
            views_of(keys@).no_duplicates(),
            views_of(seen@) == item_prefix_views(items@),
            item_key_views(items@).no_duplicates(),
            item_prefix_views(items@).no_duplicates(),
            dir_items_valid(items@),
            forall|q: Seq<u8>|
                item_key_views(items@).contains(q) <==> (exists|i: int|
                    0 <= i < idx && #[trigger] ks@[i] == q && is_immediate_key(p@, q)),
            forall|q: Seq<u8>|
                item_prefix_views(items@).contains(q) <==> (exists|i: int|
                    0 <= i < idx && is_nested_key(p@, #[trigger] ks@[i]) && child_prefix_of(
                        p@,
                        ks@[i],
                    ) == q),
        decreases keys@.len() - idx,
    {
        let k = &keys[idx];
        let ghost kv = k@;
        assert(kv == ks@[idx as int]);
        if bytes_prefix_of(prefix, k) {
            let r = find_slash_from(k, prefix.len());
            proof {
                lemma_first_slash(kv.skip(p@.len() as int));
            }
            if r == k.len() {
                // No separator past the prefix: a key directly under it.
                proof {
                    let rest = kv.skip(p@.len() as int);
                    assert forall|j: int| 0 <= j < rest.len() implies rest[j] != SLASH by {
                        assert(rest[j] == kv[j + p@.len()]);
                    }
                    assert(is_immediate_key(p@, kv));
                    if item_key_views(items@).contains(kv) {
                        let i = choose|i: int|
                            0 <= i < idx && #[trigger] ks@[i] == kv && is_immediate_key(p@, kv);
                        assert(ks@[i] == ks@[idx as int]);
                    }
                    assert(!item_key_views(items@).contains(kv));
                }
                let it = DirItem::Key(copy_bytes(k));
                let ghost old_items = items@;
                proof {
                    lemma_item_views_push(old_items, it);
                    lemma_push_no_duplicates(item_key_views(old_items), kv);
                }
                items.push(it);
                proof {
                    broadcast use vstd::seq_lib::lemma_seq_contains_after_push;

                    let ov = item_key_views(old_items);
                    let nv = item_key_views(items@);
                    assert(nv == ov.push(kv));
                    assert(items@[items@.len() - 1] == it);
                    assert forall|jj: int|
                        0 <= jj < items@.len() implies (match #[trigger] items@[jj] {
                        DirItem::Key(kb) => valid_key_bytes(kb@),
                        DirItem::Prefix(qb) => valid_prefix_bytes(qb@),
                    }) by {
                        if jj < old_items.len() {
                            assert(items@[jj] == old_items[jj]);
                        }
                    }
                    assert forall|q: Seq<u8>|
                        nv.contains(q) <==> (exists|i: int|
                            0 <= i < idx + 1 && #[trigger] ks@[i] == q && is_immediate_key(
                                p@,
                                q,
                            )) by {
                        if nv.contains(q) {
                            if q == kv {
                                assert(ks@[idx as int] == q && is_immediate_key(p@, q));
                            } else {
                                assert(ov.contains(q));
                            }
                        }
                        if exists|i: int|
                            0 <= i < idx + 1 && #[trigger] ks@[i] == q && is_immediate_key(
                                p@,
                                q,
                            ) {
                            let i = choose|i: int|
                                0 <= i < idx + 1 && #[trigger] ks@[i] == q && is_immediate_key(
                                    p@,
                                    q,
                                );
                            if i < idx {
                                assert(ov.contains(q));
                            } else {
                                assert(q == kv);
                            }
                            assert(nv.contains(q));
                        }
                    }
                }
            } else {
                // A deeper key: derive the child scope that contains it.
                proof {
                    let rest = kv.skip(p@.len() as int);
                    assert(rest[r - p@.len()] == kv[r as int]);
                    assert(is_nested_key(p@, kv));
                }
                let child = sub_bytes(k, 0, r + 1);
                proof {
                    assert(first_slash(kv.skip(p@.len() as int)) == r - p@.len());
                    assert(child@ =~= child_prefix_of(p@, kv));
                    lemma_child_prefix_valid(p@, kv);
                }
                let ghost cv = child@;
                let mut j: usize = 0;
                let mut found = false;
                while !found && j < seen.len()
                    invariant
                        j <= seen@.len(),
                        cv == child@,
                        found ==> views_of(seen@).contains(cv),
                        !found ==> (forall|jj: int| 0 <= jj < j ==> views_of(seen@)[jj] != cv),
                    decreases seen@.len() - j + (if found {
                        0int
                    } else {
                        1int
                    }),
                {
                    assert(views_of(seen@)[j as int] == seen@[j as int]@);
                    if bytes_eq(&seen[j], &child) {
                        found = true;
                    } else {
                        j += 1;
                    }
                }
                proof {
                    if !found {
                        assert(!views_of(seen@).contains(cv));
                    }
                }
                let ghost old_items = items@;
                let ghost old_seen = seen@;
                if !found {
                    let child_copy = copy_bytes(&child);
                    let it = DirItem::Prefix(child);
                    proof {
                        lemma_item_views_push(old_items, it);
                        lemma_push_no_duplicates(item_prefix_views(old_items), cv);
                    }
                    seen.push(child_copy);
                    items.push(it);
                    proof {
                        assert(views_of(seen@) =~= views_of(old_seen).push(cv));
                        assert(items@[items@.len() - 1] == it);
                        assert forall|jj: int|
                            0 <= jj < items@.len() implies (match #[trigger] items@[jj] {
                            DirItem::Key(kb) => valid_key_bytes(kb@),
                            DirItem::Prefix(qb) => valid_prefix_bytes(qb@),
                        }) by {
                            if jj < old_items.len() {
                                assert(items@[jj] == old_items[jj]);
                            }
                        }
                    }
                }
                proof {
                    broadcast use vstd::seq_lib::lemma_seq_contains_after_push;

                    let ov = item_prefix_views(old_items);
                    let nv = item_prefix_views(items@);
                    if found {
                        assert(nv == ov);
                        assert(ov.contains(cv));
                    } else {
                        assert(nv == ov.push(cv));
                    }
                    assert forall|q: Seq<u8>|
                        nv.contains(q) <==> (exists|i: int|
                            0 <= i < idx + 1 && is_nested_key(p@, #[trigger] ks@[i])
                                && child_prefix_of(p@, ks@[i]) == q) by {
                        if nv.contains(q) {
                            if q == cv {
                                assert(is_nested_key(p@, ks@[idx as int]) && child_prefix_of(
                                    p@,
                                    ks@[idx as int],
                                ) == q);
                            } else {
                                assert(ov.contains(q));
                            }
                        }
                        if exists|i: int|
                            0 <= i < idx + 1 && is_nested_key(p@, #[trigger] ks@[i])
                                && child_prefix_of(p@, ks@[i]) == q {
                            let i = choose|i: int|
                                0 <= i < idx + 1 && is_nested_key(p@, #[trigger] ks@[i])
                                    && child_prefix_of(p@, ks@[i]) == q;
                            if i < idx {
                                assert(ov.contains(q));
                            } else {
                                assert(q == cv);
                            }
                            assert(nv.contains(q));
                        }
                    }
                }
            }
        } else {
            // Outside the scope: contributes nothing to either side.
            proof {
                assert(!prefix_matches(p@, kv));
                assert forall|q: Seq<u8>|
                    item_key_views(items@).contains(q) <==> (exists|i: int|
                        0 <= i < idx + 1 && #[trigger] ks@[i] == q && is_immediate_key(
                            p@,
                            q,
                        )) by {
                    if exists|i: int|
                        0 <= i < idx + 1 && #[trigger] ks@[i] == q && is_immediate_key(p@, q) {
                        let i = choose|i: int|
                            0 <= i < idx + 1 && #[trigger] ks@[i] == q && is_immediate_key(p@, q);
                        assert(i < idx);
                    }
                }
                assert forall|q: Seq<u8>|
                    item_prefix_views(items@).contains(q) <==> (exists|i: int|
                        0 <= i < idx + 1 && is_nested_key(p@, #[trigger] ks@[i])
                            && child_prefix_of(p@, ks@[i]) == q) by {
                    if exists|i: int|
                        0 <= i < idx + 1 && is_nested_key(p@, #[trigger] ks@[i])
                            && child_prefix_of(p@, ks@[i]) == q {
                        let i = choose|i: int|
                            0 <= i < idx + 1 && is_nested_key(p@, #[trigger] ks@[i])
                                && child_prefix_of(p@, ks@[i]) == q;
                        assert(i < idx);
                    }
                }
            }
        }
        idx += 1;
    }
    items
}

} // verus!
