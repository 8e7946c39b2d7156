//! The key/prefix model: validated string identifiers for objects and
//! hierarchical scopes. Pure value types, no I/O.
//!
//! A key addresses one stored object: a non-empty path-like byte string
//! with `/` as separator, no leading or trailing `/`, and no empty segment.
//! A prefix addresses a hierarchical scope: either the root (the empty
//! string, which matches every key) or a string ending at a segment
//! boundary, that is with a trailing `/`.

use vstd::prelude::*;

verus! {

/// The namespace separator, `/`.
pub const SLASH: u8 = 47;

/// Two adjacent separators at position `i` (an empty segment).
pub open spec fn double_slash_at(s: Seq<u8>, i: int) -> bool {
    s[i] == SLASH && s[i + 1] == SLASH
}

/// The string has no empty segment.
pub open spec fn no_double_slash(s: Seq<u8>) -> bool {
    forall|i: int| 0 <= i && i + 1 < s.len() ==> !double_slash_at(s, i)
}

/// The namespace grammar for keys: non-empty, no leading or trailing
/// separator, no empty segment.
pub open spec fn valid_key_bytes(s: Seq<u8>) -> bool {
    &&& s.len() > 0
    &&& s[0] != SLASH
    &&& s[s.len() - 1] != SLASH
    &&& no_double_slash(s)
}

/// The namespace grammar for prefixes: the root (empty) or a string with a
/// trailing separator, no leading separator and no empty segment.
pub open spec fn valid_prefix_bytes(s: Seq<u8>) -> bool {
    ||| s.len() == 0
    ||| (s[0] != SLASH && s[s.len() - 1] == SLASH && no_double_slash(s))
}

/// A prefix addresses every key that shares its leading bytes. The root
/// prefix (empty) matches every key.
pub open spec fn prefix_matches(p: Seq<u8>, k: Seq<u8>) -> bool {
    p.len() <= k.len() && k.subrange(0, p.len() as int) == p
}

fn has_double_slash(s: &Vec<u8>) -> (r: bool)
    ensures
        r == !no_double_slash(s@),
{
    let n = s.len();
    if n < 2 {
        return false;
    }
    let mut i: usize = 0;
    while i + 1 < n
        invariant
            n == s@.len(),
            i < n,
            forall|j: int| 0 <= j < i ==> !double_slash_at(s@, j),
        decreases n - i,
    {
        if s[i] == SLASH && s[i + 1] == SLASH {
            assert(double_slash_at(s@, i as int));
            return true;
        }
        i += 1;
    }
    assert(no_double_slash(s@));
    false
}

/// Whole-string validation against the key grammar.
pub fn valid_key(s: &Vec<u8>) -> (r: bool)
    ensures
        r == valid_key_bytes(s@),
{
    if s.len() == 0 {
        return false;
    }
    if s[0] == SLASH {
        return false;
    }
    if s[s.len() - 1] == SLASH {
        return false;
    }
    !has_double_slash(s)
}

/// Whole-string validation against the prefix grammar.
pub fn valid_prefix(s: &Vec<u8>) -> (r: bool)
    ensures
        r == valid_prefix_bytes(s@),
{
    if s.len() == 0 {
        return true;
    }
    if s[0] == SLASH {
        return false;
    }
    if s[s.len() - 1] != SLASH {
        return false;
    }
    !has_double_slash(s)
}

/// Byte-for-byte equality of two byte strings.
pub fn bytes_eq(a: &Vec<u8>, b: &Vec<u8>) -> (r: bool)
    ensures
        r == (a@ == b@),
{
    if a.len() != b.len() {
        return false;
    }
    let mut i: usize = 0;
    while i < a.len()
        invariant
            a@.len() == b@.len(),
            i <= a@.len(),
            forall|j: int| 0 <= j < i ==> a@[j] == b@[j],
        decreases a@.len() - i,
    {
        if a[i] != b[i] {
            return false;
        }
        i += 1;
    }
    assert(a@ =~= b@);
    true
}

/// A fresh copy of a byte string.
pub fn copy_bytes(v: &Vec<u8>) -> (r: Vec<u8>)
    ensures
        r@ == v@,
{
    let mut out: Vec<u8> = Vec::new();
    let mut i: usize = 0;
    while i < v.len()
        invariant
            i <= v@.len(),
            out@ == v@.subrange(0, i as int),
        decreases v@.len() - i,
    {
        out.push(v[i]);
        i += 1;
    }
    assert(out@ =~= v@);
    out
}

/// Whether `p` is a byte-for-byte prefix of `k`.
pub fn bytes_prefix_of(p: &Vec<u8>, k: &Vec<u8>) -> (r: bool)
    ensures
        r == prefix_matches(p@, k@),
{
    if p.len() > k.len() {
        return false;
    }
    let mut i: usize = 0;
    while i < p.len()
        invariant
            p@.len() <= k@.len(),
            i <= p@.len(),
            forall|j: int| 0 <= j < i ==> p@[j] == k@[j],
        decreases p@.len() - i,
    {
        if p[i] != k[i] {
            assert(k@.subrange(0, p@.len() as int)[i as int] == k@[i as int]);
            return false;
        }
        i += 1;
    }
    assert(k@.subrange(0, p@.len() as int) =~= p@);
    true
}

/// The address of one stored object. Invalid strings are rejected at
/// construction, so every value of this type satisfies the key grammar.
pub struct Key {
    bytes: Vec<u8>,
}

/// A string rejected by the key grammar, given back to the caller.
#[derive(Debug)]
pub struct InvalidKey {
    pub bytes: Vec<u8>,
}

impl View for Key {
    type V = Seq<u8>;

    closed spec fn view(&self) -> Seq<u8> {
        self.bytes@
    }
}

impl Key {
    /// Every constructed key satisfies the grammar.
    pub open spec fn wf(&self) -> bool {
        valid_key_bytes(self@)
    }

    /// Validates `s` against the key grammar: every valid string is
    /// accepted and kept byte for byte, every other string is rejected.
    pub fn parse(s: Vec<u8>) -> (r: Result<Key, InvalidKey>)
        ensures
            valid_key_bytes(s@) ==> (r matches Ok(k) && k@ == s@ && k.wf()),
            !valid_key_bytes(s@) ==> (r matches Err(e) && e.bytes@ == s@),
    {
        if valid_key(&s) {
            Ok(Key { bytes: s })
        } else {
            Err(InvalidKey { bytes: s })
        }
    }

    /// The key's address, byte for byte.
    pub fn as_bytes(&self) -> (r: &Vec<u8>)
        ensures
            r@ == self@,
    {
        &self.bytes
    }
}

/// The address of a hierarchical scope. Invalid strings are rejected at
/// construction, so every value of this type satisfies the prefix grammar.
pub struct Prefix {
    bytes: Vec<u8>,
}

/// A string rejected by the prefix grammar, given back to the caller.
#[derive(Debug)]
pub struct InvalidPrefix {
    pub bytes: Vec<u8>,
}

impl View for Prefix {
    type V = Seq<u8>;

    closed spec fn view(&self) -> Seq<u8> {
        self.bytes@
    }
}

impl Prefix {
    /// Every constructed prefix satisfies the grammar.
    pub open spec fn wf(&self) -> bool {
        valid_prefix_bytes(self@)
    }

    /// Validates `s` against the prefix grammar: every valid string is
    /// accepted and kept byte for byte, every other string is rejected.
    pub fn parse(s: Vec<u8>) -> (r: Result<Prefix, InvalidPrefix>)
        ensures
            valid_prefix_bytes(s@) ==> (r matches Ok(p) && p@ == s@ && p.wf()),
            !valid_prefix_bytes(s@) ==> (r matches Err(e) && e.bytes@ == s@),
    {
        if valid_prefix(&s) {
            Ok(Prefix { bytes: s })
        } else {
            Err(InvalidPrefix { bytes: s })
        }
    }

    /// The root prefix: matches every key.
    pub fn root() -> (r: Prefix)
        ensures
            r@ == Seq::<u8>::empty(),
            r.wf(),
    {
        let r = Prefix { bytes: Vec::new() };
        assert(r@ =~= Seq::<u8>::empty());
        r
    }

    /// The prefix's address, byte for byte.
    pub fn as_bytes(&self) -> (r: &Vec<u8>)
        ensures
            r@ == self@,
    {
        &self.bytes
    }

    /// Whether `key` lies under this scope.
    pub fn matches(&self, key: &Key) -> (r: bool)
        ensures
            r == prefix_matches(self@, key@),
    {
        bytes_prefix_of(&self.bytes, key.as_bytes())
    }
}

/// The root prefix matches every key.
pub proof fn lemma_root_matches_all(k: Seq<u8>)
    ensures
        prefix_matches(Seq::<u8>::empty(), k),
{
    assert(k.subrange(0, 0) =~= Seq::<u8>::empty());
}

} // verus!
