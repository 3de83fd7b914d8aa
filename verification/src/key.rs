//! Versioned keys: a byte payload with a logical timestamp, ordered so that
//! newer versions of one payload come first.

use crate::byte::{
    bytes_lt, common_prefix, lemma_bytes_lt_asymmetric, lemma_bytes_lt_total,
    lemma_bytes_lt_transitive, Bytes,
};
use std::cmp::Ordering;
use vstd::prelude::*;
use vstd::std_specs::cmp::PartialEqSpecImpl;
use vstd::std_specs::cmp::PartialOrdSpecImpl;

verus! {

/// A key payload: a value that can show the bytes it stands for.
pub trait AsBytes: View<V = Seq<u8>> {
    /// The payload's bytes.
    fn as_bytes(&self) -> (s: &[u8])
        ensures
            s@ == self@,
    ;
}

impl AsBytes for Bytes {
    /// The bytes of the buffer.
    fn as_bytes(&self) -> (s: &[u8]) {
        self.as_ref()
    }
}

impl<'a> AsBytes for &'a [u8] {
    /// The slice itself.
    fn as_bytes(&self) -> (s: &[u8]) {
        *self
    }
}

/// A payload together with the version it was written at.
#[derive(Debug)]
pub struct Key<T: AsBytes>(T, u64);

/// A key that owns its payload.
pub type KeyBytes = Key<Bytes>;

/// A key that borrows its payload for the length of one call.
pub type KeySlice<'a> = Key<&'a [u8]>;

/// Width in bytes of the version that follows a payload.
pub const VERSION_LEN: usize = 8;

impl<T: AsBytes> View for Key<T> {
    type V = (Seq<u8>, u64);

    /// The payload bytes and the version.
    open spec fn view(&self) -> (Seq<u8>, u64) {
        (self.payload()@, self.spec_version())
    }
}

/// The key order: payloads ascending, and for one payload versions descending.
pub open spec fn key_lt(a: (Seq<u8>, u64), b: (Seq<u8>, u64)) -> bool {
    bytes_lt(a.0, b.0) || (a.0 == b.0 && a.1 > b.1)
}

/// Three-way comparison in the key order.
pub open spec fn key_order(a: (Seq<u8>, u64), b: (Seq<u8>, u64)) -> Ordering {
    if key_lt(a, b) {
        Ordering::Less
    } else if a == b {
        Ordering::Equal
    } else {
        Ordering::Greater
    }
}

impl KeyBytes {
    /// A key that owns `bytes`, at `version`.
    pub fn new(bytes: Bytes, version: u64) -> (k: Self)
        ensures
            k@ == (bytes@, version),
    {
        Key(bytes, version)
    }
}

impl<T: AsBytes> Key<T> {
    /// The payload as it is held.
    pub closed spec fn payload(&self) -> T {
        self.0
    }

    /// The version, as plain value.
    pub closed spec fn spec_version(&self) -> u64 {
        self.1
    }

    /// The payload bytes.
    pub fn into_inner(&self) -> (s: &[u8])
        ensures
            s@ == self@.0,
    {
        self.0.as_bytes()
    }

    /// Length of the payload.
    pub fn key_len(&self) -> (n: usize)
        ensures
            n == self@.0.len(),
    {
        self.0.as_bytes().len()
    }

    /// Length of the payload and the version together, the key's share in size accounting.
    pub fn raw_len(&self) -> (n: usize)
        requires
            self@.0.len() + VERSION_LEN <= usize::MAX,
        ensures
            n == self@.0.len() + VERSION_LEN,
    {
        self.0.as_bytes().len() + VERSION_LEN
    }

    /// Whether the payload has no bytes.
    pub fn is_empty(&self) -> (e: bool)
        ensures
            e == (self@.0.len() == 0),
    {
        self.0.as_bytes().len() == 0
    }

    /// The version.
    pub fn version(&self) -> (v: u64)
        ensures
            v == self@.1,
    {
        self.1
    }

    /// Three-way comparison in the key order: payloads lexicographically
    /// and, where they are equal, versions in reverse.
    pub fn compare(&self, other: &Key<T>) -> (r: Ordering)
        ensures
            r == key_order(self@, other@),
    {
        let a = self.0.as_bytes();
        let b = other.0.as_bytes();
        let n = common_prefix(a, b);
        if n < b.len() && (n == a.len() || a[n] < b[n]) {
            Ordering::Less
        } else if n < a.len() {
            Ordering::Greater
        } else if self.1 > other.1 {
            Ordering::Less
        } else if self.1 < other.1 {
            Ordering::Greater
        } else {
            Ordering::Equal
        }
    }
}

impl<'a> Key<&'a [u8]> {
    /// A key that borrows `slice`, at version `ts`.
    pub fn from_slice(slice: &'a [u8], ts: u64) -> (k: Self)
        ensures
            k@ == (slice@, ts),
    {
        Key(slice, ts)
    }

    /// The borrowed payload, with its full lifetime.
    pub fn key_ref(self) -> (s: &'a [u8])
        ensures
            s@ == self@.0,
    {
        self.0
    }

    /// The borrowed payload.
    pub fn for_testing_key_ref(self) -> (s: &'a [u8])
        ensures
            s@ == self@.0,
    {
        self.0
    }

    /// A key that borrows `slice`, at version zero.
    pub fn for_testing_from_slice_no_ts(slice: &'a [u8]) -> (k: Self)
        ensures
            k@ == (slice@, 0u64),
    {
        Key(slice, 0)
    }

    /// Copies the payload into an owned key with the same version.
    pub fn to_key_bytes(&self) -> (k: KeyBytes)
        ensures
            k@ == self@,
    {
        Key(Bytes::from(self.0), self.1)
    }
}

impl<T: AsBytes> PartialEqSpecImpl for Key<T> {
    /// `==` gives exactly `eq_spec`.
    open spec fn obeys_eq_spec() -> bool {
        true
    }

    /// Two keys are equal when payload bytes and version both match.
    open spec fn eq_spec(&self, other: &Key<T>) -> bool {
        self@ == other@
    }
}

impl<T: AsBytes> PartialEq for Key<T> {
    /// Whether payload bytes and version both match.
    fn eq(&self, other: &Key<T>) -> (r: bool) {
        let a = self.0.as_bytes();
        let b = other.0.as_bytes();
        let n = common_prefix(a, b);
        n == a.len() && n == b.len() && self.1 == other.1
    }
}

impl<T: AsBytes> Eq for Key<T> {}

impl<T: AsBytes> PartialOrdSpecImpl for Key<T> {
    /// Comparison gives exactly `partial_cmp_spec`.
    open spec fn obeys_partial_cmp_spec() -> bool {
        true
    }

    /// Keys are ordered by `key_order`; any two can be compared.
    open spec fn partial_cmp_spec(&self, other: &Key<T>) -> Option<Ordering> {
        Some(key_order(self@, other@))
    }
}

impl<T: AsBytes> PartialOrd for Key<T> {
    /// Compares payloads lexicographically and, where they are equal, the
    /// versions in reverse.
    fn partial_cmp(&self, other: &Key<T>) -> (r: Option<Ordering>) {
        Some(self.compare(other))
    }
}

impl<T: AsBytes + Clone> Clone for Key<T> {
    /// A key with a clone of the payload and the same version.
    fn clone(&self) -> (k: Self)
        ensures
            cloned::<T>(self.payload(), k.payload()),
            k@.1 == self@.1,
    {
        Key(self.0.clone(), self.1)
    }
}

impl<T: AsBytes + Copy> Copy for Key<T> {}

impl<T: AsBytes + Default> Default for Key<T> {
    /// The default payload at version zero.
    fn default() -> (k: Self)
        ensures
            T::default.ensures((), k.payload()),
            k@.1 == 0,
    {
        Key(T::default(), 0)
    }
}

/// Of two keys with one payload, the one with the larger version sorts first.
pub proof fn lemma_newer_version_sorts_first(payload: Seq<u8>, newer: u64, older: u64)
    requires
        newer > older,
    ensures
        key_lt((payload, newer), (payload, older)),
        key_order((payload, newer), (payload, older)) == Ordering::Less,
        key_order((payload, older), (payload, newer)) == Ordering::Greater,
{
    assert(!bytes_lt(payload, payload));
}

/// Two keys compare equal exactly when payload and version both match.
pub proof fn lemma_key_equal_iff_same(a: (Seq<u8>, u64), b: (Seq<u8>, u64))
    ensures
        key_order(a, b) == Ordering::Equal <==> a.0 == b.0 && a.1 == b.1,
{
    if a == b {
        assert(!bytes_lt(a.0, a.0));
    }
}

/// The key order is a strict total order: no key sorts before itself, the
/// order is transitive, and of two different keys exactly one sorts first.
pub proof fn lemma_key_order_strict_total(
    a: (Seq<u8>, u64),
    b: (Seq<u8>, u64),
    c: (Seq<u8>, u64),
)
    ensures
        !key_lt(a, a),
        key_lt(a, b) && key_lt(b, c) ==> key_lt(a, c),
        key_lt(a, b) ==> !key_lt(b, a),
        key_lt(a, b) || a == b || key_lt(b, a),
{
    assert(!bytes_lt(a.0, a.0));
    if bytes_lt(a.0, b.0) {
        lemma_bytes_lt_asymmetric(a.0, b.0);
    }
    if bytes_lt(b.0, a.0) {
        lemma_bytes_lt_asymmetric(b.0, a.0);
    }
    if bytes_lt(a.0, b.0) && bytes_lt(b.0, c.0) {
        lemma_bytes_lt_transitive(a.0, b.0, c.0);
    }
    lemma_bytes_lt_total(a.0, b.0);
}

} // verus!
