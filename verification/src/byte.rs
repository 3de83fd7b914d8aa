//! Shared byte buffers and big-endian integer helpers.

use std::cmp::Ordering;
use std::sync::Arc;
use vstd::prelude::*;
use vstd::std_specs::cmp::PartialEqSpecImpl;
use vstd::std_specs::cmp::PartialOrdSpecImpl;
use vstd::std_specs::convert::FromSpecImpl;

verus! {

/// The two forms of a buffer: bytes that are never freed, or an allocation
/// that is freed when the last buffer sharing it is dropped.
#[derive(Debug)]
enum Repr {
    Fixed(&'static [u8]),
    Shared(Arc<Vec<u8>>),
}

/// An immutable byte buffer that is cheap to clone and safe to hand to another
/// thread. It either borrows bytes that live for the whole program or shares
/// one reference-counted allocation with all of its clones.
#[derive(Debug)]
pub struct Bytes {
    repr: Repr,
}

impl View for Bytes {
    type V = Seq<u8>;

    /// The bytes that the buffer holds.
    closed spec fn view(&self) -> Seq<u8> {
        match self.repr {
            Repr::Fixed(s) => s@,
            Repr::Shared(v) => v@,
        }
    }
}

impl Bytes {
    /// An empty buffer.
    pub fn new() -> (b: Self)
        ensures
            b@ == Seq::<u8>::empty(),
    {
        let empty: &'static [u8] = &[];
        Self::from_static(empty)
    }

    /// Wraps a slice that lives for the whole program, without allocating.
    pub fn from_static(bytes: &'static [u8]) -> (b: Self)
        ensures
            b@ == bytes@,
    {
        Bytes { repr: Repr::Fixed(bytes) }
    }

    /// Number of bytes in the buffer.
    pub fn len(&self) -> (n: usize)
        ensures
            n == self@.len(),
    {
        self.as_slice().len()
    }

    /// The bytes, whichever form holds them.
    fn as_slice(&self) -> (s: &[u8])
        ensures
            s@ == self@,
    {
        match &self.repr {
            Repr::Fixed(s) => s,
            Repr::Shared(v) => v.as_slice(),
        }
    }
}

impl AsRef<[u8]> for Bytes {
    /// A read-only view of the bytes.
    fn as_ref(&self) -> (s: &[u8])
        ensures
            s@ == self@,
    {
        self.as_slice()
    }
}

impl Default for Bytes {
    /// An empty buffer.
    fn default() -> (b: Self)
        ensures
            b@ == Seq::<u8>::empty(),
    {
        Self::new()
    }
}

impl Clone for Bytes {
    /// Shares the bytes: no byte is copied.
    fn clone(&self) -> (b: Self)
        ensures
            b@ == self@,
    {
        match &self.repr {
            Repr::Fixed(s) => Bytes { repr: Repr::Fixed(s) },
            Repr::Shared(v) => Bytes { repr: Repr::Shared(v.clone()) },
        }
    }
}

impl FromSpecImpl<Vec<u8>> for Bytes {
    /// Conversion from a vector gives exactly `from_spec`.
    open spec fn obeys_from_spec() -> bool {
        true
    }

    /// The buffer that shares the vector's allocation.
    closed spec fn from_spec(v: Vec<u8>) -> Bytes {
        Bytes { repr: Repr::Shared(Arc::new(v)) }
    }
}

/// A buffer made from a vector reads back as the vector's bytes.
pub proof fn lemma_from_vec_round_trip(v: Vec<u8>)
    ensures
        <Bytes as vstd::std_specs::convert::FromSpec<Vec<u8>>>::from_spec(v)@ == v@,
{
}

impl From<Vec<u8>> for Bytes {
    /// Adopts the vector's allocation without copying.
    fn from(vec: Vec<u8>) -> (b: Bytes)
        ensures
            b@ == vec@,
    {
        Bytes { repr: Repr::Shared(Arc::new(vec)) }
    }
}

impl PartialEqSpecImpl for Bytes {
    /// `==` gives exactly `eq_spec`.
    open spec fn obeys_eq_spec() -> bool {
        true
    }

    /// Two buffers are equal when they hold the same bytes, whatever form
    /// holds them.
    open spec fn eq_spec(&self, other: &Bytes) -> bool {
        self@ == other@
    }
}

impl PartialEq for Bytes {
    /// Whether the two buffers hold the same bytes.
    fn eq(&self, other: &Bytes) -> (r: bool) {
        let a = self.as_slice();
        let b = other.as_slice();
        let n = common_prefix(a, b);
        n == a.len() && n == b.len()
    }
}

impl Eq for Bytes {}

impl PartialOrdSpecImpl for Bytes {
    /// Comparison gives exactly `partial_cmp_spec`.
    open spec fn obeys_partial_cmp_spec() -> bool {
        true
    }

    /// Buffers are ordered as their bytes are, lexicographically; any two
    /// can be compared.
    open spec fn partial_cmp_spec(&self, other: &Bytes) -> Option<Ordering> {
        Some(bytes_order(self@, other@))
    }
}

impl PartialOrd for Bytes {
    /// Lexicographic comparison of the bytes.
    fn partial_cmp(&self, other: &Bytes) -> (r: Option<Ordering>) {
        Some(compare_bytes(self.as_slice(), other.as_slice()))
    }
}

/// `Hash::hash` of the standard library for slices: feeds the slice to the
/// hasher. Nothing is claimed of what the hasher then holds.
pub assume_specification<Item: std::hash::Hash, Sink: std::hash::Hasher>[ <[Item] as std::hash::Hash>::hash ](
    items: &[Item],
    state: &mut Sink,
);

impl std::hash::Hash for Bytes {
    /// Hashes the bytes as a slice of them is hashed, whatever form holds them.
    fn hash<H: std::hash::Hasher>(&self, state: &mut H) {
        self.as_slice().hash(state)
    }
}

impl<'a> FromSpecImpl<&'a [u8]> for Bytes {
    /// A copy is promised to hold the slice's bytes and nothing more: which
    /// allocation holds them is not a function of the slice.
    open spec fn obeys_from_spec() -> bool {
        false
    }

    /// Stands for no promise, as `obeys_from_spec` says.
    closed spec fn from_spec(v: &'a [u8]) -> Bytes {
        Bytes { repr: Repr::Fixed(v) }
    }
}

impl<'a> From<&'a [u8]> for Bytes {
    /// Copies the slice into a fresh allocation.
    fn from(slice: &'a [u8]) -> (b: Bytes)
        ensures
            b@ == slice@,
    {
        Bytes { repr: Repr::Shared(Arc::new(vstd::slice::slice_to_vec(slice))) }
    }
}

/// `i` is the first position at which `a` sorts before `b`: the two agree on
/// every earlier position, and there `a` either ends or holds the smaller byte.
pub open spec fn precedes_at(a: Seq<u8>, b: Seq<u8>, i: int) -> bool {
    &&& 0 <= i <= a.len()
    &&& i < b.len()
    &&& forall|j: int| 0 <= j < i ==> a[j] == b[j]
    &&& (i == a.len() || a[i] < b[i])
}

/// Strict lexicographic order on byte strings.
pub open spec fn bytes_lt(a: Seq<u8>, b: Seq<u8>) -> bool {
    exists|i: int| precedes_at(a, b, i)
}

/// Three-way lexicographic comparison of byte strings.
pub open spec fn bytes_order(a: Seq<u8>, b: Seq<u8>) -> Ordering {
    if bytes_lt(a, b) {
        Ordering::Less
    } else if a == b {
        Ordering::Equal
    } else {
        Ordering::Greater
    }
}

/// Length of the longest common prefix of two byte slices, together with
/// what it decides about their order.
pub fn common_prefix(a: &[u8], b: &[u8]) -> (n: usize)
    ensures
        n <= a.len(),
        n <= b.len(),
        forall|j: int| 0 <= j < n ==> a@[j] == b@[j],
        n < a.len() && n < b.len() ==> a@[n as int] != b@[n as int],
        bytes_lt(a@, b@) <==> n < b.len() && (n == a.len() || a@[n as int] < b@[n as int]),
        bytes_lt(b@, a@) <==> n < a.len() && (n == b.len() || b@[n as int] < a@[n as int]),
        a@ == b@ <==> n == a.len() && n == b.len(),
{
    let mut i: usize = 0;
    while i < a.len() && i < b.len() && a[i] == b[i]
        invariant
            i <= a.len(),
            i <= b.len(),
            forall|j: int| 0 <= j < i ==> a@[j] == b@[j],
        decreases a.len() - i,
    {
        i += 1;
    }
    proof {
        lemma_order_at_split(a@, b@, i as int);
        lemma_order_at_split(b@, a@, i as int);
        if i == a.len() && i == b.len() {
            assert(a@ =~= b@);
        }
    }
    i
}

/// Compares two byte slices lexicographically.
pub fn compare_bytes(a: &[u8], b: &[u8]) -> (r: Ordering)
    ensures
        r == bytes_order(a@, b@),
{
    let n = common_prefix(a, b);
    if n < b.len() && (n == a.len() || a[n] < b[n]) {
        Ordering::Less
    } else if n < a.len() {
        Ordering::Greater
    } else {
        Ordering::Equal
    }
}

/// Where two strings agree up to `n` and differ there (or one ends), position
/// `n` alone decides whether the first sorts before the second.
pub proof fn lemma_order_at_split(a: Seq<u8>, b: Seq<u8>, n: int)
    requires
        0 <= n <= a.len(),
        n <= b.len(),
        forall|j: int| 0 <= j < n ==> a[j] == b[j],
        n < a.len() && n < b.len() ==> a[n] != b[n],
    ensures
        bytes_lt(a, b) <==> n < b.len() && (n == a.len() || a[n] < b[n]),
{
    if n < b.len() && (n == a.len() || a[n] < b[n]) {
        assert(precedes_at(a, b, n));
    }
    if bytes_lt(a, b) {
        let i = choose|i: int| precedes_at(a, b, i);
        if i < n {
            assert(a[i] == b[i]);
        } else if i > n {
            assert(a[n] == b[n]);
        }
    }
}

/// No byte string sorts before itself.
pub proof fn lemma_bytes_lt_irreflexive(a: Seq<u8>)
    ensures
        !bytes_lt(a, a),
{
}

/// If `a` sorts before `b`, then `b` does not sort before `a`, and the two differ.
pub proof fn lemma_bytes_lt_asymmetric(a: Seq<u8>, b: Seq<u8>)
    requires
        bytes_lt(a, b),
    ensures
        !bytes_lt(b, a),
        a != b,
{
    let i = choose|i: int| precedes_at(a, b, i);
    if bytes_lt(b, a) {
        let j = choose|j: int| precedes_at(b, a, j);
        if i < j {
            assert(b[i] == a[i]);
        } else if j < i {
            assert(a[j] == b[j]);
        }
    }
}

/// The lexicographic order is transitive.
pub proof fn lemma_bytes_lt_transitive(a: Seq<u8>, b: Seq<u8>, c: Seq<u8>)
    requires
        bytes_lt(a, b),
        bytes_lt(b, c),
    ensures
        bytes_lt(a, c),
{
    let i = choose|i: int| precedes_at(a, b, i);
    let j = choose|j: int| precedes_at(b, c, j);
    if i <= j {
        if i < j {
            assert(b[i] == c[i]);
        }
        assert(precedes_at(a, c, i));
    } else {
        assert(a[j] == b[j]);
        assert(precedes_at(a, c, j));
    }
}

/// The first position from `from` on at which `a` and `b` differ or one of them ends.
spec fn first_split(a: Seq<u8>, b: Seq<u8>, from: int) -> int
    decreases a.len() - from,
{
    if 0 <= from < a.len() && from < b.len() && a[from] == b[from] {
        first_split(a, b, from + 1)
    } else {
        from
    }
}

/// From a position up to which two strings agree, `first_split` finds the
/// position up to which they agree and at which they differ or one ends.
proof fn lemma_first_split(a: Seq<u8>, b: Seq<u8>, from: int)
    requires
        0 <= from <= a.len(),
        from <= b.len(),
        forall|j: int| 0 <= j < from ==> a[j] == b[j],
    ensures
        from <= first_split(a, b, from) <= a.len(),
        first_split(a, b, from) <= b.len(),
        forall|j: int| 0 <= j < first_split(a, b, from) ==> a[j] == b[j],
        first_split(a, b, from) < a.len() && first_split(a, b, from) < b.len() ==> a[first_split(
            a,
            b,
            from,
        )] != b[first_split(a, b, from)],
    decreases a.len() - from,
{
    if from < a.len() && from < b.len() && a[from] == b[from] {
        lemma_first_split(a, b, from + 1);
    }
}

/// Any two byte strings are equal, or exactly one sorts before the other.
pub proof fn lemma_bytes_lt_total(a: Seq<u8>, b: Seq<u8>)
    ensures
        bytes_lt(a, b) || a == b || bytes_lt(b, a),
{
    let n = first_split(a, b, 0);
    lemma_first_split(a, b, 0);
    lemma_order_at_split(a, b, n);
    lemma_order_at_split(b, a, n);
    if n == a.len() && n == b.len() {
        assert(a =~= b);
    }
}

/// Big-endian encoding of a 16-bit integer.
pub open spec fn be16(v: u16) -> Seq<u8> {
    seq![(v / 0x100) as u8, (v % 0x100) as u8]
}

/// Big-endian encoding of a 32-bit integer.
pub open spec fn be32(v: u32) -> Seq<u8> {
    seq![
        (v / 0x100_0000) as u8,
        (v / 0x1_0000 % 0x100) as u8,
        (v / 0x100 % 0x100) as u8,
        (v % 0x100) as u8,
    ]
}

/// Big-endian encoding of a 64-bit integer.
pub open spec fn be64(v: u64) -> Seq<u8> {
    seq![
        (v / 0x100_0000_0000_0000) as u8,
        (v / 0x1_0000_0000_0000 % 0x100) as u8,
        (v / 0x100_0000_0000 % 0x100) as u8,
        (v / 0x1_0000_0000 % 0x100) as u8,
        (v / 0x100_0000 % 0x100) as u8,
        (v / 0x1_0000 % 0x100) as u8,
        (v / 0x100 % 0x100) as u8,
        (v % 0x100) as u8,
    ]
}

/// The integer that the first two bytes of `s` encode, big end first.
pub open spec fn from_be16(s: Seq<u8>) -> u16
    recommends
        s.len() >= 2,
{
    (s[0] * 0x100 + s[1]) as u16
}

/// The integer that the first four bytes of `s` encode, big end first.
pub open spec fn from_be32(s: Seq<u8>) -> u32
    recommends
        s.len() >= 4,
{
    (s[0] * 0x100_0000 + s[1] * 0x1_0000 + s[2] * 0x100 + s[3]) as u32
}

/// The integer that the first eight bytes of `s` encode, big end first.
pub open spec fn from_be64(s: Seq<u8>) -> u64
    recommends
        s.len() >= 8,
{
    (s[0] * 0x100_0000_0000_0000 + s[1] * 0x1_0000_0000_0000 + s[2] * 0x100_0000_0000 + s[3]
        * 0x1_0000_0000 + s[4] * 0x100_0000 + s[5] * 0x1_0000 + s[6] * 0x100 + s[7]) as u64
}

/// Decoding inverts encoding of 16-bit integers.
pub proof fn lemma_be16_round_trip(v: u16)
    ensures
        be16(v).len() == 2,
        from_be16(be16(v)) == v,
{
}

/// Decoding inverts encoding of 32-bit integers.
pub proof fn lemma_be32_round_trip(v: u32)
    ensures
        be32(v).len() == 4,
        from_be32(be32(v)) == v,
{
}

/// Decoding inverts encoding of 64-bit integers.
pub proof fn lemma_be64_round_trip(v: u64)
    ensures
        be64(v).len() == 8,
        from_be64(be64(v)) == v,
{
    assert((v / 0x100_0000_0000_0000) * 0x100_0000_0000_0000 + (v / 0x1_0000_0000_0000 % 0x100)
        * 0x1_0000_0000_0000 + (v / 0x100_0000_0000 % 0x100) * 0x100_0000_0000 + (v
        / 0x1_0000_0000 % 0x100) * 0x1_0000_0000 + (v / 0x100_0000 % 0x100) * 0x100_0000 + (v
        / 0x1_0000 % 0x100) * 0x1_0000 + (v / 0x100 % 0x100) * 0x100 + v % 0x100 == v)
        by (bit_vector);
}

/// Marker for types that bytes can be read from.
pub trait ByteReader {
}

/// Fixed-width big-endian integers, appended to and taken off the end of a byte string.
pub trait ByteUtil: View<V = Seq<u8>> {
    /// Appends the two bytes of `val`.
    fn put_u16(&mut self, val: u16)
        ensures
            final(self)@ == old(self)@ + be16(val),
    ;

    /// Appends the four bytes of `val`.
    fn put_u32(&mut self, val: u32)
        ensures
            final(self)@ == old(self)@ + be32(val),
    ;

    /// Appends the eight bytes of `val`.
    fn put_u64(&mut self, val: u64)
        ensures
            final(self)@ == old(self)@ + be64(val),
    ;

    /// Removes the last two bytes and returns the integer they encode; with
    /// fewer than two bytes, returns `None` and removes nothing.
    fn get_u16(&mut self) -> (r: Option<u16>)
        ensures
            old(self)@.len() < 2 ==> r is None && final(self)@ == old(self)@,
            old(self)@.len() >= 2 ==> r == Some(from_be16(old(self)@.skip(old(self)@.len() - 2)))
                && final(self)@ == old(self)@.take(old(self)@.len() - 2),
    ;

    /// Removes the last four bytes and returns the integer they encode; with
    /// fewer than four bytes, returns `None` and removes nothing.
    fn get_u32(&mut self) -> (r: Option<u32>)
        ensures
            old(self)@.len() < 4 ==> r is None && final(self)@ == old(self)@,
            old(self)@.len() >= 4 ==> r == Some(from_be32(old(self)@.skip(old(self)@.len() - 4)))
                && final(self)@ == old(self)@.take(old(self)@.len() - 4),
    ;

    /// Removes the last eight bytes and returns the integer they encode; with
    /// fewer than eight bytes, returns `None` and removes nothing.
    fn get_u64(&mut self) -> (r: Option<u64>)
        ensures
            old(self)@.len() < 8 ==> r is None && final(self)@ == old(self)@,
            old(self)@.len() >= 8 ==> r == Some(from_be64(old(self)@.skip(old(self)@.len() - 8)))
                && final(self)@ == old(self)@.take(old(self)@.len() - 8),
    ;
}

impl ByteUtil for Vec<u8> {
    /// Pushes the high byte, then the low byte.
    fn put_u16(&mut self, val: u16) {
        self.push((val / 0x100) as u8);
        self.push((val % 0x100) as u8);
        assert(self@ =~= old(self)@ + be16(val));
    }

    /// Pushes the four bytes, highest first.
    fn put_u32(&mut self, val: u32) {
        self.push((val / 0x100_0000) as u8);
        self.push((val / 0x1_0000 % 0x100) as u8);
        self.push((val / 0x100 % 0x100) as u8);
        self.push((val % 0x100) as u8);
        assert(self@ =~= old(self)@ + be32(val));
    }

    /// Pushes the eight bytes, highest first.
    fn put_u64(&mut self, val: u64) {
        self.push((val / 0x100_0000_0000_0000) as u8);
        self.push((val / 0x1_0000_0000_0000 % 0x100) as u8);
        self.push((val / 0x100_0000_0000 % 0x100) as u8);
        self.push((val / 0x1_0000_0000 % 0x100) as u8);
        self.push((val / 0x100_0000 % 0x100) as u8);
        self.push((val / 0x1_0000 % 0x100) as u8);
        self.push((val / 0x100 % 0x100) as u8);
        self.push((val % 0x100) as u8);
        assert(self@ =~= old(self)@ + be64(val));
    }

    /// Reads the last two bytes and cuts them off.
    fn get_u16(&mut self) -> (r: Option<u16>) {
        let n = self.len();
        if n < 2 {
            return None;
        }
        let val = read_u16(self.as_slice(), n - 2);
        self.truncate(n - 2);
        Some(val)
    }

    /// Reads the last four bytes and cuts them off.
    fn get_u32(&mut self) -> (r: Option<u32>) {
        let n = self.len();
        if n < 4 {
            return None;
        }
        let val = read_u32(self.as_slice(), n - 4);
        self.truncate(n - 4);
        Some(val)
    }

    /// Reads the last eight bytes and cuts them off.
    fn get_u64(&mut self) -> (r: Option<u64>) {
        let n = self.len();
        if n < 8 {
            return None;
        }
        let val = read_u64(self.as_slice(), n - 8);
        self.truncate(n - 8);
        Some(val)
    }
}

/// Reads the big-endian 16-bit integer that starts at `at`.
pub fn read_u16(buf: &[u8], at: usize) -> (v: u16)
    requires
        at + 2 <= buf.len(),
    ensures
        v == from_be16(buf@.skip(at as int)),
{
    let b0: u16 = buf[at] as u16;
    let b1: u16 = buf[at + 1] as u16;
    b0 * 0x100 + b1
}

/// Reads the big-endian 32-bit integer that starts at `at`.
pub fn read_u32(buf: &[u8], at: usize) -> (v: u32)
    requires
        at + 4 <= buf.len(),
    ensures
        v == from_be32(buf@.skip(at as int)),
{
    let b0: u32 = buf[at] as u32;
    let b1: u32 = buf[at + 1] as u32;
    let b2: u32 = buf[at + 2] as u32;
    let b3: u32 = buf[at + 3] as u32;
    b0 * 0x100_0000 + b1 * 0x1_0000 + b2 * 0x100 + b3
}

/// Reads the big-endian 64-bit integer that starts at `at`.
pub fn read_u64(buf: &[u8], at: usize) -> (v: u64)
    requires
        at + 8 <= buf.len(),
    ensures
        v == from_be64(buf@.skip(at as int)),
{
    let b0: u64 = buf[at] as u64;
    let b1: u64 = buf[at + 1] as u64;
    let b2: u64 = buf[at + 2] as u64;
    let b3: u64 = buf[at + 3] as u64;
    let b4: u64 = buf[at + 4] as u64;
    let b5: u64 = buf[at + 5] as u64;
    let b6: u64 = buf[at + 6] as u64;
    let b7: u64 = buf[at + 7] as u64;
    b0 * 0x100_0000_0000_0000 + b1 * 0x1_0000_0000_0000 + b2 * 0x100_0000_0000 + b3
        * 0x1_0000_0000 + b4 * 0x100_0000 + b5 * 0x1_0000 + b6 * 0x100 + b7
}

} // verus!
