//! The write-ahead log: how batches of writes are laid out as bytes, how a log
//! is read back, and the buffer that collects batches until they are flushed.
//!
//! A log is a sequence of batches. Each batch is a four-byte body length, the
//! body, and a four-byte CRC-32 of the body. The body is a sequence of
//! entries: a two-byte key length, the key, an eight-byte version, a two-byte
//! value length, and the value. All integers are big-endian.

use crate::byte::{
    be16, be32, be64, from_be16, from_be32, from_be64, lemma_be16_round_trip,
    lemma_be32_round_trip, lemma_be64_round_trip, read_u16, read_u32, read_u64, ByteUtil, Bytes,
};
use crate::checksum::{crc32, crc32_of};
use crate::key::{AsBytes, Key, KeyBytes, KeySlice};
use vstd::prelude::*;

verus! {

/// One write as plain values: the key's payload and version, then the value.
pub type Entry = ((Seq<u8>, u64), Seq<u8>);

/// Length of an entry's fixed fields: two length fields and the version.
pub const ENTRY_OVERHEAD: usize = 12;

/// Length of a batch's fixed fields: the body length and the checksum.
pub const BATCH_OVERHEAD: usize = 8;

/// The plain values of a sequence of key and value pairs.
pub open spec fn entries_of<K: AsBytes, V: View<V = Seq<u8>>>(items: Seq<(Key<K>, V)>) -> Seq<
    Entry,
> {
    Seq::new(items.len(), |i: int| (items[i].0@, items[i].1@))
}

/// Whether key and value are short enough for their two-byte length fields.
pub open spec fn entry_fits(e: Entry) -> bool {
    e.0.0.len() <= u16::MAX && e.1.len() <= u16::MAX
}

/// The bytes of one entry.
pub open spec fn encode_entry(e: Entry) -> Seq<u8> {
    be16(e.0.0.len() as u16) + e.0.0 + be64(e.0.1) + be16(e.1.len() as u16) + e.1
}

/// The bytes of a batch body: its entries one after another.
pub open spec fn encode_body(entries: Seq<Entry>) -> Seq<u8>
    decreases entries.len(),
{
    if entries.len() == 0 {
        Seq::empty()
    } else {
        encode_entry(entries.first()) + encode_body(entries.drop_first())
    }
}

/// Whether every entry fits its length fields.
pub open spec fn entries_fit(entries: Seq<Entry>) -> bool {
    forall|i: int| 0 <= i < entries.len() ==> entry_fits(#[trigger] entries[i])
}

/// Whether a batch can be written: every entry fits, and so does the body's
/// length in its four-byte field.
pub open spec fn batch_fits(entries: Seq<Entry>) -> bool {
    entries_fit(entries) && encode_body(entries).len() <= u32::MAX
}

/// The bytes of a whole batch: length, body, checksum.
pub open spec fn encode_batch(entries: Seq<Entry>) -> Seq<u8> {
    let body = encode_body(entries);
    be32(body.len() as u32) + body + be32(crc32_of(body))
}

/// Why a batch cannot be written to the log.
#[derive(Debug, Clone, Copy, PartialEq, Eq, Structural)]
pub enum WalError {
    /// A key or a value is longer than 65535 bytes.
    EntryTooLarge,
    /// The entries fit, but the body is longer than 4294967295 bytes.
    BatchTooLarge,
}

/// Appending an entry to a batch appends its bytes to the body.
pub proof fn lemma_encode_body_push(entries: Seq<Entry>, e: Entry)
    ensures
        encode_body(entries.push(e)) == encode_body(entries) + encode_entry(e),
    decreases entries.len(),
{
    if entries.len() == 0 {
        assert(entries.push(e).drop_first() =~= Seq::<Entry>::empty());
        assert(encode_body(entries.push(e).drop_first()) =~= Seq::<u8>::empty());
        assert(encode_body(entries.push(e)) =~= encode_entry(e));
        assert(encode_body(entries) + encode_entry(e) =~= encode_entry(e));
    } else {
        lemma_encode_body_push(entries.drop_first(), e);
        assert(entries.push(e).drop_first() =~= entries.drop_first().push(e));
        assert(encode_entry(entries.first()) + (encode_body(entries.drop_first()) + encode_entry(e))
            =~= encode_body(entries) + encode_entry(e));
    }
}

/// A body is at least as long as the body of any prefix of its entries.
pub proof fn lemma_encode_body_prefix_len(entries: Seq<Entry>, n: int)
    requires
        0 <= n <= entries.len(),
    ensures
        encode_body(entries.take(n)).len() <= encode_body(entries).len(),
    decreases entries.len() - n,
{
    if n < entries.len() {
        lemma_encode_body_prefix_len(entries, n + 1);
        lemma_encode_body_push(entries.take(n), entries[n]);
        assert(entries.take(n + 1) =~= entries.take(n).push(entries[n]));
    } else {
        assert(entries.take(n) =~= entries);
    }
}

/// Whether every key and value of `data` fits its two-byte length field.
fn check_entries(data: &[(KeySlice, &[u8])]) -> (ok: bool)
    ensures
        ok == entries_fit(entries_of(data@)),
{
    let mut i: usize = 0;
    while i < data.len()
        invariant
            i <= data.len(),
            forall|j: int| 0 <= j < i ==> entry_fits(#[trigger] entries_of(data@)[j]),
        decreases data.len() - i,
    {
        if data[i].0.key_len() > 0xFFFF || data[i].1.len() > 0xFFFF {
            assert(!entry_fits(entries_of(data@)[i as int]));
            return false;
        }
        i += 1;
    }
    true
}

/// Whether the body of `data` is short enough for its four-byte length field.
fn check_length(data: &[(KeySlice, &[u8])]) -> (ok: bool)
    requires
        entries_fit(entries_of(data@)),
    ensures
        ok == (encode_body(entries_of(data@)).len() <= u32::MAX),
{
    let ghost entries = entries_of(data@);
    let mut total: u64 = 0;
    let mut i: usize = 0;
    while i < data.len()
        invariant
            i <= data.len(),
            entries == entries_of(data@),
            entries_fit(entries),
            total == encode_body(entries.take(i as int)).len(),
            total <= u32::MAX,
        decreases data.len() - i,
    {
        proof {
            lemma_encode_body_push(entries.take(i as int), entries[i as int]);
            assert(entries.take(i + 1) =~= entries.take(i as int).push(entries[i as int]));
            lemma_encode_body_prefix_len(entries, i + 1);
            assert(entry_fits(entries[i as int]));
        }
        total = total + ENTRY_OVERHEAD as u64 + data[i].0.key_len() as u64 + data[i].1.len() as u64;
        if total > 0xFFFF_FFFF {
            return false;
        }
        i += 1;
    }
    proof {
        assert(entries.take(i as int) =~= entries);
    }
    true
}

/// Lays a batch out as bytes, or says why it cannot be written. Nothing is
/// laid out for a batch that cannot be written.
pub fn encode(data: &[(KeySlice, &[u8])]) -> (r: Result<Vec<u8>, WalError>)
    ensures
        match r {
            Ok(bytes) => batch_fits(entries_of(data@)) && bytes@ == encode_batch(entries_of(data@)),
            Err(WalError::EntryTooLarge) => !entries_fit(entries_of(data@)),
            Err(WalError::BatchTooLarge) => entries_fit(entries_of(data@)) && encode_body(
                entries_of(data@),
            ).len() > u32::MAX,
        },
{
    if !check_entries(data) {
        return Err(WalError::EntryTooLarge);
    }
    if !check_length(data) {
        return Err(WalError::BatchTooLarge);
    }
    let ghost entries = entries_of(data@);
    let mut body: Vec<u8> = Vec::new();
    let mut i: usize = 0;
    while i < data.len()
        invariant
            i <= data.len(),
            entries == entries_of(data@),
            batch_fits(entries),
            body@ == encode_body(entries.take(i as int)),
        decreases data.len() - i,
    {
        let key = data[i].0.into_inner();
        let value = data[i].1;
        proof {
            lemma_encode_body_push(entries.take(i as int), entries[i as int]);
            assert(entries.take(i + 1) =~= entries.take(i as int).push(entries[i as int]));
            assert(entry_fits(entries[i as int]));
        }
        let ghost before = body@;
        body.put_u16(key.len() as u16);
        body.extend_from_slice(key);
        body.put_u64(data[i].0.version());
        body.put_u16(value.len() as u16);
        body.extend_from_slice(value);
        proof {
            assert(body@ =~= before + encode_entry(entries[i as int]));
        }
        i += 1;
    }
    proof {
        assert(entries.take(i as int) =~= entries);
    }
    let sum = crc32(body.as_slice());
    let mut bytes: Vec<u8> = Vec::new();
    bytes.put_u32(body.len() as u32);
    bytes.extend_from_slice(body.as_slice());
    bytes.put_u32(sum);
    proof {
        assert(bytes@ =~= encode_batch(entries));
    }
    Ok(bytes)
}

/// The entry at the front of `body` and the number of bytes it takes, or
/// `None` where `body` ends before the entry does.
#[verifier::opaque]
pub open spec fn decode_entry(body: Seq<u8>) -> Option<(Entry, int)> {
    if body.len() < 2 {
        None
    } else {
        let key_len = from_be16(body) as int;
        if body.len() < key_len + ENTRY_OVERHEAD {
            None
        } else {
            let value_len = from_be16(body.skip(key_len + 10)) as int;
            if body.len() < key_len + ENTRY_OVERHEAD + value_len {
                None
            } else {
                let key = body.subrange(2, 2 + key_len);
                let version = from_be64(body.skip(2 + key_len));
                let value = body.subrange(
                    key_len + ENTRY_OVERHEAD,
                    key_len + ENTRY_OVERHEAD + value_len,
                );
                Some((((key, version), value), key_len + ENTRY_OVERHEAD + value_len))
            }
        }
    }
}

/// The entries that `body` holds, or `None` where it does not end with the
/// end of an entry.
pub open spec fn decode_body(body: Seq<u8>) -> Option<Seq<Entry>>
    decreases body.len(),
{
    if body.len() == 0 {
        Some(Seq::empty())
    } else {
        match decode_entry(body) {
            None => None,
            Some((entry, used)) => {
                proof {
                    reveal(decode_entry);
                }
                match decode_body(body.skip(used)) {
                    None => None,
                    Some(rest) => Some(seq![entry] + rest),
                }
            },
        }
    }
}

/// The entries of the batch at the front of `log` and the number of bytes the
/// batch takes, or `None` where the batch is cut short, its checksum does not
/// match its body, or its body is not a sequence of whole entries.
pub open spec fn decode_batch(log: Seq<u8>) -> Option<(Seq<Entry>, int)> {
    if log.len() < BATCH_OVERHEAD {
        None
    } else {
        let body_len = from_be32(log) as int;
        if log.len() < body_len + BATCH_OVERHEAD {
            None
        } else {
            let body = log.subrange(4, 4 + body_len);
            if from_be32(log.skip(4 + body_len)) != crc32_of(body) {
                None
            } else {
                match decode_body(body) {
                    None => None,
                    Some(entries) => Some((entries, body_len + BATCH_OVERHEAD)),
                }
            }
        }
    }
}

/// What recovery makes of a log: the entries of its batches in order, up to
/// the first batch that is cut short or damaged.
pub open spec fn recover_log(log: Seq<u8>) -> Seq<Entry>
    decreases log.len(),
{
    match decode_batch(log) {
        None => Seq::empty(),
        Some((entries, used)) => {
            proof {
                reveal(decode_batch);
            }
            entries + recover_log(log.skip(used))
        },
    }
}

/// Reads the entry that starts at `at`, and returns it with the position
/// that follows it.
fn read_entry(body: &[u8], at: usize) -> (r: Option<(KeyBytes, Bytes, usize)>)
    requires
        at <= body.len(),
    ensures
        match r {
            Some((key, value, next)) => {
                &&& decode_entry(body@.skip(at as int)) == Some(
                    ((key@, value@), next - at),
                )
                &&& at < next <= body.len()
            },
            None => decode_entry(body@.skip(at as int)) is None,
        },
{
    reveal(decode_entry);
    let ghost rest = body@.skip(at as int);
    let left = body.len() - at;
    if left < 2 {
        return None;
    }
    let key_len = read_u16(body, at) as usize;
    if left - 2 < key_len + 10 {
        return None;
    }
    let version = read_u64(body, at + 2 + key_len);
    let value_len = read_u16(body, at + key_len + 10) as usize;
    if left - ENTRY_OVERHEAD - key_len < value_len {
        return None;
    }
    let key_start = at + 2;
    let value_start = at + key_len + ENTRY_OVERHEAD;
    let key = vstd::slice::slice_subrange(body, key_start, key_start + key_len);
    let value = vstd::slice::slice_subrange(body, value_start, value_start + value_len);
    proof {
        assert(rest.skip(2 + key_len) =~= body@.skip(at + 2 + key_len));
        assert(rest.skip(key_len + 10) =~= body@.skip(at + key_len + 10));
        assert(rest.subrange(2, 2 + key_len) =~= key@);
        assert(rest.subrange(key_len + ENTRY_OVERHEAD, key_len + ENTRY_OVERHEAD + value_len)
            =~= value@);
    }
    Some(
        (
            KeyBytes::new(Bytes::from(key), version),
            Bytes::from(value),
            value_start + value_len,
        ),
    )
}

/// Reads the entries of a batch body and appends them to `out`; where the
/// body is not a sequence of whole entries, leaves `out` as it was.
fn read_body(body: &[u8], out: &mut Vec<(KeyBytes, Bytes)>) -> (ok: bool)
    ensures
        match decode_body(body@) {
            Some(entries) => ok && entries_of(final(out)@) == entries_of(old(out)@) + entries,
            None => !ok && final(out)@ == old(out)@,
        },
{
    let mut found: Vec<(KeyBytes, Bytes)> = Vec::new();
    let mut at: usize = 0;
    proof {
        assert(body@.skip(0) =~= body@);
        if decode_body(body@) is Some {
            assert(entries_of(found@) + decode_body(body@).unwrap() =~= decode_body(
                body@,
            ).unwrap());
        }
    }
    while at < body.len()
        invariant
            at <= body.len(),
            decode_body(body@) == match decode_body(body@.skip(at as int)) {
                None => None::<Seq<Entry>>,
                Some(rest) => Some(entries_of(found@) + rest),
            },
        decreases body.len() - at,
    {
        let ghost rest = body@.skip(at as int);
        match read_entry(body, at) {
            None => {
                return false;
            },
            Some((key, value, next)) => {
                proof {
                    assert(rest.skip(next - at) =~= body@.skip(next as int));
                    let tail = decode_body(body@.skip(next as int));
                    if tail is Some {
                        assert(entries_of(found@.push((key, value))) + tail.unwrap() =~= entries_of(
                            found@,
                        ) + (seq![(key@, value@)] + tail.unwrap()));
                    }
                }
                found.push((key, value));
                at = next;
            },
        }
    }
    proof {
        assert(body@.skip(at as int) =~= Seq::<u8>::empty());
        assert(entries_of(found@) + Seq::<Entry>::empty() =~= entries_of(found@));
        assert(entries_of(old(out)@ + found@) =~= entries_of(old(out)@) + entries_of(found@));
    }
    out.append(&mut found);
    true
}

/// Reads the batch that starts at `at`, appends its entries to `out` and
/// returns the position that follows it; where the batch is cut short or
/// damaged, leaves `out` as it was.
fn read_batch(log: &[u8], at: usize, out: &mut Vec<(KeyBytes, Bytes)>) -> (r: Option<usize>)
    requires
        at <= log.len(),
    ensures
        match decode_batch(log@.skip(at as int)) {
            Some((entries, used)) => {
                &&& r == Some((at + used) as usize)
                &&& at < at + used <= log.len()
                &&& entries_of(final(out)@) == entries_of(old(out)@) + entries
            },
            None => r is None && final(out)@ == old(out)@,
        },
{
    reveal(decode_batch);
    let ghost rest = log@.skip(at as int);
    let left = log.len() - at;
    if left < BATCH_OVERHEAD {
        return None;
    }
    let body_len = read_u32(log, at) as usize;
    if left - BATCH_OVERHEAD < body_len {
        return None;
    }
    let body = vstd::slice::slice_subrange(log, at + 4, at + 4 + body_len);
    let sum = read_u32(log, at + 4 + body_len);
    proof {
        assert(rest.subrange(4, 4 + body_len) =~= body@);
        assert(rest.skip(4 + body_len) =~= log@.skip(at + 4 + body_len));
    }
    if sum != crc32(body) {
        return None;
    }
    if !read_body(body, out) {
        return None;
    }
    Some(at + body_len + BATCH_OVERHEAD)
}

/// Concatenation is associative.
proof fn lemma_concat_assoc<A>(a: Seq<A>, b: Seq<A>, c: Seq<A>)
    ensures
        (a + b) + c == a + (b + c),
{
    assert((a + b) + c =~= a + (b + c));
}

/// The writing end of a log. It collects the bytes of appended batches; a
/// sync hands them over, to be written to the log file and forced to stable
/// storage by the caller.
pub struct Wal {
    buffered: Vec<u8>,
}

impl View for Wal {
    type V = Seq<u8>;

    /// The bytes appended since the last sync.
    closed spec fn view(&self) -> Seq<u8> {
        self.buffered@
    }
}

impl Wal {
    /// A log writer with nothing buffered.
    pub fn new() -> (wal: Self)
        ensures
            wal@ == Seq::<u8>::empty(),
    {
        Wal { buffered: Vec::new() }
    }

    /// Appends one batch to the buffer, whole or not at all.
    pub fn append_batch(&mut self, data: &[(KeySlice, &[u8])]) -> (r: Result<(), WalError>)
        ensures
            match r {
                Ok(()) => batch_fits(entries_of(data@)) && final(self)@ == old(self)@
                    + encode_batch(entries_of(data@)),
                Err(WalError::EntryTooLarge) => !entries_fit(entries_of(data@)) && final(self)@
                    == old(self)@,
                Err(WalError::BatchTooLarge) => entries_fit(entries_of(data@)) && encode_body(
                    entries_of(data@),
                ).len() > u32::MAX && final(self)@ == old(self)@,
            },
    {
        match encode(data) {
            Ok(bytes) => {
                self.buffered.extend_from_slice(bytes.as_slice());
                proof {
                    assert(self@ =~= old(self)@ + bytes@);
                }
                Ok(())
            },
            Err(e) => Err(e),
        }
    }

    /// Empties the buffer and returns what it held: the bytes that are to be
    /// written to the end of the log file and forced to stable storage.
    pub fn sync(&mut self) -> (bytes: Vec<u8>)
        ensures
            bytes@ == old(self)@,
            final(self)@ == Seq::<u8>::empty(),
    {
        let mut bytes: Vec<u8> = Vec::new();
        std::mem::swap(&mut self.buffered, &mut bytes);
        bytes
    }

    /// Reads a log back: the entries of every batch in order, up to the first
    /// batch that is cut short or whose checksum does not match. That batch
    /// and all that follows it are left out.
    pub fn recover(log: &[u8]) -> (entries: Vec<(KeyBytes, Bytes)>)
        ensures
            entries_of(entries@) == recover_log(log@),
    {
        let mut entries: Vec<(KeyBytes, Bytes)> = Vec::new();
        let mut at: usize = 0;
        proof {
            assert(log@.skip(0) =~= log@);
            assert(entries_of(entries@) + recover_log(log@) =~= recover_log(log@));
        }
        loop
            invariant
                at <= log.len(),
                recover_log(log@) == entries_of(entries@) + recover_log(log@.skip(at as int)),
            ensures
                entries_of(entries@) == recover_log(log@),
            decreases log.len() - at,
        {
            let ghost rest = log@.skip(at as int);
            let ghost before = entries_of(entries@);
            match read_batch(log, at, &mut entries) {
                None => {
                    proof {
                        assert(before + Seq::<Entry>::empty() =~= before);
                    }
                    break ;
                },
                Some(next) => {
                    proof {
                        let found = decode_batch(rest).unwrap().0;
                        assert(rest.skip(next - at) =~= log@.skip(next as int));
                        lemma_concat_assoc(before, found, recover_log(log@.skip(next as int)));
                    }
                    at = next;
                },
            }
        }
        entries
    }
}

/// The bytes of a log that holds `batches` in order and nothing else.
pub open spec fn encode_log(batches: Seq<Seq<Entry>>) -> Seq<u8>
    decreases batches.len(),
{
    if batches.len() == 0 {
        Seq::empty()
    } else {
        encode_batch(batches.first()) + encode_log(batches.drop_first())
    }
}

/// The entries of `batches`, batch after batch.
pub open spec fn all_entries(batches: Seq<Seq<Entry>>) -> Seq<Entry>
    decreases batches.len(),
{
    if batches.len() == 0 {
        Seq::empty()
    } else {
        batches.first() + all_entries(batches.drop_first())
    }
}

/// Whether every batch can be written.
pub open spec fn batches_fit(batches: Seq<Seq<Entry>>) -> bool {
    forall|i: int| 0 <= i < batches.len() ==> batch_fits(#[trigger] batches[i])
}

/// An entry that fits is read back from the front of whatever follows it.
pub proof fn lemma_decode_entry(e: Entry, tail: Seq<u8>)
    requires
        entry_fits(e),
    ensures
        encode_entry(e).len() == e.0.0.len() + ENTRY_OVERHEAD + e.1.len(),
        decode_entry(encode_entry(e) + tail) == Some((e, encode_entry(e).len() as int)),
{
    reveal(decode_entry);
    let key = e.0.0;
    let value = e.1;
    let key_len = key.len() as int;
    let value_len = value.len() as int;
    let s = encode_entry(e) + tail;
    lemma_be16_round_trip(key_len as u16);
    lemma_be16_round_trip(value_len as u16);
    lemma_be64_round_trip(e.0.1);
    assert(s.len() >= key_len + ENTRY_OVERHEAD + value_len);
    assert(s[0] == be16(key_len as u16)[0]);
    assert(s[1] == be16(key_len as u16)[1]);
    assert(from_be16(s) == key_len);
    let at_version = s.skip(2 + key_len);
    assert forall|i: int| 0 <= i < 8 implies at_version[i] == be64(e.0.1)[i] by {
        assert(at_version[i] == s[2 + key_len + i]);
    }
    assert(from_be64(at_version) == e.0.1);
    let at_value_len = s.skip(key_len + 10);
    assert(at_value_len[0] == s[key_len + 10]);
    assert(at_value_len[1] == s[key_len + 11]);
    assert(at_value_len[0] == be16(value_len as u16)[0]);
    assert(at_value_len[1] == be16(value_len as u16)[1]);
    assert(from_be16(at_value_len) == value_len);
    assert(s.subrange(2, 2 + key_len) =~= key);
    assert(s.subrange(key_len + ENTRY_OVERHEAD, key_len + ENTRY_OVERHEAD + value_len) =~= value);
}

/// A body whose entries fit is read back as those entries.
pub proof fn lemma_decode_body(entries: Seq<Entry>)
    requires
        entries_fit(entries),
    ensures
        decode_body(encode_body(entries)) == Some(entries),
    decreases entries.len(),
{
    if entries.len() == 0 {
        assert(entries =~= Seq::<Entry>::empty());
    } else {
        let first = entries.first();
        let rest = entries.drop_first();
        let body = encode_body(entries);
        assert(entry_fits(entries[0]));
        assert forall|i: int| 0 <= i < rest.len() implies entry_fits(#[trigger] rest[i]) by {
            assert(entry_fits(entries[i + 1]));
        }
        lemma_decode_entry(first, encode_body(rest));
        lemma_decode_body(rest);
        assert(body.skip(encode_entry(first).len() as int) =~= encode_body(rest));
        assert(seq![first] + rest =~= entries);
    }
}

/// A batch that can be written is read back from the front of whatever
/// follows it, and takes exactly its own bytes.
pub proof fn lemma_decode_batch(entries: Seq<Entry>, tail: Seq<u8>)
    requires
        batch_fits(entries),
    ensures
        encode_batch(entries).len() == encode_body(entries).len() + BATCH_OVERHEAD,
        decode_batch(encode_batch(entries) + tail) == Some(
            (entries, encode_batch(entries).len() as int),
        ),
{
    reveal(decode_batch);
    let body = encode_body(entries);
    let body_len = body.len() as int;
    let log = encode_batch(entries) + tail;
    lemma_be32_round_trip(body_len as u32);
    lemma_be32_round_trip(crc32_of(body));
    lemma_decode_body(entries);
    assert forall|i: int| 0 <= i < 4 implies log[i] == be32(body_len as u32)[i] by {}
    assert(from_be32(log) == body_len);
    assert(log.subrange(4, 4 + body_len) =~= body);
    let at_sum = log.skip(4 + body_len);
    assert forall|i: int| 0 <= i < 4 implies at_sum[i] == be32(crc32_of(body))[i] by {
        assert(at_sum[i] == log[4 + body_len + i]);
    }
    assert(from_be32(at_sum) == crc32_of(body));
}

/// Recovery reads a well-formed batch and goes on with what follows it.
pub proof fn lemma_recover_batch(entries: Seq<Entry>, tail: Seq<u8>)
    requires
        batch_fits(entries),
    ensures
        recover_log(encode_batch(entries) + tail) == entries + recover_log(tail),
{
    lemma_decode_batch(entries, tail);
    let log = encode_batch(entries) + tail;
    assert(log.skip(encode_batch(entries).len() as int) =~= tail);
}

/// Recovery reads every batch of a well-formed log, in order, and goes on
/// with what follows the last one.
pub proof fn lemma_recover_batches(batches: Seq<Seq<Entry>>, tail: Seq<u8>)
    requires
        batches_fit(batches),
    ensures
        recover_log(encode_log(batches) + tail) == all_entries(batches) + recover_log(tail),
    decreases batches.len(),
{
    if batches.len() == 0 {
        assert(encode_log(batches) + tail =~= tail);
        assert(all_entries(batches) + recover_log(tail) =~= recover_log(tail));
    } else {
        let first = batches.first();
        let rest = batches.drop_first();
        assert(batch_fits(first));
        assert(batches_fit(rest)) by {
            assert forall|i: int| 0 <= i < rest.len() implies batch_fits(#[trigger] rest[i]) by {
                assert(rest[i] == batches[i + 1]);
            }
        }
        let head_bytes = encode_batch(first);
        let rest_bytes = encode_log(rest);
        let recovered_tail = recover_log(tail);
        lemma_recover_batch(first, rest_bytes + tail);
        lemma_recover_batches(rest, tail);
        lemma_concat_assoc(head_bytes, rest_bytes, tail);
        lemma_concat_assoc(first, all_entries(rest), recovered_tail);
    }
}

/// Writing batches and reading the log back gives the entries that were
/// written, in the order in which they were written.
pub proof fn lemma_recover_round_trip(batches: Seq<Seq<Entry>>)
    requires
        batches_fit(batches),
    ensures
        recover_log(encode_log(batches)) == all_entries(batches),
{
    lemma_recover_batches(batches, Seq::empty());
    assert(encode_log(batches) + Seq::<u8>::empty() =~= encode_log(batches));
    assert(decode_batch(Seq::<u8>::empty()) is None) by {
        reveal(decode_batch);
    }
    assert(all_entries(batches) + recover_log(Seq::<u8>::empty()) =~= all_entries(batches));
}

/// The bytes of a batch whose stored checksum was replaced by `stored`.
pub open spec fn encode_batch_with_checksum(entries: Seq<Entry>, stored: u32) -> Seq<u8> {
    let body = encode_body(entries);
    be32(body.len() as u32) + body + be32(stored)
}

/// Where the checksum stored with a batch is not that of its body, recovery
/// returns the entries of the batches before it and nothing of that batch
/// or of what follows it.
pub proof fn lemma_recover_stops_at_bad_checksum(
    before: Seq<Seq<Entry>>,
    damaged: Seq<Entry>,
    stored: u32,
    after: Seq<u8>,
)
    requires
        batches_fit(before),
        batch_fits(damaged),
        stored != crc32_of(encode_body(damaged)),
    ensures
        recover_log(encode_log(before) + (encode_batch_with_checksum(damaged, stored) + after))
            == all_entries(before),
{
    let body = encode_body(damaged);
    let body_len = body.len() as int;
    let tail = encode_batch_with_checksum(damaged, stored) + after;
    reveal(decode_batch);
    lemma_recover_batches(before, tail);
    lemma_be32_round_trip(body_len as u32);
    lemma_be32_round_trip(stored);
    assert forall|i: int| 0 <= i < 4 implies tail[i] == be32(body_len as u32)[i] by {}
    assert(from_be32(tail) == body_len);
    assert(tail.subrange(4, 4 + body_len) =~= body);
    let at_sum = tail.skip(4 + body_len);
    assert forall|i: int| 0 <= i < 4 implies at_sum[i] == be32(stored)[i] by {
        assert(at_sum[i] == tail[4 + body_len + i]);
    }
    assert(from_be32(at_sum) == stored);
    assert(decode_batch(tail) is None);
    assert(all_entries(before) + recover_log(tail) =~= all_entries(before));
}

/// Where the last batch was cut short, recovery returns the entries of the
/// batches before it and nothing of that batch.
pub proof fn lemma_recover_stops_at_torn_batch(
    before: Seq<Seq<Entry>>,
    torn: Seq<Entry>,
    kept: int,
)
    requires
        batches_fit(before),
        batch_fits(torn),
        0 <= kept < encode_batch(torn).len(),
    ensures
        recover_log(encode_log(before) + encode_batch(torn).take(kept)) == all_entries(before),
{
    let body = encode_body(torn);
    let body_len = body.len() as int;
    let tail = encode_batch(torn).take(kept);
    reveal(decode_batch);
    lemma_recover_batches(before, tail);
    lemma_be32_round_trip(body_len as u32);
    lemma_be32_round_trip(crc32_of(body));
    if kept >= BATCH_OVERHEAD {
        assert forall|i: int| 0 <= i < 4 implies tail[i] == be32(body_len as u32)[i] by {}
        assert(from_be32(tail) == body_len);
    }
    assert(decode_batch(tail) is None);
    assert(all_entries(before) + recover_log(tail) =~= all_entries(before));
}

} // verus!
