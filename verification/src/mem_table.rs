//! The in-memory write buffer: an ordered map from versioned keys to values,
//! with an optional write-ahead log and a running size estimate.

use crate::byte::Bytes;
use crate::key::{key_lt, KeyBytes, KeySlice, VERSION_LEN};
use crate::skip_list::{
    skip_map_entries, skip_map_get, skip_map_insert, skip_map_is_empty, skip_map_items,
    skip_map_new, stored_lt, stored_view, Contents,
};
use crate::wal::{
    all_entries, batch_fits, batches_fit, encode_batch, encode_log, entries_fit, entries_of,
    lemma_recover_round_trip, recover_log, Entry, Wal, WalError,
};
use crossbeam_skiplist::SkipMap;
use vstd::prelude::*;

verus! {

/// The sort number under which a version is stored: the larger the version,
/// the smaller the number, so that newer versions come first.
pub open spec fn sort_number(version: u64) -> u64 {
    (u64::MAX - version) as u64
}

/// The stored form of a key.
pub open spec fn stored_key(key: (Seq<u8>, u64)) -> (Seq<u8>, u64) {
    (key.0, sort_number(key.1))
}

/// The contents after the writes of `entries` have been made in order, each
/// replacing what was written before for the same payload and version.
pub open spec fn apply(contents: Contents, entries: Seq<Entry>) -> Contents
    decreases entries.len(),
{
    if entries.len() == 0 {
        contents
    } else {
        apply(contents, entries.drop_last()).insert(entries.last().0, entries.last().1)
    }
}

/// What one write adds to the size estimate: the lengths of payload,
/// version and value.
pub open spec fn entry_weight(e: Entry) -> nat {
    e.0.0.len() + VERSION_LEN as nat + e.1.len()
}

/// What a batch adds to the size estimate.
pub open spec fn batch_weight(entries: Seq<Entry>) -> nat
    decreases entries.len(),
{
    if entries.len() == 0 {
        0
    } else {
        batch_weight(entries.drop_last()) + entry_weight(entries.last())
    }
}

/// The value that the size counter shows for a total of `total` bytes: the
/// counter has the width of `usize` and wraps around.
pub open spec fn counter(total: int) -> usize {
    (total % (usize::MAX + 1)) as usize
}

/// The counter only depends on the total: adding to a wrapped count and
/// wrapping again is wrapping the sum.
pub proof fn lemma_counter_accumulates(total: int, more: int)
    ensures
        counter(counter(total) + more) == counter(total + more),
{
    let m = usize::MAX + 1;
    vstd::arithmetic::div_mod::lemma_add_mod_noop(total, more, m);
    vstd::arithmetic::div_mod::lemma_add_mod_noop(total % m, more, m);
    vstd::arithmetic::div_mod::lemma_mod_twice(total, m);
}

/// Wrapping addition on the counter is the counter of the sum.
proof fn lemma_counter_add(count: usize, more: usize)
    ensures
        count.wrapping_add(more) == counter(count + more),
{
    let m = usize::MAX + 1;
    let sum = count + more;
    if sum > usize::MAX {
        vstd::arithmetic::div_mod::lemma_fundamental_div_mod_converse(sum, m, 1, sum - m);
    } else {
        vstd::arithmetic::div_mod::lemma_small_mod(sum as nat, m as nat);
    }
}

/// An in-memory table of the most recent writes.
pub struct MemTable {
    map: SkipMap<(Vec<u8>, u64), Bytes>,
    wal: Option<Wal>,
    id: usize,
    approximate_size: usize,
}

impl View for MemTable {
    type V = Contents;

    /// The table's contents: for each payload and version, the value's bytes.
    closed spec fn view(&self) -> Contents {
        Map::new(
            |k: (Seq<u8>, u64)| skip_map_entries(self.map).contains_key(stored_key(k)),
            |k: (Seq<u8>, u64)| skip_map_entries(self.map)[stored_key(k)],
        )
    }
}

impl MemTable {
    /// The table's identifier.
    pub closed spec fn spec_id(&self) -> usize {
        self.id
    }

    /// The size estimate.
    pub closed spec fn spec_approximate_size(&self) -> usize {
        self.approximate_size
    }

    /// The bytes that the attached log has buffered, or `None` without a log.
    pub closed spec fn spec_wal(&self) -> Option<Seq<u8>> {
        match self.wal {
            Some(wal) => Some(wal@),
            None => None,
        }
    }

    /// An empty table without a log.
    pub fn new(id: usize) -> (table: Self)
        ensures
            table@ == Contents::empty(),
            table.spec_id() == id,
            table.spec_approximate_size() == 0,
            table.spec_wal() is None,
    {
        let table = MemTable { map: skip_map_new(), wal: None, id, approximate_size: 0 };
        proof {
            assert(table@ =~= Contents::empty());
        }
        table
    }

    /// An empty table with an empty log attached.
    pub fn new_with_wal(id: usize) -> (table: Self)
        ensures
            table@ == Contents::empty(),
            table.spec_id() == id,
            table.spec_approximate_size() == 0,
            table.spec_wal() == Some(Seq::<u8>::empty()),
    {
        let table = MemTable {
            map: skip_map_new(),
            wal: Some(Wal::new()),
            id,
            approximate_size: 0,
        };
        proof {
            assert(table@ =~= Contents::empty());
        }
        table
    }

    /// The value written for exactly this payload and version, if any.
    pub fn get(&self, key: KeySlice) -> (value: Option<Bytes>)
        ensures
            match value {
                Some(v) => self@.contains_key(key@) && v@ == self@[key@],
                None => !self@.contains_key(key@),
            },
    {
        let stored = (vstd::slice::slice_to_vec(key.key_ref()), u64::MAX - key.version());
        skip_map_get(&self.map, &stored)
    }

    /// Writes one value, as a batch of one.
    pub fn put(&mut self, key: KeySlice, value: &[u8]) -> (r: Result<(), WalError>)
        ensures
            final(self).spec_id() == old(self).spec_id(),
            r is Err <==> old(self).spec_wal() is Some && !batch_fits(seq![(key@, value@)]),
            match r {
                Ok(()) => {
                    &&& final(self)@ == old(self)@.insert(key@, value@)
                    &&& final(self).spec_approximate_size() == counter(
                        old(self).spec_approximate_size() + entry_weight((key@, value@)),
                    )
                    &&& match old(self).spec_wal() {
                        Some(log) => final(self).spec_wal() == Some(
                            log + encode_batch(seq![(key@, value@)]),
                        ),
                        None => final(self).spec_wal() is None,
                    }
                },
                Err(e) => {
                    &&& final(self)@ == old(self)@
                    &&& final(self).spec_approximate_size() == old(self).spec_approximate_size()
                    &&& final(self).spec_wal() == old(self).spec_wal()
                    &&& e == WalError::EntryTooLarge <==> !entries_fit(seq![(key@, value@)])
                },
            },
    {
        let data = [(key, value)];
        proof {
            let entries = entries_of(data@);
            assert(entries =~= seq![(key@, value@)]);
            assert(entries.drop_last() =~= Seq::<Entry>::empty());
            assert(apply(old(self)@, entries.drop_last()) == old(self)@);
            assert(batch_weight(entries.drop_last()) == 0);
            assert(entries.last() == (key@, value@));
        }
        self.put_batch(data.as_slice())
    }

    /// Writes a batch. With a log attached, the batch is first appended to
    /// the log, whole; a batch that the log cannot take changes nothing.
    /// Then every entry is written to the table in order, replacing what was
    /// there for the same payload and version, and the size estimate grows
    /// by the batch's weight.
    pub fn put_batch(&mut self, data: &[(KeySlice, &[u8])]) -> (r: Result<(), WalError>)
        ensures
            final(self).spec_id() == old(self).spec_id(),
            r is Err <==> old(self).spec_wal() is Some && !batch_fits(entries_of(data@)),
            match r {
                Ok(()) => {
                    &&& final(self)@ == apply(old(self)@, entries_of(data@))
                    &&& final(self).spec_approximate_size() == counter(
                        old(self).spec_approximate_size() + batch_weight(entries_of(data@)),
                    )
                    &&& match old(self).spec_wal() {
                        Some(log) => final(self).spec_wal() == Some(
                            log + encode_batch(entries_of(data@)),
                        ),
                        None => final(self).spec_wal() is None,
                    }
                },
                Err(e) => {
                    &&& final(self)@ == old(self)@
                    &&& final(self).spec_approximate_size() == old(self).spec_approximate_size()
                    &&& final(self).spec_wal() == old(self).spec_wal()
                    &&& e == WalError::EntryTooLarge <==> !entries_fit(entries_of(data@))
                },
            },
    {
        match &mut self.wal {
            Some(wal) => {
                match wal.append_batch(data) {
                    Ok(()) => {},
                    Err(e) => {
                        return Err(e);
                    },
                }
            },
            None => {},
        }
        let ghost entries = entries_of(data@);
        let ghost before = old(self)@;
        let ghost size_before = old(self).spec_approximate_size();
        let ghost log = self.spec_wal();
        let mut i: usize = 0;
        proof {
            vstd::arithmetic::div_mod::lemma_small_mod(
                size_before as nat,
                (usize::MAX + 1) as nat,
            );
        }
        while i < data.len()
            invariant
                i <= data.len(),
                entries == entries_of(data@),
                self@ == apply(before, entries.take(i as int)),
                self.spec_approximate_size() == counter(
                    size_before + batch_weight(entries.take(i as int)),
                ),
                self.spec_id() == old(self).spec_id(),
                self.spec_wal() == log,
            decreases data.len() - i,
        {
            proof {
                assert(entries.take(i + 1).drop_last() =~= entries.take(i as int));
                lemma_counter_accumulates(
                    size_before + batch_weight(entries.take(i as int)),
                    entry_weight(entries[i as int]) as int,
                );
            }
            self.write(data[i].0.key_ref(), data[i].0.version(), Bytes::from(data[i].1));
            i += 1;
        }
        proof {
            assert(entries.take(i as int) =~= entries);
        }
        Ok(())
    }

    /// Binds one key to one value and counts its weight.
    fn write(&mut self, payload: &[u8], version: u64, value: Bytes)
        ensures
            final(self)@ == old(self)@.insert((payload@, version), value@),
            final(self).spec_approximate_size() == counter(
                old(self).spec_approximate_size() + entry_weight(((payload@, version), value@)),
            ),
            final(self).spec_id() == old(self).spec_id(),
            final(self).spec_wal() == old(self).spec_wal(),
    {
        let payload_len = payload.len();
        let value_len = value.len();
        let stored = (vstd::slice::slice_to_vec(payload), u64::MAX - version);
        skip_map_insert(&mut self.map, stored, value);
        let with_payload = self.approximate_size.wrapping_add(payload_len);
        let with_version = with_payload.wrapping_add(VERSION_LEN);
        proof {
            assert(self@ =~= old(self)@.insert((payload@, version), value@)) by {
                assert forall|k: (Seq<u8>, u64)| #[trigger]
                    stored_key(k) == stored_key((payload@, version)) implies k == (
                    payload@,
                    version,
                ) by {}
            }
            let size = self.approximate_size;
            lemma_counter_add(size, payload_len);
            lemma_counter_add(with_payload, VERSION_LEN);
            lemma_counter_add(with_version, value_len);
            lemma_counter_accumulates(size + payload_len, VERSION_LEN as int);
            lemma_counter_accumulates(size + payload_len + VERSION_LEN, value_len as int);
        }
        self.approximate_size = with_version.wrapping_add(value_len);
    }

    /// Hands over the bytes that the attached log has buffered and empties
    /// its buffer; without a log there is nothing to hand over. The caller
    /// writes them to the end of the log file and forces them to stable
    /// storage.
    pub fn sync_wal(&mut self) -> (bytes: Vec<u8>)
        ensures
            final(self)@ == old(self)@,
            final(self).spec_id() == old(self).spec_id(),
            final(self).spec_approximate_size() == old(self).spec_approximate_size(),
            match old(self).spec_wal() {
                Some(log) => bytes@ == log && final(self).spec_wal() == Some(Seq::<u8>::empty()),
                None => bytes@ == Seq::<u8>::empty() && final(self).spec_wal() is None,
            },
    {
        match &mut self.wal {
            Some(wal) => wal.sync(),
            None => Vec::new(),
        }
    }

    /// Rebuilds a table from a log: replays, in order, the entries of every
    /// batch up to the first that is cut short or damaged. The new table has
    /// no log attached: a log that was read back is not written to again.
    pub fn recover(id: usize, log: &[u8]) -> (table: Self)
        ensures
            table@ == apply(Contents::empty(), recover_log(log@)),
            table.spec_id() == id,
            table.spec_approximate_size() == counter(batch_weight(recover_log(log@)) as int),
            table.spec_wal() is None,
    {
        let found = Wal::recover(log);
        let ghost entries = entries_of(found@);
        let mut table = Self::new(id);
        let mut i: usize = 0;
        proof {
            vstd::arithmetic::div_mod::lemma_small_mod(0, (usize::MAX + 1) as nat);
        }
        while i < found.len()
            invariant
                i <= found.len(),
                entries == entries_of(found@),
                table@ == apply(Contents::empty(), entries.take(i as int)),
                table.spec_approximate_size() == counter(
                    batch_weight(entries.take(i as int)) as int,
                ),
                table.spec_id() == id,
                table.spec_wal() is None,
            decreases found.len() - i,
        {
            proof {
                assert(entries.take(i + 1).drop_last() =~= entries.take(i as int));
                lemma_counter_accumulates(
                    batch_weight(entries.take(i as int)) as int,
                    entry_weight(entries[i as int]) as int,
                );
            }
            table.write(found[i].0.into_inner(), found[i].0.version(), found[i].1.clone());
            i += 1;
        }
        proof {
            assert(entries.take(i as int) =~= entries);
        }
        table
    }

    /// All entries in key order: payloads ascending and, for one payload,
    /// newer versions first.
    pub fn entries(&self) -> (items: Vec<(KeyBytes, Bytes)>)
        ensures
            forall|i: int|
                0 <= i < items.len() ==> self@.contains_key(#[trigger] items[i].0@)
                    && self@[items[i].0@] == items[i].1@,
            forall|k: (Seq<u8>, u64)| #[trigger]
                self@.contains_key(k) ==> exists|i: int|
                    0 <= i < items.len() && #[trigger] items[i].0@ == k,
            forall|i: int, j: int|
                0 <= i < j < items.len() ==> key_lt(#[trigger] items[i].0@, #[trigger] items[j].0@),
    {
        let stored = skip_map_items(&self.map);
        let mut items: Vec<(KeyBytes, Bytes)> = Vec::new();
        let mut i: usize = 0;
        while i < stored.len()
            invariant
                i <= stored.len(),
                items.len() == i,
                forall|j: int|
                    0 <= j < i ==> stored_key(#[trigger] items[j].0@) == stored_view(stored[j].0)
                        && items[j].1@ == stored[j].1@,
            decreases stored.len() - i,
        {
            let payload = Bytes::from(stored[i].0.0.as_slice());
            let key = KeyBytes::new(payload, u64::MAX - stored[i].0.1);
            items.push((key, stored[i].1.clone()));
            i += 1;
        }
        proof {
            assert forall|i: int| 0 <= i < items.len() implies self@.contains_key(
                #[trigger] items[i].0@,
            ) && self@[items[i].0@] == items[i].1@ by {
                assert(stored_key(items[i].0@) == stored_view(stored[i].0));
            }
            assert forall|k: (Seq<u8>, u64)| #[trigger] self@.contains_key(k) implies exists|i: int|
                0 <= i < items.len() && #[trigger] items[i].0@ == k by {
                assert(skip_map_entries(self.map).contains_key(stored_key(k)));
                let i = choose|i: int|
                    0 <= i < stored.len() && stored_view(#[trigger] stored[i].0) == stored_key(k);
                assert(stored_key(items[i].0@) == stored_key(k));
                assert(items[i].0@ == k);
            }
            assert forall|i: int, j: int| 0 <= i < j < items.len() implies key_lt(
                #[trigger] items[i].0@,
                #[trigger] items[j].0@,
            ) by {
                assert(stored_key(items[i].0@) == stored_view(stored[i].0));
                assert(stored_key(items[j].0@) == stored_view(stored[j].0));
                assert(stored_lt(stored_view(stored[i].0), stored_view(stored[j].0)));
            }
        }
        items
    }

    /// The table's identifier.
    pub fn id(&self) -> (id: usize)
        ensures
            id == self.spec_id(),
    {
        self.id
    }

    /// The size estimate: the total of key and value lengths of all writes so far.
    pub fn approximate_size(&self) -> (size: usize)
        ensures
            size == self.spec_approximate_size(),
    {
        self.approximate_size
    }

    /// Whether the table holds nothing.
    pub fn is_empty(&self) -> (empty: bool)
        ensures
            empty <==> self@ == Contents::empty(),
    {
        let empty = skip_map_is_empty(&self.map);
        proof {
            if empty {
                assert(self@ =~= Contents::empty());
            } else {
                let k = choose|k: (Seq<u8>, u64)| skip_map_entries(self.map).contains_key(k);
                let key = (k.0, (u64::MAX - k.1) as u64);
                assert(stored_key(key) == k);
                assert(self@.contains_key(key));
            }
        }
        empty
    }
}

/// Writing `a` and then `b` is writing the two one after the other.
pub proof fn lemma_apply_concat(contents: Contents, a: Seq<Entry>, b: Seq<Entry>)
    ensures
        apply(contents, a + b) == apply(apply(contents, a), b),
    decreases b.len(),
{
    if b.len() == 0 {
        assert(a + b =~= a);
    } else {
        lemma_apply_concat(contents, a, b.drop_last());
        assert((a + b).drop_last() =~= a + b.drop_last());
    }
}

/// After a write, a lookup with the same payload and version finds the
/// written value, and a lookup with any other payload or version finds what
/// it found before: in particular, another version of the same payload is
/// absent unless it was written itself.
pub proof fn lemma_put_then_get(
    contents: Contents,
    key: (Seq<u8>, u64),
    value: Seq<u8>,
    other: (Seq<u8>, u64),
)
    ensures
        apply(contents, seq![(key, value)]) == contents.insert(key, value),
        apply(contents, seq![(key, value)]).contains_key(key),
        apply(contents, seq![(key, value)])[key] == value,
        other != key ==> apply(contents, seq![(key, value)]).contains_key(other)
            == contents.contains_key(other),
        other != key && contents.contains_key(other) ==> apply(contents, seq![(key, value)])[other]
            == contents[other],
{
    let one = seq![(key, value)];
    assert(one.drop_last() =~= Seq::<Entry>::empty());
    assert(apply(contents, one.drop_last()) == contents);
    assert(one.last() == (key, value));
}

/// Writing twice under one payload and version leaves one entry, which
/// holds the later value.
pub proof fn lemma_overwrite(
    contents: Contents,
    key: (Seq<u8>, u64),
    first: Seq<u8>,
    second: Seq<u8>,
)
    ensures
        apply(contents, seq![(key, first), (key, second)]) == contents.insert(key, second),
        apply(contents, seq![(key, first), (key, second)]).dom() == contents.dom().insert(key),
        apply(Contents::empty(), seq![(key, first), (key, second)]).dom() == set![key],
{
    let both = seq![(key, first), (key, second)];
    lemma_put_then_get(contents, key, first, key);
    lemma_put_then_get(Contents::empty(), key, first, key);
    assert(both.drop_last() =~= seq![(key, first)]);
    assert(both.last() == (key, second));
    assert(contents.insert(key, first).insert(key, second) =~= contents.insert(key, second));
    assert(contents.insert(key, second).dom() =~= contents.dom().insert(key));
    assert(Contents::empty().insert(key, first).insert(key, second).dom() =~= set![key]);
}

/// The weight of two batches together is the sum of their weights, in
/// either order.
pub proof fn lemma_batch_weight_concat(a: Seq<Entry>, b: Seq<Entry>)
    ensures
        batch_weight(a + b) == batch_weight(a) + batch_weight(b),
        batch_weight(a + b) == batch_weight(b + a),
{
    lemma_batch_weight_sum(a, b);
    lemma_batch_weight_sum(b, a);
}

/// The weight of two batches together is the sum of their weights.
proof fn lemma_batch_weight_sum(a: Seq<Entry>, b: Seq<Entry>)
    ensures
        batch_weight(a + b) == batch_weight(a) + batch_weight(b),
    decreases b.len(),
{
    if b.len() == 0 {
        assert(a + b =~= a);
    } else {
        lemma_batch_weight_sum(a, b.drop_last());
        assert((a + b).drop_last() =~= a + b.drop_last());
    }
}

/// The size estimate after a sequence of batches, each added with wrap-around.
pub open spec fn size_after(start: usize, batches: Seq<Seq<Entry>>) -> usize
    decreases batches.len(),
{
    if batches.len() == 0 {
        start
    } else {
        counter(size_after(start, batches.drop_last()) + batch_weight(batches.last()))
    }
}

/// The total weight of a sequence of batches.
pub open spec fn total_weight(batches: Seq<Seq<Entry>>) -> nat
    decreases batches.len(),
{
    if batches.len() == 0 {
        0
    } else {
        total_weight(batches.drop_last()) + batch_weight(batches.last())
    }
}

/// After a sequence of batches the size estimate is the starting size plus
/// the total weight of all batches, wrapped to the counter's width; without
/// overflow it is exactly that sum.
pub proof fn lemma_size_accounting(start: usize, batches: Seq<Seq<Entry>>)
    ensures
        size_after(start, batches) == counter(start + total_weight(batches)),
        start + total_weight(batches) <= usize::MAX ==> size_after(start, batches) == start
            + total_weight(batches),
    decreases batches.len(),
{
    let m = (usize::MAX + 1) as nat;
    if batches.len() == 0 {
        vstd::arithmetic::div_mod::lemma_small_mod(start as nat, m);
    } else {
        lemma_size_accounting(start, batches.drop_last());
        lemma_counter_accumulates(
            start + total_weight(batches.drop_last()),
            batch_weight(batches.last()) as int,
        );
    }
    if start + total_weight(batches) <= usize::MAX {
        vstd::arithmetic::div_mod::lemma_small_mod((start + total_weight(batches)) as nat, m);
    }
}

/// The total weight does not depend on the order in which batches arrive:
/// two runs of batches weigh the same whichever comes first.
pub proof fn lemma_total_weight_order(a: Seq<Seq<Entry>>, b: Seq<Seq<Entry>>)
    ensures
        total_weight(a + b) == total_weight(a) + total_weight(b),
        total_weight(a + b) == total_weight(b + a),
{
    lemma_total_weight_sum(a, b);
    lemma_total_weight_sum(b, a);
}

/// The total weight of two runs of batches is the sum of their totals.
proof fn lemma_total_weight_sum(a: Seq<Seq<Entry>>, b: Seq<Seq<Entry>>)
    ensures
        total_weight(a + b) == total_weight(a) + total_weight(b),
    decreases b.len(),
{
    if b.len() == 0 {
        assert(a + b =~= a);
    } else {
        lemma_total_weight_sum(a, b.drop_last());
        assert((a + b).drop_last() =~= a + b.drop_last());
    }
}

/// Taking one batch out of a run takes its weight out of the total.
proof fn lemma_total_weight_remove(batches: Seq<Seq<Entry>>, i: int)
    requires
        0 <= i < batches.len(),
    ensures
        total_weight(batches) == total_weight(batches.remove(i)) + batch_weight(batches[i]),
    decreases batches.len(),
{
    if i == batches.len() - 1 {
        assert(batches.remove(i) =~= batches.drop_last());
    } else {
        lemma_total_weight_remove(batches.drop_last(), i);
        assert(batches.remove(i).drop_last() =~= batches.drop_last().remove(i));
        assert(batches.remove(i).last() == batches.last());
    }
}

/// The total weight is the same for every order of arrival: two runs that
/// hold the same batches, each as often in one as in the other, weigh the
/// same in total.
pub proof fn lemma_total_weight_rearranged(a: Seq<Seq<Entry>>, b: Seq<Seq<Entry>>)
    requires
        a.to_multiset() == b.to_multiset(),
    ensures
        total_weight(a) == total_weight(b),
    decreases a.len(),
{
    broadcast use vstd::multiset::group_multiset_axioms;

    vstd::seq_lib::to_multiset_len(a);
    vstd::seq_lib::to_multiset_len(b);
    if a.len() > 0 {
        let last = a.last();
        let rest = a.drop_last();
        assert(a =~= rest.push(last));
        vstd::seq_lib::to_multiset_build(rest, last);
        vstd::seq_lib::to_multiset_contains(b, last);
        assert(b.to_multiset().count(last) > 0);
        let i = choose|i: int| 0 <= i < b.len() && b[i] == last;
        vstd::seq_lib::to_multiset_remove(b, i);
        assert(rest.to_multiset() =~= b.remove(i).to_multiset());
        lemma_total_weight_rearranged(rest, b.remove(i));
        lemma_total_weight_remove(b, i);
    }
}

/// The contents after a sequence of batches, each applied whole.
pub open spec fn apply_batches(contents: Contents, batches: Seq<Seq<Entry>>) -> Contents
    decreases batches.len(),
{
    if batches.len() == 0 {
        contents
    } else {
        apply_batches(apply(contents, batches.first()), batches.drop_first())
    }
}

/// A table that has taken `batches` one by one holds what a table recovered
/// from the log of those batches holds: recovery replays every write in the
/// order in which it was made, so later writes of one payload and version
/// win in both.
pub proof fn lemma_recovery_restores(batches: Seq<Seq<Entry>>)
    requires
        batches_fit(batches),
    ensures
        apply(Contents::empty(), recover_log(encode_log(batches))) == apply_batches(
            Contents::empty(),
            batches,
        ),
{
    lemma_recover_round_trip(batches);
    lemma_apply_batches(Contents::empty(), batches);
}

/// Applying batches one by one is applying all their entries in order.
proof fn lemma_apply_batches(contents: Contents, batches: Seq<Seq<Entry>>)
    ensures
        apply_batches(contents, batches) == apply(contents, all_entries(batches)),
    decreases batches.len(),
{
    if batches.len() > 0 {
        lemma_apply_batches(apply(contents, batches.first()), batches.drop_first());
        lemma_apply_concat(contents, batches.first(), all_entries(batches.drop_first()));
    }
}

} // verus!
