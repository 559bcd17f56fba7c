//! The key-value store: an in-memory map of the latest value per key,
//! rebuilt from the log at open time and kept in step with it afterwards.
//!
//! The store itself does no file I/O. `open` takes the log file's bytes and
//! replays them; `set` records a mutation that the caller must first have
//! appended durably to the log (as the frame `serialize` produces); `compact`
//! hands back the bytes of a fresh log holding one frame per live key, for
//! the caller to write out and atomically swap in for the old file.

use vstd::prelude::*;
use vstd::slice::slice_to_vec;
use crate::wal::LogRecord;
use crate::wal::LogIterator;
use crate::wal::spec_replay;
use crate::wal::serialize;
use crate::wal::push_bytes;
use crate::wal::spec_log_bytes;
use crate::wal::records_fit;
use crate::wal::lemma_log_bytes_push;
use crate::wal::lemma_replay_log_bytes;
use crate::wal::HEADER_LEN;

verus! {

/// The map that a sequence of replayed records builds up: every record
/// inserts its key, so for each key the record appearing latest wins.
pub open spec fn records_map(records: Seq<(Seq<u8>, Seq<u8>)>) -> Map<Seq<u8>, Seq<u8>>
    decreases records.len(),
{
    if records.len() == 0 {
        Map::empty()
    } else {
        records_map(records.drop_last()).insert(records.last().0, records.last().1)
    }
}

/// True exactly when the two byte slices hold the same bytes.
fn bytes_equal(a: &[u8], b: &[u8]) -> (r: bool)
    ensures
        r <==> a@ == b@,
{
    if a.len() != b.len() {
        return false;
    }
    let mut i: usize = 0;
    while i < a.len()
        invariant
            i <= a@.len(),
            a@.len() == b@.len(),
            forall|j: int| 0 <= j < i ==> a@[j] == b@[j],
        decreases a@.len() - i,
    {
        if a[i] != b[i] {
            return false;
        }
        i = i + 1;
    }
    proof {
        assert(a@ =~= b@);
    }
    true
}

/// The in-memory store: the latest value for every key the log records.
pub struct KVStore {
    entries: Vec<LogRecord>,
}

impl View for KVStore {
    type V = Map<Seq<u8>, Seq<u8>>;

    closed spec fn view(&self) -> Map<Seq<u8>, Seq<u8>> {
        records_map(self.entries@.map_values(|r: LogRecord| (r.key@, r.value@)))
    }
}

impl KVStore {
    /// No key occurs twice among the entries.
    pub closed spec fn wf(self) -> bool {
        forall|i: int, j: int|
            0 <= i < j < self.entries@.len() ==> self.entries@[i].key@ != self.entries@[j].key@
    }

    /// The entries as key/value pairs, in their stored order.
    pub closed spec fn entry_pairs(self) -> Seq<(Seq<u8>, Seq<u8>)> {
        self.entries@.map_values(|r: LogRecord| (r.key@, r.value@))
    }
}

/// A record sequence has distinct keys.
pub open spec fn distinct_keys(s: Seq<(Seq<u8>, Seq<u8>)>) -> bool {
    forall|i: int, j: int| 0 <= i < j < s.len() ==> s[i].0 != s[j].0
}

/// A key held by some record of the sequence is in the map the sequence
/// builds, at the value of the record that holds it — meaningful when keys
/// are distinct, so that record is the only one.
proof fn lemma_records_map_index(s: Seq<(Seq<u8>, Seq<u8>)>, i: int)
    requires
        distinct_keys(s),
        0 <= i < s.len(),
    ensures
        records_map(s).contains_key(s[i].0),
        records_map(s)[s[i].0] == s[i].1,
    decreases s.len(),
{
    if i < s.len() - 1 {
        lemma_records_map_index(s.drop_last(), i);
        assert(s.drop_last()[i] == s[i]);
        assert(s.last().0 != s[i].0);
    }
}

/// A key held by no record of the sequence is absent from the map it builds.
proof fn lemma_records_map_absent(s: Seq<(Seq<u8>, Seq<u8>)>, k: Seq<u8>)
    requires
        forall|i: int| 0 <= i < s.len() ==> s[i].0 != k,
    ensures
        !records_map(s).contains_key(k),
    decreases s.len(),
{
    if s.len() > 0 {
        lemma_records_map_absent(s.drop_last(), k);
    }
}

/// With distinct keys, the map a sequence builds has one entry per record.
proof fn lemma_records_map_dom_len(s: Seq<(Seq<u8>, Seq<u8>)>)
    requires
        distinct_keys(s),
    ensures
        records_map(s).dom().finite(),
        records_map(s).dom().len() == s.len(),
    decreases s.len(),
{
    if s.len() == 0 {
        assert(records_map(s).dom() =~= Set::<Seq<u8>>::empty());
    } else {
        lemma_records_map_dom_len(s.drop_last());
        lemma_records_map_absent(s.drop_last(), s.last().0);
    }
}

/// Updating the one record that holds a key changes the map the sequence
/// builds exactly as an insert of the new value does.
proof fn lemma_records_map_update(s: Seq<(Seq<u8>, Seq<u8>)>, i: int, v: Seq<u8>)
    requires
        distinct_keys(s),
        0 <= i < s.len(),
    ensures
        records_map(s.update(i, (s[i].0, v))) == records_map(s).insert(s[i].0, v),
    decreases s.len(),
{
    let t = s.update(i, (s[i].0, v));
    if i == s.len() - 1 {
        assert(t.drop_last() =~= s.drop_last());
        assert(t.last() == (s[i].0, v));
        assert(records_map(s.drop_last()).insert(s[i].0, s[i].1).insert(s[i].0, v)
            =~= records_map(s.drop_last()).insert(s[i].0, v));
    } else {
        assert(t.drop_last() =~= s.drop_last().update(i, (s[i].0, v)));
        assert(s.drop_last()[i] == s[i]);
        lemma_records_map_update(s.drop_last(), i, v);
        assert(t.last() == s.last());
        assert(s.last().0 != s[i].0);
        assert(records_map(s.drop_last()).insert(s[i].0, v).insert(s.last().0, s.last().1)
            =~= records_map(s.drop_last()).insert(s.last().0, s.last().1).insert(s[i].0, v));
    }
}

/// Replay order: among all records that share a key, the one appended last
/// determines the value the map holds, wherever in the log the key first
/// appeared.
pub proof fn lemma_last_write_wins(records: Seq<(Seq<u8>, Seq<u8>)>, i: int)
    requires
        0 <= i < records.len(),
        forall|j: int| i < j < records.len() ==> records[j].0 != records[i].0,
    ensures
        records_map(records).contains_key(records[i].0),
        records_map(records)[records[i].0] == records[i].1,
    decreases records.len(),
{
    if i < records.len() - 1 {
        assert(records.last().0 != records[i].0);
        assert(records.drop_last()[i] == records[i]);
        lemma_last_write_wins(records.drop_last(), i);
    }
}

/// Durability: once a record's frame stands appended at the end of a log of
/// whole frames, opening that log maps the record's key to exactly its value.
pub proof fn lemma_durable_append(records: Seq<(Seq<u8>, Seq<u8>)>, key: Seq<u8>, value: Seq<u8>)
    requires
        records_fit(records),
        key.len() < 0x1_0000_0000_0000_0000,
        value.len() < 0x1_0000_0000_0000_0000,
    ensures
        records_map(spec_replay(spec_log_bytes(records.push((key, value))))).contains_key(key),
        records_map(spec_replay(spec_log_bytes(records.push((key, value)))))[key] == value,
{
    let appended = records.push((key, value));
    assert(records_fit(appended));
    lemma_replay_log_bytes(appended);
    assert(appended.drop_last() =~= records);
    assert(records_map(appended) == records_map(records).insert(key, value));
}

impl KVStore {
    /// Opens the store over the bytes its log file holds: replays every
    /// valid frame from the start and folds the records into an empty map in
    /// encounter order, so the latest record per key wins. A torn or corrupt
    /// tail ends the replay silently; it never surfaces as an error.
    pub fn open(log: &[u8]) -> (r: KVStore)
        ensures
            r.wf(),
            r@ == records_map(spec_replay(log@)),
    {
        let mut it = LogIterator::new(slice_to_vec(log));
        let mut store = KVStore { entries: Vec::new() };
        let ghost mut processed: Seq<(Seq<u8>, Seq<u8>)> = Seq::empty();
        proof {
            assert(store.entry_pairs() =~= Seq::<(Seq<u8>, Seq<u8>)>::empty());
            assert(processed + spec_replay(it.remaining()) =~= spec_replay(log@));
        }
        loop
            invariant
                it.wf(),
                store.wf(),
                store@ == records_map(processed),
                spec_replay(log@) == processed + spec_replay(it.remaining()),
            decreases it.remaining().len(),
        {
            let ghost prev_remaining = it.remaining();
            let ghost prev_processed = processed;
            match it.next() {
                Some(rec) => {
                    let ghost pair = (rec.key@, rec.value@);
                    let ghost advance: int = HEADER_LEN + rec.key@.len() + rec.value@.len();
                    proof {
                        assert(prev_remaining.len() >= advance);
                        assert(spec_replay(prev_remaining) == seq![pair] + spec_replay(
                            prev_remaining.skip(advance),
                        ));
                        processed = processed.push(pair);
                        assert(prev_processed + spec_replay(prev_remaining) =~= processed
                            + spec_replay(prev_remaining.skip(advance)));
                    }
                    store.set(rec.key, rec.value);
                    proof {
                        assert(processed.drop_last() =~= prev_processed);
                    }
                },
                None => {
                    proof {
                        assert(spec_replay(it.remaining()) =~= Seq::<(Seq<u8>, Seq<u8>)>::empty());
                        assert(processed + spec_replay(it.remaining()) =~= processed);
                    }
                    return store;
                },
            }
        }
    }

    /// Index of the entry that holds the key, if one does.
    fn find(&self, key: &[u8]) -> (r: Option<usize>)
        ensures
            match r {
                Some(i) => i < self.entry_pairs().len() && self.entry_pairs()[i as int].0 == key@,
                None => forall|i: int|
                    0 <= i < self.entry_pairs().len() ==> self.entry_pairs()[i].0 != key@,
            },
    {
        let mut i: usize = 0;
        while i < self.entries.len()
            invariant
                i <= self.entries@.len(),
                forall|j: int| 0 <= j < i ==> self.entries@[j].key@ != key@,
            decreases self.entries@.len() - i,
        {
            if bytes_equal(self.entries[i].key.as_slice(), key) {
                return Some(i);
            }
            i = i + 1;
        }
        None
    }

    /// The number of live keys: one per distinct key, never the number of
    /// log frames written.
    pub fn len(&self) -> (r: usize)
        requires
            self.wf(),
        ensures
            r == self@.dom().len(),
    {
        proof {
            lemma_records_map_dom_len(self.entry_pairs());
        }
        self.entries.len()
    }

    /// Looks the key up in memory; no I/O. Absent keys yield `None`.
    pub fn get(&self, key: &[u8]) -> (r: Option<&Vec<u8>>)
        requires
            self.wf(),
        ensures
            match r {
                Some(v) => self@.contains_key(key@) && self@[key@] == v@,
                None => !self@.contains_key(key@),
            },
    {
        match self.find(key) {
            Some(i) => {
                proof {
                    lemma_records_map_index(self.entry_pairs(), i as int);
                }
                Some(&self.entries[i].value)
            },
            None => {
                proof {
                    lemma_records_map_absent(self.entry_pairs(), key@);
                }
                None
            },
        }
    }

    /// Records key → value in memory. The caller appends the record's frame
    /// (as `serialize` yields it) durably to the log before calling this, so
    /// that map and log never diverge.
    pub fn set(&mut self, key: Vec<u8>, value: Vec<u8>)
        requires
            old(self).wf(),
        ensures
            final(self).wf(),
            final(self)@ == old(self)@.insert(key@, value@),
            final(self).entry_pairs().len() == if old(self)@.contains_key(key@) {
                old(self).entry_pairs().len()
            } else {
                old(self).entry_pairs().len() + 1
            },
    {
        let ghost pairs = self.entry_pairs();
        match self.find(key.as_slice()) {
            Some(i) => {
                proof {
                    lemma_records_map_index(pairs, i as int);
                    lemma_records_map_update(pairs, i as int, value@);
                }
                self.entries[i].value = value;
                proof {
                    assert(self.entry_pairs() =~= pairs.update(i as int, (key@, value@)));
                    assert(pairs.update(i as int, (key@, value@)) == pairs.update(
                        i as int,
                        (pairs[i as int].0, value@),
                    ));
                    assert forall|p: int| 0 <= p < self.entries@.len() implies self.entries@[p].key@
                        == old(self).entries@[p].key@ by {}
                    assert(self.wf());
                }
            },
            None => {
                proof {
                    lemma_records_map_absent(pairs, key@);
                }
                self.entries.push(LogRecord { key, value });
                proof {
                    assert(self.entry_pairs() =~= pairs.push((key@, value@)));
                    assert(self.entry_pairs().drop_last() =~= pairs);
                    assert forall|p: int, q: int|
                        0 <= p < q < self.entries@.len() implies self.entries@[p].key@
                        != self.entries@[q].key@ by {
                        if q == self.entries@.len() - 1 {
                            assert(old(self).entries@[p].key@ == pairs[p].0);
                        } else {
                            assert(old(self).wf());
                        }
                    }
                    assert(self.wf());
                }
            },
        }
    }

    /// Builds the bytes of a compacted log: one frame per live key, in the
    /// map's storage order. Replaying these bytes rebuilds exactly the
    /// current map, so the caller may write them to a temporary file and
    /// atomically rename it over the old log; the map itself needs no
    /// rebuilding afterwards.
    pub fn compact(&self) -> (r: Vec<u8>)
        requires
            self.wf(),
        ensures
            r@ == spec_log_bytes(self.entry_pairs()),
            records_map(spec_replay(r@)) == self@,
    {
        let ghost pairs = self.entry_pairs();
        let mut out: Vec<u8> = Vec::new();
        let mut i: usize = 0;
        proof {
            assert(out@ =~= spec_log_bytes(pairs.take(0)));
        }
        while i < self.entries.len()
            invariant
                i <= self.entries@.len(),
                pairs == self.entry_pairs(),
                out@ == spec_log_bytes(pairs.take(i as int)),
            decreases self.entries@.len() - i,
        {
            let frame = serialize(&self.entries[i]);
            push_bytes(&mut out, frame.as_slice());
            proof {
                lemma_log_bytes_push(pairs.take(i as int), pairs[i as int]);
                assert(pairs.take(i + 1) =~= pairs.take(i as int).push(pairs[i as int]));
            }
            i = i + 1;
        }
        proof {
            assert(pairs.take(self.entries@.len() as int) =~= pairs);
            assert forall|j: int| 0 <= j < pairs.len() implies pairs[j].0.len()
                < 0x1_0000_0000_0000_0000 && pairs[j].1.len() < 0x1_0000_0000_0000_0000 by {
                assert(self.entries@[j].key.len() == self.entries@[j].key@.len());
                assert(self.entries@[j].value.len() == self.entries@[j].value@.len());
            }
            lemma_replay_log_bytes(pairs);
        }
        out
    }
}

} // verus!

