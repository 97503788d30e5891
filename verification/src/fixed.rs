//! The fixed-slot engine: each key owns a slot of the data file, a value is overwritten
//! in place if it fits its slot, and a delete closes the gap that the slot leaves.

use vstd::prelude::*;
use crate::bytes::{clone_bytes, key_ok, same_bytes, zeros};
use crate::error::Error;
use crate::file::{Dirty, FileImage, SeekFrom, read_at, resized, seek_for, value_at, written};
use crate::record::{
    Entry, KeyIndex, Layout, Record, apart, encode_all, encode_line, entries_of, intact, lemma_replay_append,
    lemma_replay_encode_all, lemma_replay_prefix, lemma_replay_stored, lemma_total_size_prefix,
    read_records, replay, replay_len, total_size, write_line,
};
use crate::store::{Store, lookup, slot_fits, slot_value, store_of};

verus! {

/// No key stands twice in the records.
pub open spec fn distinct_keys(entries: Seq<Entry>) -> bool {
    forall|i: int, j: int|
        0 <= i < j < entries.len() ==> (#[trigger] entries[i]).key != (#[trigger] entries[j]).key
}

/// No two slots of the records overlap.
pub open spec fn slots_apart(entries: Seq<Entry>) -> bool {
    forall|i: int, j: int|
        0 <= i < j < entries.len() ==> apart((#[trigger] entries[i]).index, (#[trigger] entries[j]).index)
}

/// Every slot of the records ends at or before `end`.
pub open spec fn slots_within(entries: Seq<Entry>, end: int) -> bool {
    forall|i: int| 0 <= i < entries.len() ==> (#[trigger] entries[i]).index.end() <= end
}

/// The slots of the records lay out a data file of `end` bytes: each key has one slot, the
/// slots lie within the file and do not overlap, and their sizes add up to `end`, so they
/// cover the file without a gap.
pub open spec fn layout_ok(entries: Seq<Entry>, end: int) -> bool {
    &&& distinct_keys(entries)
    &&& slots_apart(entries)
    &&& slots_within(entries, end)
    &&& total_size(entries) == end
}

/// Whether the records hold `k`.
pub open spec fn has_key(entries: Seq<Entry>, k: Seq<u8>) -> bool {
    exists|i: int| 0 <= i < entries.len() && (#[trigger] entries[i]).key == k
}

/// The index that the records stand for: the slot of each key.
pub open spec fn slot_index(entries: Seq<Entry>) -> Map<Seq<u8>, KeyIndex> {
    Map::new(
        |k: Seq<u8>| has_key(entries, k),
        |k: Seq<u8>| entries[choose|i: int| 0 <= i < entries.len() && (#[trigger] entries[i]).key == k].index,
    )
}

/// Where a slot lies after the slot `gone` was taken out of the data file and what
/// followed it was moved down: a slot that began after `gone` begins so much earlier.
pub open spec fn moved(slot: KeyIndex, gone: KeyIndex) -> KeyIndex {
    if slot.offset > gone.offset {
        KeyIndex { offset: (slot.offset - gone.size) as usize, size: slot.size }
    } else {
        slot
    }
}

/// The records without the `i`-th, each slot moved to where it lies without that slot.
pub open spec fn compacted(entries: Seq<Entry>, i: int) -> Seq<Entry> {
    Seq::new(
        (entries.len() - 1) as nat,
        |j: int|
            Entry {
                key: entries.remove(i)[j].key,
                index: moved(entries.remove(i)[j].index, entries[i].index),
            },
    )
}

/// With distinct keys, the index holds for each record its slot.
pub proof fn lemma_slot_index(entries: Seq<Entry>, i: int)
    requires
        distinct_keys(entries),
        0 <= i < entries.len(),
    ensures
        slot_index(entries).contains_key(entries[i].key),
        slot_index(entries)[entries[i].key] == entries[i].index,
{
    let k = entries[i].key;
    let j = choose|j: int| 0 <= j < entries.len() && (#[trigger] entries[j]).key == k;
    if i < j {
        assert(entries[i].key != entries[j].key);
    } else if j < i {
        assert(entries[j].key != entries[i].key);
    }
}

/// The record that holds a key of the index.
pub proof fn lemma_slot_index_has(entries: Seq<Entry>, k: Seq<u8>) -> (i: int)
    requires
        slot_index(entries).contains_key(k),
    ensures
        0 <= i < entries.len(),
        entries[i].key == k,
        slot_index(entries)[k] == entries[i].index,
{
    choose|i: int| 0 <= i < entries.len() && (#[trigger] entries[i]).key == k
}

/// Taking a record out takes its size out of the sum.
pub proof fn lemma_total_size_remove(entries: Seq<Entry>, i: int)
    requires
        0 <= i < entries.len(),
    ensures
        total_size(entries.remove(i)) + entries[i].index.size == total_size(entries),
    decreases entries.len(),
{
    if i == entries.len() - 1 {
        assert(entries.remove(i) =~= entries.drop_last());
    } else {
        lemma_total_size_remove(entries.drop_last(), i);
        assert(entries.remove(i).drop_last() =~= entries.drop_last().remove(i));
    }
}

/// The sum of the sizes depends on the sizes alone.
pub proof fn lemma_total_size_sizes(a: Seq<Entry>, b: Seq<Entry>)
    requires
        a.len() == b.len(),
        forall|i: int| 0 <= i < a.len() ==> (#[trigger] a[i]).index.size == b[i].index.size,
    ensures
        total_size(a) == total_size(b),
    decreases a.len(),
{
    if a.len() > 0 {
        assert forall|i: int| 0 <= i < a.len() - 1 implies (#[trigger] a.drop_last()[i]).index.size
            == b.drop_last()[i].index.size by {
            assert(a.drop_last()[i] == a[i]);
        }
        lemma_total_size_sizes(a.drop_last(), b.drop_last());
    }
}

/// The record of the compacted list that the `m`-th record became.
pub open spec fn shifted_position(i: int, m: int) -> int {
    if m < i {
        m
    } else {
        m - 1
    }
}

/// Taking a slot out of a laid-out file leaves a laid-out file: the other slots, moved,
/// still do not overlap, and cover what is left.
pub proof fn lemma_compacted_layout(entries: Seq<Entry>, i: int, end: int)
    requires
        layout_ok(entries, end),
        0 <= i < entries.len(),
    ensures
        layout_ok(compacted(entries, i), end - entries[i].index.size),
        forall|j: int|
            0 <= j < entries.len() && j != i && (#[trigger] entries[j]).index.offset > entries[i].index.offset
                ==> entries[j].index.offset >= entries[i].index.end(),
{
    let c = compacted(entries, i);
    let r = entries.remove(i);
    let g = entries[i].index;
    assert forall|j: int| 0 <= j < entries.len() && j != i implies apart(
        (#[trigger] entries[j]).index,
        g,
    ) by {
        if j < i {
            assert(apart(entries[j].index, entries[i].index));
        } else {
            assert(apart(entries[i].index, entries[j].index));
        }
    }
    assert forall|a: int| 0 <= a < c.len() implies (#[trigger] c[a]).key == r[a].key && c[a].index == moved(
        r[a].index,
        g,
    ) && r[a] == entries[if a < i { a } else { a + 1 }] by {}
    assert forall|a: int, b: int| 0 <= a < b < c.len() implies (#[trigger] c[a]).key != (#[trigger] c[b]).key
        && apart(c[a].index, c[b].index) by {
        let x = if a < i { a } else { a + 1 };
        let y = if b < i { b } else { b + 1 };
        assert(entries[x].key != entries[y].key);
    }
    assert forall|a: int| 0 <= a < c.len() implies (#[trigger] c[a]).index.end() <= end - g.size by {
        let x = if a < i { a } else { a + 1 };
        assert(apart(entries[x].index, g));
    }
    lemma_total_size_remove(entries, i);
    assert forall|a: int| 0 <= a < c.len() implies (#[trigger] c[a]).index.size == r[a].index.size by {}
    lemma_total_size_sizes(c, r);
}

/// Taking a slot out of the data file leaves every other value as it was, at the place to
/// which its slot moved.
pub proof fn lemma_compacted_values(entries: Seq<Entry>, i: int, data: Seq<u8>, m: int)
    requires
        layout_ok(entries, data.len() as int),
        0 <= i < entries.len(),
        0 <= m < entries.len(),
        m != i,
    ensures
        value_at(
            data.take(entries[i].index.offset as int) + data.skip(entries[i].index.end()),
            moved(entries[m].index, entries[i].index),
        ) == value_at(data, entries[m].index),
{
    let g = entries[i].index;
    let s = entries[m].index;
    if m < i {
        assert(apart(entries[m].index, entries[i].index));
    } else {
        assert(apart(entries[i].index, entries[m].index));
    }
    let left = data.take(g.offset as int) + data.skip(g.end());
    assert(value_at(left, moved(s, g)) =~= value_at(data, s));
}

/// The index of the compacted records: the key of the record that was taken out is gone,
/// and every other key has its slot, moved.
pub proof fn lemma_compacted_index(entries: Seq<Entry>, i: int)
    requires
        distinct_keys(entries),
        0 <= i < entries.len(),
    ensures
        distinct_keys(compacted(entries, i)),
        slot_index(compacted(entries, i)) == Map::new(
            |k: Seq<u8>| slot_index(entries).contains_key(k) && k != entries[i].key,
            |k: Seq<u8>| moved(slot_index(entries)[k], entries[i].index),
        ),
{
    let c = compacted(entries, i);
    let g = entries[i].index;
    let want = Map::new(
        |k: Seq<u8>| slot_index(entries).contains_key(k) && k != entries[i].key,
        |k: Seq<u8>| moved(slot_index(entries)[k], entries[i].index),
    );
    assert forall|a: int| 0 <= a < c.len() implies (#[trigger] c[a]).key == entries[if a < i {
        a
    } else {
        a + 1
    }].key && c[a].index == moved(entries[if a < i { a } else { a + 1 }].index, g) by {}
    assert forall|a: int, b: int| 0 <= a < b < c.len() implies (#[trigger] c[a]).key != (#[trigger] c[b]).key by {
        let x = if a < i { a } else { a + 1 };
        let y = if b < i { b } else { b + 1 };
        assert(entries[x].key != entries[y].key);
    }
    assert forall|k: Seq<u8>| slot_index(c).contains_key(k) <==> want.contains_key(k) by {
        if slot_index(c).contains_key(k) {
            let a = lemma_slot_index_has(c, k);
            let x = if a < i { a } else { a + 1 };
            if x < i {
                assert(entries[x].key != entries[i].key);
            } else {
                assert(entries[i].key != entries[x].key);
            }
        }
        if want.contains_key(k) {
            let x = lemma_slot_index_has(entries, k);
            let a = shifted_position(i, x);
            assert(c[a].key == k);
        }
    }
    assert forall|k: Seq<u8>| slot_index(c).contains_key(k) implies slot_index(c)[k] == want[k] by {
        let a = lemma_slot_index_has(c, k);
        let x = if a < i { a } else { a + 1 };
        lemma_slot_index(entries, x);
    }
}

/// A record appended to a laid-out file, with its slot at the end, gives a laid-out file.
pub proof fn lemma_pushed_layout(entries: Seq<Entry>, e: Entry, end: int)
    requires
        layout_ok(entries, end),
        !has_key(entries, e.key),
        e.index.offset == end,
    ensures
        layout_ok(entries.push(e), end + e.index.size),
        slot_index(entries.push(e)) == slot_index(entries).insert(e.key, e.index),
{
    let grown = entries.push(e);
    assert(grown.drop_last() =~= entries);
    assert forall|i: int, j: int| 0 <= i < j < grown.len() implies (#[trigger] grown[i]).key != (#[trigger] grown[j]).key
        && apart(grown[i].index, grown[j].index) by {
        if j < entries.len() {
            assert(entries[i].key != entries[j].key);
        } else {
            assert(entries[i].index.end() <= end);
        }
    }
    assert forall|i: int| 0 <= i < grown.len() implies (#[trigger] grown[i]).index.end() <= end + e.index.size by {
        if i < entries.len() {
            assert(entries[i].index.end() <= end);
        }
    }
    assert forall|k: Seq<u8>| slot_index(grown).contains_key(k) <==> slot_index(entries).insert(
        e.key,
        e.index,
    ).contains_key(k) by {
        if slot_index(grown).contains_key(k) {
            let a = lemma_slot_index_has(grown, k);
            if a < entries.len() {
                assert(entries[a].key == k);
            }
        }
        if slot_index(entries).contains_key(k) {
            let a = lemma_slot_index_has(entries, k);
            assert(grown[a].key == k);
        }
        if k == e.key {
            assert(grown[entries.len() as int].key == k);
        }
    }
    assert forall|k: Seq<u8>| slot_index(grown).contains_key(k) implies slot_index(grown)[k] == slot_index(
        entries,
    ).insert(e.key, e.index)[k] by {
        let a = lemma_slot_index_has(grown, k);
        if a < entries.len() {
            lemma_slot_index(entries, a);
        }
    }
}

/// Sum of the sizes of the records, unless it is more than `limit`.
fn sum_sizes(records: &Vec<Record>, limit: usize) -> (r: Option<usize>)
    ensures
        match r {
            Some(total) => total == total_size(entries_of(records@)) && total <= limit,
            None => total_size(entries_of(records@)) > limit,
        },
{
    let ghost entries = entries_of(records@);
    let mut total: usize = 0;
    let mut i: usize = 0;
    while i < records.len()
        invariant
            i <= records.len(),
            entries == entries_of(records@),
            total == total_size(entries.take(i as int)),
            total <= limit,
        decreases records.len() - i,
    {
        let size = records[i].index.size;
        proof {
            assert(entries.take(i + 1).drop_last() =~= entries.take(i as int));
        }
        if size > limit - total {
            proof {
                lemma_total_size_prefix(entries, i + 1);
            }
            return None;
        }
        total += size;
        i += 1;
    }
    assert(entries.take(i as int) =~= entries);
    Some(total)
}

/// Whether each key has one slot, and the slots lie within `end` bytes and do not overlap.
fn check_layout(records: &Vec<Record>, end: usize) -> (ok: bool)
    ensures
        ok == (distinct_keys(entries_of(records@)) && slots_apart(entries_of(records@)) && slots_within(
            entries_of(records@),
            end as int,
        )),
{
    let ghost entries = entries_of(records@);
    let mut i: usize = 0;
    while i < records.len()
        invariant
            i <= records.len(),
            entries == entries_of(records@),
            forall|a: int, b: int|
                0 <= a < b < i ==> (#[trigger] entries[a]).key != (#[trigger] entries[b]).key && apart(
                    entries[a].index,
                    entries[b].index,
                ),
            forall|a: int| 0 <= a < i ==> (#[trigger] entries[a]).index.end() <= end,
        decreases records.len() - i,
    {
        let slot = records[i].index;
        assert(entries[i as int] == records[i as int]@);
        if slot.offset > end || slot.size > end - slot.offset {
            return false;
        }
        let mut j: usize = 0;
        while j < i
            invariant
                j <= i < records.len(),
                entries == entries_of(records@),
                slot == entries[i as int].index,
                slot.end() <= end,
                forall|a: int| 0 <= a < i ==> (#[trigger] entries[a]).index.end() <= end,
                forall|a: int|
                    0 <= a < j ==> (#[trigger] entries[a]).key != entries[i as int].key && apart(
                        entries[a].index,
                        slot,
                    ),
            decreases i - j,
        {
            let other = records[j].index;
            assert(entries[j as int] == records[j as int]@);
            if same_bytes(records[j].key.as_slice(), records[i].key.as_slice()) {
                return false;
            }
            if !(other.offset + other.size <= slot.offset || slot.offset + slot.size <= other.offset) {
                return false;
            }
            j += 1;
        }
        i += 1;
    }
    true
}

/// Position of the record of `key`, if the records hold the key.
fn find_key(records: &Vec<Record>, key: &Vec<u8>) -> (r: Option<usize>)
    ensures
        match r {
            Some(i) => i < records.len() && entries_of(records@)[i as int].key == key@,
            None => !has_key(entries_of(records@), key@),
        },
{
    let mut i: usize = 0;
    while i < records.len()
        invariant
            i <= records.len(),
            forall|a: int| 0 <= a < i ==> (#[trigger] entries_of(records@)[a]).key != key@,
        decreases records.len() - i,
    {
        if same_bytes(records[i].key.as_slice(), key.as_slice()) {
            return Some(i);
        }
        i += 1;
    }
    None
}

pub struct FixedKvEngine {
    name: String,
    fd: FileImage,
    fd_offset: usize,
    indexes: Vec<Record>,
    ifd: FileImage,
}

impl View for FixedKvEngine {
    type V = Store;

    /// The store: the value that each key has, which is the content of its slot.
    open spec fn view(&self) -> Store {
        store_of(self.data(), self.index())
    }
}

/// The store that an engine opened on the two files stands for; none if the slots of the
/// records do not lay out a file that the data file holds.
pub open spec fn slotted_store(data: Seq<u8>, index: Seq<u8>) -> Option<Store> {
    let entries = replay(index, Layout::KeyOffsetSize);
    if total_size(entries) <= data.len() && layout_ok(entries, total_size(entries) as int) {
        Some(store_of(data, slot_index(entries)))
    } else {
        None
    }
}

impl FixedKvEngine {
    /// Name of the engine: its files are `{name}.kv` and `{name}.idx`.
    pub closed spec fn name_spec(&self) -> Seq<char> {
        self.name@
    }

    /// Content of the data file.
    pub closed spec fn data(&self) -> Seq<u8> {
        self.fd@
    }

    /// Content of the index file.
    pub closed spec fn index_file(&self) -> Seq<u8> {
        self.ifd@
    }

    /// End-of-data offset: where the next new value goes.
    pub closed spec fn end(&self) -> nat {
        self.fd_offset as nat
    }

    /// The records of the index in memory, in the order in which the index file holds them.
    pub closed spec fn slots(&self) -> Seq<Entry> {
        entries_of(self.indexes@)
    }

    /// The index in memory: the slot of each key.
    pub open spec fn index(&self) -> Map<Seq<u8>, KeyIndex> {
        slot_index(self.slots())
    }

    /// The two files and the index in memory agree: the index file is records from end to
    /// end, its replay gives the records in memory, their slots lay out the data file, and
    /// the data file ends at the end-of-data offset.
    pub open spec fn wf(&self) -> bool {
        &&& intact(self.index_file(), Layout::KeyOffsetSize)
        &&& self.slots() == replay(self.index_file(), Layout::KeyOffsetSize)
        &&& layout_ok(self.slots(), self.end() as int)
        &&& self.data().len() == self.end()
    }

    /// Opens the engine on the content of its two files. The index file is replayed; what
    /// follows its last whole record is dropped, and so is what the data file holds beyond
    /// the slots. Fails if the slots of the records do not lay out a file that the data
    /// file holds.
    pub fn new(name: String, data: Vec<u8>, index: Vec<u8>) -> (r: Result<Self, Error>)
        ensures
            match r {
                Ok(e) => {
                    &&& e.wf()
                    &&& Some(e@) == slotted_store(data@, index@)
                    &&& e.name_spec() == name@
                    &&& e.slots() == replay(index@, Layout::KeyOffsetSize)
                    &&& e.end() == total_size(e.slots())
                    &&& e.end() <= data@.len()
                    &&& e.data() == data@.take(e.end() as int)
                    &&& e.index_file() == index@.take(replay_len(index@, Layout::KeyOffsetSize) as int)
                },
                Err(e) => e == Error::CorruptIndex && slotted_store(data@, index@) is None,
            },
    {
        let mut engine = FixedKvEngine {
            name,
            fd: FileImage::new(data),
            fd_offset: 0,
            indexes: Vec::new(),
            ifd: FileImage::new(index),
        };
        match engine.load_index() {
            Ok(()) => {
                proof {
                    assert forall|k: Seq<u8>| engine.index().contains_key(k) implies value_at(
                        engine.data(),
                        engine.index()[k],
                    ) == value_at(data@, engine.index()[k]) by {
                        let a = lemma_slot_index_has(engine.slots(), k);
                        assert(engine.slots()[a].index.end() <= engine.end());
                    }
                }
                Ok(engine)
            },
            Err(e) => Err(e),
        }
    }

    /// Replays the index file and rebuilds the index in memory and the end-of-data offset
    /// from it: the offset is the sum of the sizes of the records. On failure nothing is
    /// changed.
    pub fn load_index(&mut self) -> (r: Result<(), Error>)
        ensures
            final(self).name_spec() == old(self).name_spec(),
            match r {
                Ok(()) => {
                    &&& final(self).wf()
                    &&& final(self).slots() == replay(old(self).index_file(), Layout::KeyOffsetSize)
                    &&& final(self).end() == total_size(final(self).slots())
                    &&& final(self).end() <= old(self).data().len()
                    &&& final(self).data() == old(self).data().take(final(self).end() as int)
                    &&& final(self).index_file() == old(self).index_file().take(
                        replay_len(old(self).index_file(), Layout::KeyOffsetSize) as int,
                    )
                },
                Err(e) => {
                    let entries = replay(old(self).index_file(), Layout::KeyOffsetSize);
                    &&& e == Error::CorruptIndex
                    &&& !(total_size(entries) <= old(self).data().len() && layout_ok(
                        entries,
                        total_size(entries) as int,
                    ))
                    &&& final(self).data() == old(self).data()
                    &&& final(self).index_file() == old(self).index_file()
                    &&& final(self).slots() == old(self).slots()
                    &&& final(self).end() == old(self).end()
                },
            },
    {
        let (records, used) = read_records(self.ifd.bytes().as_slice(), &Layout::KeyOffsetSize);
        let total = match sum_sizes(&records, self.fd.len()) {
            Some(total) => total,
            None => {
                return Err(Error::CorruptIndex);
            },
        };
        if !check_layout(&records, total) {
            return Err(Error::CorruptIndex);
        }
        proof {
            lemma_replay_prefix(self.ifd@, Layout::KeyOffsetSize);
            assert(resized(self.ifd@, used as nat) =~= self.ifd@.take(used as int));
        }
        self.fd.set_len(total);
        self.ifd.set_len(used);
        self.indexes = records;
        self.fd_offset = total;
        Ok(())
    }

    /// Appends the line of one record to the index file. The index in memory is not
    /// touched: after this call alone it lacks a record that the index file holds.
    pub fn append_index(&mut self, k: Vec<u8>, idx: KeyIndex) -> (r: Result<(), Error>)
        ensures
            r is Ok,
            final(self).index_file() == old(self).index_file() + encode_line(
                Entry { key: k@, index: idx },
                Layout::KeyOffsetSize,
            ),
            final(self).name_spec() == old(self).name_spec(),
            final(self).data() == old(self).data(),
            final(self).slots() == old(self).slots(),
            final(self).end() == old(self).end(),
    {
        let mut line: Vec<u8> = Vec::new();
        write_line(&mut line, k.as_slice(), &idx, &Layout::KeyOffsetSize);
        let ghost before = self.ifd@;
        proof {
            self.ifd.lemma_len();
        }
        let r = self.ifd.write(SeekFrom::End(0), line.as_slice());
        assert(written(before, before.len() as int, line@) =~= before + line@);
        r
    }

    /// Rewrites the whole index file from the records in memory.
    fn flush_index(&mut self) -> (r: Result<(), Error>)
        ensures
            r is Ok,
            final(self).index_file() == encode_all(old(self).slots(), Layout::KeyOffsetSize),
            final(self).name_spec() == old(self).name_spec(),
            final(self).data() == old(self).data(),
            final(self).slots() == old(self).slots(),
            final(self).end() == old(self).end(),
    {
        let ghost entries = entries_of(self.indexes@);
        let mut s: Vec<u8> = Vec::new();
        let mut i: usize = 0;
        while i < self.indexes.len()
            invariant
                i <= self.indexes.len(),
                *self == *old(self),
                entries == entries_of(self.indexes@),
                s@ == encode_all(entries.take(i as int), Layout::KeyOffsetSize),
            decreases self.indexes.len() - i,
        {
            proof {
                assert(entries.take(i + 1).drop_last() =~= entries.take(i as int));
            }
            write_line(&mut s, self.indexes[i].key.as_slice(), &self.indexes[i].index, &Layout::KeyOffsetSize);
            i += 1;
        }
        assert(entries.take(i as int) =~= entries);
        let ghost before = self.ifd@;
        let r = self.ifd.write(SeekFrom::Start(0), s.as_slice());
        self.ifd.set_len(s.len());
        assert(resized(written(before, 0, s@), s@.len()) =~= s@);
        r
    }

    /// Stores a value under a key that has no slot yet: the value is appended to the data
    /// file and becomes the slot of the key, and the line of the slot is appended to the
    /// index file.
    fn insert(&mut self, key: Vec<u8>, val: Vec<u8>) -> (r: Result<Dirty, Error>)
        requires
            old(self).wf(),
            key_ok(key@),
            !old(self).index().contains_key(key@),
        ensures
            final(self).wf(),
            r == Ok::<Dirty, Error>(
                (Dirty {
                    data_from: old(self).end() as usize,
                    index_from: old(self).index_file().len() as usize,
                }),
            ),
            final(self)@ == old(self)@.insert(key@, val@),
            final(self).name_spec() == old(self).name_spec(),
            final(self).data() == old(self).data() + val@,
            final(self).end() == old(self).end() + val@.len(),
            final(self).slots() == old(self).slots().push(
                (Entry { key: key@, index: KeyIndex { offset: old(self).end() as usize, size: val.len() } }),
            ),
            final(self).index_file() == old(self).index_file() + encode_line(
                (Entry { key: key@, index: KeyIndex { offset: old(self).end() as usize, size: val.len() } }),
                Layout::KeyOffsetSize,
            ),
    {
        let index = KeyIndex { offset: self.fd_offset, size: val.len() };
        let dirty = Dirty { data_from: self.fd_offset, index_from: self.ifd.len() };
        let ghost before = *self;
        let ghost entry = Entry { key: key@, index };
        match self.fd.write(SeekFrom::End(0), val.as_slice()) {
            Ok(()) => {},
            Err(e) => {
                return Err(e);
            },
        }
        match self.append_index(clone_bytes(&key), index) {
            Ok(()) => {},
            Err(e) => {
                return Err(e);
            },
        }
        self.indexes.push(Record { key, index });
        self.fd_offset = self.fd.len();
        proof {
            assert(self.slots() =~= before.slots().push(entry));
            lemma_replay_append(before.ifd@, entry, Layout::KeyOffsetSize);
            lemma_pushed_layout(before.slots(), entry, before.end() as int);
            assert forall|k: Seq<u8>| before.index().contains_key(k) implies value_at(
                self.data(),
                before.index()[k],
            ) == value_at(before.data(), before.index()[k]) by {
                let a = lemma_slot_index_has(before.slots(), k);
                assert(before.slots()[a].index.end() <= before.end());
                assert(value_at(self.data(), before.index()[k]) =~= value_at(
                    before.data(),
                    before.index()[k],
                ));
            }
            assert(value_at(self.data(), index) =~= val@);
        }
        Ok(dirty)
    }

    /// Stores `val` under `key`. A key that has a slot keeps it: the value is written into
    /// the slot, followed by zeros where it is shorter, and a value longer than the slot is
    /// refused with `InvalidData`, nothing being changed. A key without a slot gets one at
    /// the end of the data file, as large as the value.
    pub fn set(&mut self, key: Vec<u8>, val: Vec<u8>) -> (r: Result<Dirty, Error>)
        requires
            old(self).wf(),
            key_ok(key@),
        ensures
            final(self).wf(),
            final(self).name_spec() == old(self).name_spec(),
            match r {
                Ok(dirty) => if old(self).index().contains_key(key@) {
                    let slot = old(self).index()[key@];
                    &&& slot_fits(old(self)@, key@, val@)
                    &&& final(self)@ == old(self)@.insert(key@, slot_value(old(self)@, key@, val@))
                    &&& final(self).data() == written(
                        old(self).data(),
                        slot.offset as int,
                        val@ + zeros((slot.size - val@.len()) as nat),
                    )
                    &&& final(self).slots() == old(self).slots()
                    &&& final(self).index_file() == old(self).index_file()
                    &&& final(self).end() == old(self).end()
                    &&& dirty == (Dirty {
                        data_from: slot.offset,
                        index_from: old(self).index_file().len() as usize,
                    })
                } else {
                    let slot = KeyIndex { offset: old(self).end() as usize, size: val.len() };
                    &&& slot_fits(old(self)@, key@, val@)
                    &&& final(self)@ == old(self)@.insert(key@, slot_value(old(self)@, key@, val@))
                    &&& final(self).data() == old(self).data() + val@
                    &&& final(self).slots() == old(self).slots().push((Entry { key: key@, index: slot }))
                    &&& final(self).index_file() == old(self).index_file() + encode_line(
                        (Entry { key: key@, index: slot }),
                        Layout::KeyOffsetSize,
                    )
                    &&& final(self).end() == old(self).end() + val@.len()
                    &&& dirty == (Dirty {
                        data_from: old(self).end() as usize,
                        index_from: old(self).index_file().len() as usize,
                    })
                },
                Err(e) => {
                    &&& e == Error::InvalidData
                    &&& !slot_fits(old(self)@, key@, val@)
                    &&& old(self).index().contains_key(key@)
                    &&& val@.len() > old(self).index()[key@].size
                    &&& final(self)@ == old(self)@
                    &&& final(self).data() == old(self).data()
                    &&& final(self).slots() == old(self).slots()
                    &&& final(self).index_file() == old(self).index_file()
                    &&& final(self).end() == old(self).end()
                },
            },
    {
        let i = match find_key(&self.indexes, &key) {
            Some(i) => i,
            None => {
                return self.insert(key, val);
            },
        };
        let slot = self.indexes[i].index;
        proof {
            lemma_slot_index(self.slots(), i as int);
        }
        if slot.size < val.len() {
            return Err(Error::InvalidData);
        }
        let mut padded = val;
        while padded.len() < slot.size
            invariant
                val@.len() <= padded@.len() <= slot.size,
                padded@ == val@ + zeros((padded@.len() - val@.len()) as nat),
            decreases slot.size - padded@.len(),
        {
            padded.push(0);
        }
        let dirty = Dirty { data_from: slot.offset, index_from: self.ifd.len() };
        let ghost before = *self;
        match self.fd.write(seek_for(slot.offset, self.fd_offset), padded.as_slice()) {
            Ok(()) => {},
            Err(e) => {
                return Err(e);
            },
        }
        proof {
            assert forall|k: Seq<u8>| before.index().contains_key(k) && k != key@ implies value_at(
                self.data(),
                before.index()[k],
            ) == value_at(before.data(), before.index()[k]) by {
                let a = lemma_slot_index_has(before.slots(), k);
                if a < i {
                    assert(apart(before.slots()[a].index, before.slots()[i as int].index));
                } else {
                    assert(apart(before.slots()[i as int].index, before.slots()[a].index));
                }
                assert(value_at(self.data(), before.index()[k]) =~= value_at(
                    before.data(),
                    before.index()[k],
                ));
            }
            assert(value_at(self.data(), slot) =~= padded@);
        }
        Ok(dirty)
    }

    /// Deletes `key` and gives the room of its slot back: what the data file holds after
    /// the slot is moved down to where the slot began, the file is cut to its new length,
    /// every slot that lay after the deleted one moves down by its size, and the index
    /// file is rewritten. A key without a slot is left alone.
    pub fn del(&mut self, key: Vec<u8>) -> (r: Result<Dirty, Error>)
        requires
            old(self).wf(),
        ensures
            final(self).wf(),
            final(self).name_spec() == old(self).name_spec(),
            final(self)@ == old(self)@.remove(key@),
            match r {
                Ok(dirty) => if old(self).index().contains_key(key@) {
                    let gone = old(self).index()[key@];
                    &&& final(self).data() == old(self).data().take(gone.offset as int) + old(self).data().skip(
                        gone.end(),
                    )
                    &&& final(self).end() == old(self).end() - gone.size
                    &&& final(self).index() == Map::new(
                        |k: Seq<u8>| old(self).index().contains_key(k) && k != key@,
                        |k: Seq<u8>| moved(old(self).index()[k], gone),
                    )
                    &&& final(self).index_file() == encode_all(final(self).slots(), Layout::KeyOffsetSize)
                    &&& dirty == (Dirty { data_from: gone.offset, index_from: 0 })
                } else {
                    &&& final(self).data() == old(self).data()
                    &&& final(self).end() == old(self).end()
                    &&& final(self).slots() == old(self).slots()
                    &&& final(self).index_file() == old(self).index_file()
                    &&& dirty == (Dirty {
                        data_from: old(self).data().len() as usize,
                        index_from: old(self).index_file().len() as usize,
                    })
                },
                Err(_) => false,
            },
    {
        let i = match find_key(&self.indexes, &key) {
            Some(i) => i,
            None => {
                return Ok(Dirty { data_from: self.fd.len(), index_from: self.ifd.len() });
            },
        };
        let ghost before = *self;
        let ghost entries = self.slots();
        proof {
            lemma_slot_index(entries, i as int);
            lemma_compacted_layout(entries, i as int, before.end() as int);
            lemma_compacted_index(entries, i as int);
            lemma_replay_stored(before.ifd@, Layout::KeyOffsetSize);
        }
        let gone = self.indexes.remove(i).index;
        let end = self.fd_offset;
        let after = gone.offset + gone.size;
        let tail = match self.fd.read(seek_for(after, end), end - after) {
            Ok(tail) => tail,
            Err(e) => {
                return Err(e);
            },
        };
        self.fd_offset = gone.offset + tail.len();
        if self.fd_offset > 0 {
            match self.fd.write(seek_for(gone.offset, end), tail.as_slice()) {
                Ok(()) => {},
                Err(e) => {
                    return Err(e);
                },
            }
        }
        self.fd.set_len(self.fd_offset);
        assert(self.fd@ =~= before.fd@.take(gone.offset as int) + before.fd@.skip(after as int));
        let ghost cut = *self;
        let mut j: usize = 0;
        while j < self.indexes.len()
            invariant
                j <= self.indexes.len(),
                self.name == cut.name,
                self.fd == cut.fd,
                self.ifd == cut.ifd,
                self.fd_offset == cut.fd_offset,
                self.indexes.len() == entries.len() - 1,
                0 <= i < entries.len(),
                gone == entries[i as int].index,
                forall|m: int|
                    0 <= m < entries.len() && m != i && (#[trigger] entries[m]).index.offset > gone.offset
                        ==> entries[m].index.offset >= gone.end(),
                forall|a: int|
                    0 <= a < self.indexes.len() ==> (#[trigger] self.indexes[a])@ == if a < j {
                        compacted(entries, i as int)[a]
                    } else {
                        entries.remove(i as int)[a]
                    },
            decreases self.indexes.len() - j,
        {
            let slot = self.indexes[j].index;
            if slot.offset > gone.offset {
                self.indexes[j].index.offset = slot.offset - gone.size;
            }
            j += 1;
        }
        assert(self.slots() =~= compacted(entries, i as int));
        match self.flush_index() {
            Ok(()) => {},
            Err(e) => {
                return Err(e);
            },
        }
        proof {
            let c = compacted(entries, i as int);
            assert forall|a: int| 0 <= a < c.len() implies key_ok(#[trigger] c[a].key) by {
                assert(c[a].key == entries[if a < i { a } else { a + 1 }].key);
            }
            lemma_replay_encode_all(c, Layout::KeyOffsetSize);
            assert(c.map_values(|e: Entry| Layout::KeyOffsetSize.stored(e)) =~= c);
            assert forall|k: Seq<u8>| self.index().contains_key(k) implies value_at(
                self.data(),
                self.index()[k],
            ) == value_at(before.data(), before.index()[k]) by {
                let m = lemma_slot_index_has(entries, k);
                lemma_compacted_values(entries, i as int, before.data(), m);
            }
        }
        Ok(Dirty { data_from: gone.offset, index_from: 0 })
    }

    /// The value of `key`: the content of its slot; no bytes if the key has none.
    pub fn get(&self, key: Vec<u8>) -> (r: Result<Vec<u8>, Error>)
        requires
            self.wf(),
        ensures
            match r {
                Ok(val) => val@ == lookup(self@, key@),
                Err(_) => false,
            },
    {
        match find_key(&self.indexes, &key) {
            Some(i) => {
                let slot = self.indexes[i].index;
                proof {
                    lemma_slot_index(self.slots(), i as int);
                }
                self.fd.read(seek_for(slot.offset, self.fd_offset), slot.size)
            },
            None => Ok(Vec::new()),
        }
    }

    /// The slots of two keys lie within the data file and do not overlap.
    pub proof fn law_values_apart(&self, a: Seq<u8>, b: Seq<u8>)
        requires
            self.wf(),
            self.index().contains_key(a),
            self.index().contains_key(b),
            a != b,
        ensures
            self.index()[a].end() <= self.data().len(),
            apart(self.index()[a], self.index()[b]),
    {
        let i = lemma_slot_index_has(self.slots(), a);
        let j = lemma_slot_index_has(self.slots(), b);
        if i < j {
            assert(apart(self.slots()[i].index, self.slots()[j].index));
        } else {
            assert(apart(self.slots()[j].index, self.slots()[i].index));
        }
    }

    /// Closes the engine: gives up the content of the data file and of the index file.
    pub fn close(self) -> (r: (Vec<u8>, Vec<u8>))
        ensures
            r.0@ == self.data(),
            r.1@ == self.index_file(),
    {
        (self.fd.into_bytes(), self.ifd.into_bytes())
    }

    /// Reopening gives the same store: the files of a well-formed engine, replayed, stand
    /// for the store that the engine stands for, with nothing dropped from either file.
    pub proof fn law_reopen(&self)
        requires
            self.wf(),
        ensures
            slotted_store(self.data(), self.index_file()) == Some(self@),
            replay_len(self.index_file(), Layout::KeyOffsetSize) == self.index_file().len(),
            total_size(replay(self.index_file(), Layout::KeyOffsetSize)) == self.data().len(),
    {
    }

    /// Name of the engine.
    pub fn name(&self) -> (r: &String)
        ensures
            r@ == self.name_spec(),
    {
        &self.name
    }

    /// End-of-data offset: the length of the data file.
    pub fn end_of_data(&self) -> (r: usize)
        ensures
            r == self.end(),
    {
        self.fd_offset
    }

    /// The slot of `key`, if the key has one.
    pub fn locate(&self, key: &Vec<u8>) -> (r: Option<KeyIndex>)
        requires
            self.wf(),
        ensures
            r == if self.index().contains_key(key@) {
                Some(self.index()[key@])
            } else {
                None
            },
    {
        match find_key(&self.indexes, key) {
            Some(i) => {
                proof {
                    lemma_slot_index(self.slots(), i as int);
                }
                Some(self.indexes[i].index)
            },
            None => None,
        }
    }

    /// Content of the data file.
    pub fn data_bytes(&self) -> (r: &Vec<u8>)
        ensures
            r@ == self.data(),
    {
        self.fd.bytes()
    }

    /// Content of the index file.
    pub fn index_bytes(&self) -> (r: &Vec<u8>)
        ensures
            r@ == self.index_file(),
    {
        self.ifd.bytes()
    }
}

} // verus!
