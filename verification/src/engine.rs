//! The append-log engine: values are only ever appended to the data file, the index file
//! holds one `key,size` line per append, and the index in memory is ordered by key.

use skiplist::SkipMap;
use vstd::prelude::*;
use crate::bytes::{clone_bytes, key_ok, lex_lt};
use crate::error::Error;
use crate::file::{Dirty, FileImage, SeekFrom, read_at, resized, seek_for, value_at, written};
use crate::ordered::{KeyBound, index_entries, index_get, index_insert, index_new, index_range};
use crate::record::{
    Entry, KeyIndex, Layout, apart, encode_line, entries_of, intact, lemma_replay_append, lemma_replay_prefix,
    lemma_total_size_prefix, read_records, replay, replay_len, total_size, write_line,
};
use crate::store::{Store, lookup, store_of};

verus! {

/// The index that a replay of `key,size` records builds: each record stores its value
/// right after the values of the records before it, and a later record of a key replaces
/// an earlier one.
pub open spec fn appended_index(records: Seq<Entry>) -> Map<Seq<u8>, KeyIndex>
    decreases records.len(),
{
    if records.len() == 0 {
        Map::empty()
    } else {
        appended_index(records.drop_last()).insert(
            records.last().key,
            KeyIndex { offset: total_size(records.drop_last()) as usize, size: records.last().index.size },
        )
    }
}

/// Whether `k` lies in the range of a scan: an empty bound is no bound.
pub open spec fn in_scan(k: Seq<u8>, start: Seq<u8>, end: Seq<u8>) -> bool {
    &&& start.len() == 0 || start == k || lex_lt(start, k)
    &&& end.len() == 0 || end == k || lex_lt(k, end)
}

/// Every value of the index lies within the data that the records describe.
pub proof fn lemma_appended_within(records: Seq<Entry>, k: Seq<u8>)
    requires
        total_size(records) <= usize::MAX,
        appended_index(records).contains_key(k),
    ensures
        appended_index(records)[k].end() <= total_size(records),
    decreases records.len(),
{
    if records.len() > 0 {
        if k != records.last().key {
            lemma_appended_within(records.drop_last(), k);
        }
    }
}

/// The values of two keys of the index do not overlap.
pub proof fn lemma_appended_apart(records: Seq<Entry>, a: Seq<u8>, b: Seq<u8>)
    requires
        total_size(records) <= usize::MAX,
        appended_index(records).contains_key(a),
        appended_index(records).contains_key(b),
        a != b,
    ensures
        apart(appended_index(records)[a], appended_index(records)[b]),
    decreases records.len(),
{
    if records.len() > 0 {
        let init = records.drop_last();
        if a == records.last().key {
            lemma_appended_within(init, b);
        } else if b == records.last().key {
            lemma_appended_within(init, a);
        } else {
            lemma_appended_apart(init, a, b);
        }
    }
}

pub struct KvEngine {
    name: String,
    fd: FileImage,
    fd_offset: usize,
    ifd: FileImage,
    indexes: SkipMap<Vec<u8>, KeyIndex>,
}

impl View for KvEngine {
    type V = Store;

    /// The store: the value that each key has.
    open spec fn view(&self) -> Store {
        store_of(self.data(), self.index())
    }
}

/// The store that an engine opened on the two files stands for; none if the records of the
/// index file describe more data than the data file holds.
pub open spec fn appended_store(data: Seq<u8>, index: Seq<u8>) -> Option<Store> {
    let records = replay(index, Layout::KeySize);
    if total_size(records) <= data.len() {
        Some(store_of(data, appended_index(records)))
    } else {
        None
    }
}

impl KvEngine {
    /// Name of the engine: its files are `{name}.kv` and `{name}.idx`.
    pub closed spec fn name_spec(&self) -> Seq<char> {
        self.name@
    }

    /// Content of the data file.
    pub closed spec fn data(&self) -> Seq<u8> {
        self.fd@
    }

    /// Content of the index file.
    pub closed spec fn index_file(&self) -> Seq<u8> {
        self.ifd@
    }

    /// End-of-data offset: where the next value goes.
    pub closed spec fn end(&self) -> nat {
        self.fd_offset as nat
    }

    /// The index in memory: where the value of each key lies.
    pub closed spec fn index(&self) -> Map<Seq<u8>, KeyIndex> {
        index_entries(self.indexes)
    }

    /// The two files and the index in memory agree: the index file is records from end to
    /// end, its replay gives the index and the end-of-data offset, and the data file ends
    /// at that offset.
    pub open spec fn wf(&self) -> bool {
        let records = replay(self.index_file(), Layout::KeySize);
        &&& intact(self.index_file(), Layout::KeySize)
        &&& self.index() == appended_index(records)
        &&& self.end() == total_size(records)
        &&& self.data().len() == self.end()
    }

    /// Opens the engine on the content of its two files. The index file is replayed; what
    /// follows its last whole record is dropped, and so is what the data file holds beyond
    /// the values of the records. Fails if the records describe more data than the data
    /// file holds.
    pub fn new(name: String, data: Vec<u8>, index: Vec<u8>) -> (r: Result<Self, Error>)
        ensures
            match r {
                Ok(e) => {
                    &&& e.wf()
                    &&& Some(e@) == appended_store(data@, index@)
                    &&& e.name_spec() == name@
                    &&& e.index() == appended_index(replay(index@, Layout::KeySize))
                    &&& e.end() == total_size(replay(index@, Layout::KeySize))
                    &&& e.end() <= data@.len()
                    &&& e.data() == data@.take(e.end() as int)
                    &&& e.index_file() == index@.take(replay_len(index@, Layout::KeySize) as int)
                },
                Err(e) => e == Error::CorruptIndex && appended_store(data@, index@) is None,
            },
    {
        let mut engine = KvEngine {
            name,
            fd: FileImage::new(data),
            fd_offset: 0,
            ifd: FileImage::new(index),
            indexes: index_new(),
        };
        match engine.load_index() {
            Ok(()) => {
                proof {
                    let records = replay(index@, Layout::KeySize);
                    assert forall|k: Seq<u8>| engine.index().contains_key(k) implies value_at(
                        engine.data(),
                        engine.index()[k],
                    ) == value_at(data@, engine.index()[k]) by {
                        lemma_appended_within(records, k);
                    }
                }
                Ok(engine)
            },
            Err(e) => Err(e),
        }
    }

    /// Replays the index file and rebuilds the index in memory and the end-of-data offset
    /// from it. On failure nothing is changed.
    fn load_index(&mut self) -> (r: Result<(), Error>)
        ensures
            final(self).name_spec() == old(self).name_spec(),
            match r {
                Ok(()) => {
                    &&& final(self).wf()
                    &&& final(self).index() == appended_index(replay(old(self).index_file(), Layout::KeySize))
                    &&& final(self).end() == total_size(replay(old(self).index_file(), Layout::KeySize))
                    &&& final(self).end() <= old(self).data().len()
                    &&& final(self).data() == old(self).data().take(final(self).end() as int)
                    &&& final(self).index_file() == old(self).index_file().take(
                        replay_len(old(self).index_file(), Layout::KeySize) as int,
                    )
                },
                Err(e) => {
                    &&& e == Error::CorruptIndex
                    &&& total_size(replay(old(self).index_file(), Layout::KeySize)) > old(self).data().len()
                    &&& final(self).data() == old(self).data()
                    &&& final(self).index_file() == old(self).index_file()
                    &&& final(self).index() == old(self).index()
                    &&& final(self).end() == old(self).end()
                },
            },
    {
        let (records, used) = read_records(self.ifd.bytes().as_slice(), &Layout::KeySize);
        let ghost entries = entries_of(records@);
        let limit = self.fd.len();
        let mut indexes = index_new();
        let mut offset: usize = 0;
        let mut i: usize = 0;
        while i < records.len()
            invariant
                i <= records.len(),
                *self == *old(self),
                entries == entries_of(records@),
                entries == replay(self.ifd@, Layout::KeySize),
                limit == self.fd@.len(),
                index_entries(indexes) == appended_index(entries.take(i as int)),
                offset == total_size(entries.take(i as int)),
                offset <= limit,
            decreases records.len() - i,
        {
            let size = records[i].index.size;
            proof {
                assert(entries.take(i + 1).drop_last() =~= entries.take(i as int));
            }
            if size > limit - offset {
                proof {
                    lemma_total_size_prefix(entries, i + 1);
                }
                return Err(Error::CorruptIndex);
            }
            let key = clone_bytes(&records[i].key);
            index_insert(&mut indexes, key, KeyIndex { offset, size });
            offset += size;
            i += 1;
        }
        proof {
            assert(entries.take(i as int) =~= entries);
            lemma_replay_prefix(self.ifd@, Layout::KeySize);
            assert(resized(self.ifd@, used as nat) =~= self.ifd@.take(used as int));
        }
        self.fd.set_len(offset);
        self.ifd.set_len(used);
        self.indexes = indexes;
        self.fd_offset = offset;
        Ok(())
    }

    /// Appends the line of one record to the index file.
    fn append_index(&mut self, k: Vec<u8>, idx: KeyIndex) -> (r: Result<(), Error>)
        ensures
            r is Ok,
            final(self).index_file() == old(self).index_file() + encode_line(
                Entry { key: k@, index: idx },
                Layout::KeySize,
            ),
            final(self).name_spec() == old(self).name_spec(),
            final(self).data() == old(self).data(),
            final(self).index() == old(self).index(),
            final(self).end() == old(self).end(),
    {
        let mut line: Vec<u8> = Vec::new();
        write_line(&mut line, k.as_slice(), &idx, &Layout::KeySize);
        let ghost before = self.ifd@;
        proof {
            self.ifd.lemma_len();
        }
        let r = self.ifd.write(SeekFrom::End(0), line.as_slice());
        assert(written(before, before.len() as int, line@) =~= before + line@);
        r
    }

    /// Stores `val` under `key`: the value is appended to the data file, its line to the
    /// index file, and the index in memory then points at the new value. What the key had
    /// before stays in the data file, out of reach.
    pub fn set(&mut self, key: Vec<u8>, val: Vec<u8>) -> (r: Result<Dirty, Error>)
        requires
            old(self).wf(),
            key_ok(key@),
        ensures
            final(self).wf(),
            r == Ok::<Dirty, Error>(
                (Dirty {
                    data_from: old(self).end() as usize,
                    index_from: old(self).index_file().len() as usize,
                }),
            ),
            final(self)@ == old(self)@.insert(key@, val@),
            final(self).name_spec() == old(self).name_spec(),
            final(self).data() == old(self).data() + val@,
            final(self).end() == old(self).end() + val@.len(),
            final(self).index() == old(self).index().insert(
                key@,
                (KeyIndex { offset: old(self).end() as usize, size: val.len() }),
            ),
            final(self).index_file() == old(self).index_file() + encode_line(
                (Entry { key: key@, index: KeyIndex { offset: old(self).end() as usize, size: val.len() } }),
                Layout::KeySize,
            ),
    {
        let index = KeyIndex { offset: self.fd_offset, size: val.len() };
        let dirty = Dirty { data_from: self.fd_offset, index_from: self.ifd.len() };
        let ghost before = *self;
        let ghost records = replay(self.ifd@, Layout::KeySize);
        let ghost entry = Entry { key: key@, index };
        match self.fd.write(SeekFrom::End(0), val.as_slice()) {
            Ok(()) => {},
            Err(e) => {
                return Err(e);
            },
        }
        self.fd_offset = self.fd.len();
        match self.append_index(clone_bytes(&key), index) {
            Ok(()) => {},
            Err(e) => {
                return Err(e);
            },
        }
        index_insert(&mut self.indexes, key, index);
        proof {
            lemma_replay_append(before.ifd@, entry, Layout::KeySize);
            let grown = records.push(Layout::KeySize.stored(entry));
            assert(grown.drop_last() =~= records);
            assert forall|k: Seq<u8>| before.index().contains_key(k) implies value_at(
                self.data(),
                before.index()[k],
            ) == value_at(before.data(), before.index()[k]) by {
                lemma_appended_within(records, k);
                assert(value_at(self.data(), before.index()[k]) =~= value_at(
                    before.data(),
                    before.index()[k],
                ));
            }
            assert(value_at(self.data(), index) =~= val@);
        }
        Ok(dirty)
    }

    /// The value of `key`; no bytes if the key has none.
    pub fn get(&self, key: Vec<u8>) -> (r: Result<Vec<u8>, Error>)
        requires
            self.wf(),
        ensures
            match r {
                Ok(val) => val@ == lookup(self@, key@),
                Err(_) => false,
            },
    {
        match index_get(&self.indexes, &key) {
            Some(index) => {
                proof {
                    lemma_appended_within(replay(self.index_file(), Layout::KeySize), key@);
                }
                self.read_value(&index)
            },
            None => Ok(Vec::new()),
        }
    }

    /// Reads the value at `index`, seeking over the shorter distance.
    fn read_value(&self, index: &KeyIndex) -> (r: Result<Vec<u8>, Error>)
        requires
            index.end() <= self.data().len(),
            self.data().len() == self.end(),
        ensures
            match r {
                Ok(val) => val@ == value_at(self.data(), *index),
                Err(_) => false,
            },
    {
        self.fd.read(seek_for(index.offset, self.fd_offset), index.size)
    }

    /// The keys between `start_key` and `end_key`, both included, in ascending order, and
    /// their values in the same order. An empty `start_key` stands for no lower bound, an
    /// empty `end_key` for no upper bound. Each value is read at its own offset: the scan
    /// does not rely on the values lying in the data file in the order of their keys.
    pub fn scan(&self, start_key: Vec<u8>, end_key: Vec<u8>) -> (r: Result<
        (Vec<Vec<u8>>, Vec<Vec<u8>>),
        Error,
    >)
        requires
            self.wf(),
        ensures
            match r {
                Ok((keys, vals)) => {
                    &&& keys.len() == vals.len()
                    &&& forall|i: int|
                        0 <= i < keys.len() ==> {
                            &&& in_scan(#[trigger] keys[i]@, start_key@, end_key@)
                            &&& self@.contains_key(keys[i]@)
                            &&& vals[i]@ == self@[keys[i]@]
                        }
                    &&& forall|k: Seq<u8>|
                        #[trigger] self@.contains_key(k) && in_scan(k, start_key@, end_key@) ==> exists|i: int|
                            0 <= i < keys.len() && keys[i]@ == k
                    &&& forall|i: int, j: int|
                        0 <= i < j < keys.len() ==> lex_lt(#[trigger] keys[i]@, #[trigger] keys[j]@)
                },
                Err(_) => false,
            },
    {
        let min = if start_key.len() == 0 {
            KeyBound::Unbounded
        } else {
            KeyBound::Included(start_key)
        };
        let max = if end_key.len() == 0 {
            KeyBound::Unbounded
        } else {
            KeyBound::Included(end_key)
        };
        let found = index_range(&self.indexes, &min, &max);
        let mut keys: Vec<Vec<u8>> = Vec::new();
        let mut vals: Vec<Vec<u8>> = Vec::new();
        let mut i: usize = 0;
        while i < found.len()
            invariant
                self.wf(),
                i <= found.len(),
                keys.len() == i,
                vals.len() == i,
                forall|j: int|
                    0 <= j < found.len() ==> self.index().contains_key(#[trigger] found[j]@.key)
                        && self.index()[found[j]@.key] == found[j]@.index,
                forall|j: int| 0 <= j < i ==> #[trigger] keys[j]@ == found[j]@.key,
                forall|j: int| 0 <= j < i ==> #[trigger] vals[j]@ == self@[found[j]@.key],
            decreases found.len() - i,
        {
            proof {
                lemma_appended_within(replay(self.index_file(), Layout::KeySize), found[i as int]@.key);
            }
            let val = match self.read_value(&found[i].index) {
                Ok(val) => val,
                Err(e) => {
                    return Err(e);
                },
            };
            keys.push(clone_bytes(&found[i].key));
            vals.push(val);
            i += 1;
        }
        proof {
            assert forall|k: Seq<u8>| #[trigger]
                self@.contains_key(k) && in_scan(k, start_key@, end_key@) implies exists|i: int|
                0 <= i < keys.len() && keys[i]@ == k by {
                let j = choose|j: int| 0 <= j < found.len() && found[j]@.key == k;
                assert(keys[j]@ == k);
            }
        }
        Ok((keys, vals))
    }

    /// The smallest key that is greater than `key`, with its value; an empty key and no
    /// bytes if no key is greater.
    pub fn next(&self, key: Vec<u8>) -> (r: Result<(Vec<u8>, Vec<u8>), Error>)
        requires
            self.wf(),
        ensures
            match r {
                Ok((k, val)) => if exists|s: Seq<u8>| self@.contains_key(s) && lex_lt(key@, s) {
                    &&& self@.contains_key(k@)
                    &&& lex_lt(key@, k@)
                    &&& val@ == self@[k@]
                    &&& forall|s: Seq<u8>|
                        #[trigger] self@.contains_key(s) && lex_lt(key@, s) ==> s == k@ || lex_lt(k@, s)
                } else {
                    k@.len() == 0 && val@.len() == 0
                },
                Err(_) => false,
            },
    {
        let min = KeyBound::Excluded(key);
        let found = index_range(&self.indexes, &min, &KeyBound::Unbounded);
        if found.len() == 0 {
            proof {
                assert forall|s: Seq<u8>| self@.contains_key(s) implies !lex_lt(key@, s) by {
                    assert(index_entries(self.indexes).contains_key(s));
                }
            }
            return Ok((Vec::new(), Vec::new()));
        }
        proof {
            lemma_appended_within(replay(self.index_file(), Layout::KeySize), found[0]@.key);
            assert forall|s: Seq<u8>| #[trigger] self@.contains_key(s) && lex_lt(key@, s) implies s
                == found[0]@.key || lex_lt(found[0]@.key, s) by {
                let j = choose|j: int| 0 <= j < found.len() && found[j]@.key == s;
                if j > 0 {
                    assert(lex_lt(found[0]@.key, found[j]@.key));
                }
            }
        }
        match self.read_value(&found[0].index) {
            Ok(val) => Ok((clone_bytes(&found[0].key), val)),
            Err(e) => Err(e),
        }
    }

    /// The values of two keys lie within the data file and do not overlap.
    pub proof fn law_values_apart(&self, a: Seq<u8>, b: Seq<u8>)
        requires
            self.wf(),
            self.index().contains_key(a),
            self.index().contains_key(b),
            a != b,
        ensures
            self.index()[a].end() <= self.data().len(),
            apart(self.index()[a], self.index()[b]),
    {
        let records = replay(self.index_file(), Layout::KeySize);
        lemma_appended_within(records, a);
        lemma_appended_apart(records, a, b);
    }

    /// Closes the engine: gives up the content of the data file and of the index file.
    pub fn close(self) -> (r: (Vec<u8>, Vec<u8>))
        ensures
            r.0@ == self.data(),
            r.1@ == self.index_file(),
    {
        (self.fd.into_bytes(), self.ifd.into_bytes())
    }

    /// Reopening gives the same store: the files of a well-formed engine, replayed, stand
    /// for the store that the engine stands for, with nothing dropped from either file.
    pub proof fn law_reopen(&self)
        requires
            self.wf(),
        ensures
            appended_store(self.data(), self.index_file()) == Some(self@),
            replay_len(self.index_file(), Layout::KeySize) == self.index_file().len(),
            total_size(replay(self.index_file(), Layout::KeySize)) == self.data().len(),
    {
    }

    /// Name of the engine.
    pub fn name(&self) -> (r: &String)
        ensures
            r@ == self.name_spec(),
    {
        &self.name
    }

    /// End-of-data offset: the length of the data file.
    pub fn end_of_data(&self) -> (r: usize)
        ensures
            r == self.end(),
    {
        self.fd_offset
    }

    /// Where the value of `key` lies, if the key has one.
    pub fn locate(&self, key: &Vec<u8>) -> (r: Option<KeyIndex>)
        ensures
            r == if self.index().contains_key(key@) {
                Some(self.index()[key@])
            } else {
                None
            },
    {
        index_get(&self.indexes, key)
    }

    /// Content of the data file.
    pub fn data_bytes(&self) -> (r: &Vec<u8>)
        ensures
            r@ == self.data(),
    {
        self.fd.bytes()
    }

    /// Content of the index file.
    pub fn index_bytes(&self) -> (r: &Vec<u8>)
        ensures
            r@ == self.index_file(),
    {
        self.ifd.bytes()
    }
}

} // verus!
