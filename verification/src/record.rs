//! The index file: one line per record, `key,size` or `key,offset,size`, each ended by a
//! newline. Reading it back record by record is the replay that rebuilds an index.

use vstd::prelude::*;
use vstd::slice::slice_subrange;
use crate::bytes::{
    COMMA, NEWLINE, copy_range, find_byte, first_index, key_ok, lemma_first_index, lemma_first_index_is,
};
use crate::decimal::{
    decimal, digits_of, encode_usize, is_digit, lemma_decimal_digits, lemma_parse_decimal, parse_decimal,
    parse_usize,
};

verus! {

/// Location of one value in the data file: the byte range `[offset, offset + size)`.
#[derive(Clone, Copy, Debug, PartialEq, Eq, Structural)]
pub struct KeyIndex {
    pub offset: usize,
    pub size: usize,
}

impl KeyIndex {
    /// The first byte position after the value.
    pub open spec fn end(self) -> int {
        self.offset + self.size
    }
}

/// Two locations that do not overlap: one ends where or before the other begins.
pub open spec fn apart(a: KeyIndex, b: KeyIndex) -> bool {
    a.end() <= b.offset || b.end() <= a.offset
}

/// What a line of the index file holds after the key.
#[derive(Clone, Copy, Debug, PartialEq, Eq, Structural)]
pub enum Layout {
    /// `key,size`: values lie in the data file in the order of their lines, so the offset
    /// is the sum of the sizes before. Such a line is read with offset 0.
    KeySize,
    /// `key,offset,size`.
    KeyOffsetSize,
}

/// One record of the index file.
#[derive(Debug)]
pub struct Record {
    pub key: Vec<u8>,
    pub index: KeyIndex,
}

/// A record as a mathematical value.
pub struct Entry {
    pub key: Seq<u8>,
    pub index: KeyIndex,
}

impl View for Record {
    type V = Entry;

    open spec fn view(&self) -> Entry {
        Entry { key: self.key@, index: self.index }
    }
}

impl Clone for Record {
    fn clone(&self) -> (r: Self)
        ensures
            r@ == self@,
    {
        let key = copy_range(self.key.as_slice(), 0, self.key.len());
        assert(key@ =~= self.key@);
        Record { key, index: self.index }
    }
}

/// The records of a vector, as mathematical values.
pub open spec fn entries_of(records: Seq<Record>) -> Seq<Entry> {
    records.map_values(|r: Record| r@)
}

impl Layout {
    /// The record as a line of this layout holds it: under `KeySize` no offset is stored.
    pub open spec fn stored(self, e: Entry) -> Entry {
        match self {
            Layout::KeySize => Entry { key: e.key, index: KeyIndex { offset: 0, size: e.index.size } },
            Layout::KeyOffsetSize => e,
        }
    }

    /// Number of comma-separated fields of a line.
    pub open spec fn fields(self) -> nat {
        match self {
            Layout::KeySize => 2,
            Layout::KeyOffsetSize => 3,
        }
    }
}

/// The line of a record without its newline.
pub open spec fn line_body(e: Entry, layout: Layout) -> Seq<u8> {
    match layout {
        Layout::KeySize => e.key + seq![COMMA] + decimal(e.index.size as nat),
        Layout::KeyOffsetSize => e.key + seq![COMMA] + decimal(e.index.offset as nat) + seq![COMMA]
            + decimal(e.index.size as nat),
    }
}

/// The line of a record as it is written to the index file.
pub open spec fn encode_line(e: Entry, layout: Layout) -> Seq<u8> {
    line_body(e, layout).push(NEWLINE)
}

/// The lines of the records, one after the other.
pub open spec fn encode_all(entries: Seq<Entry>, layout: Layout) -> Seq<u8>
    decreases entries.len(),
{
    if entries.len() == 0 {
        Seq::empty()
    } else {
        encode_all(entries.drop_last(), layout) + encode_line(entries.last(), layout)
    }
}

/// Number of commas in a line; the line has one field more.
pub open spec fn comma_count(line: Seq<u8>) -> nat
    decreases line.len(),
{
    if line.len() == 0 {
        0
    } else {
        comma_count(line.drop_last()) + if line.last() == COMMA { 1nat } else { 0nat }
    }
}

/// The record that a line (without its newline) holds. The key is what stands before the
/// first comma; what follows are the numerals of the layout, separated by commas. A line
/// with another number of fields, or with a field that is no numeral, holds no record.
pub open spec fn parse_line(line: Seq<u8>, layout: Layout) -> Option<Entry> {
    let c = first_index(line, COMMA);
    if c >= line.len() {
        None
    } else {
        let key = line.take(c);
        let rest = line.skip(c + 1);
        match layout {
            Layout::KeySize => match parse_decimal(rest) {
                Some(size) => Some(Entry { key, index: KeyIndex { offset: 0, size } }),
                None => None,
            },
            Layout::KeyOffsetSize => {
                let d = first_index(rest, COMMA);
                if d >= rest.len() {
                    None
                } else {
                    match (parse_decimal(rest.take(d)), parse_decimal(rest.skip(d + 1))) {
                        (Some(offset), Some(size)) => Some(Entry { key, index: KeyIndex { offset, size } }),
                        _ => None,
                    }
                }
            },
        }
    }
}

/// The records that a replay of the index file yields: those of its leading lines, up to
/// the first line that holds no record or is not ended by a newline.
pub open spec fn replay(buf: Seq<u8>, layout: Layout) -> Seq<Entry>
    decreases buf.len(),
{
    let n = first_index(buf, NEWLINE);
    if 0 <= n < buf.len() && parse_line(buf.take(n), layout) is Some {
        seq![parse_line(buf.take(n), layout).unwrap()] + replay(buf.skip(n + 1), layout)
    } else {
        Seq::empty()
    }
}

/// Number of bytes that the replay reads records from: the length of the leading lines that
/// hold a record.
pub open spec fn replay_len(buf: Seq<u8>, layout: Layout) -> nat
    decreases buf.len(),
{
    let n = first_index(buf, NEWLINE);
    if 0 <= n < buf.len() && parse_line(buf.take(n), layout) is Some {
        (n + 1 + replay_len(buf.skip(n + 1), layout)) as nat
    } else {
        0
    }
}

/// An index file that is records from end to end.
pub open spec fn intact(buf: Seq<u8>, layout: Layout) -> bool {
    replay_len(buf, layout) == buf.len()
}

/// Sum of the sizes of the records.
pub open spec fn total_size(entries: Seq<Entry>) -> nat
    decreases entries.len(),
{
    if entries.len() == 0 {
        0
    } else {
        total_size(entries.drop_last()) + entries.last().index.size as nat
    }
}

/// The sizes of a prefix of the records sum to no more than those of all of them.
pub proof fn lemma_total_size_prefix(records: Seq<Entry>, n: int)
    requires
        0 <= n <= records.len(),
    ensures
        total_size(records.take(n)) <= total_size(records),
    decreases records.len() - n,
{
    if n == records.len() {
        assert(records.take(n) =~= records);
    } else {
        lemma_total_size_prefix(records.drop_last(), n);
        assert(records.drop_last().take(n) =~= records.take(n));
    }
}

/// Every key is free of delimiters.
pub open spec fn keys_ok(entries: Seq<Entry>) -> bool {
    forall|i: int| 0 <= i < entries.len() ==> key_ok(#[trigger] entries[i].key)
}

/// Every persisted line reads back as the record it was written for, and has the number
/// of fields of its layout.
pub proof fn law_line_reads_back(e: Entry, layout: Layout)
    requires
        key_ok(e.key),
    ensures
        parse_line(line_body(e, layout), layout) == Some(layout.stored(e)),
        first_index(encode_line(e, layout), NEWLINE) == line_body(e, layout).len(),
        comma_count(line_body(e, layout)) + 1 == layout.fields(),
{
    let body = line_body(e, layout);
    let k = e.key.len() as int;
    lemma_decimal_digits(e.index.size as nat);
    lemma_decimal_digits(e.index.offset as nat);
    lemma_parse_decimal(e.index.size);
    lemma_parse_decimal(e.index.offset);
    lemma_first_index_is(body, COMMA, k);
    assert(body.take(k) =~= e.key);
    let rest = body.skip(k + 1);
    assert forall|j: int| 0 <= j < body.len() implies body[j] != NEWLINE by {
        lemma_body_bytes(e, layout, j);
    }
    lemma_first_index_is(encode_line(e, layout), NEWLINE, body.len() as int);
    match layout {
        Layout::KeySize => {
            assert(rest =~= decimal(e.index.size as nat));
        },
        Layout::KeyOffsetSize => {
            let offset = decimal(e.index.offset as nat);
            let size = decimal(e.index.size as nat);
            let d = offset.len() as int;
            lemma_first_index_is(rest, COMMA, d);
            assert(rest.take(d) =~= offset);
            assert(rest.skip(d + 1) =~= size);
        },
    }
    law_field_count(body, layout);
}

/// The bytes of a line: the key, a comma, and numerals and commas; no newline.
proof fn lemma_body_bytes(e: Entry, layout: Layout, j: int)
    requires
        key_ok(e.key),
        0 <= j < line_body(e, layout).len(),
    ensures
        line_body(e, layout)[j] != NEWLINE,
        j < e.key.len() ==> line_body(e, layout)[j] == e.key[j],
        j == e.key.len() ==> line_body(e, layout)[j] == COMMA,
{
    lemma_decimal_digits(e.index.size as nat);
    lemma_decimal_digits(e.index.offset as nat);
    let size = decimal(e.index.size as nat);
    let offset = decimal(e.index.offset as nat);
    let k = e.key.len();
    match layout {
        Layout::KeySize => {
            if j > k {
                assert(line_body(e, layout)[j] == size[j - k - 1]);
            }
        },
        Layout::KeyOffsetSize => {
            if k < j <= k + offset.len() {
                assert(line_body(e, layout)[j] == offset[j - k - 1]);
            } else if j > k + offset.len() + 1 {
                assert(line_body(e, layout)[j] == size[j - k - offset.len() - 2]);
            }
        },
    }
}

/// The commas of two strings add up.
pub proof fn lemma_comma_count_concat(a: Seq<u8>, b: Seq<u8>)
    ensures
        comma_count(a + b) == comma_count(a) + comma_count(b),
    decreases b.len(),
{
    if b.len() == 0 {
        assert(a + b =~= a);
    } else {
        lemma_comma_count_concat(a, b.drop_last());
        assert((a + b).drop_last() =~= a + b.drop_last());
    }
}

/// A string without a comma counts none.
pub proof fn lemma_comma_count_none(s: Seq<u8>)
    requires
        forall|i: int| 0 <= i < s.len() ==> s[i] != COMMA,
    ensures
        comma_count(s) == 0,
    decreases s.len(),
{
    if s.len() > 0 {
        lemma_comma_count_none(s.drop_last());
    }
}

/// A numeral holds no comma.
pub proof fn lemma_numeral_no_comma(s: Seq<u8>)
    requires
        parse_decimal(s) is Some,
    ensures
        comma_count(s) == 0,
{
    let d = digits_of(s);
    assert forall|i: int| 0 <= i < s.len() implies s[i] != COMMA by {
        if d.len() == s.len() {
            assert(is_digit(d[i]));
        } else if i > 0 {
            assert(is_digit(d[i - 1]));
        }
    }
    lemma_comma_count_none(s);
}

/// A line that holds a record has the number of fields of its layout: a line with another
/// number of fields holds none.
pub proof fn law_field_count(line: Seq<u8>, layout: Layout)
    requires
        parse_line(line, layout) is Some,
    ensures
        comma_count(line) + 1 == layout.fields(),
{
    let c = first_index(line, COMMA);
    lemma_first_index(line, COMMA);
    let key = line.take(c);
    let rest = line.skip(c + 1);
    assert(line =~= key + seq![COMMA] + rest);
    lemma_comma_count_none(key);
    lemma_comma_count_concat(key + seq![COMMA], rest);
    lemma_comma_count_concat(key, seq![COMMA]);
    assert(comma_count(seq![COMMA]) == 1) by {
        assert(seq![COMMA].drop_last() =~= Seq::<u8>::empty());
        assert(comma_count(Seq::<u8>::empty()) == 0);
    }
    match layout {
        Layout::KeySize => {
            lemma_numeral_no_comma(rest);
        },
        Layout::KeyOffsetSize => {
            let d = first_index(rest, COMMA);
            lemma_first_index(rest, COMMA);
            let first = rest.take(d);
            let second = rest.skip(d + 1);
            assert(rest =~= first + seq![COMMA] + second);
            lemma_numeral_no_comma(first);
            lemma_numeral_no_comma(second);
            lemma_comma_count_concat(first + seq![COMMA], second);
            lemma_comma_count_concat(first, seq![COMMA]);
        },
    }
}

/// A line appended to an intact index file adds its record to the replay, and leaves the
/// file intact.
pub proof fn lemma_replay_append(buf: Seq<u8>, e: Entry, layout: Layout)
    requires
        intact(buf, layout),
        key_ok(e.key),
    ensures
        replay(buf + encode_line(e, layout), layout) == replay(buf, layout).push(layout.stored(e)),
        intact(buf + encode_line(e, layout), layout),
    decreases buf.len(),
{
    let line = encode_line(e, layout);
    let body = line_body(e, layout);
    let cat = buf + line;
    law_line_reads_back(e, layout);
    if buf.len() == 0 {
        assert(line.take(body.len() as int) =~= body);
        assert(line.skip(body.len() + 1int) =~= Seq::<u8>::empty());
        assert(replay(Seq::<u8>::empty(), layout).len() == 0);
        assert(replay_len(Seq::<u8>::empty(), layout) == 0);
    } else {
        let n = first_index(buf, NEWLINE);
        let rest = buf.skip(n + 1);
        lemma_first_index(buf, NEWLINE);
        lemma_first_index_is(cat, NEWLINE, n);
        assert(cat.take(n) =~= buf.take(n));
        assert(cat.skip(n + 1) =~= rest + line);
        lemma_replay_append(rest, e, layout);
    }
}

/// Replaying the lines of a list of records gives the records back.
pub proof fn lemma_replay_encode_all(entries: Seq<Entry>, layout: Layout)
    requires
        keys_ok(entries),
    ensures
        replay(encode_all(entries, layout), layout) == entries.map_values(|e: Entry| layout.stored(e)),
        intact(encode_all(entries, layout), layout),
    decreases entries.len(),
{
    if entries.len() == 0 {
        assert(replay(encode_all(entries, layout), layout) =~= entries.map_values(
            |e: Entry| layout.stored(e),
        ));
    } else {
        let init = entries.drop_last();
        assert forall|i: int| 0 <= i < init.len() implies key_ok(#[trigger] init[i].key) by {
            assert(init[i] == entries[i]);
        }
        lemma_replay_encode_all(init, layout);
        lemma_replay_append(encode_all(init, layout), entries.last(), layout);
        assert(init.map_values(|e: Entry| layout.stored(e)).push(layout.stored(entries.last()))
            =~= entries.map_values(|e: Entry| layout.stored(e)));
    }
}

/// The part of an index file that the replay reads records from holds the same records,
/// and is intact: what follows it is dropped without loss.
pub proof fn lemma_replay_prefix(buf: Seq<u8>, layout: Layout)
    ensures
        replay_len(buf, layout) <= buf.len(),
        replay(buf.take(replay_len(buf, layout) as int), layout) == replay(buf, layout),
        intact(buf.take(replay_len(buf, layout) as int), layout),
    decreases buf.len(),
{
    let n = first_index(buf, NEWLINE);
    let len = replay_len(buf, layout);
    lemma_first_index(buf, NEWLINE);
    if 0 <= n < buf.len() && parse_line(buf.take(n), layout) is Some {
        let rest = buf.skip(n + 1);
        lemma_replay_prefix(rest, layout);
        let head = buf.take(len as int);
        lemma_first_index_is(head, NEWLINE, n);
        assert(head.take(n) =~= buf.take(n));
        assert(head.skip(n + 1) =~= rest.take(replay_len(rest, layout) as int));
    } else {
        assert(buf.take(0) =~= Seq::<u8>::empty());
    }
}

/// What follows the last whole line of an intact index file, and holds no newline, is
/// dropped by the replay.
pub proof fn lemma_replay_cut(buf: Seq<u8>, part: Seq<u8>, layout: Layout)
    requires
        intact(buf, layout),
        first_index(part, NEWLINE) == part.len(),
    ensures
        replay(buf + part, layout) == replay(buf, layout),
        replay_len(buf + part, layout) == buf.len(),
    decreases buf.len(),
{
    let cat = buf + part;
    if buf.len() == 0 {
        assert(cat =~= part);
    } else {
        let n = first_index(buf, NEWLINE);
        let rest = buf.skip(n + 1);
        lemma_first_index(buf, NEWLINE);
        lemma_first_index_is(cat, NEWLINE, n);
        assert(cat.take(n) =~= buf.take(n));
        assert(cat.skip(n + 1) =~= rest + part);
        lemma_replay_cut(rest, part, layout);
    }
}

/// The lines of the first `m` records are the beginning of the lines of all of them.
pub proof fn lemma_encode_all_prefix(entries: Seq<Entry>, m: int, layout: Layout)
    requires
        0 <= m <= entries.len(),
    ensures
        encode_all(entries.take(m), layout).len() <= encode_all(entries, layout).len(),
        encode_all(entries, layout).take(encode_all(entries.take(m), layout).len() as int) == encode_all(
            entries.take(m),
            layout,
        ),
    decreases entries.len() - m,
{
    if m == entries.len() {
        assert(entries.take(m) =~= entries);
        assert(encode_all(entries, layout).take(encode_all(entries, layout).len() as int) =~= encode_all(
            entries,
            layout,
        ));
    } else {
        let init = entries.drop_last();
        lemma_encode_all_prefix(init, m, layout);
        assert(init.take(m) =~= entries.take(m));
        let head = encode_all(entries.take(m), layout);
        assert(encode_all(entries, layout).take(head.len() as int) =~= encode_all(init, layout).take(
            head.len() as int,
        ));
    }
}

/// An index file cut short in the middle of a record loses that record and those after
/// it, and no other: the replay gives the records whose lines are whole.
pub proof fn law_truncated_replay(entries: Seq<Entry>, layout: Layout, whole: int, cut: int)
    requires
        keys_ok(entries),
        0 <= whole < entries.len(),
        encode_all(entries.take(whole), layout).len() <= cut < encode_all(entries.take(whole + 1), layout).len(),
    ensures
        cut < encode_all(entries, layout).len(),
        replay(encode_all(entries, layout).take(cut), layout) == entries.take(whole).map_values(
            |e: Entry| layout.stored(e),
        ),
{
    let kept = entries.take(whole);
    let head = encode_all(kept, layout);
    let next = encode_all(entries.take(whole + 1), layout);
    let line = encode_line(entries[whole], layout);
    lemma_encode_all_prefix(entries, whole + 1, layout);
    assert(entries.take(whole + 1).drop_last() =~= kept);
    let part = line.take(cut - head.len());
    assert(encode_all(entries, layout).take(cut) =~= head + part) by {
        assert(encode_all(entries, layout).take(cut) =~= next.take(cut));
    }
    assert forall|i: int| 0 <= i < kept.len() implies key_ok(#[trigger] kept[i].key) by {
        assert(kept[i] == entries[i]);
    }
    lemma_replay_encode_all(kept, layout);
    law_line_reads_back(entries[whole], layout);
    lemma_first_index(line, NEWLINE);
    assert forall|i: int| 0 <= i < part.len() implies part[i] != NEWLINE by {
        assert(part[i] == line[i]);
    }
    lemma_first_index_is(part, NEWLINE, part.len() as int);
    lemma_replay_cut(head, part, layout);
}

/// A replay yields keys without delimiters, and under `KeySize` offsets of 0.
pub proof fn lemma_replay_stored(buf: Seq<u8>, layout: Layout)
    ensures
        keys_ok(replay(buf, layout)),
        forall|i: int| 0 <= i < replay(buf, layout).len() ==> layout.stored(#[trigger] replay(buf, layout)[i])
            == replay(buf, layout)[i],
    decreases buf.len(),
{
    let n = first_index(buf, NEWLINE);
    lemma_first_index(buf, NEWLINE);
    if 0 <= n < buf.len() && parse_line(buf.take(n), layout) is Some {
        let line = buf.take(n);
        let first = parse_line(line, layout).unwrap();
        let rest = replay(buf.skip(n + 1), layout);
        lemma_replay_stored(buf.skip(n + 1), layout);
        lemma_first_index(line, COMMA);
        assert(key_ok(first.key));
        assert forall|i: int| 0 <= i < replay(buf, layout).len() implies key_ok(
            #[trigger] replay(buf, layout)[i].key,
        ) && layout.stored(replay(buf, layout)[i]) == replay(buf, layout)[i] by {
            if i > 0 {
                assert(replay(buf, layout)[i] == rest[i - 1]);
            }
        }
    }
}

/// Writes the line of a record at the end of `out`.
pub fn write_line(out: &mut Vec<u8>, key: &[u8], index: &KeyIndex, layout: &Layout)
    ensures
        final(out)@ == old(out)@ + encode_line(Entry { key: key@, index: *index }, *layout),
{
    let ghost before = out@;
    let ghost e = Entry { key: key@, index: *index };
    push_all(out, key);
    out.push(COMMA);
    match layout {
        Layout::KeySize => {},
        Layout::KeyOffsetSize => {
            let offset = encode_usize(index.offset);
            push_all(out, offset.as_slice());
            out.push(COMMA);
        },
    }
    let size = encode_usize(index.size);
    push_all(out, size.as_slice());
    out.push(NEWLINE);
    assert(out@ =~= before + encode_line(e, *layout));
}

/// Appends the bytes of `data` to `out`.
pub fn push_all(out: &mut Vec<u8>, data: &[u8])
    ensures
        final(out)@ == old(out)@ + data@,
{
    let mut i: usize = 0;
    while i < data.len()
        invariant
            i <= data.len(),
            out@ == old(out)@ + data@.take(i as int),
        decreases data.len() - i,
    {
        out.push(data[i]);
        i += 1;
    }
}

/// Reads the record of a line (without its newline).
pub fn read_line(line: &[u8], layout: &Layout) -> (r: Option<Record>)
    ensures
        match r {
            Some(record) => parse_line(line@, *layout) == Some(record@),
            None => parse_line(line@, *layout) is None,
        },
{
    assert(line@.skip(0) =~= line@);
    let c = find_byte(line, 0, COMMA);
    if c >= line.len() {
        return None;
    }
    let key = copy_range(line, 0, c);
    let rest = slice_subrange(line, c + 1, line.len());
    match layout {
        Layout::KeySize => match parse_usize(rest) {
            Some(size) => Some(Record { key, index: KeyIndex { offset: 0, size } }),
            None => None,
        },
        Layout::KeyOffsetSize => {
            assert(rest@.skip(0) =~= rest@);
            let d = find_byte(rest, 0, COMMA);
            if d >= rest.len() {
                return None;
            }
            let first = slice_subrange(rest, 0, d);
            let second = slice_subrange(rest, d + 1, rest.len());
            match (parse_usize(first), parse_usize(second)) {
                (Some(offset), Some(size)) => Some(Record { key, index: KeyIndex { offset, size } }),
                _ => None,
            }
        },
    }
}

/// Replays an index file: its records in order, and the number of bytes they were read
/// from. What follows those bytes is a line that holds no record, or the unfinished end of
/// an interrupted write.
pub fn read_records(buf: &[u8], layout: &Layout) -> (r: (Vec<Record>, usize))
    ensures
        entries_of(r.0@) == replay(buf@, *layout),
        r.1 == replay_len(buf@, *layout),
        r.1 <= buf.len(),
{
    let mut out: Vec<Record> = Vec::new();
    let mut pos: usize = 0;
    let mut done = false;
    assert(buf@.skip(0) =~= buf@);
    while !done
        invariant
            pos <= buf.len(),
            replay(buf@, *layout) == entries_of(out@) + replay(buf@.skip(pos as int), *layout),
            replay_len(buf@, *layout) == pos + replay_len(buf@.skip(pos as int), *layout),
            done ==> replay(buf@.skip(pos as int), *layout).len() == 0 && replay_len(
                buf@.skip(pos as int),
                *layout,
            ) == 0,
        decreases buf.len() - pos + if done { 0int } else { 1int },
    {
        let ghost tail = buf@.skip(pos as int);
        let end = find_byte(buf, pos, NEWLINE);
        if end >= buf.len() {
            done = true;
        } else {
            let line = slice_subrange(buf, pos, end);
            assert(line@ =~= tail.take(end - pos));
            match read_line(line, layout) {
                None => {
                    done = true;
                },
                Some(record) => {
                    proof {
                        assert(tail.skip(end - pos + 1) =~= buf@.skip(end + 1));
                        assert(entries_of(out@).push(record@) + replay(buf@.skip(end + 1), *layout)
                            =~= entries_of(out@) + replay(tail, *layout));
                    }
                    out.push(record);
                    pos = end + 1;
                },
            }
        }
    }
    proof {
        assert(entries_of(out@) + replay(buf@.skip(pos as int), *layout) =~= entries_of(out@));
    }
    (out, pos)
}

} // verus!
