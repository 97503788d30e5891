//! A file as the engines see it: a string of bytes that is read and written at a position
//! reached by a seek, and can be cut or extended to a length.

use vstd::prelude::*;
use crate::error::Error;
use crate::record::KeyIndex;

verus! {

/// Where a seek goes: so many bytes after the start of the file, or relative to its end.
#[derive(Clone, Copy, Debug, PartialEq, Eq, Structural)]
pub enum SeekFrom {
    Start(u64),
    End(i64),
}

impl SeekFrom {
    /// The position that the seek reaches in a file of `len` bytes.
    pub open spec fn position(self, len: int) -> int {
        match self {
            SeekFrom::Start(n) => n as int,
            SeekFrom::End(d) => len + d,
        }
    }

    /// A seek that a file of `len` bytes accepts: it reaches a position at or after the
    /// start that can be addressed.
    pub open spec fn accepted(self, len: int) -> bool {
        0 <= self.position(len) <= usize::MAX
    }
}

/// The seek that reaches `target` in a file of `end` bytes over the shorter distance: from
/// the start if the target is no farther from the start than from the end, else backwards
/// from the end. A target beyond the end is reached from the start.
pub fn seek_for(target: usize, end: usize) -> (at: SeekFrom)
    ensures
        at.position(end as int) == target,
        match at {
            SeekFrom::Start(n) => n == target && (target > end || target <= end - target),
            SeekFrom::End(d) => d == target - end && target <= end && target > end - target,
        },
{
    if target > end || target <= end - target {
        SeekFrom::Start(target as u64)
    } else {
        let back: usize = end - target;
        SeekFrom::End(-(back as i64))
    }
}

/// What a read of `size` bytes at `pos` gives: the bytes of the file there, and zero for
/// each byte that the file does not hold.
pub open spec fn read_at(file: Seq<u8>, pos: int, size: nat) -> Seq<u8> {
    Seq::new(size, |i: int| if 0 <= pos + i < file.len() { file[pos + i] } else { 0u8 })
}

/// The file after `data` was written at `pos`: the bytes there are replaced, the file grows
/// where the data goes beyond its end, and a gap between the old end and `pos` holds zeros.
pub open spec fn written(file: Seq<u8>, pos: int, data: Seq<u8>) -> Seq<u8> {
    let len = if pos + data.len() > file.len() { pos + data.len() } else { file.len() as int };
    Seq::new(
        len as nat,
        |i: int|
            if pos <= i < pos + data.len() {
                data[i - pos]
            } else if i < file.len() {
                file[i]
            } else {
                0u8
            },
    )
}

/// The file cut or extended to `len` bytes; what is added holds zeros.
pub open spec fn resized(file: Seq<u8>, len: nat) -> Seq<u8> {
    Seq::new(len, |i: int| if i < file.len() { file[i] } else { 0u8 })
}

/// `String::push_str`: appends `tail` to `s`.
#[verifier::external_body]
fn push_str(s: &mut String, tail: &str)
    ensures
        final(s)@ == old(s)@ + tail@,
{
    s.push_str(tail)
}

/// Name of the data file of the engine `name`: `{name}.kv`.
pub fn data_file_name(name: &str) -> (r: String)
    ensures
        r@ == name@ + ".kv"@,
{
    let mut r = name.to_owned();
    push_str(&mut r, ".kv");
    r
}

/// Name of the index file of the engine `name`: `{name}.idx`.
pub fn index_file_name(name: &str) -> (r: String)
    ensures
        r@ == name@ + ".idx"@,
{
    let mut r = name.to_owned();
    push_str(&mut r, ".idx");
    r
}

/// The bytes of the file that hold the value at `index`.
pub open spec fn value_at(file: Seq<u8>, index: KeyIndex) -> Seq<u8> {
    file.subrange(index.offset as int, index.end())
}

/// Where the two files of an engine first differ from what they held before an operation:
/// what lies before these positions is as it was. A position at the end of a file says
/// that the file did not change.
#[derive(Clone, Copy, Debug, PartialEq, Eq, Structural)]
pub struct Dirty {
    pub data_from: usize,
    pub index_from: usize,
}

/// The content of a file.
#[derive(Debug)]
pub struct FileImage {
    bytes: Vec<u8>,
}

impl View for FileImage {
    type V = Seq<u8>;

    closed spec fn view(&self) -> Seq<u8> {
        self.bytes@
    }
}

impl FileImage {
    pub fn new(bytes: Vec<u8>) -> (r: Self)
        ensures
            r@ == bytes@,
    {
        FileImage { bytes }
    }

    pub fn len(&self) -> (n: usize)
        ensures
            n == self@.len(),
    {
        self.bytes.len()
    }

    /// A file is no longer than can be addressed.
    pub proof fn lemma_len(&self)
        ensures
            self@.len() <= usize::MAX,
    {
        assert(self.bytes.len() == self.bytes@.len());
    }

    pub fn bytes(&self) -> (r: &Vec<u8>)
        ensures
            r@ == self@,
    {
        &self.bytes
    }

    /// The content, given up by the file.
    pub fn into_bytes(self) -> (r: Vec<u8>)
        ensures
            r@ == self@,
    {
        self.bytes
    }

    /// The position that a seek reaches; `InvalidInput` if the file does not accept it.
    pub fn seek(&self, at: SeekFrom) -> (r: Result<usize, Error>)
        ensures
            match r {
                Ok(pos) => at.accepted(self@.len() as int) && pos == at.position(self@.len() as int),
                Err(e) => !at.accepted(self@.len() as int) && e == Error::InvalidInput,
            },
    {
        let pos: i128 = match at {
            SeekFrom::Start(n) => n as i128,
            SeekFrom::End(d) => self.bytes.len() as i128 + d as i128,
        };
        if pos < 0 || pos > usize::MAX as i128 {
            Err(Error::InvalidInput)
        } else {
            Ok(pos as usize)
        }
    }

    /// Seeks, then reads `size` bytes.
    pub fn read(&self, at: SeekFrom, size: usize) -> (r: Result<Vec<u8>, Error>)
        ensures
            match r {
                Ok(data) => at.accepted(self@.len() as int) && data@ == read_at(
                    self@,
                    at.position(self@.len() as int),
                    size as nat,
                ),
                Err(e) => !at.accepted(self@.len() as int) && e == Error::InvalidInput,
            },
    {
        let pos = match self.seek(at) {
            Ok(pos) => pos,
            Err(e) => {
                return Err(e);
            },
        };
        let len = self.bytes.len();
        let mut out: Vec<u8> = Vec::new();
        let mut i: usize = 0;
        while i < size
            invariant
                i <= size,
                len == self.bytes@.len(),
                out@ == read_at(self.bytes@, pos as int, i as nat),
            decreases size - i,
        {
            let b: u8 = if pos < len && i < len - pos {
                self.bytes[pos + i]
            } else {
                0
            };
            out.push(b);
            i += 1;
        }
        Ok(out)
    }

    /// Seeks, then writes `data`. On `InvalidInput` the file is unchanged.
    pub fn write(&mut self, at: SeekFrom, data: &[u8]) -> (r: Result<(), Error>)
        ensures
            match r {
                Ok(()) => at.accepted(old(self)@.len() as int) && final(self)@ == written(
                    old(self)@,
                    at.position(old(self)@.len() as int),
                    data@,
                ),
                Err(e) => !at.accepted(old(self)@.len() as int) && e == Error::InvalidInput
                    && final(self)@ == old(self)@,
            },
    {
        let pos = match self.seek(at) {
            Ok(pos) => pos,
            Err(e) => {
                return Err(e);
            },
        };
        let ghost before = self.bytes@;
        while self.bytes.len() < pos
            invariant
                self.bytes@ == resized(before, self.bytes@.len()),
                before.len() <= self.bytes@.len(),
                self.bytes@.len() <= pos || self.bytes@.len() == before.len(),
            decreases pos - self.bytes@.len(),
        {
            self.bytes.push(0);
        }
        let mut i: usize = 0;
        while i < data.len()
            invariant
                i <= data.len(),
                pos <= self.bytes@.len(),
                self.bytes@ == written(before, pos as int, data@.take(i as int)),
            decreases data.len() - i,
        {
            if i < self.bytes.len() - pos {
                self.bytes.set(pos + i, data[i]);
            } else {
                self.bytes.push(data[i]);
            }
            i += 1;
        }
        Ok(())
    }

    /// Cuts or extends the file to `len` bytes.
    pub fn set_len(&mut self, len: usize)
        ensures
            final(self)@ == resized(old(self)@, len as nat),
    {
        let ghost before = self.bytes@;
        if len <= self.bytes.len() {
            self.bytes.truncate(len);
        } else {
            while self.bytes.len() < len
                invariant
                    self.bytes@ == resized(before, self.bytes@.len()),
                    before.len() <= self.bytes@.len() <= len,
                decreases len - self.bytes@.len(),
            {
                self.bytes.push(0);
            }
        }
    }
}

} // verus!
