//! Byte strings: searching for a delimiter, comparing keys, copying.

use vstd::prelude::*;

verus! {

/// Field separator of an index line.
pub const COMMA: u8 = 0x2C;

/// Record separator of the index file.
pub const NEWLINE: u8 = 0x0A;

/// Number of bytes of `s` that come before the first `b`; `s.len()` if `s` holds no `b`.
pub open spec fn first_index(s: Seq<u8>, b: u8) -> int
    decreases s.len(),
{
    if s.len() == 0 || s[0] == b {
        0
    } else {
        1 + first_index(s.skip(1), b)
    }
}

/// A key that can stand in an index line: it holds neither delimiter.
pub open spec fn key_ok(k: Seq<u8>) -> bool {
    forall|i: int| 0 <= i < k.len() ==> k[i] != COMMA && k[i] != NEWLINE
}

/// Byte-wise lexicographic order, strict: the first differing byte decides, and a proper
/// prefix comes before the longer string.
pub open spec fn lex_lt(a: Seq<u8>, b: Seq<u8>) -> bool
    decreases a.len(),
{
    if b.len() == 0 {
        false
    } else if a.len() == 0 {
        true
    } else if a[0] != b[0] {
        a[0] < b[0]
    } else {
        lex_lt(a.skip(1), b.skip(1))
    }
}

/// `n` zero bytes.
pub open spec fn zeros(n: nat) -> Seq<u8> {
    Seq::new(n, |i: int| 0u8)
}

/// No key comes before itself.
pub proof fn law_lex_irreflexive(a: Seq<u8>)
    ensures
        !lex_lt(a, a),
    decreases a.len(),
{
    if a.len() > 0 {
        law_lex_irreflexive(a.skip(1));
    }
}

/// The order is transitive.
pub proof fn law_lex_transitive(a: Seq<u8>, b: Seq<u8>, c: Seq<u8>)
    requires
        lex_lt(a, b),
        lex_lt(b, c),
    ensures
        lex_lt(a, c),
    decreases a.len(),
{
    if a.len() > 0 && a[0] == b[0] && b[0] == c[0] {
        law_lex_transitive(a.skip(1), b.skip(1), c.skip(1));
    }
}

/// The order is total: of two different keys one comes before the other.
pub proof fn law_lex_total(a: Seq<u8>, b: Seq<u8>)
    ensures
        a == b || lex_lt(a, b) || lex_lt(b, a),
    decreases a.len(),
{
    if a.len() > 0 && b.len() > 0 && a[0] == b[0] {
        law_lex_total(a.skip(1), b.skip(1));
        if a.skip(1) == b.skip(1) {
            assert forall|i: int| 0 <= i < a.len() implies a[i] == b[i] by {
                if i > 0 {
                    assert(a[i] == a.skip(1)[i - 1]);
                }
            }
            assert(a.len() == a.skip(1).len() + 1);
        }
    }
}

/// The position with no `b` before it, and a `b` at it unless it is the end, is `first_index`.
pub proof fn lemma_first_index_is(s: Seq<u8>, b: u8, p: int)
    requires
        0 <= p <= s.len(),
        forall|j: int| 0 <= j < p ==> s[j] != b,
        p < s.len() ==> s[p] == b,
    ensures
        first_index(s, b) == p,
    decreases p,
{
    if p > 0 {
        lemma_first_index_is(s.skip(1), b, p - 1);
    }
}

/// What `first_index` finds: a position within `s`, with no `b` before it and a `b` at it
/// unless it is the end.
pub proof fn lemma_first_index(s: Seq<u8>, b: u8)
    ensures
        0 <= first_index(s, b) <= s.len(),
        forall|j: int| 0 <= j < first_index(s, b) ==> s[j] != b,
        first_index(s, b) < s.len() ==> s[first_index(s, b)] == b,
    decreases s.len(),
{
    if s.len() > 0 && s[0] != b {
        let t = s.skip(1);
        lemma_first_index(t, b);
        assert forall|j: int| 0 <= j < first_index(s, b) implies s[j] != b by {
            if j > 0 {
                assert(s[j] == t[j - 1]);
            }
        }
    }
}

/// Position of the first `b` in `s` at or after `start`; `s.len()` if there is none.
pub fn find_byte(s: &[u8], start: usize, b: u8) -> (r: usize)
    requires
        start <= s.len(),
    ensures
        r == start + first_index(s@.skip(start as int), b),
        start <= r <= s.len(),
{
    let mut i: usize = start;
    while i < s.len() && s[i] != b
        invariant
            start <= i <= s.len(),
            forall|j: int| start <= j < i ==> s@[j] != b,
        decreases s.len() - i,
    {
        i += 1;
    }
    proof {
        lemma_first_index_is(s@.skip(start as int), b, i - start);
    }
    i
}

/// Whether two byte strings hold the same bytes.
pub fn same_bytes(a: &[u8], b: &[u8]) -> (r: bool)
    ensures
        r == (a@ == b@),
{
    if a.len() != b.len() {
        return false;
    }
    let mut i: usize = 0;
    while i < a.len()
        invariant
            a.len() == b.len(),
            i <= a.len(),
            forall|j: int| 0 <= j < i ==> a@[j] == b@[j],
        decreases a.len() - i,
    {
        if a[i] != b[i] {
            return false;
        }
        i += 1;
    }
    assert(a@ =~= b@);
    true
}

/// A copy of the bytes `s[from..to]`.
pub fn copy_range(s: &[u8], from: usize, to: usize) -> (r: Vec<u8>)
    requires
        from <= to <= s.len(),
    ensures
        r@ == s@.subrange(from as int, to as int),
{
    let mut out: Vec<u8> = Vec::new();
    let mut i: usize = from;
    while i < to
        invariant
            from <= i <= to <= s.len(),
            out@ == s@.subrange(from as int, i as int),
        decreases to - i,
    {
        out.push(s[i]);
        i += 1;
    }
    out
}

/// A copy of `v`.
pub fn clone_bytes(v: &Vec<u8>) -> (r: Vec<u8>)
    ensures
        r@ == v@,
{
    copy_range(v.as_slice(), 0, v.len())
}

/// Whether `k` holds neither delimiter.
pub fn is_key_ok(k: &[u8]) -> (r: bool)
    ensures
        r == key_ok(k@),
{
    let mut i: usize = 0;
    while i < k.len()
        invariant
            i <= k.len(),
            forall|j: int| 0 <= j < i ==> k@[j] != COMMA && k@[j] != NEWLINE,
        decreases k.len() - i,
    {
        if k[i] == COMMA || k[i] == NEWLINE {
            return false;
        }
        i += 1;
    }
    true
}

} // verus!
