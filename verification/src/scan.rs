//! Record scanning: delimiting lines and fields in a byte buffer.
//!
//! A buffer holds records as lines separated by a line-break byte; within
//! a line, the first field-delimiter byte separates the key from the
//! value. The model here defines the sequence of lines of a buffer, the
//! key and value of a line, and proves that a buffer splits, at any point
//! just after a line break, into two buffers whose line sequences
//! concatenate to the whole — the fact that makes line-aligned
//! partitioning lose or duplicate no record.

use crate::decode::decoded_value;
use crate::decode::is_valid_value;
use vstd::prelude::*;

verus! {

/// Field delimiter byte (';').
pub const BSEMI: u8 = 59;

/// Line break byte ('\n').
pub const BNL: u8 = 10;

/// Index of the first occurrence of `b` in `s` at or after `i`, or
/// `s.len()` when there is none.
pub open spec fn find_from(s: Seq<u8>, b: u8, i: int) -> int
    decreases s.len() - i,
{
    if i < 0 || i >= s.len() {
        s.len() as int
    } else if s[i] == b {
        i
    } else {
        find_from(s, b, i + 1)
    }
}

/// `find_from` stays in range, lands on an occurrence unless there is
/// none, and skips no occurrence.
pub proof fn lemma_find_from_props(s: Seq<u8>, b: u8, i: int)
    requires
        0 <= i <= s.len(),
    ensures
        i <= find_from(s, b, i) <= s.len(),
        find_from(s, b, i) < s.len() ==> s[find_from(s, b, i)] == b,
        forall|j: int| i <= j < find_from(s, b, i) ==> s[j] != b,
    decreases s.len() - i,
{
    if i < s.len() && s[i] != b {
        lemma_find_from_props(s, b, i + 1);
    }
}

/// A position with no occurrence before it, holding an occurrence or
/// ending the sequence, is exactly what `find_from` returns.
pub proof fn lemma_find_from_char(s: Seq<u8>, b: u8, i: int, e: int)
    requires
        0 <= i <= e <= s.len(),
        forall|j: int| i <= j < e ==> s[j] != b,
        e == s.len() || s[e] == b,
    ensures
        find_from(s, b, i) == e,
    decreases e - i,
{
    if i < e {
        lemma_find_from_char(s, b, i + 1, e);
    }
}

/// Index of the first occurrence of `b` in `s` at or after `from`, or
/// `s.len()` when there is none.
pub fn find_byte(s: &[u8], from: usize, b: u8) -> (r: usize)
    requires
        from <= s@.len(),
    ensures
        r == find_from(s@, b, from as int),
{
    let n = s.len();
    let mut i = from;
    while i < n
        invariant
            from <= i <= n,
            n == s@.len(),
            forall|j: int| from <= j < i ==> s@[j] != b,
        decreases n - i,
    {
        if s[i] == b {
            proof {
                lemma_find_from_char(s@, b, from as int, i as int);
            }
            return i;
        }
        i = i + 1;
    }
    proof {
        lemma_find_from_char(s@, b, from as int, n as int);
    }
    n
}

/// The lines of `buf` from position `pos` on: each line runs to the next
/// line break (excluded) or to the end of the buffer; a trailing line
/// break ends the last line and opens no further one.
pub open spec fn lines_from(buf: Seq<u8>, pos: int) -> Seq<Seq<u8>>
    decreases buf.len() - pos via lines_from_decreases
{
    if pos < 0 || pos >= buf.len() {
        Seq::empty()
    } else {
        let e = find_from(buf, BNL, pos);
        let nxt = if e < buf.len() {
            e + 1
        } else {
            e
        };
        seq![buf.subrange(pos, e)] + lines_from(buf, nxt)
    }
}

#[via_fn]
proof fn lines_from_decreases(buf: Seq<u8>, pos: int) {
    if 0 <= pos < buf.len() {
        lemma_find_from_props(buf, BNL, pos);
    }
}

/// The lines of a whole buffer.
pub open spec fn lines_of(buf: Seq<u8>) -> Seq<Seq<u8>> {
    lines_from(buf, 0)
}

/// There are no more lines than bytes.
pub proof fn lemma_lines_from_count(buf: Seq<u8>, pos: int)
    requires
        0 <= pos <= buf.len(),
    ensures
        lines_from(buf, pos).len() <= buf.len() - pos,
    decreases buf.len() - pos,
{
    if pos < buf.len() {
        lemma_find_from_props(buf, BNL, pos);
        let e = find_from(buf, BNL, pos);
        let nxt = if e < buf.len() {
            e + 1
        } else {
            e
        };
        if pos < nxt <= buf.len() {
            lemma_lines_from_count(buf, nxt);
        }
    }
}

/// The lines from a position are the lines of the suffix that starts
/// there.
pub proof fn lemma_lines_shift(buf: Seq<u8>, k: int, pos: int)
    requires
        0 <= k <= pos <= buf.len(),
    ensures
        lines_from(buf, pos) == lines_from(buf.subrange(k, buf.len() as int), pos - k),
    decreases buf.len() - pos,
{
    let sub = buf.subrange(k, buf.len() as int);
    if pos >= buf.len() {
    } else {
        lemma_find_from_props(buf, BNL, pos);
        let e = find_from(buf, BNL, pos);
        assert forall|j: int| pos - k <= j < e - k implies sub[j] != BNL by {
            assert(sub[j] == buf[j + k]);
        }
        lemma_find_from_char(sub, BNL, pos - k, e - k);
        assert(buf.subrange(pos, e) =~= sub.subrange(pos - k, e - k));
        let nxt = if e < buf.len() {
            e + 1
        } else {
            e
        };
        lemma_lines_shift(buf, k, nxt);
    }
}

/// Before a point that follows a line break, the lines of the buffer are
/// the lines of the prefix up to that point, then the lines from it.
pub proof fn lemma_lines_prefix(buf: Seq<u8>, k: int, pos: int)
    requires
        0 <= pos <= k <= buf.len(),
        1 <= k,
        buf[k - 1] == BNL,
    ensures
        lines_from(buf, pos) == lines_from(buf.subrange(0, k), pos) + lines_from(buf, k),
    decreases k - pos,
{
    let pre = buf.subrange(0, k);
    if pos == k {
        assert(lines_from(pre, pos) + lines_from(buf, k) =~= lines_from(buf, k));
    } else {
        lemma_find_from_props(buf, BNL, pos);
        let e = find_from(buf, BNL, pos);
        assert(e <= k - 1) by {
            if e > k - 1 {
                assert(buf[k - 1] != BNL);
            }
        }
        let nxt = e + 1;
        lemma_find_from_char(pre, BNL, pos, e);
        assert(buf.subrange(pos, e) =~= pre.subrange(pos, e));
        lemma_lines_prefix(buf, k, nxt);
        assert(seq![pre.subrange(pos, e)] + (lines_from(pre, nxt) + lines_from(buf, k))
            =~= (seq![pre.subrange(pos, e)] + lines_from(pre, nxt)) + lines_from(buf, k));
    }
}

/// Splitting a buffer just after a line break splits its line sequence:
/// every line lands in exactly one part, none is cut or counted twice.
pub proof fn lemma_lines_split(buf: Seq<u8>, k: int)
    requires
        0 < k <= buf.len(),
        buf[k - 1] == BNL,
    ensures
        lines_of(buf) == lines_of(buf.subrange(0, k)) + lines_of(
            buf.subrange(k, buf.len() as int),
        ),
{
    lemma_lines_prefix(buf, k, 0);
    lemma_lines_shift(buf, k, k);
}

/// The key field of a line: the bytes before the first field delimiter,
/// or the whole line when there is none.
pub open spec fn key_of(line: Seq<u8>) -> Seq<u8> {
    line.subrange(0, find_from(line, BSEMI, 0))
}

/// The value field of a line: the bytes after the first field delimiter.
pub open spec fn raw_value_of(line: Seq<u8>) -> Seq<u8> {
    let s = find_from(line, BSEMI, 0);
    if s < line.len() {
        line.subrange(s + 1, line.len() as int)
    } else {
        Seq::empty()
    }
}

/// The line holds a field delimiter and its value matches the grammar.
pub open spec fn line_valid(line: Seq<u8>) -> bool {
    find_from(line, BSEMI, 0) < line.len() && is_valid_value(raw_value_of(line))
}

/// The record a line denotes: its key and its decoded value.
pub open spec fn line_record(line: Seq<u8>) -> (Seq<u8>, int) {
    (key_of(line), decoded_value(raw_value_of(line)))
}

/// Every line of the buffer is a valid record.
pub open spec fn well_formed(buf: Seq<u8>) -> bool {
    forall|i: int| 0 <= i < lines_of(buf).len() ==> line_valid(#[trigger] lines_of(buf)[i])
}

/// The records of a buffer, with decoded values, in line order.
pub open spec fn decoded_records(buf: Seq<u8>) -> Seq<(Seq<u8>, int)> {
    lines_of(buf).map_values(|l: Seq<u8>| line_record(l))
}

/// Splitting just after a line break splits the record sequence too.
pub proof fn lemma_records_split(buf: Seq<u8>, k: int)
    requires
        0 < k <= buf.len(),
        buf[k - 1] == BNL,
    ensures
        decoded_records(buf) == decoded_records(buf.subrange(0, k)) + decoded_records(
            buf.subrange(k, buf.len() as int),
        ),
{
    lemma_lines_split(buf, k);
    assert(decoded_records(buf) =~= decoded_records(buf.subrange(0, k)) + decoded_records(
        buf.subrange(k, buf.len() as int),
    ));
}

} // verus!
