//! Reading a record file back: one record per line, up to the first line
//! that holds none.
//!
//! A line is read without the white space characters at its start and at
//! its end. White space is what Unicode calls so, in UTF-8: six characters
//! of one byte, two of two bytes and seventeen of three.

use crate::document::{lemma_parse_slice, parse, put, Document};
use crate::index::DocumentIndex;
use crate::layout::NEWLINE;
use vstd::prelude::*;
use vstd::slice::slice_subrange;

verus! {

/// Whether a byte is a white space character of its own: a space, or one
/// of tab, line feed, vertical tab, form feed and carriage return.
pub open spec fn is_blank(byte: u8) -> bool {
    byte == 32 || 9 <= byte <= 13
}

/// Whether two bytes are a white space character in UTF-8: the next line
/// mark or the no-break space.
pub open spec fn is_blank_pair(first: u8, second: u8) -> bool {
    first == 0xC2 && (second == 0x85 || second == 0xA0)
}

/// Whether three bytes are a white space character in UTF-8: the ogham
/// space mark, one of the spaces from the en quad to the hair space, the
/// line or the paragraph separator, the narrow no-break space, the medium
/// mathematical space or the ideographic space.
pub open spec fn is_blank_triple(first: u8, second: u8, third: u8) -> bool {
    ||| first == 0xE1 && second == 0x9A && third == 0x80
    ||| first == 0xE2 && second == 0x80 && (0x80 <= third <= 0x8A || third == 0xA8 || third == 0xA9 || third
        == 0xAF)
    ||| first == 0xE2 && second == 0x81 && third == 0x9F
    ||| first == 0xE3 && second == 0x80 && third == 0x80
}

/// The number of bytes of the white space character with which `from..to`
/// starts, or zero where it starts with none.
pub open spec fn blank_at_start(bytes: Seq<u8>, from: int, to: int) -> int {
    if from < to && is_blank(bytes[from]) {
        1
    } else if from + 1 < to && is_blank_pair(bytes[from], bytes[from + 1]) {
        2
    } else if from + 2 < to && is_blank_triple(bytes[from], bytes[from + 1], bytes[from + 2]) {
        3
    } else {
        0
    }
}

/// The number of bytes of the white space character with which `from..to`
/// ends, or zero where it ends with none.
pub open spec fn blank_at_end(bytes: Seq<u8>, from: int, to: int) -> int {
    if from < to && is_blank(bytes[to - 1]) {
        1
    } else if from + 1 < to && is_blank_pair(bytes[to - 2], bytes[to - 1]) {
        2
    } else if from + 2 < to && is_blank_triple(bytes[to - 3], bytes[to - 2], bytes[to - 1]) {
        3
    } else {
        0
    }
}

/// Where the line that starts at `from` ends: at the first newline from
/// there on, or at the end of `bytes`.
pub open spec fn line_end(bytes: Seq<u8>, from: int) -> int
    decreases bytes.len() - from,
{
    if 0 <= from < bytes.len() && bytes[from] != NEWLINE {
        line_end(bytes, from + 1)
    } else {
        from
    }
}

/// The first position in `from..to` at which no white space character
/// starts, or `to`.
pub open spec fn skip_blank(bytes: Seq<u8>, from: int, to: int) -> int
    decreases to - from,
{
    if 0 <= from <= to <= bytes.len() && blank_at_start(bytes, from, to) > 0 {
        skip_blank(bytes, from + blank_at_start(bytes, from, to), to)
    } else {
        from
    }
}

/// The end of `from..to` once the white space characters at its end are
/// left off.
pub open spec fn drop_blank(bytes: Seq<u8>, from: int, to: int) -> int
    decreases to - from,
{
    if 0 <= from <= to <= bytes.len() && blank_at_end(bytes, from, to) > 0 {
        drop_blank(bytes, from, to - blank_at_end(bytes, from, to))
    } else {
        to
    }
}

/// The record on the line `from..to`: the line without the white space
/// characters at its start and at its end.
pub open spec fn record_on_line(bytes: Seq<u8>, from: int, to: int) -> Seq<u8> {
    let start = skip_blank(bytes, from, to);
    bytes.subrange(start, drop_blank(bytes, start, to))
}

/// The documents after the lines of `bytes` from `from` on have been read
/// into `docs`.
///
/// Each line gives one document, which takes the place of its key or the
/// next place. Reading stops for good at the first line that is blank or
/// is no serialized document, whatever follows it.
pub open spec fn loaded<T: Document<T>>(docs: Seq<T>, bytes: Seq<u8>, from: int) -> Seq<T>
    decreases bytes.len() - from,
{
    let end = line_end(bytes, from);
    let record = record_on_line(bytes, from, end);
    if !(0 <= from <= bytes.len()) || record.len() == 0 {
        docs
    } else {
        match parse::<T>(record) {
            None => docs,
            Some(doc) => if from <= end < bytes.len() {
                loaded(put(docs, doc), bytes, end + 1)
            } else {
                put(docs, doc)
            },
        }
    }
}

/// Whether a byte is a white space character of its own.
fn blank(byte: u8) -> (b: bool)
    ensures
        b == is_blank(byte),
{
    byte == 32 || (9 <= byte && byte <= 13)
}

/// Whether two bytes are a white space character.
fn blank_pair(first: u8, second: u8) -> (b: bool)
    ensures
        b == is_blank_pair(first, second),
{
    first == 0xC2 && (second == 0x85 || second == 0xA0)
}

/// Whether three bytes are a white space character.
fn blank_triple(first: u8, second: u8, third: u8) -> (b: bool)
    ensures
        b == is_blank_triple(first, second, third),
{
    (first == 0xE1 && second == 0x9A && third == 0x80) || (first == 0xE2 && second == 0x80 && ((0x80 <= third
        && third <= 0x8A) || third == 0xA8 || third == 0xA9 || third == 0xAF)) || (first == 0xE2 && second
        == 0x81 && third == 0x9F) || (first == 0xE3 && second == 0x80 && third == 0x80)
}

/// The number of bytes of the white space character with which `from..to`
/// starts.
fn blank_start(bytes: &[u8], from: usize, to: usize) -> (n: usize)
    requires
        from <= to <= bytes@.len(),
    ensures
        n == blank_at_start(bytes@, from as int, to as int),
        n <= to - from,
{
    if from < to && blank(bytes[from]) {
        1
    } else if to - from > 1 && blank_pair(bytes[from], bytes[from + 1]) {
        2
    } else if to - from > 2 && blank_triple(bytes[from], bytes[from + 1], bytes[from + 2]) {
        3
    } else {
        0
    }
}

/// The number of bytes of the white space character with which `from..to`
/// ends.
fn blank_end(bytes: &[u8], from: usize, to: usize) -> (n: usize)
    requires
        from <= to <= bytes@.len(),
    ensures
        n == blank_at_end(bytes@, from as int, to as int),
        n <= to - from,
{
    if from < to && blank(bytes[to - 1]) {
        1
    } else if to - from > 1 && blank_pair(bytes[to - 2], bytes[to - 1]) {
        2
    } else if to - from > 2 && blank_triple(bytes[to - 3], bytes[to - 2], bytes[to - 1]) {
        3
    } else {
        0
    }
}

/// Reads the lines of `bytes` into `index`, up to the first line that is
/// blank or is no serialized document.
pub fn load_records<T: Document<T>>(index: &mut DocumentIndex<T>, bytes: &[u8])
    requires
        old(index).wf(),
    ensures
        final(index).wf(),
        final(index)@ == loaded(old(index)@, bytes@, 0),
{
    let mut from: usize = 0;
    loop
        invariant_except_break
            loaded(old(index)@, bytes@, 0) == loaded(index@, bytes@, from as int),
        invariant
            index.wf(),
            from <= bytes@.len(),
        ensures
            index.wf(),
            index@ == loaded(old(index)@, bytes@, 0),
        decreases bytes@.len() - from,
    {
        let mut end: usize = from;
        while end < bytes.len() && bytes[end] != NEWLINE
            invariant
                from <= end <= bytes@.len(),
                line_end(bytes@, from as int) == line_end(bytes@, end as int),
            decreases bytes@.len() - end,
        {
            end = end + 1;
        }
        let mut start: usize = from;
        let mut blanks = blank_start(bytes, start, end);
        while blanks > 0
            invariant
                from <= start <= end <= bytes@.len(),
                blanks == blank_at_start(bytes@, start as int, end as int),
                skip_blank(bytes@, from as int, end as int) == skip_blank(bytes@, start as int, end as int),
            decreases end - start,
        {
            start = start + blanks;
            blanks = blank_start(bytes, start, end);
        }
        let mut stop: usize = end;
        let mut blanks = blank_end(bytes, start, stop);
        while blanks > 0
            invariant
                start <= stop <= end <= bytes@.len(),
                blanks == blank_at_end(bytes@, start as int, stop as int),
                drop_blank(bytes@, start as int, end as int) == drop_blank(bytes@, start as int, stop as int),
            decreases stop - start,
        {
            stop = stop - blanks;
            blanks = blank_end(bytes, start, stop);
        }
        assert(end == line_end(bytes@, from as int));
        assert(start == skip_blank(bytes@, from as int, end as int));
        assert(stop == drop_blank(bytes@, start as int, end as int));
        if start == stop {
            break ;
        }
        let record = slice_subrange(bytes, start, stop);
        proof {
            lemma_parse_slice::<T>(record);
        }
        match T::from_json(record) {
            None => {
                break ;
            },
            Some(doc) => {
                proof {
                    index.lemma_distinct();
                }
                index.insert(doc);
                if end < bytes.len() {
                    from = end + 1;
                } else {
                    break ;
                }
            },
        }
    }
}

} // verus!
