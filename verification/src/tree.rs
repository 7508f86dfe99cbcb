//! The raw listing of a dependency tree: its lines, and the key by which a
//! line is matched with a package record.
//!
//! The listing is read as bytes. Each line starts with a name and a version,
//! with one space between them; whatever follows on the line is ignored.

use vstd::prelude::*;
use vstd::slice::slice_subrange;
use vstd::utf8::encode_utf8;

verus! {

/// The byte that ends a line.
pub const NEWLINE: u8 = 0x0a;

/// The byte that may stand before [`NEWLINE`] and then belongs to the line's
/// end.
pub const RETURN: u8 = 0x0d;

/// The byte between the tokens of a line.
pub const SPACE: u8 = 0x20;

/// The byte that a version starts with where it is written beside a name: the
/// letter `v`.
pub const VERSION_MARKER: u8 = 0x76;

/// The index of the first `byte` in `text`, or the length of `text` where it
/// holds none.
pub open spec fn position(text: Seq<u8>, byte: u8) -> nat
    decreases text.len(),
{
    if text.len() == 0 || text[0] == byte {
        0
    } else {
        1 + position(text.drop_first(), byte)
    }
}

/// `position` is the one index up to which no `byte` stands and at which
/// `text` ends or holds `byte`.
pub proof fn lemma_position(text: Seq<u8>, byte: u8, at: int)
    requires
        0 <= at <= text.len(),
        forall|i: int| 0 <= i < at ==> text[i] != byte,
        at < text.len() ==> text[at] == byte,
    ensures
        position(text, byte) == at,
    decreases text.len(),
{
    if at > 0 {
        let rest = text.drop_first();
        lemma_position(rest, byte, at - 1);
    }
}

/// `line` without the [`RETURN`] at its end, if it ends with one.
pub open spec fn without_return(line: Seq<u8>) -> Seq<u8> {
    if line.len() > 0 && line.last() == RETURN {
        line.drop_last()
    } else {
        line
    }
}

/// The first line of `text`: what stands before the first [`NEWLINE`], less a
/// [`RETURN`] directly before it; all of `text` where it holds no
/// [`NEWLINE`].
pub open spec fn first_line(text: Seq<u8>) -> Seq<u8> {
    let end = position(text, NEWLINE);
    if end < text.len() {
        without_return(text.take(end as int))
    } else {
        text
    }
}

/// What follows the first line of `text` and the [`NEWLINE`] that ends it.
pub open spec fn after_first_line(text: Seq<u8>) -> Seq<u8> {
    let end = position(text, NEWLINE);
    if end < text.len() {
        text.skip(end as int + 1)
    } else {
        Seq::empty()
    }
}

/// The lines of `text`, in order. Text that ends with a [`NEWLINE`] has no
/// empty line after it.
pub open spec fn lines(text: Seq<u8>) -> Seq<Seq<u8>>
    decreases text.len(),
{
    if text.len() == 0 {
        Seq::empty()
    } else {
        seq![first_line(text)] + lines(after_first_line(text))
    }
}

/// The key that a line of the listing stands for: its first two tokens, one
/// after the other. A line without a space has fewer than two tokens and
/// stands for no key.
pub open spec fn key_of_line(line: Seq<u8>) -> Option<Seq<u8>> {
    let cut = position(line, SPACE);
    if cut < line.len() {
        let rest = line.skip(cut as int + 1);
        Some(line.take(cut as int) + rest.take(position(rest, SPACE) as int))
    } else {
        None
    }
}

/// The key of the package `name` in version `version`: the name, the
/// [`VERSION_MARKER`], and the version, as bytes.
pub open spec fn key_of(name: Seq<char>, version: Seq<char>) -> Seq<u8> {
    encode_utf8(name) + seq![VERSION_MARKER] + encode_utf8(version)
}

/// Finds the first `byte` in `text`.
pub fn find_byte(text: &[u8], byte: u8) -> (at: usize)
    ensures
        at == position(text@, byte),
        at <= text@.len(),
{
    let mut at: usize = 0;
    while at < text.len() && text[at] != byte
        invariant
            at <= text@.len(),
            forall|i: int| 0 <= i < at ==> text@[i] != byte,
        decreases text@.len() - at,
    {
        at += 1;
    }
    proof {
        lemma_position(text@, byte, at as int);
    }
    at
}

/// Splits `text` into its first line and what follows that line.
pub fn split_line(text: &[u8]) -> (parts: (&[u8], &[u8]))
    ensures
        parts.0@ == first_line(text@),
        parts.1@ == after_first_line(text@),
        text@.len() > 0 ==> parts.1@.len() < text@.len(),
{
    let end = find_byte(text, NEWLINE);
    if end < text.len() {
        let stop = if end > 0 && text[end - 1] == RETURN {
            end - 1
        } else {
            end
        };
        let line = slice_subrange(text, 0, stop);
        let rest = slice_subrange(text, end + 1, text.len());
        (line, rest)
    } else {
        let rest = slice_subrange(text, end, end);
        (text, rest)
    }
}

/// Appends the bytes of `more` to `bytes`.
fn append_bytes(bytes: &mut Vec<u8>, more: &[u8])
    ensures
        final(bytes)@ == old(bytes)@ + more@,
{
    let mut i: usize = 0;
    while i < more.len()
        invariant
            i <= more@.len(),
            bytes@ == old(bytes)@ + more@.take(i as int),
        decreases more@.len() - i,
    {
        bytes.push(more[i]);
        i += 1;
    }
}

/// The key that `line` stands for, if it has two tokens.
pub fn line_key(line: &[u8]) -> (key: Option<Vec<u8>>)
    ensures
        match key {
            Some(k) => key_of_line(line@) == Some(k@),
            None => key_of_line(line@) is None,
        },
{
    let cut = find_byte(line, SPACE);
    if cut < line.len() {
        let rest = slice_subrange(line, cut + 1, line.len());
        let stop = find_byte(rest, SPACE);
        let mut key: Vec<u8> = Vec::new();
        append_bytes(&mut key, slice_subrange(line, 0, cut));
        append_bytes(&mut key, slice_subrange(rest, 0, stop));
        Some(key)
    } else {
        None
    }
}

/// The key of the package `name` in version `version`.
pub fn correlation_key(name: &str, version: &str) -> (key: Vec<u8>)
    ensures
        key@ == key_of(name@, version@),
{
    let mut key: Vec<u8> = Vec::new();
    append_bytes(&mut key, name.as_bytes());
    key.push(VERSION_MARKER);
    append_bytes(&mut key, version.as_bytes());
    key
}

/// Whether `a` and `b` hold the same bytes.
pub fn same_bytes(a: &[u8], b: &[u8]) -> (same: bool)
    ensures
        same == (a@ == b@),
{
    if a.len() != b.len() {
        return false;
    }
    let mut i: usize = 0;
    while i < a.len()
        invariant
            i <= a@.len(),
            a@.len() == b@.len(),
            forall|j: int| 0 <= j < i ==> a@[j] == b@[j],
        decreases a@.len() - i,
    {
        if a[i] != b[i] {
            return false;
        }
        i += 1;
    }
    proof {
        assert(a@ =~= b@);
    }
    true
}

} // verus!
