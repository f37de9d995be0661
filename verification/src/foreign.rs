//! The calls into other crates. Their contracts are taken on trust.

use vstd::prelude::*;

verus! {

/// The length of the first line of `bytes` with its `\n`; without a `\n`
/// all of `bytes` is the first line.
pub open spec fn first_line_len(bytes: Seq<u8>) -> int
    decreases bytes.len(),
{
    if bytes.len() == 0 {
        0
    } else if bytes[0] == 0x0a {
        1
    } else {
        1 + first_line_len(bytes.skip(1))
    }
}

/// A line without the `\n` or `\r\n` at its end, if it has one.
pub open spec fn without_terminator(line: Seq<u8>) -> Seq<u8> {
    if line.len() > 0 && line.last() == 0x0a {
        let cut = line.drop_last();
        if cut.len() > 0 && cut.last() == 0x0d {
            cut.drop_last()
        } else {
            cut
        }
    } else {
        line
    }
}

/// The lines of a byte string: it is cut after each `\n`, what is left after
/// the last `\n` is a line too unless it is empty, and each line comes
/// without its terminator.
pub open spec fn lines_of(bytes: Seq<u8>) -> Seq<Seq<u8>>
    decreases bytes.len(),
    via lines_of_decreases
{
    if bytes.len() == 0 {
        Seq::empty()
    } else {
        let n = first_line_len(bytes);
        seq![without_terminator(bytes.take(n))] + lines_of(bytes.skip(n))
    }
}

#[via_fn]
proof fn lines_of_decreases(bytes: Seq<u8>) {
    lemma_first_line_len(bytes);
}

/// The first line of a byte string that is not empty holds a byte at least,
/// and no more than there are.
pub proof fn lemma_first_line_len(bytes: Seq<u8>)
    ensures
        bytes.len() > 0 ==> 1 <= first_line_len(bytes) <= bytes.len(),
        bytes.len() == 0 ==> first_line_len(bytes) == 0,
    decreases bytes.len(),
{
    if bytes.len() > 0 && bytes[0] != 0x0a {
        lemma_first_line_len(bytes.skip(1));
    }
}

/// The contents of a list of byte buffers.
pub open spec fn line_views(lines: Seq<Vec<u8>>) -> Seq<Seq<u8>> {
    Seq::new(lines.len(), |i: int| lines[i]@)
}

/// Calls `bstr::ByteSlice::lines` and copies each line it yields, in order.
/// Trusted: that iterator cuts the bytes after each `\n`, yields what is left
/// after the last one unless that is empty, and takes a final `\n`, and then
/// a final `\r`, off each piece it yields.
#[verifier::external_body]
pub(crate) fn diff_lines(diff: &[u8]) -> (lines: Vec<Vec<u8>>)
    ensures
        line_views(lines@) == lines_of(diff@),
{
    bstr::ByteSlice::lines(diff).map(|line| line.to_vec()).collect()
}

/// Calls `uuid::Uuid::new_v4` and hands the identifier on as its 128-bit
/// number. It is drawn from the operating system's random source, so nothing
/// is claimed of its value; the call fails only where that source does.
#[verifier::external_body]
pub(crate) fn fresh_id() -> (id: u128) {
    uuid::Uuid::new_v4().as_u128()
}

/// Calls `itertools::Itertools::unique` on the values and counts what it
/// lets through. Trusted: every value passes once, at its first occurrence,
/// so the count is the number of different values.
#[verifier::external_body]
pub(crate) fn distinct_count(values: &Vec<u128>) -> (n: usize)
    ensures
        n == values@.to_set().len(),
{
    itertools::Itertools::unique(values.iter()).count()
}

} // verus!
