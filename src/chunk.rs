use vstd::prelude::*;

use crate::line_split::lemma_split_nonempty;
use crate::line_index::{NEWLINE, file_lines, line_text, line_window, texts, window_len, LineIndex};

verus! {

/// One page of lines read from an indexed file, with the cursor for the
/// next page.
pub struct ChunkResponse {
    /// The lines of the page, in file order.
    pub lines: Vec<String>,
    /// Where the next page starts: the requested offset plus the number of
    /// lines returned.
    pub offset: usize,
    /// Whether lines remain after this page.
    pub has_more: bool,
}

/// The number of lines of a file with bytes `b`.
pub open spec fn line_total(b: Seq<u8>) -> int {
    file_lines(b).len() as int
}

/// The cursor after reading `count` lines from `offset`.
pub open spec fn next_offset(b: Seq<u8>, offset: int, count: int) -> int {
    offset + window_len(offset, count, line_total(b))
}

/// The texts of every line of a file, from `from` to its end.
pub open spec fn texts_from(b: Seq<u8>, from: int) -> Seq<Seq<char>> {
    Seq::new((line_total(b) - from) as nat, |k: int| line_text(b, from + k))
}

/// What a reader collects who starts at `offset` and asks for `count` lines
/// at a time, each time from the cursor the last page returned, until a page
/// says that nothing remains.
pub open spec fn drained(b: Seq<u8>, offset: int, count: int) -> Seq<Seq<char>>
    decreases line_total(b) - offset,
{
    let page = line_window(b, offset, count);
    let next = next_offset(b, offset, count);
    if count > 0 && offset >= 0 && next < line_total(b) {
        page + drained(b, next, count)
    } else {
        page
    }
}

/// Read one page of `count` lines from line `offset` of an indexed file.
/// A page past the end of the file is empty and says that nothing remains.
pub fn read_chunk(index: &LineIndex, offset: usize, count: usize) -> (r: ChunkResponse)
    requires
        index.wf(),
    ensures
        texts(r.lines@) == line_window(index.bytes(), offset as int, count as int),
        r.offset == next_offset(index.bytes(), offset as int, count as int),
        r.has_more == (r.offset < line_total(index.bytes())),
{
    let total = index.line_count();
    let lines = index.get_lines(offset, count);
    assert(texts(lines@).len() == lines@.len());
    let next = offset + lines.len();
    ChunkResponse { lines, offset: next, has_more: next < total }
}

/// Reading a file page by page, each page from the cursor the last one
/// returned, until a page says that nothing remains, yields every line from
/// the first offset on, in order, none twice and none left out; from offset
/// zero that is the whole file. Pages of no lines never advance, so `count`
/// is positive.
pub proof fn lemma_pages_cover_file(b: Seq<u8>, offset: int, count: int)
    requires
        count > 0,
        0 <= offset <= line_total(b),
    ensures
        drained(b, offset, count) == texts_from(b, offset),
    decreases line_total(b) - offset,
{
    let page = line_window(b, offset, count);
    let next = next_offset(b, offset, count);
    if next < line_total(b) {
        lemma_pages_cover_file(b, next, count);
        assert(page + texts_from(b, next) =~= texts_from(b, offset));
    } else {
        assert(page =~= texts_from(b, offset));
    }
}

/// The cursor after `j` pages of `count` lines, each read from the cursor
/// the last page returned, starting at `offset`.
pub open spec fn cursor_after(b: Seq<u8>, offset: int, count: int, j: nat) -> int
    decreases j,
{
    if j == 0 {
        offset
    } else {
        next_offset(b, cursor_after(b, offset, count, (j - 1) as nat), count)
    }
}

/// Reading from the first line, page `j` (counting from zero) ends its
/// cursor at `min((j + 1) * count, n)` for a file of `n` lines, and says
/// that more remain exactly while that is below `n`: the reader stops after
/// the page that reaches the last line, after ceil(n / count) pages. Pages
/// of no lines never advance, so `count` is positive.
pub proof fn lemma_page_cursors(b: Seq<u8>, count: int, j: nat)
    requires
        count > 0,
    ensures
        cursor_after(b, 0, count, j + 1) == if (j + 1) * count < line_total(b) {
            (j + 1) * count
        } else {
            line_total(b)
        },
        (cursor_after(b, 0, count, j + 1) < line_total(b)) == ((j + 1) * count < line_total(b)),
    decreases j,
{
    let n = line_total(b);
    assert((j + 1) * count == j * count + count) by (nonlinear_arith);
    assert(j * count >= 0) by (nonlinear_arith)
        requires
            count > 0,
    ;
    lemma_split_nonempty(b, NEWLINE);
    if j == 0 {
        assert(n >= 1);
        assert(j * count == 0) by (nonlinear_arith)
            requires
                j == 0,
        ;
        assert(cursor_after(b, 0, count, 0) == 0);
    } else {
        let jm = (j - 1) as nat;
        lemma_page_cursors(b, count, jm);
        assert(jm + 1 == j);
        assert((jm + 1) * count == j * count);
        assert(cursor_after(b, 0, count, jm + 1) == cursor_after(b, 0, count, j));
    }
    assert(cursor_after(b, 0, count, j) == if j * count < n {
        j * count
    } else {
        n
    });
}

} // verus!
