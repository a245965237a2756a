use vstd::prelude::*;

use crate::line_split::{lemma_pieces_at_starts, piece_end, piece_starts, split_on};
use crate::text::{decode_lossy, lossy_text};

verus! {

#[verifier::external_type_specification]
#[verifier::external_body]
pub struct ExMmap(memmap2::Mmap);

/// The bytes that a read-only memory map shows. A map made with
/// `Mmap::map` shows its file as it was while the map is alive; that the
/// file is not changed meanwhile is what the caller of that (unsafe)
/// constructor vouches for.
pub uninterp spec fn mapped_bytes(m: memmap2::Mmap) -> Seq<u8>;

/// Relies on `Deref for memmap2::Mmap`: the whole mapping as one byte slice.
#[verifier::external_body]
fn mapped_slice(m: &memmap2::Mmap) -> (r: &[u8])
    ensures
        r@ == mapped_bytes(*m),
{
    std::ops::Deref::deref(m)
}

/// The newline byte.
pub const NEWLINE: u8 = 0x0a;

/// The carriage-return byte.
pub const CARRIAGE_RETURN: u8 = 0x0d;

/// The lines of a file: its bytes split at each newline. A file without a
/// final newline still has a last line, and an empty file has one empty line.
pub open spec fn file_lines(b: Seq<u8>) -> Seq<Seq<u8>> {
    split_on(b, NEWLINE)
}

/// A line without the carriage return that may stand before its newline.
pub open spec fn strip_cr(l: Seq<u8>) -> Seq<u8> {
    if l.len() > 0 && l.last() == CARRIAGE_RETURN {
        l.drop_last()
    } else {
        l
    }
}

/// The text of line `i` of a file, as handed to a reader.
pub open spec fn line_text(b: Seq<u8>, i: int) -> Seq<char> {
    lossy_text(strip_cr(file_lines(b)[i]))
}

/// How many lines a window of `count` lines from `start` holds in a file of
/// `total` lines: it stops at the end of the file.
pub open spec fn window_len(start: int, count: int, total: int) -> int {
    if start >= total {
        0
    } else if start + count > total {
        total - start
    } else {
        count
    }
}

/// The texts of the lines `start .. start + count` of a file, cut at its end.
pub open spec fn line_window(b: Seq<u8>, start: int, count: int) -> Seq<Seq<char>> {
    Seq::new(
        window_len(start, count, file_lines(b).len() as int) as nat,
        |k: int| line_text(b, start + k),
    )
}

/// The views of a sequence of strings.
pub open spec fn texts(v: Seq<String>) -> Seq<Seq<char>> {
    v.map_values(|s: String| s@)
}

/// An index of where each line of a memory-mapped file starts.
pub struct LineIndex {
    source: memmap2::Mmap,
    line_offsets: Vec<usize>,
}

impl LineIndex {
    /// The bytes of the indexed file.
    pub closed spec fn bytes(&self) -> Seq<u8> {
        mapped_bytes(self.source)
    }

    /// The recorded start of each line.
    pub closed spec fn offsets(&self) -> Seq<int> {
        self.line_offsets@.map_values(|o: usize| o as int)
    }

    /// The lines of the indexed file.
    pub open spec fn lines(&self) -> Seq<Seq<u8>> {
        file_lines(self.bytes())
    }

    /// Well-formed: the offsets recorded are zero and the position after
    /// each newline of the file, in order.
    pub open spec fn wf(&self) -> bool {
        self.offsets() == piece_starts(self.bytes(), NEWLINE)
    }

    /// Index the lines of a mapped file in one pass over its bytes.
    pub fn new(source: memmap2::Mmap) -> (r: Self)
        ensures
            r.wf(),
            r.bytes() == mapped_bytes(source),
    {
        let bytes = mapped_slice(&source);
        let n = bytes.len();
        let mut line_offsets: Vec<usize> = vec![0];
        let mut i: usize = 0;
        assert(bytes@.subrange(0, 0) =~= Seq::<u8>::empty());
        assert(line_offsets@.map_values(|o: usize| o as int) =~= seq![0int]);
        while i < n
            invariant
                i <= n,
                n == bytes@.len(),
                line_offsets@.map_values(|o: usize| o as int) == piece_starts(
                    bytes@.subrange(0, i as int),
                    NEWLINE,
                ),
            decreases n - i,
        {
            let ghost before = line_offsets@;
            assert(bytes@.subrange(0, i + 1).drop_last() =~= bytes@.subrange(0, i as int));
            if bytes[i] == NEWLINE {
                line_offsets.push(i + 1);
                assert(line_offsets@.map_values(|o: usize| o as int) =~= before.map_values(
                    |o: usize| o as int,
                ).push(i + 1));
            }
            i = i + 1;
        }
        assert(bytes@.subrange(0, n as int) =~= bytes@);
        LineIndex { source, line_offsets }
    }

    /// The number of lines in the file.
    pub fn line_count(&self) -> (r: usize)
        requires
            self.wf(),
        ensures
            r == self.lines().len(),
    {
        proof {
            lemma_pieces_at_starts(self.bytes(), NEWLINE);
        }
        self.line_offsets.len()
    }

    /// The texts of the lines `start .. start + count`, fewer where the file
    /// ends first and none where `start` is past its last line. Each line
    /// loses its newline and a carriage return before it; invalid UTF-8 is
    /// replaced, never refused.
    pub fn get_lines(&self, start: usize, count: usize) -> (r: Vec<String>)
        requires
            self.wf(),
        ensures
            texts(r@) == line_window(self.bytes(), start as int, count as int),
    {
        let ghost b = self.bytes();
        let ghost p = file_lines(b);
        let ghost st = piece_starts(b, NEWLINE);
        proof {
            lemma_pieces_at_starts(b, NEWLINE);
        }
        let total = self.line_offsets.len();
        let end: usize = if start >= total {
            start
        } else if count > total - start {
            total
        } else {
            start + count
        };
        let bytes = mapped_slice(&self.source);
        let mut result: Vec<String> = Vec::new();
        let mut i: usize = start;
        while i < end
            invariant
                start <= i <= end,
                i < end ==> end <= total,
                end == start + window_len(start as int, count as int, total as int),
                total == st.len(),
                total == p.len(),
                bytes@ == b,
                self.wf(),
                b == self.bytes(),
                p == file_lines(b),
                st == piece_starts(b, NEWLINE),
                result@.len() == i - start,
                forall|k: int| 0 <= k < result@.len() ==> #[trigger] result@[k]@ == line_text(b, start + k),
            decreases end - i,
        {
            proof {
                lemma_pieces_at_starts(b, NEWLINE);
            }
            assert(self.offsets()[i as int] == st[i as int]);
            let sb = self.line_offsets[i];
            let mut eb: usize = if i + 1 < total {
                assert(self.offsets()[i + 1] == st[i + 1]);
                self.line_offsets[i + 1]
            } else {
                bytes.len()
            };
            assert(eb as int == piece_end(b, NEWLINE, i as int) + if i + 1 < total { 1int } else { 0int });
            if eb > sb && bytes[eb - 1] == NEWLINE {
                eb = eb - 1;
            } else {
                if i + 1 >= total && eb > sb {
                    assert(p[i as int][eb - 1 - sb] == b[eb - 1]);
                }
            }
            assert(eb as int == piece_end(b, NEWLINE, i as int));
            assert(bytes@.subrange(sb as int, eb as int) == p[i as int]);
            if eb > sb && bytes[eb - 1] == CARRIAGE_RETURN {
                eb = eb - 1;
                assert(bytes@.subrange(sb as int, eb as int) =~= p[i as int].drop_last());
            }
            assert(bytes@.subrange(sb as int, eb as int) == strip_cr(p[i as int]));
            let line = decode_lossy(&bytes[sb..eb]);
            result.push(line);
            i = i + 1;
        }
        assert(texts(result@) =~= line_window(b, start as int, count as int));
        result
    }
}

/// Reading the single line `i` gives exactly piece `i` of the file's bytes
/// split at each newline, less a carriage return before the newline.
pub proof fn lemma_single_line(b: Seq<u8>, i: int)
    requires
        0 <= i < file_lines(b).len(),
    ensures
        line_window(b, i, 1) == seq![lossy_text(strip_cr(split_on(b, NEWLINE)[i]))],
{
    assert(line_window(b, i, 1) =~= seq![lossy_text(strip_cr(split_on(b, NEWLINE)[i]))]);
}

/// The offsets of a well-formed index delimit the lines: line `i` is the
/// stretch of bytes from offset `i` up to the newline before offset `i + 1`,
/// or up to the end of the file for the last line.
pub proof fn lemma_offsets_delimit_lines(index: &LineIndex, i: int)
    requires
        index.wf(),
        0 <= i < index.lines().len(),
    ensures
        index.offsets().len() == index.lines().len(),
        i + 1 < index.offsets().len() ==> index.lines()[i] == index.bytes().subrange(
            index.offsets()[i],
            index.offsets()[i + 1] - 1,
        ),
        i + 1 == index.offsets().len() ==> index.lines()[i] == index.bytes().subrange(
            index.offsets()[i],
            index.bytes().len() as int,
        ),
{
    lemma_pieces_at_starts(index.bytes(), NEWLINE);
}

/// Indexing is deterministic: two indexes of the same bytes, built one
/// after the other, record the same offsets.
pub proof fn lemma_same_bytes_same_offsets(a: &LineIndex, c: &LineIndex)
    requires
        a.wf(),
        c.wf(),
        a.bytes() == c.bytes(),
    ensures
        a.offsets() == c.offsets(),
{
}

/// An empty file has one line, and it is empty.
pub proof fn lemma_empty_file_one_line()
    ensures
        file_lines(Seq::<u8>::empty()) == seq![Seq::<u8>::empty()],
        line_window(Seq::<u8>::empty(), 0, 1) == seq![lossy_text(Seq::<u8>::empty())],
{
    assert(line_window(Seq::<u8>::empty(), 0, 1) =~= seq![lossy_text(Seq::<u8>::empty())]);
}

} // verus!
