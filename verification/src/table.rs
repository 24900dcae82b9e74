//! The piece table itself: an ordered sequence of pieces over the two
//! buffers, with character-addressed insertion, removal and reconstruction.

use crate::metric::{
    byte_len, lemma_byte_len_bounds, lemma_byte_len_concat, lemma_char_prefix_boundary,
    lemma_encode_injective, lemma_encode_subrange, lemma_split_exact, to_byte_offset, Utf8Metric,
};
use crate::piece::{
    all_wf, buf_of, byte_total, cat, char_total, lemma_all_wf_concat, lemma_all_wf_sub,
    lemma_cat_concat, lemma_cat_cut, lemma_cat_extend_added, lemma_cat_singleton,
    lemma_cat_take_skip, lemma_cat_take_succ, lemma_cat_totals, lemma_piece_extend_added,
    piece_chars, piece_wf, Location, Piece,
};
use vstd::prelude::*;
use vstd::string::{StrSliceExecFns, StringExecFns};
use vstd::utf8::*;

verus! {

/// A resolved edit location: which piece a character offset falls in, and how
/// far into that piece it lies, in both metrics.
#[derive(Debug, Clone, Copy)]
pub struct Cursor {
    pub table_idx: usize,
    pub inner_offset: Utf8Metric,
}

impl Cursor {
    pub fn new(table_idx: usize, inner_offset: Utf8Metric) -> (c: Cursor)
        ensures
            c.table_idx == table_idx,
            c.inner_offset == inner_offset,
    {
        Cursor { table_idx, inner_offset }
    }
}

/// A caller error: an offset past the end of the document, or a removal range
/// whose start lies after its end.
#[derive(Debug, Clone, Copy, PartialEq, Eq, Structural)]
pub enum EditError {
    OffsetOutOfRange,
    InvalidRange,
}

/// The piece table: a source buffer fixed at construction, an append-only
/// buffer of inserted text, and the ordered pieces whose concatenation is the
/// current document.
#[derive(Debug, Clone)]
pub struct PieceTable {
    src: String,
    added: String,
    table: Vec<Piece>,
}

impl View for PieceTable {
    type V = Seq<char>;

    /// The current document, as the sequence of its characters.
    closed spec fn view(&self) -> Seq<char> {
        cat(self.src@, self.added@, self.table@)
    }
}

impl PieceTable {
    /// The characters of the source buffer.
    pub closed spec fn src_chars(&self) -> Seq<char> {
        self.src@
    }

    /// The characters of the append-only buffer.
    pub closed spec fn added_chars(&self) -> Seq<char> {
        self.added@
    }

    /// The current piece sequence.
    pub closed spec fn spec_pieces(&self) -> Seq<Piece> {
        self.table@
    }

    /// Well-formedness: every piece describes a run that lies inside its
    /// buffer, with byte fields that agree with the buffer's UTF-8 encoding.
    pub open spec fn wf(&self) -> bool {
        all_wf(self.src_chars(), self.added_chars(), self.spec_pieces())
    }

    /// The characters of the piece at index `i`.
    pub open spec fn piece_chars_at(&self, i: int) -> Seq<char> {
        piece_chars(self.src_chars(), self.added_chars(), self.spec_pieces()[i])
    }

    /// The character length of the document read from the first `i` pieces.
    pub open spec fn prefix_len(&self, i: int) -> int {
        cat(self.src_chars(), self.added_chars(), self.spec_pieces().take(i)).len() as int
    }

    /// A cursor is consistent with this table: it points at a piece (or just
    /// past the last one), lies within that piece in characters, and its byte
    /// offset is the encoded length of the characters it skips.
    pub open spec fn cursor_ok(&self, cur: Cursor) -> bool {
        &&& cur.table_idx <= self.spec_pieces().len()
        &&& cur.table_idx < self.spec_pieces().len() ==> {
            &&& cur.inner_offset.utf8 <= self.spec_pieces()[cur.table_idx as int].len.utf8
            &&& cur.inner_offset.byte == byte_len(
                self.piece_chars_at(cur.table_idx as int).take(cur.inner_offset.utf8 as int),
            )
        }
        &&& cur.table_idx == self.spec_pieces().len() ==> cur.inner_offset.utf8 == 0
            && cur.inner_offset.byte == 0
    }

    /// The absolute character offset a cursor resolves.
    pub open spec fn cursor_offset(&self, cur: Cursor) -> int {
        self.prefix_len(cur.table_idx as int) + cur.inner_offset.utf8
    }

    /// A cursor is canonical when it points at the first piece that can hold
    /// its offset: every strictly earlier piece ends before the offset.
    pub open spec fn cursor_first_fit(&self, cur: Cursor) -> bool {
        forall|k: int|
            0 <= k < cur.table_idx ==> #[trigger] self.prefix_len(k + 1)
                < self.cursor_offset(cur)
    }

    /// A fresh table over `src`: one piece spanning the whole source buffer,
    /// and an empty added buffer.
    pub fn new(src: &str) -> (t: PieceTable)
        ensures
            t.wf(),
            t@ == src@,
            t.src_chars() == src@,
            t.added_chars() == Seq::<char>::empty(),
            t.spec_pieces().len() == 1,
            t.spec_pieces()[0].location is Original,
            t.spec_pieces()[0].begin.byte == 0,
            t.spec_pieces()[0].begin.utf8 == 0,
            t.spec_pieces()[0].len.utf8 == src@.len(),
            t.spec_pieces()[0].len.byte == byte_len(src@),
    {
        let len = Utf8Metric::from_str(src);
        let init = Piece::new(Utf8Metric::new(0, 0), len, Location::Original);
        let t = PieceTable { src: src.to_owned(), added: String::new(), table: vec![init] };
        proof {
            assert(src@.take(0) =~= Seq::<char>::empty());
            assert(encode_utf8(Seq::<char>::empty()) =~= Seq::<u8>::empty());
            assert(piece_chars(src@, t.added@, init) =~= src@);
            assert(t.table@ =~= seq![init]);
            lemma_cat_singleton(src@, t.added@, init);
        }
        t
    }

    /// The byte length of the named buffer.
    fn buf_byte_len(&self, location: Location) -> (n: usize)
        ensures
            n == byte_len(buf_of(self.src_chars(), self.added_chars(), location)),
    {
        match location {
            Location::Original => self.src.as_str().as_bytes().len(),
            Location::Added => self.added.as_str().as_bytes().len(),
        }
    }

    /// The piece a cursor points at.
    pub fn get_piece(&self, cur: &Cursor) -> (p: &Piece)
        requires
            cur.table_idx < self.spec_pieces().len(),
        ensures
            *p == self.spec_pieces()[cur.table_idx as int],
    {
        &self.table[cur.table_idx]
    }

    /// Resolve a character offset to a cursor: scan the pieces in order until
    /// one can hold the remaining offset, then measure the byte sub-offset by
    /// scanning that piece's characters. Returns `None` exactly when the
    /// offset exceeds the document's character length.
    pub fn find_offset(&self, unicode_offset: usize) -> (r: Option<Cursor>)
        requires
            self.wf(),
        ensures
            match r {
                Some(cur) => self.cursor_ok(cur) && self.cursor_offset(cur) == unicode_offset
                    && self.cursor_first_fit(cur) && unicode_offset <= self@.len(),
                None => unicode_offset > self@.len(),
            },
    {
        let mut remaining = unicode_offset;
        let mut idx: usize = 0;
        proof {
            assert(self.table@.take(0) =~= Seq::<Piece>::empty());
        }
        while idx < self.table.len()
            invariant
                self.wf(),
                idx <= self.table@.len(),
                remaining <= unicode_offset,
                self.prefix_len(idx as int) + remaining == unicode_offset,
                forall|k: int|
                    0 <= k < idx ==> #[trigger] self.prefix_len(k + 1) < unicode_offset,
            decreases self.table@.len() - idx,
        {
            let p = &self.table[idx];
            proof {
                assert(piece_wf(
                    self.src_chars(),
                    self.added_chars(),
                    self.spec_pieces()[idx as int],
                ));
                assert(self.piece_chars_at(idx as int).len() == self.table@[idx as int].len.utf8);
                lemma_cat_take_succ(self.src@, self.added@, self.table@, idx as int);
                assert(self.prefix_len(idx + 1) == self.prefix_len(idx as int)
                    + self.table@[idx as int].len.utf8);
            }
            if remaining <= p.len.utf8 {
                let data = self.get_piece_data(p);
                let byte_offset = to_byte_offset(data, remaining);
                let cur = Cursor::new(idx, Utf8Metric::new(byte_offset, remaining));
                proof {
                    lemma_cat_take_skip(self.src@, self.added@, self.table@, idx + 1);
                    assert(self@ == cat(self.src@, self.added@, self.table@));
                    assert(self@.len() >= self.prefix_len(idx + 1));
                }
                return Some(cur);
            }
            remaining = remaining - p.len.utf8;
            idx = idx + 1;
        }
        proof {
            assert(self.table@.take(self.table@.len() as int) =~= self.table@);
        }
        if remaining == 0 {
            Some(Cursor::new(idx, Utf8Metric::new(0, 0)))
        } else {
            None
        }
    }

    /// Split the piece under a cursor into the runs before and after it.
    /// The two halves sum to the original exactly, in characters and in
    /// bytes, and their slices concatenate back to the original slice.
    pub fn split_piece(&self, cur: &Cursor) -> (r: (Piece, Piece))
        requires
            self.wf(),
            self.cursor_ok(*cur),
            cur.table_idx < self.spec_pieces().len(),
        ensures
            ({
                let p = self.spec_pieces()[cur.table_idx as int];
                let run = self.piece_chars_at(cur.table_idx as int);
                let i = cur.inner_offset.utf8 as int;
                &&& r.0.len.utf8 + r.1.len.utf8 == p.len.utf8
                &&& r.0.len.byte + r.1.len.byte == p.len.byte
                &&& piece_wf(self.src_chars(), self.added_chars(), r.0)
                &&& piece_wf(self.src_chars(), self.added_chars(), r.1)
                &&& piece_chars(self.src_chars(), self.added_chars(), r.0) == run.take(i)
                &&& piece_chars(self.src_chars(), self.added_chars(), r.1) == run.skip(i)
                &&& piece_chars(self.src_chars(), self.added_chars(), r.0) + piece_chars(
                    self.src_chars(),
                    self.added_chars(),
                    r.1,
                ) == run
                &&& r.0.location == p.location
                &&& r.1.location == p.location
                &&& r.0.begin == p.begin
                &&& r.0.len == cur.inner_offset
                &&& r.1.begin.byte == p.begin.byte + cur.inner_offset.byte
                &&& r.1.begin.utf8 == p.begin.utf8 + cur.inner_offset.utf8
                &&& r.1.len.byte == p.len.byte - cur.inner_offset.byte
                &&& r.1.len.utf8 == p.len.utf8 - cur.inner_offset.utf8
            }),
    {
        let p = &self.table[cur.table_idx];
        let offset = cur.inner_offset;
        let bound = self.buf_byte_len(p.location);
        let ghost b = buf_of(self.src@, self.added@, p.location);
        let ghost cb = p.begin.utf8 as int;
        let ghost cl = p.len.utf8 as int;
        let ghost i = offset.utf8 as int;
        let ghost run = self.piece_chars_at(cur.table_idx as int);
        proof {
            assert(run =~= b.subrange(cb, cb + cl));
            lemma_byte_len_bounds(b);
            // the piece's byte range lies inside the buffer's encoding
            lemma_encode_subrange(b, cb, cb + cl);
            assert(b.take(cb + cl) =~= b.take(cb) + b.subrange(cb, cb + cl));
            lemma_byte_len_concat(b.take(cb), b.subrange(cb, cb + cl));
            // the cursor's byte offset lies inside the piece's byte length
            assert(run.take(cl) =~= run);
            lemma_encode_subrange(run, i, cl);
            // byte length of the run splits at the cursor
            lemma_split_exact(run, i);
            // byte offset of the split point inside the buffer
            assert(b.take(cb + i) =~= b.take(cb) + run.take(i));
            lemma_byte_len_concat(b.take(cb), run.take(i));
            // the buffer's byte length bounds every sum formed below
            assert(p.begin.byte + p.len.byte <= bound);
        }
        let prev = Piece::new(p.begin, offset, p.location);
        let next_begin = Utf8Metric::new(p.begin.byte + offset.byte, p.begin.utf8 + offset.utf8);
        let next_len = Utf8Metric::new(p.len.byte - offset.byte, p.len.utf8 - offset.utf8);
        let next = Piece::new(next_begin, next_len, p.location);
        proof {
            assert(piece_chars(self.src@, self.added@, prev) =~= run.take(i));
            assert(piece_chars(self.src@, self.added@, next) =~= run.skip(i));
        }
        (prev, next)
    }

    /// Replace the pieces `[i, j)` with the given ones, leaving the buffers
    /// untouched. Every edit of the table is one such splice.
    fn replace_span(&mut self, i: usize, j: usize, repl: Vec<Piece>)
        requires
            old(self).wf(),
            i <= j <= old(self).spec_pieces().len(),
            all_wf(old(self).src_chars(), old(self).added_chars(), repl@),
        ensures
            final(self).wf(),
            final(self).src_chars() == old(self).src_chars(),
            final(self).added_chars() == old(self).added_chars(),
            final(self).spec_pieces() == old(self).spec_pieces().take(i as int) + repl@ + old(
                self,
            ).spec_pieces().skip(j as int),
            final(self)@ == cat(
                old(self).src_chars(),
                old(self).added_chars(),
                old(self).spec_pieces().take(i as int),
            ) + cat(old(self).src_chars(), old(self).added_chars(), repl@) + cat(
                old(self).src_chars(),
                old(self).added_chars(),
                old(self).spec_pieces().skip(j as int),
            ),
    {
        let mut nt: Vec<Piece> = Vec::new();
        let mut k: usize = 0;
        proof {
            assert(self.table@.take(0) =~= Seq::<Piece>::empty());
        }
        while k < i
            invariant
                *self == *old(self),
                k <= i,
                i <= j <= self.table@.len(),
                nt@ == self.table@.take(k as int),
            decreases i - k,
        {
            let pc = self.table[k];
            nt.push(pc);
            proof {
                assert(nt@ =~= self.table@.take(k + 1));
            }
            k = k + 1;
        }
        let mut m: usize = 0;
        proof {
            assert(repl@.take(0) =~= Seq::<Piece>::empty());
            assert(nt@ =~= self.table@.take(i as int) + repl@.take(0));
        }
        while m < repl.len()
            invariant
                *self == *old(self),
                m <= repl@.len(),
                i <= j <= self.table@.len(),
                nt@ == self.table@.take(i as int) + repl@.take(m as int),
            decreases repl@.len() - m,
        {
            let pc = repl[m];
            nt.push(pc);
            proof {
                assert(nt@ =~= self.table@.take(i as int) + repl@.take(m + 1));
            }
            m = m + 1;
        }
        let mut q: usize = j;
        proof {
            assert(repl@.take(repl@.len() as int) =~= repl@);
            assert(self.table@.subrange(j as int, j as int) =~= Seq::<Piece>::empty());
            assert(nt@ =~= self.table@.take(i as int) + repl@ + self.table@.subrange(
                j as int,
                j as int,
            ));
        }
        while q < self.table.len()
            invariant
                *self == *old(self),
                i <= j <= q <= self.table@.len(),
                nt@ == self.table@.take(i as int) + repl@ + self.table@.subrange(
                    j as int,
                    q as int,
                ),
            decreases self.table@.len() - q,
        {
            let pc = self.table[q];
            nt.push(pc);
            proof {
                assert(nt@ =~= self.table@.take(i as int) + repl@ + self.table@.subrange(
                    j as int,
                    q + 1,
                ));
            }
            q = q + 1;
        }
        self.table = nt;
        proof {
            let src = old(self).src_chars();
            let added = old(self).added_chars();
            let before = old(self).table@;
            assert(before.subrange(j as int, before.len() as int) =~= before.skip(j as int));
            assert(self.table@ == before.take(i as int) + repl@ + before.skip(j as int));
            assert(before.take(i as int) =~= before.subrange(0, i as int));
            lemma_all_wf_sub(src, added, before, 0, i as int);
            lemma_all_wf_sub(src, added, before, j as int, before.len() as int);
            lemma_all_wf_concat(src, added, before.take(i as int), repl@);
            lemma_all_wf_concat(
                src,
                added,
                before.take(i as int) + repl@,
                before.skip(j as int),
            );
            lemma_cat_concat(src, added, before.take(i as int), repl@);
            lemma_cat_concat(src, added, before.take(i as int) + repl@, before.skip(j as int));
        }
    }

    /// Insert `data` at a character offset: the document becomes the old
    /// document with the characters of `data` spliced in at that offset. An
    /// offset past the end of the document is rejected as out of range and
    /// the table is left exactly as it was.
    #[verifier::rlimit(100)]
    #[verifier::spinoff_prover]
    pub fn insert_at(&mut self, unicode_offset: usize, data: &str) -> (r: Result<
        (),
        EditError,
    >)
        requires
            old(self).wf(),
        ensures
            final(self).wf(),
            final(self).src_chars() == old(self).src_chars(),
            unicode_offset <= old(self)@.len() ==> r is Ok && final(self)@ == old(self)@.take(
                unicode_offset as int,
            ) + data@ + old(self)@.skip(unicode_offset as int) && final(self).added_chars() == old(
                self,
            ).added_chars() + data@,
            unicode_offset <= old(self)@.len() ==> (exists|k: int|
                {
                    &&& 0 <= k < final(self).spec_pieces().len()
                    &&& (#[trigger] final(self).spec_pieces()[k]).location is Added
                    &&& final(self).spec_pieces()[k].begin.utf8 == old(self).added_chars().len()
                    &&& final(self).spec_pieces()[k].begin.byte == byte_len(
                        old(self).added_chars(),
                    )
                    &&& final(self).spec_pieces()[k].len.utf8 == data@.len()
                    &&& final(self).spec_pieces()[k].len.byte == byte_len(data@)
                }),
            unicode_offset > old(self)@.len() ==> r == Err::<(), EditError>(
                EditError::OffsetOutOfRange,
            ) && *final(self) == *old(self),
    {
        let cursor = match self.find_offset(unicode_offset) {
            Some(c) => c,
            None => {
                return Err(EditError::OffsetOutOfRange);
            },
        };
        let ghost off = unicode_offset as int;
        let ghost doc0 = self@;
        let begin_byte = self.buf_byte_len(Location::Added);
        let begin_utf8 = self.added.as_str().unicode_len();
        let new_piece = Piece::from_str(data, Utf8Metric::new(begin_byte, begin_utf8));
        let idx = cursor.table_idx;
        self.added.append(data);
        proof {
            let src = self.src@;
            let added0 = old(self).added@;
            let added1 = self.added@;
            let ps = self.table@;
            assert(added0.is_prefix_of(added1)) by {
                assert(added1.take(added0.len() as int) =~= added0);
            };
            lemma_cat_extend_added(src, added0, added1, ps);
            assert(self.wf());
            assert(self@ == doc0);
            // the fresh piece stands for `data` inside the grown buffer
            assert(added1.take(begin_utf8 as int) =~= added0);
            assert(piece_chars(src, added1, new_piece) =~= data@);
            assert(piece_wf(self.src_chars(), self.added_chars(), new_piece));
            // the cursor keeps its meaning: pieces, their characters and the
            // prefix lengths are untouched by the append
            assert(ps.take(idx as int) =~= ps.subrange(0, idx as int));
            lemma_all_wf_sub(src, added0, ps, 0, idx as int);
            lemma_cat_extend_added(src, added0, added1, ps.take(idx as int));
            if idx < self.table@.len() {
                assert(piece_wf(
                    old(self).src_chars(),
                    old(self).added_chars(),
                    old(self).spec_pieces()[idx as int],
                ));
                lemma_piece_extend_added(src, added0, added1, ps[idx as int]);
            }
            assert(self.cursor_ok(cursor));
            assert(self.cursor_offset(cursor) == off);
        }
        let ghost mid = *self;
        if idx == self.table.len() {
            let mut repl: Vec<Piece> = Vec::new();
            repl.push(new_piece);
            proof {
                assert(repl@ =~= seq![new_piece]);
                assert(all_wf(self.src_chars(), self.added_chars(), repl@));
            }
            self.replace_span(idx, idx, repl);
            proof {
                let src = mid.src_chars();
                let added = mid.added_chars();
                lemma_cat_singleton(src, added, new_piece);
                assert(mid.table@.take(idx as int) =~= mid.table@);
                assert(mid.table@.skip(idx as int) =~= Seq::<Piece>::empty());
                assert(off == doc0.len());
                assert(doc0.take(off) =~= doc0);
                assert(doc0.skip(off) =~= Seq::<char>::empty());
                assert(self@ =~= doc0.take(off) + data@ + doc0.skip(off));
                assert(self.spec_pieces()[idx as int] == new_piece);
            }
            return Ok(());
        }
        let piece_len_utf8 = self.table[idx].len.utf8;
        if cursor.inner_offset.utf8 == piece_len_utf8 {
            let mut repl: Vec<Piece> = Vec::new();
            repl.push(new_piece);
            proof {
                assert(repl@ =~= seq![new_piece]);
                assert(all_wf(self.src_chars(), self.added_chars(), repl@));
                assert(piece_wf(
                    mid.src_chars(),
                    mid.added_chars(),
                    mid.spec_pieces()[idx as int],
                ));
                lemma_cat_take_succ(mid.src@, mid.added@, mid.table@, idx as int);
                lemma_cat_take_skip(mid.src@, mid.added@, mid.table@, idx + 1);
            }
            self.replace_span(idx + 1, idx + 1, repl);
            proof {
                let src = mid.src_chars();
                let added = mid.added_chars();
                lemma_cat_singleton(src, added, new_piece);
                let head = cat(src, added, mid.table@.take(idx + 1));
                assert(off == head.len());
                assert(doc0 == head + cat(src, added, mid.table@.skip(idx + 1)));
                assert(doc0.take(off) =~= head);
                assert(doc0.skip(off) =~= cat(src, added, mid.table@.skip(idx + 1)));
                assert(self@ =~= doc0.take(off) + data@ + doc0.skip(off));
                assert(self.spec_pieces()[idx + 1] == new_piece);
            }
            return Ok(());
        }
        let (first, second) = self.split_piece(&cursor);
        let mut repl: Vec<Piece> = Vec::new();
        repl.push(first);
        repl.push(new_piece);
        repl.push(second);
        proof {
            assert(repl@ =~= seq![first, new_piece, second]);
            assert(all_wf(self.src_chars(), self.added_chars(), repl@)) by {
                assert(repl@[0] == first);
                assert(repl@[1] == new_piece);
                assert(repl@[2] == second);
            };
            assert(piece_wf(mid.src_chars(), mid.added_chars(), mid.spec_pieces()[idx as int]));
            lemma_cat_take_succ(mid.src@, mid.added@, mid.table@, idx as int);
            lemma_cat_take_skip(mid.src@, mid.added@, mid.table@, idx + 1);
        }
        self.replace_span(idx, idx + 1, repl);
        proof {
            let src = mid.src_chars();
            let added = mid.added_chars();
            let run = mid.piece_chars_at(idx as int);
            let i = cursor.inner_offset.utf8 as int;
            assert(seq![first, new_piece, second].drop_first() =~= seq![new_piece, second]);
            assert(seq![new_piece, second].drop_first() =~= seq![second]);
            lemma_cat_singleton(src, added, second);
            assert(cat(src, added, seq![new_piece, second]) =~= piece_chars(src, added, new_piece)
                + piece_chars(src, added, second));
            assert(cat(src, added, seq![first, new_piece, second]) =~= piece_chars(
                src,
                added,
                first,
            ) + piece_chars(src, added, new_piece) + piece_chars(src, added, second));
            let head = cat(src, added, mid.table@.take(idx as int));
            assert(doc0 == head + run + cat(src, added, mid.table@.skip(idx + 1)));
            assert(off == head.len() + i);
            assert(doc0.take(off) =~= head + run.take(i));
            assert(doc0.skip(off) =~= run.skip(i) + cat(src, added, mid.table@.skip(idx + 1)));
            assert(self@ =~= doc0.take(off) + data@ + doc0.skip(off));
            assert(self.spec_pieces()[idx + 1] == new_piece);
        }
        Ok(())
    }

    /// Remove the character range `[start, end)`. A range whose start lies
    /// after its end is invalid, and an end past the document is out of
    /// range; in both cases the table is left exactly as it was. On success
    /// the document becomes the old document with that range deleted.
    #[verifier::rlimit(100)]
    #[verifier::spinoff_prover]
    pub fn remove_range(&mut self, range: core::ops::Range<usize>) -> (r: Result<
        (),
        EditError,
    >)
        requires
            old(self).wf(),
        ensures
            final(self).wf(),
            final(self).src_chars() == old(self).src_chars(),
            range.start > range.end ==> r == Err::<(), EditError>(EditError::InvalidRange)
                && *final(self) == *old(self),
            range.start <= range.end && range.end > old(self)@.len() ==> r == Err::<
                (),
                EditError,
            >(EditError::OffsetOutOfRange) && *final(self) == *old(self),
            range.start <= range.end <= old(self)@.len() ==> r is Ok && final(self)@ == old(
                self,
            )@.take(range.start as int) + old(self)@.skip(range.end as int)
                && final(self).added_chars() == old(self).added_chars(),
    {
        let start = range.start;
        let end = range.end;
        if start > end {
            return Err(EditError::InvalidRange);
        }
        let cur_end = match self.find_offset(end) {
            Some(c) => c,
            None => {
                return Err(EditError::OffsetOutOfRange);
            },
        };
        let cur_start = match self.find_offset(start) {
            Some(c) => c,
            None => {
                proof {
                    assert(false);
                }
                vstd::pervasive::unreached()
            },
        };
        let s_idx = cur_start.table_idx;
        let e_idx = cur_end.table_idx;
        let ghost doc0 = self@;
        let ghost s_i = cur_start.inner_offset.utf8 as int;
        let ghost e_i = cur_end.inner_offset.utf8 as int;
        proof {
            if e_idx < self.table@.len() {
                assert(piece_wf(
                    self.src_chars(),
                    self.added_chars(),
                    self.spec_pieces()[e_idx as int],
                ));
                assert(self.piece_chars_at(e_idx as int).len()
                    == self.table@[e_idx as int].len.utf8);
                lemma_cat_take_succ(self.src@, self.added@, self.table@, e_idx as int);
            }
            if s_idx > e_idx {
                assert(self.prefix_len(e_idx as int + 1) < start);
                assert(false);
            }
        }
        let ghost mut kept_front = Seq::<char>::empty();
        let ghost mut kept_back = Seq::<char>::empty();
        let mut repl: Vec<Piece> = Vec::new();
        if cur_start.inner_offset.utf8 > 0 {
            let (lead, _rest) = self.split_piece(&cur_start);
            repl.push(lead);
            proof {
                kept_front = piece_chars(self.src@, self.added@, lead);
                assert(repl@ =~= seq![lead]);
                lemma_cat_singleton(self.src@, self.added@, lead);
                assert(cat(self.src@, self.added@, repl@) == kept_front);
                assert(kept_front == self.piece_chars_at(s_idx as int).take(s_i));
            }
        } else {
            proof {
                assert(repl@ =~= Seq::<Piece>::empty());
                assert(cat(self.src@, self.added@, repl@) == kept_front);
            }
        }
        let ghost repl_front = repl@;
        let mut trail_split = false;
        if e_idx < self.table.len() {
            let e_len_utf8 = self.table[e_idx].len.utf8;
            if cur_end.inner_offset.utf8 < e_len_utf8 {
                trail_split = true;
                let (_head, trail) = self.split_piece(&cur_end);
                repl.push(trail);
                proof {
                    kept_back = piece_chars(self.src@, self.added@, trail);
                    assert(repl@ =~= repl_front + seq![trail]);
                    lemma_cat_singleton(self.src@, self.added@, trail);
                    lemma_cat_concat(self.src@, self.added@, repl_front, seq![trail]);
                    assert(cat(self.src@, self.added@, repl@) == kept_front + kept_back);
                    assert(kept_back == self.piece_chars_at(e_idx as int).skip(e_i));
                }
            }
        }
        proof {
            if !trail_split {
                assert(repl@ == repl_front);
                assert(kept_back =~= Seq::<char>::empty());
                assert(cat(self.src@, self.added@, repl@) =~= kept_front + kept_back);
            }
        }
        let hi = if e_idx < self.table.len() {
            e_idx + 1
        } else {
            e_idx
        };
        let ghost before = *self;
        proof {
            let src = before.src_chars();
            let added = before.added_chars();
            if s_idx < before.table@.len() {
                assert(piece_wf(src, added, before.table@[s_idx as int]));
                if s_i == 0 {
                    assert(kept_front =~= piece_chars(src, added, before.table@[s_idx as int])
                        .take(s_i));
                }
            }
            if e_idx < before.table@.len() {
                assert(piece_wf(src, added, before.table@[e_idx as int]));
                assert(piece_chars(src, added, before.table@[e_idx as int]).len()
                    == before.table@[e_idx as int].len.utf8);
                if !trail_split {
                    assert(kept_back =~= piece_chars(src, added, before.table@[e_idx as int])
                        .skip(e_i));
                }
            }
            lemma_cat_cut(
                src,
                added,
                before.table@,
                s_idx as int,
                s_i,
                e_idx as int,
                e_i,
                hi as int,
                start as int,
                end as int,
            );
        }
        self.replace_span(s_idx, hi, repl);
        proof {
            let src = before.src_chars();
            let added = before.added_chars();
            // the front of the document up to `start`
            assert(doc0.take(start as int) == cat(src, added, before.table@.take(s_idx as int))
                + kept_front);
            // the back of the document from `end` on
            assert(doc0.skip(end as int) == kept_back + cat(
                src,
                added,
                before.table@.skip(hi as int),
            ));
            assert(self@ == doc0.take(start as int) + doc0.skip(end as int));
        }
        Ok(())
    }

    /// The current document: the concatenation, in order, of each piece's
    /// slice of its buffer.
    pub fn to_string(&self) -> (s: String)
        requires
            self.wf(),
        ensures
            s@ == self@,
    {
        let mut ret = String::new();
        let mut i: usize = 0;
        proof {
            assert(self.table@.take(0) =~= Seq::<Piece>::empty());
        }
        while i < self.table.len()
            invariant
                self.wf(),
                i <= self.table@.len(),
                ret@ == cat(self.src@, self.added@, self.table@.take(i as int)),
            decreases self.table@.len() - i,
        {
            let p = &self.table[i];
            proof {
                assert(piece_wf(
                    self.src_chars(),
                    self.added_chars(),
                    self.spec_pieces()[i as int],
                ));
                lemma_cat_take_succ(self.src@, self.added@, self.table@, i as int);
            }
            let data = self.get_piece_data(p);
            ret.append(data);
            i = i + 1;
        }
        proof {
            assert(self.table@.take(self.table@.len() as int) =~= self.table@);
        }
        ret
    }

    /// The text a piece stands for, sliced out of its buffer by byte range.
    /// Both cuts land on character boundaries of the buffer's encoding, so
    /// the slice is exactly the piece's character run.
    pub fn get_piece_data<'a>(&'a self, piece: &Piece) -> (r: &'a str)
        requires
            piece_wf(self.src_chars(), self.added_chars(), *piece),
        ensures
            r@ == piece_chars(self.src_chars(), self.added_chars(), *piece),
    {
        let buf: &str = match piece.location {
            Location::Original => self.src.as_str(),
            Location::Added => self.added.as_str(),
        };
        let ghost b = buf@;
        let ghost cb = piece.begin.utf8 as int;
        let ghost cl = piece.len.utf8 as int;
        proof {
            lemma_char_prefix_boundary(b, cb);
        }
        let (_, tail) = buf.split_at(piece.begin.byte);
        proof {
            assert(b.take(b.len() as int) =~= b);
            lemma_encode_subrange(b, cb, b.len() as int);
            assert(b.subrange(cb, b.len() as int) =~= b.skip(cb));
            assert(encode_utf8(tail@) == encode_utf8(b.skip(cb)));
            lemma_encode_injective(tail@, b.skip(cb));
            assert(tail@.take(cl) =~= b.subrange(cb, cb + cl));
            lemma_char_prefix_boundary(tail@, cl);
        }
        let (mid, _) = tail.split_at(piece.len.byte);
        proof {
            assert(tail@.take(0) =~= Seq::<char>::empty());
            assert(encode_utf8(Seq::<char>::empty()) =~= Seq::<u8>::empty());
            lemma_encode_subrange(tail@, 0, cl);
            assert(tail@.subrange(0, cl) =~= tail@.take(cl));
            assert(encode_utf8(mid@) == encode_utf8(tail@.take(cl)));
            lemma_encode_injective(mid@, tail@.take(cl));
        }
        mid
    }
}

/// The table's document is exactly the concatenation, in order, of its
/// pieces' character runs: the link between the view and the piece sequence.
pub proof fn lemma_view_is_cat(t: &PieceTable)
    ensures
        t@ == cat(t.src_chars(), t.added_chars(), t.spec_pieces()),
{
}

/// Dual-metric bookkeeping: in a well-formed table the pieces' character
/// lengths sum to the document's character count, and their byte lengths to
/// the byte count of its UTF-8 encoding.
pub proof fn lemma_metric_totals(t: &PieceTable)
    requires
        t.wf(),
    ensures
        char_total(t.spec_pieces()) == t@.len(),
        byte_total(t.spec_pieces()) == byte_len(t@),
{
    lemma_cat_totals(t.src_chars(), t.added_chars(), t.spec_pieces());
}

/// Multi-byte safety: in a well-formed table no piece boundary lies inside a
/// codepoint's byte encoding — both ends of every piece's byte range are
/// character boundaries of its buffer's UTF-8 encoding.
pub proof fn lemma_no_split_inside_codepoint(t: &PieceTable, i: int)
    requires
        t.wf(),
        0 <= i < t.spec_pieces().len(),
    ensures
        ({
            let p = t.spec_pieces()[i];
            let enc = encode_utf8(buf_of(t.src_chars(), t.added_chars(), p.location));
            &&& is_char_boundary(enc, p.begin.byte as int)
            &&& is_char_boundary(enc, p.begin.byte + p.len.byte)
        }),
{
    let p = t.spec_pieces()[i];
    assert(piece_wf(t.src_chars(), t.added_chars(), p));
    let b = buf_of(t.src_chars(), t.added_chars(), p.location);
    let cb = p.begin.utf8 as int;
    let cl = p.len.utf8 as int;
    lemma_char_prefix_boundary(b, cb);
    assert(b.take(cb + cl) =~= b.take(cb) + b.subrange(cb, cb + cl));
    lemma_byte_len_concat(b.take(cb), b.subrange(cb, cb + cl));
    lemma_char_prefix_boundary(b, cb + cl);
}

/// Boundary inserts: the spliced document that `insert_at` guarantees is
/// `s + doc` when the offset is 0 (the text is prepended), and `doc + s` when
/// the offset is the document's total character length (it is appended).
pub proof fn lemma_boundary_inserts(doc: Seq<char>, s: Seq<char>)
    ensures
        doc.take(0) + s + doc.skip(0) == s + doc,
        doc.take(doc.len() as int) + s + doc.skip(doc.len() as int) == doc + s,
{
    assert(doc.take(0) + s + doc.skip(0) =~= s + doc);
    assert(doc.take(doc.len() as int) + s + doc.skip(doc.len() as int) =~= doc + s);
}

/// Reading is idempotent: `to_string` returns exactly the table's document,
/// so any two renderings of a table with no edit in between are equal.
pub proof fn lemma_render_idempotent(t: &PieceTable, first: String, second: String)
    requires
        first@ == t@,
        second@ == t@,
    ensures
        first@ == second@,
{
}

} // verus!
