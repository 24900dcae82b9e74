//! Pieces: immutable descriptors of contiguous character runs inside one of
//! the two buffers, and the concatenation spec that reads a piece sequence
//! back as a document.

use crate::metric::{byte_len, lemma_byte_len_concat, Utf8Metric};
use vstd::prelude::*;
use vstd::utf8::encode_utf8;

verus! {

/// Which buffer a piece draws its characters from.
#[derive(Debug, Clone, Copy)]
pub enum Location {
    Original,
    Added,
}

/// An immutable descriptor of a contiguous character run: where it begins in
/// its buffer and how long it is, both positions carried in bytes and in
/// characters at once.
#[derive(Debug, Clone, Copy)]
pub struct Piece {
    pub begin: Utf8Metric,
    pub len: Utf8Metric,
    pub location: Location,
}

/// The character contents of the buffer a location refers to.
pub open spec fn buf_of(src: Seq<char>, added: Seq<char>, location: Location) -> Seq<char> {
    match location {
        Location::Original => src,
        Location::Added => added,
    }
}

/// The characters a piece stands for: the run it describes inside its buffer.
pub open spec fn piece_chars(src: Seq<char>, added: Seq<char>, p: Piece) -> Seq<char> {
    buf_of(src, added, p.location).subrange(
        p.begin.utf8 as int,
        p.begin.utf8 + p.len.utf8,
    )
}

/// A piece is well formed when its run lies inside its buffer and both its
/// byte fields agree with the UTF-8 encoding of that buffer: `begin.byte` is
/// the encoded length of the characters before the run, and `len.byte` the
/// encoded length of the run itself.
pub open spec fn piece_wf(src: Seq<char>, added: Seq<char>, p: Piece) -> bool {
    let buf = buf_of(src, added, p.location);
    &&& p.begin.utf8 + p.len.utf8 <= buf.len()
    &&& p.begin.byte == byte_len(buf.take(p.begin.utf8 as int))
    &&& p.len.byte == byte_len(piece_chars(src, added, p))
}

/// Every piece of the sequence is well formed.
pub open spec fn all_wf(src: Seq<char>, added: Seq<char>, ps: Seq<Piece>) -> bool {
    forall|i: int| 0 <= i < ps.len() ==> piece_wf(src, added, #[trigger] ps[i])
}

/// The document a piece sequence denotes: the concatenation, in order, of the
/// characters of each piece.
pub open spec fn cat(src: Seq<char>, added: Seq<char>, ps: Seq<Piece>) -> Seq<char>
    decreases ps.len(),
{
    if ps.len() == 0 {
        Seq::empty()
    } else {
        piece_chars(src, added, ps[0]) + cat(src, added, ps.drop_first())
    }
}

/// Concatenation of documents distributes over concatenation of piece
/// sequences.
pub proof fn lemma_cat_concat(src: Seq<char>, added: Seq<char>, a: Seq<Piece>, b: Seq<Piece>)
    ensures
        cat(src, added, a + b) == cat(src, added, a) + cat(src, added, b),
    decreases a.len(),
{
    if a.len() == 0 {
        assert(a + b =~= b);
        assert(cat(src, added, a) + cat(src, added, b) =~= cat(src, added, b));
    } else {
        assert((a + b).drop_first() =~= a.drop_first() + b);
        lemma_cat_concat(src, added, a.drop_first(), b);
        assert(cat(src, added, a + b) =~= cat(src, added, a) + cat(src, added, b));
    }
}

/// A one-piece sequence denotes that piece's characters.
pub proof fn lemma_cat_singleton(src: Seq<char>, added: Seq<char>, p: Piece)
    ensures
        cat(src, added, seq![p]) == piece_chars(src, added, p),
{
    assert(seq![p].drop_first() =~= Seq::<Piece>::empty());
    assert(cat(src, added, Seq::<Piece>::empty()) =~= Seq::<char>::empty());
    assert(cat(src, added, seq![p]) =~= piece_chars(src, added, p));
}

/// Reading one more piece appends that piece's characters.
pub proof fn lemma_cat_take_succ(src: Seq<char>, added: Seq<char>, ps: Seq<Piece>, i: int)
    ensures
        0 <= i < ps.len() ==> cat(src, added, ps.take(i + 1)) == cat(src, added, ps.take(i))
            + piece_chars(src, added, ps[i]),
{
    if 0 <= i < ps.len() {
        assert(ps.take(i + 1) =~= ps.take(i) + seq![ps[i]]);
        lemma_cat_concat(src, added, ps.take(i), seq![ps[i]]);
        lemma_cat_singleton(src, added, ps[i]);
    }
}

/// A piece sequence's document splits at any index.
pub proof fn lemma_cat_take_skip(src: Seq<char>, added: Seq<char>, ps: Seq<Piece>, i: int)
    requires
        0 <= i <= ps.len(),
    ensures
        cat(src, added, ps) == cat(src, added, ps.take(i)) + cat(src, added, ps.skip(i)),
{
    assert(ps.take(i) + ps.skip(i) =~= ps);
    lemma_cat_concat(src, added, ps.take(i), ps.skip(i));
}

/// Well-formedness carries over to any sub-sequence of pieces.
pub proof fn lemma_all_wf_sub(src: Seq<char>, added: Seq<char>, ps: Seq<Piece>, a: int, b: int)
    requires
        all_wf(src, added, ps),
        0 <= a <= b <= ps.len(),
    ensures
        all_wf(src, added, ps.subrange(a, b)),
{
    assert forall|i: int| 0 <= i < ps.subrange(a, b).len() implies piece_wf(
        src,
        added,
        #[trigger] ps.subrange(a, b)[i],
    ) by {
        assert(ps.subrange(a, b)[i] == ps[a + i]);
    }
}

/// Well-formedness carries over to a concatenation of piece sequences.
pub proof fn lemma_all_wf_concat(src: Seq<char>, added: Seq<char>, a: Seq<Piece>, b: Seq<Piece>)
    requires
        all_wf(src, added, a),
        all_wf(src, added, b),
    ensures
        all_wf(src, added, a + b),
{
    assert forall|i: int| 0 <= i < (a + b).len() implies piece_wf(
        src,
        added,
        #[trigger] (a + b)[i],
    ) by {
        if i < a.len() {
            assert((a + b)[i] == a[i]);
        } else {
            assert((a + b)[i] == b[i - a.len()]);
        }
    }
}

/// Cutting a piece sequence's document at two resolved locations: the text
/// before the first location is the document of the pieces before it plus the
/// kept head of its piece, and the text from the second location on is the
/// kept tail of its piece plus the document of the pieces after it.
pub proof fn lemma_cat_cut(
    src: Seq<char>,
    added: Seq<char>,
    ps: Seq<Piece>,
    s_idx: int,
    s_i: int,
    e_idx: int,
    e_i: int,
    hi: int,
    start: int,
    end: int,
)
    requires
        all_wf(src, added, ps),
        0 <= s_idx <= ps.len(),
        0 <= e_idx <= ps.len(),
        s_idx < ps.len() ==> 0 <= s_i <= ps[s_idx].len.utf8,
        s_idx == ps.len() ==> s_i == 0,
        e_idx < ps.len() ==> 0 <= e_i <= ps[e_idx].len.utf8 && hi == e_idx + 1,
        e_idx == ps.len() ==> e_i == 0 && hi == e_idx,
        start == cat(src, added, ps.take(s_idx)).len() + s_i,
        end == cat(src, added, ps.take(e_idx)).len() + e_i,
    ensures
        cat(src, added, ps).take(start) == cat(src, added, ps.take(s_idx)) + (if s_idx
            < ps.len() {
            piece_chars(src, added, ps[s_idx]).take(s_i)
        } else {
            Seq::<char>::empty()
        }),
        cat(src, added, ps).skip(end) == (if e_idx < ps.len() {
            piece_chars(src, added, ps[e_idx]).skip(e_i)
        } else {
            Seq::<char>::empty()
        }) + cat(src, added, ps.skip(hi)),
{
    let doc = cat(src, added, ps);
    lemma_cat_take_skip(src, added, ps, s_idx);
    if s_idx < ps.len() {
        assert(piece_wf(src, added, ps[s_idx]));
        assert(piece_chars(src, added, ps[s_idx]).len() == ps[s_idx].len.utf8);
        lemma_cat_take_succ(src, added, ps, s_idx);
        lemma_cat_take_skip(src, added, ps, s_idx + 1);
        assert(doc =~= cat(src, added, ps.take(s_idx)) + piece_chars(src, added, ps[s_idx])
            + cat(src, added, ps.skip(s_idx + 1)));
        assert(doc.take(start) =~= cat(src, added, ps.take(s_idx)) + piece_chars(
            src,
            added,
            ps[s_idx],
        ).take(s_i));
    } else {
        assert(ps.take(s_idx) =~= ps);
        assert(doc.take(start) =~= doc);
        assert(doc.take(start) =~= cat(src, added, ps.take(s_idx)) + Seq::<char>::empty());
    }
    if e_idx < ps.len() {
        assert(piece_wf(src, added, ps[e_idx]));
        assert(piece_chars(src, added, ps[e_idx]).len() == ps[e_idx].len.utf8);
        lemma_cat_take_succ(src, added, ps, e_idx);
        lemma_cat_take_skip(src, added, ps, e_idx + 1);
        assert(doc =~= cat(src, added, ps.take(e_idx)) + piece_chars(src, added, ps[e_idx])
            + cat(src, added, ps.skip(e_idx + 1)));
        assert(doc.skip(end) =~= piece_chars(src, added, ps[e_idx]).skip(e_i) + cat(
            src,
            added,
            ps.skip(hi),
        ));
    } else {
        assert(ps.take(e_idx) =~= ps);
        assert(ps.skip(hi) =~= Seq::<Piece>::empty());
        assert(doc.skip(end) =~= Seq::<char>::empty());
        assert(doc.skip(end) =~= Seq::<char>::empty() + cat(src, added, ps.skip(hi)));
    }
}

/// Appending to the `added` buffer disturbs no existing piece: a piece that
/// was well formed against the old buffer contents is well formed against the
/// extended contents and stands for the same characters.
pub proof fn lemma_piece_extend_added(
    src: Seq<char>,
    added: Seq<char>,
    grown: Seq<char>,
    p: Piece,
)
    requires
        added.is_prefix_of(grown),
        piece_wf(src, added, p),
    ensures
        piece_wf(src, grown, p),
        piece_chars(src, grown, p) == piece_chars(src, added, p),
{
    match p.location {
        Location::Original => {
        },
        Location::Added => {
            assert(grown.subrange(p.begin.utf8 as int, p.begin.utf8 + p.len.utf8)
                =~= added.subrange(p.begin.utf8 as int, p.begin.utf8 + p.len.utf8));
            assert(grown.take(p.begin.utf8 as int) =~= added.take(p.begin.utf8 as int));
        },
    }
}

/// The same, lifted to a whole piece sequence and its document.
pub proof fn lemma_cat_extend_added(
    src: Seq<char>,
    added: Seq<char>,
    grown: Seq<char>,
    ps: Seq<Piece>,
)
    requires
        added.is_prefix_of(grown),
        all_wf(src, added, ps),
    ensures
        all_wf(src, grown, ps),
        cat(src, grown, ps) == cat(src, added, ps),
    decreases ps.len(),
{
    if ps.len() == 0 {
    } else {
        lemma_piece_extend_added(src, added, grown, ps[0]);
        assert(all_wf(src, added, ps.drop_first()));
        lemma_cat_extend_added(src, added, grown, ps.drop_first());
        assert forall|i: int| 0 <= i < ps.len() implies piece_wf(
            src,
            grown,
            #[trigger] ps[i],
        ) by {
            lemma_piece_extend_added(src, added, grown, ps[i]);
        }
    }
}

/// The character count of a piece sequence: the sum of its pieces' character
/// lengths.
pub open spec fn char_total(ps: Seq<Piece>) -> int
    decreases ps.len(),
{
    if ps.len() == 0 {
        0
    } else {
        ps[0].len.utf8 + char_total(ps.drop_first())
    }
}

/// The byte count of a piece sequence: the sum of its pieces' byte lengths.
pub open spec fn byte_total(ps: Seq<Piece>) -> int
    decreases ps.len(),
{
    if ps.len() == 0 {
        0
    } else {
        ps[0].len.byte + byte_total(ps.drop_first())
    }
}

/// The dual-metric bookkeeping invariant: for well-formed pieces, the summed
/// character lengths equal the character count of the document they denote,
/// and the summed byte lengths equal the byte count of its UTF-8 encoding.
pub proof fn lemma_cat_totals(src: Seq<char>, added: Seq<char>, ps: Seq<Piece>)
    requires
        all_wf(src, added, ps),
    ensures
        cat(src, added, ps).len() == char_total(ps),
        byte_len(cat(src, added, ps)) == byte_total(ps),
    decreases ps.len(),
{
    if ps.len() == 0 {
        assert(encode_utf8(Seq::<char>::empty()) =~= Seq::<u8>::empty());
    } else {
        assert(piece_wf(src, added, ps[0]));
        assert(all_wf(src, added, ps.drop_first()));
        lemma_cat_totals(src, added, ps.drop_first());
        lemma_byte_len_concat(piece_chars(src, added, ps[0]), cat(src, added, ps.drop_first()));
        assert(piece_chars(src, added, ps[0]).len() == ps[0].len.utf8);
    }
}

impl Piece {
    pub fn new(begin: Utf8Metric, len: Utf8Metric, location: Location) -> (p: Piece)
        ensures
            p.begin == begin,
            p.len == len,
            p.location == location,
    {
        Piece { begin, len, location }
    }

    /// A piece describing `data` as the run that starts at `begin` in the
    /// `added` buffer.
    pub fn from_str(data: &str, begin: Utf8Metric) -> (p: Piece)
        ensures
            p.begin == begin,
            p.len.utf8 == data@.len(),
            p.len.byte == byte_len(data@),
            p.location is Added,
    {
        let len = Utf8Metric::from_str(data);
        let location = Location::Added;
        Piece { begin, len, location }
    }

    /// The byte range the piece occupies inside its buffer's encoding.
    pub fn range(&self) -> (r: core::ops::Range<usize>)
        requires
            self.begin.byte + self.len.byte <= usize::MAX,
        ensures
            r.start == self.begin.byte,
            r.end == self.begin.byte + self.len.byte,
    {
        self.begin.byte..(self.begin.byte + self.len.byte)
    }
}

} // verus!
