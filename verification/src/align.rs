//! The cross-translation aligner: a second pass that reconciles the
//! lexicon tags of a document's books at or after the boundary against a
//! reference document.  A tagged chunk whose number also tags some chunk
//! of the reference verse at the same coordinate gets a fresh annotation
//! from that number with the grammatical code dropped; a chunk whose
//! number is absent there is left unchanged and counted as unmatched.

use vstd::prelude::*;
use crate::bible::{
    BOUNDARY, Bible, BibleV, Book, BookV, Chapter, ChapterV, Chunk, ChunkV, StrongNumber,
    StrongNumberV, Verse, VerseV, chunk_seq_view, verse_seq_view, chapter_seq_view,
    book_seq_view, spec_get_verse,
};

verus! {

/// Whether some chunk of the sequence carries the given lexicon number.
pub open spec fn has_number(chunks: Seq<ChunkV>, n: int) -> bool {
    exists|i: int| 0 <= i < chunks.len() && (#[trigger] chunks[i]).strong is Some
        && chunks[i].strong.unwrap().number == n
}

/// One chunk after alignment against the reference verse at its
/// coordinate: a tagged chunk whose number tags a reference chunk gets a
/// fresh annotation from that number, the grammatical code dropped;
/// every other chunk is unchanged.
pub open spec fn align_chunk_v(c: ChunkV, refv: Option<VerseV>) -> ChunkV {
    match c.strong {
        Some(s) => match refv {
            Some(rv) => if has_number(rv.chunks, s.number) {
                ChunkV { text: c.text, strong: Some(StrongNumberV { number: s.number, grammar: None }) }
            } else {
                c
            },
            None => c,
        },
        None => c,
    }
}

/// Whether one chunk counts as unmatched: it is tagged, the reference
/// verse exists, and no reference chunk carries its number.
pub open spec fn chunk_unmatched(c: ChunkV, refv: Option<VerseV>) -> int {
    match c.strong {
        Some(s) => match refv {
            Some(rv) => if has_number(rv.chunks, s.number) {
                0
            } else {
                1
            },
            None => 0,
        },
        None => 0,
    }
}

/// How many chunks of a verse count as unmatched.
pub open spec fn chunks_unmatched(cs: Seq<ChunkV>, refv: Option<VerseV>) -> int
    decreases cs.len(),
{
    if cs.len() == 0 {
        0
    } else {
        chunks_unmatched(cs.drop_last(), refv) + chunk_unmatched(cs.last(), refv)
    }
}

/// A verse after alignment: each chunk aligned against the reference
/// verse at the same coordinate, or left alone when that verse is absent.
pub open spec fn align_verse_v(bnr: int, cnr: int, v: VerseV, rv: BibleV) -> VerseV {
    let g = spec_get_verse(rv, bnr, cnr, v.verse);
    VerseV { verse: v.verse, chunks: v.chunks.map_values(|c: ChunkV| align_chunk_v(c, g)) }
}

/// How many chunks of a sequence of verses count as unmatched.
pub open spec fn verses_unmatched(bnr: int, cnr: int, vs: Seq<VerseV>, rv: BibleV) -> int
    decreases vs.len(),
{
    if vs.len() == 0 {
        0
    } else {
        verses_unmatched(bnr, cnr, vs.drop_last(), rv) + chunks_unmatched(
            vs.last().chunks,
            spec_get_verse(rv, bnr, cnr, vs.last().verse),
        )
    }
}

/// A chapter after alignment.
pub open spec fn align_chapter_v(bnr: int, ch: ChapterV, rv: BibleV) -> ChapterV {
    ChapterV {
        chapter: ch.chapter,
        verses: ch.verses.map_values(|v: VerseV| align_verse_v(bnr, ch.chapter, v, rv)),
    }
}

/// How many chunks of a sequence of chapters count as unmatched.
pub open spec fn chapters_unmatched(bnr: int, chs: Seq<ChapterV>, rv: BibleV) -> int
    decreases chs.len(),
{
    if chs.len() == 0 {
        0
    } else {
        chapters_unmatched(bnr, chs.drop_last(), rv) + verses_unmatched(
            bnr,
            chs.last().chapter,
            chs.last().verses,
            rv,
        )
    }
}

/// A book after alignment: books below the boundary are untouched.
pub open spec fn align_book_v(b: BookV, rv: BibleV) -> BookV {
    if b.nr < BOUNDARY as int {
        b
    } else {
        BookV {
            chapters: b.chapters.map_values(|ch: ChapterV| align_chapter_v(b.nr, ch, rv)),
            ..b
        }
    }
}

/// How many chunks of a book count as unmatched: none for books below the
/// boundary, which the aligner does not visit.
pub open spec fn book_unmatched(b: BookV, rv: BibleV) -> int {
    if b.nr < BOUNDARY as int {
        0
    } else {
        chapters_unmatched(b.nr, b.chapters, rv)
    }
}

/// How many chunks of a sequence of books count as unmatched.
pub open spec fn books_unmatched(books: Seq<BookV>, rv: BibleV) -> int
    decreases books.len(),
{
    if books.len() == 0 {
        0
    } else {
        books_unmatched(books.drop_last(), rv) + book_unmatched(books.last(), rv)
    }
}

/// The document after alignment: every book aligned, everything else,
/// the concordances included, untouched.
pub open spec fn spec_align(bv: BibleV, rv: BibleV) -> BibleV {
    BibleV { books: bv.books.map_values(|b: BookV| align_book_v(b, rv)), ..bv }
}

/// The whole unmatched count of an alignment.
pub open spec fn spec_unmatched(bv: BibleV, rv: BibleV) -> int {
    books_unmatched(bv.books, rv)
}

/// A count clamped to the machine word that reports it.
pub open spec fn sat64(x: int) -> int {
    if x > u64::MAX {
        u64::MAX as int
    } else {
        x
    }
}

proof fn lemma_chunks_unmatched_bounds(cs: Seq<ChunkV>, refv: Option<VerseV>)
    ensures
        0 <= chunks_unmatched(cs, refv) <= cs.len(),
    decreases cs.len(),
{
    if cs.len() > 0 {
        lemma_chunks_unmatched_bounds(cs.drop_last(), refv);
    }
}

proof fn lemma_verses_unmatched_nonneg(bnr: int, cnr: int, vs: Seq<VerseV>, rv: BibleV)
    ensures
        0 <= verses_unmatched(bnr, cnr, vs, rv),
    decreases vs.len(),
{
    if vs.len() > 0 {
        lemma_verses_unmatched_nonneg(bnr, cnr, vs.drop_last(), rv);
        lemma_chunks_unmatched_bounds(
            vs.last().chunks,
            spec_get_verse(rv, bnr, cnr, vs.last().verse),
        );
    }
}

proof fn lemma_chapters_unmatched_nonneg(bnr: int, chs: Seq<ChapterV>, rv: BibleV)
    ensures
        0 <= chapters_unmatched(bnr, chs, rv),
    decreases chs.len(),
{
    if chs.len() > 0 {
        lemma_chapters_unmatched_nonneg(bnr, chs.drop_last(), rv);
        lemma_verses_unmatched_nonneg(bnr, chs.last().chapter, chs.last().verses, rv);
    }
}

proof fn lemma_book_unmatched_nonneg(b: BookV, rv: BibleV)
    ensures
        0 <= book_unmatched(b, rv),
{
    if b.nr >= BOUNDARY as int {
        lemma_chapters_unmatched_nonneg(b.nr, b.chapters, rv);
    }
}

proof fn lemma_books_unmatched_nonneg(books: Seq<BookV>, rv: BibleV)
    ensures
        0 <= books_unmatched(books, rv),
    decreases books.len(),
{
    if books.len() > 0 {
        lemma_books_unmatched_nonneg(books.drop_last(), rv);
        lemma_book_unmatched_nonneg(books.last(), rv);
    }
}

/// Whether any chunk of the reference verse carries the number.
fn ref_has_number(refv: &Verse, n: i32) -> (b: bool)
    ensures
        b == has_number(refv@.chunks, n as int),
{
    let m = refv.chunks.len();
    let mut i: usize = 0;
    while i < m
        invariant
            m == refv.chunks.len(),
            0 <= i <= m,
            forall|j: int| 0 <= j < i ==> !((#[trigger] refv@.chunks[j]).strong is Some
                && refv@.chunks[j].strong.unwrap().number == n),
        decreases m - i,
    {
        proof {
            assert(refv@.chunks[i as int] == refv.chunks@[i as int]@);
        }
        match &refv.chunks[i].strong {
            Some(s) => {
                if s.number == n {
                    proof {
                        assert(refv@.chunks[i as int].strong is Some);
                    }
                    return true;
                }
            },
            None => {},
        }
        i = i + 1;
    }
    false
}

/// The model of an optional borrowed verse.
pub open spec fn opt_verse_view(o: Option<&Verse>) -> Option<VerseV> {
    match o {
        Some(v) => Some(v@),
        None => None,
    }
}

/// Aligns the chunks of one verse against an optional reference verse,
/// and counts how many tagged chunks found no matching number there.
fn aligned_chunks(chunks: &Vec<Chunk>, refv: Option<&Verse>) -> (r: (Vec<Chunk>, u64))
    ensures
        chunk_seq_view(r.0@) == chunk_seq_view(chunks@).map_values(
            |c: ChunkV| align_chunk_v(c, opt_verse_view(refv)),
        ),
        r.1 as int == chunks_unmatched(chunk_seq_view(chunks@), opt_verse_view(refv)),
{
    let ghost cs: Seq<ChunkV> = chunk_seq_view(chunks@);
    let ghost g: Option<VerseV> = opt_verse_view(refv);
    let ghost target: Seq<ChunkV> = cs.map_values(|c: ChunkV| align_chunk_v(c, g));
    let mut out: Vec<Chunk> = Vec::new();
    let mut count: u64 = 0;
    let n = chunks.len();
    let mut i: usize = 0;
    while i < n
        invariant
            n == chunks.len(),
            cs == chunk_seq_view(chunks@),
            g == opt_verse_view(refv),
            target == cs.map_values(|c: ChunkV| align_chunk_v(c, g)),
            0 <= i <= n,
            chunk_seq_view(out@) == target.take(i as int),
            count as int == chunks_unmatched(cs.take(i as int), g),
            count <= i,
        decreases n - i,
    {
        proof {
            assert(cs.take(i as int + 1).drop_last() =~= cs.take(i as int));
            assert(cs.take(i as int + 1).last() == cs[i as int]);
            assert(cs[i as int] == chunks@[i as int]@);
            lemma_chunks_unmatched_bounds(cs.take(i as int), g);
        }
        let ghost prev: Seq<Chunk> = out@;
        let cur = &chunks[i];
        let mut unmatched_here: bool = false;
        match (&cur.strong, refv) {
            (Some(s), Some(rv)) => {
                if ref_has_number(rv, s.number) {
                    out.push(
                        Chunk {
                            text: cur.text.clone(),
                            strong: Some(StrongNumber { number: s.number, grammar: None }),
                        },
                    );
                } else {
                    out.push(crate::bible::clone_chunk(cur));
                    unmatched_here = true;
                }
            },
            _ => {
                out.push(crate::bible::clone_chunk(cur));
            },
        }
        if unmatched_here {
            count = count + 1;
        }
        proof {
            assert(chunk_seq_view(prev).len() == i as int);
            assert(prev.len() == i as int);
            assert forall|k: int| 0 <= k <= i as int implies chunk_seq_view(out@)[k]
                == target.take(i as int + 1)[k] by {
                if k < i as int {
                    assert(chunk_seq_view(prev)[k] == target.take(i as int)[k]);
                    assert(out@[k] == prev[k]);
                } else {
                    assert(out@[k] == out@[i as int]);
                    assert(target[i as int] == align_chunk_v(cs[i as int], g));
                }
            }
            assert(chunk_seq_view(out@) =~= target.take(i as int + 1));
        }
        i = i + 1;
    }
    proof {
        assert(cs.take(n as int) =~= cs);
        assert(target.take(n as int) =~= target);
    }
    (out, count)
}

/// Aligns one verse against the reference document.
fn align_verse_ex(bnr: usize, cnr: usize, v: &Verse, reference: &Bible) -> (r: (Verse, u64))
    ensures
        r.0@ == align_verse_v(bnr as int, cnr as int, v@, reference@),
        r.1 as int == chunks_unmatched(
            v@.chunks,
            spec_get_verse(reference@, bnr as int, cnr as int, v@.verse),
        ),
{
    let refv = reference.get_verse(bnr, cnr, v.verse);
    proof {
        assert(opt_verse_view(refv) == spec_get_verse(
            reference@,
            bnr as int,
            cnr as int,
            v@.verse,
        ));
    }
    let (chunks, count) = aligned_chunks(&v.chunks, refv);
    (Verse { verse: v.verse, chunks: chunks }, count)
}

/// Aligns one chapter against the reference document.
fn align_chapter_ex(bnr: usize, ch: &Chapter, reference: &Bible) -> (r: (Chapter, u64))
    ensures
        r.0@ == align_chapter_v(bnr as int, ch@, reference@),
        r.1 as int == sat64(verses_unmatched(bnr as int, ch@.chapter, ch@.verses, reference@)),
{
    let ghost vs: Seq<VerseV> = verse_seq_view(ch.verses@);
    let ghost target: Seq<VerseV> = vs.map_values(
        |v: VerseV| align_verse_v(bnr as int, ch@.chapter, v, reference@),
    );
    let mut out: Vec<Verse> = Vec::new();
    let mut count: u64 = 0;
    let n = ch.verses.len();
    let mut i: usize = 0;
    while i < n
        invariant
            n == ch.verses.len(),
            vs == verse_seq_view(ch.verses@),
            target == vs.map_values(
                |v: VerseV| align_verse_v(bnr as int, ch@.chapter, v, reference@),
            ),
            0 <= i <= n,
            verse_seq_view(out@) == target.take(i as int),
            count as int == sat64(verses_unmatched(bnr as int, ch@.chapter, vs.take(i as int), reference@)),
        decreases n - i,
    {
        proof {
            assert(vs.take(i as int + 1).drop_last() =~= vs.take(i as int));
            assert(vs.take(i as int + 1).last() == vs[i as int]);
            assert(vs[i as int] == ch.verses@[i as int]@);
            lemma_verses_unmatched_nonneg(bnr as int, ch@.chapter, vs.take(i as int), reference@);
            lemma_chunks_unmatched_bounds(
                vs[i as int].chunks,
                spec_get_verse(reference@, bnr as int, ch@.chapter, vs[i as int].verse),
            );
        }
        let ghost prev: Seq<Verse> = out@;
        let (nv, delta) = align_verse_ex(bnr, ch.chapter, &ch.verses[i], reference);
        out.push(nv);
        count = count.saturating_add(delta);
        proof {
            assert(verse_seq_view(prev).len() == i as int);
            assert(prev.len() == i as int);
            assert forall|k: int| 0 <= k <= i as int implies verse_seq_view(out@)[k]
                == target.take(i as int + 1)[k] by {
                if k < i as int {
                    assert(verse_seq_view(prev)[k] == target.take(i as int)[k]);
                    assert(out@[k] == prev[k]);
                } else {
                    assert(target[i as int] == align_verse_v(
                        bnr as int,
                        ch@.chapter,
                        vs[i as int],
                        reference@,
                    ));
                }
            }
            assert(verse_seq_view(out@) =~= target.take(i as int + 1));
        }
        i = i + 1;
    }
    proof {
        assert(vs.take(n as int) =~= vs);
        assert(target.take(n as int) =~= target);
    }
    (Chapter { chapter: ch.chapter, verses: out }, count)
}

/// Aligns one book against the reference document; books below the
/// boundary are copied untouched.
fn align_book_ex(b: &Book, reference: &Bible) -> (r: (Book, u64))
    ensures
        r.0@ == align_book_v(b@, reference@),
        r.1 as int == sat64(book_unmatched(b@, reference@)),
{
    if b.nr < BOUNDARY {
        let copy = crate::bible::clone_book(b);
        (copy, 0)
    } else {
        let ghost chs: Seq<ChapterV> = chapter_seq_view(b.chapters@);
        let ghost target: Seq<ChapterV> = chs.map_values(
            |ch: ChapterV| align_chapter_v(b@.nr, ch, reference@),
        );
        let mut out: Vec<Chapter> = Vec::new();
        let mut count: u64 = 0;
        let n = b.chapters.len();
        let mut i: usize = 0;
        while i < n
            invariant
                n == b.chapters.len(),
                chs == chapter_seq_view(b.chapters@),
                target == chs.map_values(|ch: ChapterV| align_chapter_v(b@.nr, ch, reference@)),
                0 <= i <= n,
                chapter_seq_view(out@) == target.take(i as int),
                count as int == sat64(chapters_unmatched(b@.nr, chs.take(i as int), reference@)),
            decreases n - i,
        {
            proof {
                assert(chs.take(i as int + 1).drop_last() =~= chs.take(i as int));
                assert(chs.take(i as int + 1).last() == chs[i as int]);
                assert(chs[i as int] == b.chapters@[i as int]@);
                lemma_chapters_unmatched_nonneg(b@.nr, chs.take(i as int), reference@);
                lemma_verses_unmatched_nonneg(
                    b@.nr,
                    chs[i as int].chapter,
                    chs[i as int].verses,
                    reference@,
                );
            }
            let ghost prev: Seq<Chapter> = out@;
            let (nc, delta) = align_chapter_ex(b.nr, &b.chapters[i], reference);
            out.push(nc);
            count = count.saturating_add(delta);
            proof {
                assert(chapter_seq_view(prev).len() == i as int);
                assert(prev.len() == i as int);
                assert forall|k: int| 0 <= k <= i as int implies chapter_seq_view(out@)[k]
                    == target.take(i as int + 1)[k] by {
                    if k < i as int {
                        assert(chapter_seq_view(prev)[k] == target.take(i as int)[k]);
                        assert(out@[k] == prev[k]);
                    } else {
                        assert(target[i as int] == align_chapter_v(
                            b@.nr,
                            chs[i as int],
                            reference@,
                        ));
                    }
                }
                assert(chapter_seq_view(out@) =~= target.take(i as int + 1));
            }
            i = i + 1;
        }
        proof {
            assert(chs.take(n as int) =~= chs);
            assert(target.take(n as int) =~= target);
        }
        (Book { nr: b.nr, name: b.name, chapters: out }, count)
    }
}

impl Bible {
    /// Re-aligns this document's lexicon tags, in its books at or after
    /// the boundary, against the reference document: each tagged chunk
    /// whose number also tags a chunk of the reference verse at the same
    /// coordinate gets a fresh annotation from that number with the
    /// grammatical code dropped; chunks whose number is absent there are
    /// left unchanged.  Returns how many tagged chunks found no match,
    /// clamped to the machine word; nothing else of the document, the
    /// concordances included, is touched.
    pub fn align(&mut self, reference: &Bible) -> (unmatched: u64)
        ensures
            final(self)@ == spec_align(old(self)@, reference@),
            unmatched as int == sat64(spec_unmatched(old(self)@, reference@)),
    {
        let ghost bs: Seq<BookV> = book_seq_view(self.books@);
        let ghost target: Seq<BookV> = bs.map_values(|b: BookV| align_book_v(b, reference@));
        let mut out: Vec<Book> = Vec::new();
        let mut count: u64 = 0;
        let n = self.books.len();
        let mut i: usize = 0;
        while i < n
            invariant
                *self == *old(self),
                n == self.books.len(),
                bs == book_seq_view(self.books@),
                target == bs.map_values(|b: BookV| align_book_v(b, reference@)),
                0 <= i <= n,
                book_seq_view(out@) == target.take(i as int),
                count as int == sat64(books_unmatched(bs.take(i as int), reference@)),
            decreases n - i,
        {
            proof {
                assert(bs.take(i as int + 1).drop_last() =~= bs.take(i as int));
                assert(bs.take(i as int + 1).last() == bs[i as int]);
                assert(bs[i as int] == self.books@[i as int]@);
                lemma_books_unmatched_nonneg(bs.take(i as int), reference@);
                lemma_book_unmatched_nonneg(bs[i as int], reference@);
            }
            let ghost prev: Seq<Book> = out@;
            let (nb, delta) = align_book_ex(&self.books[i], reference);
            out.push(nb);
            count = count.saturating_add(delta);
            proof {
                assert(book_seq_view(prev).len() == i as int);
                assert(prev.len() == i as int);
                assert forall|k: int| 0 <= k <= i as int implies book_seq_view(out@)[k]
                    == target.take(i as int + 1)[k] by {
                    if k < i as int {
                        assert(book_seq_view(prev)[k] == target.take(i as int)[k]);
                        assert(out@[k] == prev[k]);
                    } else {
                        assert(target[i as int] == align_book_v(bs[i as int], reference@));
                    }
                }
                assert(book_seq_view(out@) =~= target.take(i as int + 1));
            }
            i = i + 1;
        }
        proof {
            assert(bs.take(n as int) =~= bs);
            assert(target.take(n as int) =~= target);
        }
        self.books = out;
        count
    }
}

} // verus!
