//! The query engine: tokenized AND substring search over a finished
//! document.  The query is lowercased and split into shell-style words; a
//! verse matches when every word occurs in the lowercased join of its
//! chunk texts, and matching verses are reported in stored order, each
//! enriched with a snapshot of its chunks.

use vstd::prelude::*;
use crate::bible::{
    Bible, BibleV, Book, BookV, Chapter, ChapterV, Verse, VerseRef, VerseRefV, VerseV,
    verse_seq_view, chapter_seq_view, book_seq_view, ref_seq_view, join_texts, clone_chunks,
};
use crate::text::{contains_seq, lower_of, lowercase, contains_sub};

verus! {

/// A query error: the search text holds malformed quoting.
#[derive(Clone, Copy, PartialEq, Eq, Structural, Debug)]
pub enum QueryError {
    Quoting,
}

/// The words that shell-style splitting yields for a text, a function of
/// the text alone; absent when the text holds mismatched quotes.
pub uninterp spec fn shell_words(s: Seq<char>) -> Option<Seq<Seq<char>>>;

/// Relies on shellwords::split: the text is split into words as the UNIX
/// Bourne shell would, quoted substrings becoming single words; mismatched
/// quotes fail.
#[verifier::external_body]
fn split_words(s: &str) -> (r: Option<Vec<String>>)
    ensures
        r is Some <==> shell_words(s@) is Some,
        r is Some ==> token_seq_view(r.unwrap()@) == shell_words(s@).unwrap(),
{
    match shellwords::split(s) {
        Ok(words) => Some(words),
        Err(_) => None,
    }
}

/// The models of a sequence of tokens.
pub open spec fn token_seq_view(s: Seq<String>) -> Seq<Seq<char>> {
    s.map_values(|t: String| t@)
}

/// Whether a verse matches a token list: every token is a contiguous
/// substring of the lowercased join of its chunk texts.
pub open spec fn verse_matches(v: VerseV, tokens: Seq<Seq<char>>) -> bool {
    forall|k: int| 0 <= k < tokens.len() ==> contains_seq(
        lower_of(join_texts(v.chunks)),
        #[trigger] tokens[k],
    )
}

/// The reference that a matching verse contributes: its coordinate,
/// enriched with a snapshot of its chunks.
pub open spec fn hit_of(bnr: int, cnr: int, v: VerseV) -> VerseRefV {
    VerseRefV { book: bnr, chapter: cnr, verse: v.verse, chunks: Some(v.chunks) }
}

/// The matches among a chapter's verses, in stored order.
pub open spec fn search_verses(bnr: int, cnr: int, vs: Seq<VerseV>, tokens: Seq<Seq<char>>) -> Seq<
    VerseRefV,
>
    decreases vs.len(),
{
    if vs.len() == 0 {
        Seq::empty()
    } else {
        let rest = search_verses(bnr, cnr, vs.drop_last(), tokens);
        if verse_matches(vs.last(), tokens) {
            rest.push(hit_of(bnr, cnr, vs.last()))
        } else {
            rest
        }
    }
}

/// The matches among a book's chapters, in stored order.
pub open spec fn search_chapters(bnr: int, chs: Seq<ChapterV>, tokens: Seq<Seq<char>>) -> Seq<
    VerseRefV,
>
    decreases chs.len(),
{
    if chs.len() == 0 {
        Seq::empty()
    } else {
        search_chapters(bnr, chs.drop_last(), tokens) + search_verses(
            bnr,
            chs.last().chapter,
            chs.last().verses,
            tokens,
        )
    }
}

/// The matches among the document's books, in stored order.
pub open spec fn search_books(books: Seq<BookV>, tokens: Seq<Seq<char>>) -> Seq<VerseRefV>
    decreases books.len(),
{
    if books.len() == 0 {
        Seq::empty()
    } else {
        search_books(books.drop_last(), tokens) + search_chapters(
            books.last().nr,
            books.last().chapters,
            tokens,
        )
    }
}

/// All matches of a token list over a document, in enumeration order:
/// books, then chapters, then verses, each as stored.
pub open spec fn spec_search(bv: BibleV, tokens: Seq<Seq<char>>) -> Seq<VerseRefV> {
    search_books(bv.books, tokens)
}

/// The outcome of a query: the text is lowercased and split into words;
/// mismatched quoting fails the query, otherwise every verse matching all
/// words is reported in order.
pub open spec fn spec_search_query(bv: BibleV, q: Seq<char>) -> Result<Seq<VerseRefV>, QueryError> {
    match shell_words(lower_of(q)) {
        Some(tokens) => Ok(spec_search(bv, tokens)),
        None => Err(QueryError::Quoting),
    }
}

/// Whether the verse's lowercased display text holds every token.
fn verse_matches_ex(verse: &Verse, tokens: &Vec<String>) -> (b: bool)
    ensures
        b == verse_matches(verse@, token_seq_view(tokens@)),
{
    let text = verse.to_string();
    let low = lowercase(text.as_str());
    let n = tokens.len();
    let mut k: usize = 0;
    while k < n
        invariant
            n == tokens.len(),
            0 <= k <= n,
            low@ == lower_of(join_texts(verse@.chunks)),
            forall|j: int| 0 <= j < k ==> contains_seq(
                lower_of(join_texts(verse@.chunks)),
                #[trigger] token_seq_view(tokens@)[j],
            ),
        decreases n - k,
    {
        proof {
            assert(token_seq_view(tokens@)[k as int] == tokens@[k as int]@);
        }
        if !contains_sub(low.as_str(), tokens[k].as_str()) {
            return false;
        }
        k = k + 1;
    }
    true
}

/// The matching verses of one chapter, in stored order.
fn search_verses_ex(bnr: usize, cnr: usize, verses: &Vec<Verse>, tokens: &Vec<String>) -> (r: Vec<
    VerseRef,
>)
    ensures
        ref_seq_view(r@) == search_verses(
            bnr as int,
            cnr as int,
            verse_seq_view(verses@),
            token_seq_view(tokens@),
        ),
{
    let ghost vs: Seq<VerseV> = verse_seq_view(verses@);
    let ghost ts: Seq<Seq<char>> = token_seq_view(tokens@);
    let mut out: Vec<VerseRef> = Vec::new();
    let n = verses.len();
    let mut i: usize = 0;
    while i < n
        invariant
            n == verses.len(),
            vs == verse_seq_view(verses@),
            ts == token_seq_view(tokens@),
            0 <= i <= n,
            ref_seq_view(out@) == search_verses(bnr as int, cnr as int, vs.take(i as int), ts),
        decreases n - i,
    {
        proof {
            assert(vs.take(i as int + 1).drop_last() =~= vs.take(i as int));
            assert(vs.take(i as int + 1).last() == vs[i as int]);
            assert(vs[i as int] == verses@[i as int]@);
        }
        let verse = &verses[i];
        if verse_matches_ex(verse, tokens) {
            let chunks = clone_chunks(&verse.chunks);
            out.push(VerseRef::new_with_chunks(bnr, cnr, verse.verse, chunks));
            proof {
                assert(ref_seq_view(out@) =~= search_verses(
                    bnr as int,
                    cnr as int,
                    vs.take(i as int + 1),
                    ts,
                ));
            }
        }
        i = i + 1;
    }
    proof {
        assert(vs.take(n as int) =~= vs);
    }
    out
}

/// The matching verses of one book, in stored order.
fn search_chapters_ex(bnr: usize, chapters: &Vec<Chapter>, tokens: &Vec<String>) -> (r: Vec<
    VerseRef,
>)
    ensures
        ref_seq_view(r@) == search_chapters(
            bnr as int,
            chapter_seq_view(chapters@),
            token_seq_view(tokens@),
        ),
{
    let ghost chs: Seq<ChapterV> = chapter_seq_view(chapters@);
    let ghost ts: Seq<Seq<char>> = token_seq_view(tokens@);
    let mut out: Vec<VerseRef> = Vec::new();
    let n = chapters.len();
    let mut i: usize = 0;
    while i < n
        invariant
            n == chapters.len(),
            chs == chapter_seq_view(chapters@),
            ts == token_seq_view(tokens@),
            0 <= i <= n,
            ref_seq_view(out@) == search_chapters(bnr as int, chs.take(i as int), ts),
        decreases n - i,
    {
        proof {
            assert(chs.take(i as int + 1).drop_last() =~= chs.take(i as int));
            assert(chs.take(i as int + 1).last() == chs[i as int]);
            assert(chs[i as int] == chapters@[i as int]@);
        }
        let chapter = &chapters[i];
        let mut part = search_verses_ex(bnr, chapter.chapter, &chapter.verses, tokens);
        let ghost before: Seq<VerseRef> = out@;
        let ghost part_v: Seq<VerseRef> = part@;
        out.append(&mut part);
        proof {
            assert(out@ == before + part_v);
            assert(ref_seq_view(out@) =~= ref_seq_view(before) + ref_seq_view(part_v));
            assert(ref_seq_view(out@) =~= search_chapters(bnr as int, chs.take(i as int + 1), ts));
        }
        i = i + 1;
    }
    proof {
        assert(chs.take(n as int) =~= chs);
    }
    out
}

/// The matching verses of the whole document, in enumeration order.
fn search_books_ex(books: &Vec<Book>, tokens: &Vec<String>) -> (r: Vec<VerseRef>)
    ensures
        ref_seq_view(r@) == search_books(book_seq_view(books@), token_seq_view(tokens@)),
{
    let ghost bs: Seq<BookV> = book_seq_view(books@);
    let ghost ts: Seq<Seq<char>> = token_seq_view(tokens@);
    let mut out: Vec<VerseRef> = Vec::new();
    let n = books.len();
    let mut i: usize = 0;
    while i < n
        invariant
            n == books.len(),
            bs == book_seq_view(books@),
            ts == token_seq_view(tokens@),
            0 <= i <= n,
            ref_seq_view(out@) == search_books(bs.take(i as int), ts),
        decreases n - i,
    {
        proof {
            assert(bs.take(i as int + 1).drop_last() =~= bs.take(i as int));
            assert(bs.take(i as int + 1).last() == bs[i as int]);
            assert(bs[i as int] == books@[i as int]@);
        }
        let book = &books[i];
        let mut part = search_chapters_ex(book.nr, &book.chapters, tokens);
        let ghost before: Seq<VerseRef> = out@;
        let ghost part_v: Seq<VerseRef> = part@;
        out.append(&mut part);
        proof {
            assert(out@ == before + part_v);
            assert(ref_seq_view(out@) =~= ref_seq_view(before) + ref_seq_view(part_v));
            assert(ref_seq_view(out@) =~= search_books(bs.take(i as int + 1), ts));
        }
        i = i + 1;
    }
    proof {
        assert(bs.take(n as int) =~= bs);
    }
    out
}

impl Bible {
    /// All verses matching a token list, in enumeration order, each
    /// enriched with a snapshot of its chunks.
    pub fn search_tokens(&self, tokens: &Vec<String>) -> (r: Vec<VerseRef>)
        ensures
            ref_seq_view(r@) == spec_search(self@, token_seq_view(tokens@)),
    {
        search_books_ex(&self.books, tokens)
    }

    /// Answers a query: the text is lowercased and split into shell-style
    /// words; a verse is reported iff every word occurs in the lowercased
    /// join of its chunk texts, in enumeration order, without
    /// deduplication; malformed quoting fails the query and only the
    /// query.
    pub fn search(&self, search_text: &String) -> (r: Result<Vec<VerseRef>, QueryError>)
        ensures
            match spec_search_query(self@, search_text@) {
                Ok(hits) => r is Ok && ref_seq_view(r.unwrap()@) == hits,
                Err(e) => r == Err::<Vec<VerseRef>, QueryError>(e),
            },
    {
        let low = lowercase(search_text.as_str());
        match split_words(low.as_str()) {
            Some(words) => Ok(self.search_tokens(&words)),
            None => Err(QueryError::Quoting),
        }
    }

    /// Answers a query with the same observable contract as `search`.
    /// The specified per-book fan-out is not implemented: this path
    /// deliberately degrades to the sequential algorithm, which yields
    /// the same ordered result.
    pub fn search_parallel(&self, search_text: &String) -> (r: Result<Vec<VerseRef>, QueryError>)
        ensures
            match spec_search_query(self@, search_text@) {
                Ok(hits) => r is Ok && ref_seq_view(r.unwrap()@) == hits,
                Err(e) => r == Err::<Vec<VerseRef>, QueryError>(e),
            },
    {
        self.search(search_text)
    }
}

// Laws of the query engine.

/// A verse that matches a token list also matches any list of tokens
/// drawn from it.
proof fn lemma_verse_matches_narrows(v: VerseV, ts1: Seq<Seq<char>>, ts2: Seq<Seq<char>>)
    requires
        forall|k: int| 0 <= k < ts1.len() ==> ts2.contains(#[trigger] ts1[k]),
        verse_matches(v, ts2),
    ensures
        verse_matches(v, ts1),
{
    assert forall|k: int| 0 <= k < ts1.len() implies contains_seq(
        lower_of(join_texts(v.chunks)),
        #[trigger] ts1[k],
    ) by {
        let j = choose|j: int| 0 <= j < ts2.len() && ts2[j] == ts1[k];
        assert(contains_seq(lower_of(join_texts(v.chunks)), ts2[j]));
    }
}

proof fn lemma_search_verses_narrows(
    bnr: int,
    cnr: int,
    vs: Seq<VerseV>,
    ts1: Seq<Seq<char>>,
    ts2: Seq<Seq<char>>,
    r: VerseRefV,
)
    requires
        forall|k: int| 0 <= k < ts1.len() ==> ts2.contains(#[trigger] ts1[k]),
        search_verses(bnr, cnr, vs, ts2).contains(r),
    ensures
        search_verses(bnr, cnr, vs, ts1).contains(r),
    decreases vs.len(),
{
    let wide = search_verses(bnr, cnr, vs, ts1);
    let rest2 = search_verses(bnr, cnr, vs.drop_last(), ts2);
    if vs.len() > 0 {
        if verse_matches(vs.last(), ts2) {
            let full2 = rest2.push(hit_of(bnr, cnr, vs.last()));
            let j = choose|j: int| 0 <= j < full2.len() && full2[j] == r;
            if j < rest2.len() {
                assert(rest2.contains(r));
                lemma_search_verses_narrows(bnr, cnr, vs.drop_last(), ts1, ts2, r);
                let rest1 = search_verses(bnr, cnr, vs.drop_last(), ts1);
                let j1 = choose|j1: int| 0 <= j1 < rest1.len() && rest1[j1] == r;
                lemma_verse_matches_narrows(vs.last(), ts1, ts2);
                assert(wide[j1] == r);
            } else {
                assert(r == hit_of(bnr, cnr, vs.last()));
                lemma_verse_matches_narrows(vs.last(), ts1, ts2);
                let rest1 = search_verses(bnr, cnr, vs.drop_last(), ts1);
                assert(wide == rest1.push(hit_of(bnr, cnr, vs.last())));
                assert(wide[wide.len() - 1] == r);
            }
        } else {
            assert(rest2.contains(r));
            lemma_search_verses_narrows(bnr, cnr, vs.drop_last(), ts1, ts2, r);
            let rest1 = search_verses(bnr, cnr, vs.drop_last(), ts1);
            let j1 = choose|j1: int| 0 <= j1 < rest1.len() && rest1[j1] == r;
            if verse_matches(vs.last(), ts1) {
                assert(wide == rest1.push(hit_of(bnr, cnr, vs.last())));
                assert(wide[j1] == r);
            }
        }
    }
}

proof fn lemma_search_chapters_narrows(
    bnr: int,
    chs: Seq<ChapterV>,
    ts1: Seq<Seq<char>>,
    ts2: Seq<Seq<char>>,
    r: VerseRefV,
)
    requires
        forall|k: int| 0 <= k < ts1.len() ==> ts2.contains(#[trigger] ts1[k]),
        search_chapters(bnr, chs, ts2).contains(r),
    ensures
        search_chapters(bnr, chs, ts1).contains(r),
    decreases chs.len(),
{
    if chs.len() > 0 {
        let rest2 = search_chapters(bnr, chs.drop_last(), ts2);
        let tail2 = search_verses(bnr, chs.last().chapter, chs.last().verses, ts2);
        let j = choose|j: int| 0 <= j < (rest2 + tail2).len() && (rest2 + tail2)[j] == r;
        let rest1 = search_chapters(bnr, chs.drop_last(), ts1);
        let tail1 = search_verses(bnr, chs.last().chapter, chs.last().verses, ts1);
        if j < rest2.len() {
            assert(rest2.contains(r));
            lemma_search_chapters_narrows(bnr, chs.drop_last(), ts1, ts2, r);
            let j1 = choose|j1: int| 0 <= j1 < rest1.len() && rest1[j1] == r;
            assert((rest1 + tail1)[j1] == r);
        } else {
            assert(tail2[j - rest2.len()] == r);
            assert(tail2.contains(r));
            lemma_search_verses_narrows(bnr, chs.last().chapter, chs.last().verses, ts1, ts2, r);
            let j1 = choose|j1: int| 0 <= j1 < tail1.len() && tail1[j1] == r;
            assert((rest1 + tail1)[rest1.len() + j1] == r);
        }
    }
}

proof fn lemma_search_books_narrows(
    books: Seq<BookV>,
    ts1: Seq<Seq<char>>,
    ts2: Seq<Seq<char>>,
    r: VerseRefV,
)
    requires
        forall|k: int| 0 <= k < ts1.len() ==> ts2.contains(#[trigger] ts1[k]),
        search_books(books, ts2).contains(r),
    ensures
        search_books(books, ts1).contains(r),
    decreases books.len(),
{
    if books.len() > 0 {
        let rest2 = search_books(books.drop_last(), ts2);
        let tail2 = search_chapters(books.last().nr, books.last().chapters, ts2);
        let j = choose|j: int| 0 <= j < (rest2 + tail2).len() && (rest2 + tail2)[j] == r;
        let rest1 = search_books(books.drop_last(), ts1);
        let tail1 = search_chapters(books.last().nr, books.last().chapters, ts1);
        if j < rest2.len() {
            assert(rest2.contains(r));
            lemma_search_books_narrows(books.drop_last(), ts1, ts2, r);
            let j1 = choose|j1: int| 0 <= j1 < rest1.len() && rest1[j1] == r;
            assert((rest1 + tail1)[j1] == r);
        } else {
            assert(tail2[j - rest2.len()] == r);
            assert(tail2.contains(r));
            lemma_search_chapters_narrows(books.last().nr, books.last().chapters, ts1, ts2, r);
            let j1 = choose|j1: int| 0 <= j1 < tail1.len() && tail1[j1] == r;
            assert((rest1 + tail1)[rest1.len() + j1] == r);
        }
    }
}

/// Adding tokens narrows a search: every verse reported for a token list
/// is also reported for any list of tokens drawn from it, so the result
/// set of a conjunction is contained in the result set of each part.
pub proof fn lemma_search_tokens_subset(bv: BibleV, ts1: Seq<Seq<char>>, ts2: Seq<Seq<char>>)
    requires
        forall|k: int| 0 <= k < ts1.len() ==> ts2.contains(#[trigger] ts1[k]),
    ensures
        forall|r: VerseRefV| spec_search(bv, ts2).contains(r) ==> spec_search(bv, ts1).contains(r),
{
    assert forall|r: VerseRefV| spec_search(bv, ts2).contains(r) implies spec_search(
        bv,
        ts1,
    ).contains(r) by {
        lemma_search_books_narrows(bv.books, ts1, ts2, r);
    }
}

/// The search is insensitive to letter case in the query: two query texts
/// with the same lowercase folding yield the same outcome.
pub proof fn lemma_search_case_insensitive(bv: BibleV, q1: Seq<char>, q2: Seq<char>)
    requires
        lower_of(q1) == lower_of(q2),
    ensures
        spec_search_query(bv, q1) == spec_search_query(bv, q2),
{
}

} // verus!
