//! The document model: a Bible holds Books, Chapters, Verses and Chunks,
//! together with two concordances keyed by lexicon ("strong") number.  Books,
//! chapters and verses are identified by their 0-based index; find-or-insert
//! keeps at most one entity per index.

use vstd::prelude::*;
use std::collections::HashMap;
use crate::text::lower_of;

verus! {

broadcast use vstd::std_specs::hash::group_hash_axioms;

/// Book indices below this boundary route occurrences to the primary
/// (hebrew) concordance; indices at or above it route to the secondary
/// (greek) one.
pub const BOUNDARY: usize = 39;

/// A short description of one translation: its identifier and display name.
#[derive(Clone)]
pub struct Translation {
    pub identifier: String,
    pub name: String,
}

/// One translation of the canon: its identity, its books, and the two
/// concordances derived while parsing.
pub struct Bible {
    pub identifier: String,
    pub name: String,
    pub books: Vec<Book>,
    pub greek_strong_dict: HashMap<usize, StrongDictEntry>,
    pub hebrew_strong_dict: HashMap<usize, StrongDictEntry>,
}

/// All occurrences of one lexicon number: the spelling variants seen, and a
/// log of the verses in which they were seen.
#[derive(Clone)]
pub struct StrongDictEntry {
    pub variants: Vec<StrongVariant>,
    pub refs: Vec<VerseRef>,
}

/// One lowercased spelling of a word, with the number of times it was seen.
#[derive(Clone)]
pub struct StrongVariant {
    pub variant: String,
    pub count: u64,
}

/// A book: its 0-based index, a display name (possibly empty), and its
/// chapters.
#[derive(Clone)]
pub struct Book {
    pub nr: usize,
    pub name: &'static str,
    pub chapters: Vec<Chapter>,
}

/// A chapter: its 0-based index and its verses.
#[derive(Clone)]
pub struct Chapter {
    pub chapter: usize,
    pub verses: Vec<Verse>,
}

/// A verse: its 0-based index and its chunks, in source order.
#[derive(Clone)]
pub struct Verse {
    pub verse: usize,
    pub chunks: Vec<Chunk>,
}

/// A coordinate of a verse, optionally enriched with a snapshot of its
/// chunks.
#[derive(Clone)]
pub struct VerseRef {
    pub book: usize,
    pub chapter: usize,
    pub verse: usize,
    pub chunks: Option<Vec<Chunk>>,
}

/// The smallest unit of verse text, optionally annotated with a lexicon
/// number.
#[derive(Clone)]
pub struct Chunk {
    pub text: String,
    pub strong: Option<StrongNumber>,
}

/// A lexicon annotation: the lexicon number and an optional grammatical
/// code.
#[derive(Clone)]
pub struct StrongNumber {
    pub number: i32,
    pub grammar: Option<String>,
}

// Mathematical models.  Each executable type above has a view built from
// sequences, maps and unbounded integers; every contract speaks of these.

pub struct TranslationV {
    pub identifier: Seq<char>,
    pub name: Seq<char>,
}

pub struct BibleV {
    pub identifier: Seq<char>,
    pub name: Seq<char>,
    pub books: Seq<BookV>,
    pub greek: Map<usize, EntryV>,
    pub hebrew: Map<usize, EntryV>,
}

pub struct EntryV {
    pub variants: Seq<VariantV>,
    pub refs: Seq<VerseRefV>,
}

pub struct VariantV {
    pub variant: Seq<char>,
    pub count: int,
}

pub struct BookV {
    pub nr: int,
    pub name: Seq<char>,
    pub chapters: Seq<ChapterV>,
}

pub struct ChapterV {
    pub chapter: int,
    pub verses: Seq<VerseV>,
}

pub struct VerseV {
    pub verse: int,
    pub chunks: Seq<ChunkV>,
}

pub struct VerseRefV {
    pub book: int,
    pub chapter: int,
    pub verse: int,
    pub chunks: Option<Seq<ChunkV>>,
}

pub struct ChunkV {
    pub text: Seq<char>,
    pub strong: Option<StrongNumberV>,
}

pub struct StrongNumberV {
    pub number: int,
    pub grammar: Option<Seq<char>>,
}

impl View for StrongNumber {
    type V = StrongNumberV;

    open spec fn view(&self) -> StrongNumberV {
        StrongNumberV {
            number: self.number as int,
            grammar: match self.grammar {
                Some(g) => Some(g@),
                None => None,
            },
        }
    }
}

impl View for Chunk {
    type V = ChunkV;

    open spec fn view(&self) -> ChunkV {
        ChunkV {
            text: self.text@,
            strong: match self.strong {
                Some(s) => Some(s@),
                None => None,
            },
        }
    }
}

/// The views of a sequence of chunks.
pub open spec fn chunk_seq_view(s: Seq<Chunk>) -> Seq<ChunkV> {
    s.map_values(|c: Chunk| c@)
}

impl View for Verse {
    type V = VerseV;

    open spec fn view(&self) -> VerseV {
        VerseV { verse: self.verse as int, chunks: chunk_seq_view(self.chunks@) }
    }
}

/// The views of a sequence of verses.
pub open spec fn verse_seq_view(s: Seq<Verse>) -> Seq<VerseV> {
    s.map_values(|v: Verse| v@)
}

impl View for Chapter {
    type V = ChapterV;

    open spec fn view(&self) -> ChapterV {
        ChapterV { chapter: self.chapter as int, verses: verse_seq_view(self.verses@) }
    }
}

/// The views of a sequence of chapters.
pub open spec fn chapter_seq_view(s: Seq<Chapter>) -> Seq<ChapterV> {
    s.map_values(|c: Chapter| c@)
}

impl View for Book {
    type V = BookV;

    open spec fn view(&self) -> BookV {
        BookV { nr: self.nr as int, name: self.name@, chapters: chapter_seq_view(self.chapters@) }
    }
}

/// The views of a sequence of books.
pub open spec fn book_seq_view(s: Seq<Book>) -> Seq<BookV> {
    s.map_values(|b: Book| b@)
}

impl View for VerseRef {
    type V = VerseRefV;

    open spec fn view(&self) -> VerseRefV {
        VerseRefV {
            book: self.book as int,
            chapter: self.chapter as int,
            verse: self.verse as int,
            chunks: match self.chunks {
                Some(cs) => Some(chunk_seq_view(cs@)),
                None => None,
            },
        }
    }
}

/// The views of a sequence of verse references.
pub open spec fn ref_seq_view(s: Seq<VerseRef>) -> Seq<VerseRefV> {
    s.map_values(|r: VerseRef| r@)
}

impl View for StrongVariant {
    type V = VariantV;

    open spec fn view(&self) -> VariantV {
        VariantV { variant: self.variant@, count: self.count as int }
    }
}

/// The views of a sequence of variants.
pub open spec fn variant_seq_view(s: Seq<StrongVariant>) -> Seq<VariantV> {
    s.map_values(|v: StrongVariant| v@)
}

impl View for StrongDictEntry {
    type V = EntryV;

    open spec fn view(&self) -> EntryV {
        EntryV { variants: variant_seq_view(self.variants@), refs: ref_seq_view(self.refs@) }
    }
}

/// The view of a concordance: each entry replaced by its view.
pub open spec fn dict_view(m: Map<usize, StrongDictEntry>) -> Map<usize, EntryV> {
    Map::new(|k: usize| m.dom().contains(k), |k: usize| m[k]@)
}

impl View for Bible {
    type V = BibleV;

    open spec fn view(&self) -> BibleV {
        BibleV {
            identifier: self.identifier@,
            name: self.name@,
            books: book_seq_view(self.books@),
            greek: dict_view(self.greek_strong_dict@),
            hebrew: dict_view(self.hebrew_strong_dict@),
        }
    }
}

impl View for Translation {
    type V = TranslationV;

    open spec fn view(&self) -> TranslationV {
        TranslationV { identifier: self.identifier@, name: self.name@ }
    }
}

// Index-based lookup and find-or-insert, at the level of the models.

/// A book as `Book::new` creates it: the given index, an empty name, no
/// chapters.
pub open spec fn new_book_v(nr: int) -> BookV {
    BookV { nr: nr, name: Seq::empty(), chapters: Seq::empty() }
}

/// A chapter as `Chapter::new` creates it.
pub open spec fn new_chapter_v(c: int) -> ChapterV {
    ChapterV { chapter: c, verses: Seq::empty() }
}

/// A verse as `Verse::new` creates it.
pub open spec fn new_verse_v(v: int) -> VerseV {
    VerseV { verse: v, chunks: Seq::empty() }
}

/// First position at or after `from` of a book with the given index.
pub open spec fn book_idx_from(s: Seq<BookV>, nr: int, from: int) -> Option<int>
    decreases s.len() - from,
{
    if from >= s.len() {
        None
    } else if s[from].nr == nr {
        Some(from)
    } else {
        book_idx_from(s, nr, from + 1)
    }
}

/// First position of a book with the given index.
pub open spec fn book_idx(s: Seq<BookV>, nr: int) -> Option<int> {
    book_idx_from(s, nr, 0)
}

/// The books after find-or-insert of the given index: unchanged if present,
/// else extended by a fresh book.
pub open spec fn fi_books(s: Seq<BookV>, nr: int) -> Seq<BookV> {
    match book_idx(s, nr) {
        Some(_) => s,
        None => s.push(new_book_v(nr)),
    }
}

/// The position of the book with the given index after find-or-insert.
pub open spec fn fi_book_at(s: Seq<BookV>, nr: int) -> int {
    match book_idx(s, nr) {
        Some(i) => i,
        None => s.len() as int,
    }
}

/// First position at or after `from` of a chapter with the given index.
pub open spec fn chapter_idx_from(s: Seq<ChapterV>, c: int, from: int) -> Option<int>
    decreases s.len() - from,
{
    if from >= s.len() {
        None
    } else if s[from].chapter == c {
        Some(from)
    } else {
        chapter_idx_from(s, c, from + 1)
    }
}

/// First position of a chapter with the given index.
pub open spec fn chapter_idx(s: Seq<ChapterV>, c: int) -> Option<int> {
    chapter_idx_from(s, c, 0)
}

/// The chapters after find-or-insert of the given index.
pub open spec fn fi_chapters(s: Seq<ChapterV>, c: int) -> Seq<ChapterV> {
    match chapter_idx(s, c) {
        Some(_) => s,
        None => s.push(new_chapter_v(c)),
    }
}

/// The position of the chapter with the given index after find-or-insert.
pub open spec fn fi_chapter_at(s: Seq<ChapterV>, c: int) -> int {
    match chapter_idx(s, c) {
        Some(i) => i,
        None => s.len() as int,
    }
}

/// First position at or after `from` of a verse with the given index.
pub open spec fn verse_idx_from(s: Seq<VerseV>, v: int, from: int) -> Option<int>
    decreases s.len() - from,
{
    if from >= s.len() {
        None
    } else if s[from].verse == v {
        Some(from)
    } else {
        verse_idx_from(s, v, from + 1)
    }
}

/// First position of a verse with the given index.
pub open spec fn verse_idx(s: Seq<VerseV>, v: int) -> Option<int> {
    verse_idx_from(s, v, 0)
}

/// The verses after find-or-insert of the given index.
pub open spec fn fi_verses(s: Seq<VerseV>, v: int) -> Seq<VerseV> {
    match verse_idx(s, v) {
        Some(_) => s,
        None => s.push(new_verse_v(v)),
    }
}

/// The position of the verse with the given index after find-or-insert.
pub open spec fn fi_verse_at(s: Seq<VerseV>, v: int) -> int {
    match verse_idx(s, v) {
        Some(i) => i,
        None => s.len() as int,
    }
}

// Read-side lookup, mirroring the executable getters: books are found by
// their stored index, chapters and verses by position.

/// The book with the given stored index, if any.
pub open spec fn spec_get_book(bv: BibleV, book: int) -> Option<BookV> {
    match book_idx(bv.books, book) {
        Some(i) => Some(bv.books[i]),
        None => None,
    }
}

/// The chapter at the given position of the given book, if any.
pub open spec fn spec_get_chapter(bv: BibleV, book: int, chapter: int) -> Option<ChapterV> {
    match spec_get_book(bv, book) {
        Some(b) => if 0 <= chapter < b.chapters.len() {
            Some(b.chapters[chapter])
        } else {
            None
        },
        None => None,
    }
}

/// The verse at the given position of the given chapter, if any.
pub open spec fn spec_get_verse(bv: BibleV, book: int, chapter: int, verse: int) -> Option<VerseV> {
    match spec_get_chapter(bv, book, chapter) {
        Some(c) => if 0 <= verse < c.verses.len() {
            Some(c.verses[verse])
        } else {
            None
        },
        None => None,
    }
}

// Lookup and update along a find-or-insert path, at the level of the models.

/// The chapter reached by find-or-insert of `b` then `c`.
pub open spec fn fi_chapter_path(bv: BibleV, b: int, c: int) -> ChapterV {
    let bk = fi_books(bv.books, b)[fi_book_at(bv.books, b)];
    fi_chapters(bk.chapters, c)[fi_chapter_at(bk.chapters, c)]
}

/// The document after find-or-insert of `b` then `c`, with the reached
/// chapter replaced by `ch`.
pub open spec fn set_chapter_path(bv: BibleV, b: int, c: int, ch: ChapterV) -> BibleV {
    let i = fi_book_at(bv.books, b);
    let bk = fi_books(bv.books, b)[i];
    let j = fi_chapter_at(bk.chapters, c);
    BibleV {
        books: fi_books(bv.books, b).update(
            i,
            BookV { chapters: fi_chapters(bk.chapters, c).update(j, ch), ..bk },
        ),
        ..bv
    }
}

/// The verse reached by find-or-insert of `b`, `c`, then `v`.
pub open spec fn fi_verse_path(bv: BibleV, b: int, c: int, v: int) -> VerseV {
    let ch = fi_chapter_path(bv, b, c);
    fi_verses(ch.verses, v)[fi_verse_at(ch.verses, v)]
}

/// The document after find-or-insert of `b`, `c`, then `v`, with the
/// reached verse replaced by `nv`.
pub open spec fn set_verse_path(bv: BibleV, b: int, c: int, v: int, nv: VerseV) -> BibleV {
    let ch = fi_chapter_path(bv, b, c);
    let k = fi_verse_at(ch.verses, v);
    set_chapter_path(bv, b, c, ChapterV { verses: fi_verses(ch.verses, v).update(k, nv), ..ch })
}

/// The texts of the chunks joined by single spaces, in order.
pub open spec fn join_texts(cs: Seq<ChunkV>) -> Seq<char>
    decreases cs.len(),
{
    if cs.len() == 0 {
        Seq::empty()
    } else if cs.len() == 1 {
        cs[0].text
    } else {
        join_texts(cs.drop_last()) + seq![' '] + cs.last().text
    }
}

/// The display form of a verse reference: the compact coordinate
/// `book_chapter_verse`, followed by the chunk texts when a snapshot is
/// attached.
pub open spec fn ref_str(rv: VerseRefV) -> Seq<char> {
    let base = crate::text::dec_rep(rv.book) + seq!['_'] + crate::text::dec_rep(rv.chapter)
        + seq!['_'] + crate::text::dec_rep(rv.verse);
    match rv.chunks {
        None => base,
        Some(cs) => base + seq![':', ' '] + join_texts(cs),
    }
}

// The concordance builder, at the level of the models.

/// First position at or after `from` of a variant spelled `t`.
pub open spec fn variant_idx_from(s: Seq<VariantV>, t: Seq<char>, from: int) -> Option<int>
    decreases s.len() - from,
{
    if from >= s.len() {
        None
    } else if s[from].variant == t {
        Some(from)
    } else {
        variant_idx_from(s, t, from + 1)
    }
}

/// First position of a variant spelled `t`.
pub open spec fn variant_idx(s: Seq<VariantV>, t: Seq<char>) -> Option<int> {
    variant_idx_from(s, t, 0)
}

/// The variants after one occurrence spelled `t`: a matching variant's
/// count grows by one, else a new variant with count one is appended.
pub open spec fn bump_variant(s: Seq<VariantV>, t: Seq<char>) -> Seq<VariantV> {
    match variant_idx(s, t) {
        Some(i) => s.update(i, VariantV { variant: t, count: s[i].count + 1 }),
        None => s.push(VariantV { variant: t, count: 1 }),
    }
}

/// An entry with no variants and no references.
pub open spec fn empty_entry() -> EntryV {
    EntryV { variants: Seq::empty(), refs: Seq::empty() }
}

/// The entry stored under `k`, or an empty one.
pub open spec fn entry_or_empty(m: Map<usize, EntryV>, k: usize) -> EntryV {
    if m.contains_key(k) {
        m[k]
    } else {
        empty_entry()
    }
}

/// One registration applied to an entry: the (already lowercased) spelling
/// is counted among the variants, and the coordinate is appended to the
/// reference log, which therefore grows by exactly one.
pub open spec fn entry_register(e: EntryV, t: Seq<char>, r: VerseRefV) -> EntryV {
    EntryV { variants: bump_variant(e.variants, t), refs: e.refs.push(r) }
}

/// The document after registering one occurrence of lexicon number `n`
/// spelled `text` at coordinate `r`: coordinates with a book index below
/// the boundary feed the hebrew (primary) concordance, the others the
/// greek (secondary) one.
pub open spec fn register(bv: BibleV, n: int, text: Seq<char>, r: VerseRefV) -> BibleV {
    let k = n as usize;
    let t = lower_of(text);
    if r.book < BOUNDARY as int {
        BibleV {
            hebrew: bv.hebrew.insert(k, entry_register(entry_or_empty(bv.hebrew, k), t, r)),
            ..bv
        }
    } else {
        BibleV {
            greek: bv.greek.insert(k, entry_register(entry_or_empty(bv.greek, k), t, r)),
            ..bv
        }
    }
}

/// The stored coordinates re-resolved against a document: every coordinate
/// that still names a verse is kept, in order, enriched with that verse's
/// full chunk list; the others are dropped.
pub open spec fn expand_refs(refs: Seq<VerseRefV>, bv: BibleV) -> Seq<VerseRefV>
    decreases refs.len(),
{
    if refs.len() == 0 {
        Seq::empty()
    } else {
        let rest = expand_refs(refs.drop_last(), bv);
        let r = refs.last();
        match spec_get_verse(bv, r.book, r.chapter, r.verse) {
            Some(v) => rest.push(
                VerseRefV {
                    book: r.book,
                    chapter: r.chapter,
                    verse: r.verse,
                    chunks: Some(v.chunks),
                },
            ),
            None => rest,
        }
    }
}

/// The read-side projection of an entry: the variants copied unchanged, the
/// references re-resolved against the document.
pub open spec fn expand_entry(e: EntryV, bv: BibleV) -> EntryV {
    EntryV { variants: e.variants, refs: expand_refs(e.refs, bv) }
}

/// Well-formedness of an entry: every variant was seen at least once, and
/// no variant was seen more often than the entry has references.
pub open spec fn entry_wf(e: EntryV) -> bool {
    forall|i: int| 0 <= i < e.variants.len() ==> 1 <= (#[trigger] e.variants[i]).count
        <= e.refs.len()
}

/// Well-formedness of a concordance: every entry is well formed.
pub open spec fn dict_wf(m: Map<usize, EntryV>) -> bool {
    forall|k: usize| m.contains_key(k) ==> entry_wf(#[trigger] m[k])
}

/// Well-formedness of a document: both concordances are well formed.
pub open spec fn bible_wf(bv: BibleV) -> bool {
    dict_wf(bv.hebrew) && dict_wf(bv.greek)
}

/// A found variant position lies within the sequence and names a variant
/// with the looked-up spelling.
pub proof fn lemma_variant_idx_bounds(s: Seq<VariantV>, t: Seq<char>, from: int)
    requires
        0 <= from,
    ensures
        match variant_idx_from(s, t, from) {
            Some(i) => from <= i < s.len() && s[i].variant == t,
            None => true,
        },
    decreases s.len() - from,
{
    if from < s.len() && s[from].variant != t {
        lemma_variant_idx_bounds(s, t, from + 1);
    }
}

proof fn lemma_entry_register_wf(e: EntryV, t: Seq<char>, r: VerseRefV)
    requires
        entry_wf(e),
    ensures
        entry_wf(entry_register(e, t, r)),
{
    let e1 = entry_register(e, t, r);
    lemma_variant_idx_bounds(e.variants, t, 0);
    assert forall|i: int| 0 <= i < e1.variants.len() implies 1 <= (#[trigger] e1.variants[i]).count
        <= e1.refs.len() by {
        match variant_idx(e.variants, t) {
            Some(j) => {
                assert(e1.variants == e.variants.update(
                    j,
                    VariantV { variant: t, count: e.variants[j].count + 1 },
                ));
                if i != j {
                    assert(e1.variants[i] == e.variants[i]);
                }
            },
            None => {
                assert(e1.variants == e.variants.push(VariantV { variant: t, count: 1 }));
                if i < e.variants.len() {
                    assert(e1.variants[i] == e.variants[i]);
                }
            },
        }
    }
}

/// Registration preserves the well-formedness of a document.
pub proof fn lemma_register_wf(bv: BibleV, n: int, text: Seq<char>, r: VerseRefV)
    requires
        bible_wf(bv),
    ensures
        bible_wf(register(bv, n, text, r)),
{
    let k = n as usize;
    let t = lower_of(text);
    if r.book < BOUNDARY as int {
        assert(entry_wf(entry_or_empty(bv.hebrew, k)));
        lemma_entry_register_wf(entry_or_empty(bv.hebrew, k), t, r);
        lemma_dict_wf_insert(bv.hebrew, k, entry_register(entry_or_empty(bv.hebrew, k), t, r));
    } else {
        assert(entry_wf(entry_or_empty(bv.greek, k)));
        lemma_entry_register_wf(entry_or_empty(bv.greek, k), t, r);
        lemma_dict_wf_insert(bv.greek, k, entry_register(entry_or_empty(bv.greek, k), t, r));
    }
}

proof fn lemma_dict_wf_insert(m: Map<usize, EntryV>, k: usize, e: EntryV)
    requires
        dict_wf(m),
        entry_wf(e),
    ensures
        dict_wf(m.insert(k, e)),
{
    assert forall|k2: usize| m.insert(k, e).contains_key(k2) implies entry_wf(
        #[trigger] m.insert(k, e)[k2],
    ) by {
        if k2 != k {
            assert(m.contains_key(k2));
        }
    }
}

/// Finds the position of the variant spelled like `t`, if any.
fn find_variant(variants: &Vec<StrongVariant>, t: &String) -> (r: Option<usize>)
    ensures
        match r {
            Some(i) => i < variants@.len() && variant_idx(variant_seq_view(variants@), t@) == Some(
                i as int,
            ),
            None => variant_idx(variant_seq_view(variants@), t@) is None,
        },
{
    let n = variants.len();
    let mut i: usize = 0;
    while i < n
        invariant
            n == variants.len(),
            0 <= i <= n,
            variant_idx(variant_seq_view(variants@), t@) == variant_idx_from(
                variant_seq_view(variants@),
                t@,
                i as int,
            ),
        decreases n - i,
    {
        if variants[i].variant == *t {
            proof {
                assert(variant_seq_view(variants@)[i as int].variant == t@);
            }
            return Some(i);
        }
        proof {
            assert(variant_seq_view(variants@)[i as int].variant == variants@[i as int].variant@);
        }
        i = i + 1;
    }
    None
}

// Laws of the model: what find-or-insert and registration guarantee.

proof fn lemma_book_idx_push(s: Seq<BookV>, nr: int, from: int)
    requires
        0 <= from <= s.len(),
        book_idx_from(s, nr, from) is None,
    ensures
        book_idx_from(s.push(new_book_v(nr)), nr, from) == Some(s.len() as int),
    decreases s.len() - from,
{
    if from < s.len() {
        lemma_book_idx_push(s, nr, from + 1);
    }
}

/// Find-or-insert of a book index never creates a duplicate sibling: an
/// index already present leaves the books unchanged, a fresh index appends
/// exactly one book, and a second find-or-insert of the same index finds
/// the same position and changes nothing.
pub proof fn lemma_fi_books_idempotent(s: Seq<BookV>, nr: int)
    ensures
        book_idx(s, nr) is Some ==> fi_books(s, nr) == s,
        book_idx(s, nr) is None ==> fi_books(s, nr) == s.push(new_book_v(nr)),
        book_idx(fi_books(s, nr), nr) == Some(fi_book_at(s, nr)),
        fi_books(fi_books(s, nr), nr) == fi_books(s, nr),
        fi_book_at(fi_books(s, nr), nr) == fi_book_at(s, nr),
{
    if book_idx(s, nr) is None {
        lemma_book_idx_push(s, nr, 0);
    }
}

proof fn lemma_chapter_idx_push(s: Seq<ChapterV>, c: int, from: int)
    requires
        0 <= from <= s.len(),
        chapter_idx_from(s, c, from) is None,
    ensures
        chapter_idx_from(s.push(new_chapter_v(c)), c, from) == Some(s.len() as int),
    decreases s.len() - from,
{
    if from < s.len() {
        lemma_chapter_idx_push(s, c, from + 1);
    }
}

/// Find-or-insert of a chapter index never creates a duplicate sibling
/// within its book.
pub proof fn lemma_fi_chapters_idempotent(s: Seq<ChapterV>, c: int)
    ensures
        chapter_idx(s, c) is Some ==> fi_chapters(s, c) == s,
        chapter_idx(s, c) is None ==> fi_chapters(s, c) == s.push(new_chapter_v(c)),
        chapter_idx(fi_chapters(s, c), c) == Some(fi_chapter_at(s, c)),
        fi_chapters(fi_chapters(s, c), c) == fi_chapters(s, c),
        fi_chapter_at(fi_chapters(s, c), c) == fi_chapter_at(s, c),
{
    if chapter_idx(s, c) is None {
        lemma_chapter_idx_push(s, c, 0);
    }
}

proof fn lemma_verse_idx_push(s: Seq<VerseV>, v: int, from: int)
    requires
        0 <= from <= s.len(),
        verse_idx_from(s, v, from) is None,
    ensures
        verse_idx_from(s.push(new_verse_v(v)), v, from) == Some(s.len() as int),
    decreases s.len() - from,
{
    if from < s.len() {
        lemma_verse_idx_push(s, v, from + 1);
    }
}

/// Find-or-insert of a verse index never creates a duplicate sibling
/// within its chapter.
pub proof fn lemma_fi_verses_idempotent(s: Seq<VerseV>, v: int)
    ensures
        verse_idx(s, v) is Some ==> fi_verses(s, v) == s,
        verse_idx(s, v) is None ==> fi_verses(s, v) == s.push(new_verse_v(v)),
        verse_idx(fi_verses(s, v), v) == Some(fi_verse_at(s, v)),
        fi_verses(fi_verses(s, v), v) == fi_verses(s, v),
        fi_verse_at(fi_verses(s, v), v) == fi_verse_at(s, v),
{
    if verse_idx(s, v) is None {
        lemma_verse_idx_push(s, v, 0);
    }
}

/// An entry built by registering the same (already lowercased) spelling
/// `k` times over, starting from `e`.
pub open spec fn register_times(e: EntryV, t: Seq<char>, r: VerseRefV, k: nat) -> EntryV
    decreases k,
{
    if k == 0 {
        e
    } else {
        entry_register(register_times(e, t, r, (k - 1) as nat), t, r)
    }
}

/// Registering the same spelling `k` times into an empty entry yields one
/// single variant counted exactly `k` times, while the reference log grows
/// by exactly one entry per registration, so holds exactly `k` coordinates.
pub proof fn lemma_register_same_pair(t: Seq<char>, r: VerseRefV, k: nat)
    ensures
        register_times(empty_entry(), t, r, k).refs.len() == k,
        k > 0 ==> register_times(empty_entry(), t, r, k).variants == seq![
            VariantV { variant: t, count: k as int },
        ],
    decreases k,
{
    if k > 0 {
        lemma_register_same_pair(t, r, (k - 1) as nat);
        let prev = register_times(empty_entry(), t, r, (k - 1) as nat);
        if k == 1 {
            assert(variant_idx(prev.variants, t) is None);
            assert(register_times(empty_entry(), t, r, k).variants =~= seq![
                VariantV { variant: t, count: 1 },
            ]);
        } else {
            assert(prev.variants == seq![VariantV { variant: t, count: k - 1 }]);
            assert(prev.variants[0].variant == t);
            assert(variant_idx(prev.variants, t) == Some::<int>(0));
            assert(register_times(empty_entry(), t, r, k).variants =~= seq![
                VariantV { variant: t, count: k as int },
            ]);
        }
    }
}

/// A document after a sequence of registrations, applied in order.
pub open spec fn register_all(bv: BibleV, ops: Seq<RegOp>) -> BibleV
    decreases ops.len(),
{
    if ops.len() == 0 {
        bv
    } else {
        let op = ops.last();
        register(register_all(bv, ops.drop_last()), op.n, op.text, op.coord)
    }
}

/// One registration: a lexicon number, the raw spelling, and the
/// coordinate of the occurrence.
pub struct RegOp {
    pub n: int,
    pub text: Seq<char>,
    pub coord: VerseRefV,
}

proof fn lemma_register_rep_entry(bv: BibleV, n: int, text: Seq<char>, r: VerseRefV, k: nat)
    requires
        0 < k,
        r.book < BOUNDARY as int ==> !bv.hebrew.contains_key(n as usize),
        r.book >= BOUNDARY as int ==> !bv.greek.contains_key(n as usize),
    ensures
        r.book < BOUNDARY as int ==> register_all(
            bv,
            Seq::new(k, |i: int| RegOp { n: n, text: text, coord: r }),
        ).hebrew == bv.hebrew.insert(
            n as usize,
            register_times(empty_entry(), lower_of(text), r, k),
        ),
        r.book >= BOUNDARY as int ==> register_all(
            bv,
            Seq::new(k, |i: int| RegOp { n: n, text: text, coord: r }),
        ).greek == bv.greek.insert(
            n as usize,
            register_times(empty_entry(), lower_of(text), r, k),
        ),
    decreases k,
{
    let ops = Seq::new(k, |i: int| RegOp { n: n, text: text, coord: r });
    let key = n as usize;
    let t = lower_of(text);
    if k == 1 {
        assert(ops.drop_last() =~= Seq::<RegOp>::empty());
        assert(register_all(bv, ops.drop_last()) == bv);
        assert(entry_or_empty(if r.book < BOUNDARY as int {
            bv.hebrew
        } else {
            bv.greek
        }, key) == empty_entry());
        assert(register_times(empty_entry(), t, r, 1) == entry_register(empty_entry(), t, r));
    } else {
        lemma_register_rep_entry(bv, n, text, r, (k - 1) as nat);
        let prev_ops = Seq::new((k - 1) as nat, |i: int| RegOp { n: n, text: text, coord: r });
        assert(ops.drop_last() =~= prev_ops);
        let mid = register_all(bv, prev_ops);
        let e_prev = register_times(empty_entry(), t, r, (k - 1) as nat);
        if r.book < BOUNDARY as int {
            assert(mid.hebrew == bv.hebrew.insert(key, e_prev));
            assert(entry_or_empty(mid.hebrew, key) == e_prev);
            assert(register_all(bv, ops).hebrew == mid.hebrew.insert(
                key,
                entry_register(e_prev, t, r),
            ));
            assert(bv.hebrew.insert(key, e_prev).insert(key, entry_register(e_prev, t, r))
                =~= bv.hebrew.insert(key, entry_register(e_prev, t, r)));
        } else {
            assert(mid.greek == bv.greek.insert(key, e_prev));
            assert(entry_or_empty(mid.greek, key) == e_prev);
            assert(register_all(bv, ops).greek == mid.greek.insert(
                key,
                entry_register(e_prev, t, r),
            ));
            assert(bv.greek.insert(key, e_prev).insert(key, entry_register(e_prev, t, r))
                =~= bv.greek.insert(key, entry_register(e_prev, t, r)));
        }
    }
}

/// Registering the same (lexicon number, text) pair `k` times over, at one
/// coordinate, into a document whose routed concordance has not yet seen
/// the number: the resulting entry holds exactly one variant, counted `k`
/// times, while its reference log grew by exactly one entry per
/// registration and so holds exactly `k` coordinates.
pub proof fn lemma_register_pair_k_times(bv: BibleV, n: int, text: Seq<char>, r: VerseRefV, k: nat)
    requires
        0 < k,
        r.book < BOUNDARY as int ==> !bv.hebrew.contains_key(n as usize),
        r.book >= BOUNDARY as int ==> !bv.greek.contains_key(n as usize),
    ensures
        ({
            let fin = register_all(bv, Seq::new(k, |i: int| RegOp { n: n, text: text, coord: r }));
            let d = if r.book < BOUNDARY as int {
                fin.hebrew
            } else {
                fin.greek
            };
            d.contains_key(n as usize) && d[n as usize].refs.len() == k && d[n as usize].variants
                == seq![VariantV { variant: lower_of(text), count: k as int }]
        }),
{
    lemma_register_rep_entry(bv, n, text, r, k);
    lemma_register_same_pair(lower_of(text), r, k);
}

/// A lexicon number appears in the primary (hebrew) concordance iff it was
/// already there or some registration carries it with a book index below
/// the boundary; it appears in the secondary (greek) concordance iff it
/// was already there or some registration carries it with a book index at
/// or above the boundary.
pub proof fn lemma_concordance_routing(bv: BibleV, ops: Seq<RegOp>, key: usize)
    ensures
        register_all(bv, ops).hebrew.contains_key(key) <==> bv.hebrew.contains_key(key) || exists|
            i: int,
        |
            0 <= i < ops.len() && (#[trigger] ops[i]).n as usize == key && ops[i].coord.book
                < BOUNDARY as int,
        register_all(bv, ops).greek.contains_key(key) <==> bv.greek.contains_key(key) || exists|
            i: int,
        |
            0 <= i < ops.len() && (#[trigger] ops[i]).n as usize == key && ops[i].coord.book
                >= BOUNDARY as int,
    decreases ops.len(),
{
    if ops.len() > 0 {
        lemma_concordance_routing(bv, ops.drop_last(), key);
        let prefix = ops.drop_last();
        let op = ops.last();
        assert(forall|i: int| 0 <= i < prefix.len() ==> prefix[i] == ops[i]);
        let mid = register_all(bv, prefix);
        let fin = register_all(bv, ops);
        if op.coord.book < BOUNDARY as int {
            assert(fin.hebrew == mid.hebrew.insert(
                op.n as usize,
                entry_register(
                    entry_or_empty(mid.hebrew, op.n as usize),
                    lower_of(op.text),
                    op.coord,
                ),
            ));
            assert(fin.greek == mid.greek);
        } else {
            assert(fin.greek == mid.greek.insert(
                op.n as usize,
                entry_register(
                    entry_or_empty(mid.greek, op.n as usize),
                    lower_of(op.text),
                    op.coord,
                ),
            ));
            assert(fin.hebrew == mid.hebrew);
        }
        if fin.hebrew.contains_key(key) && !bv.hebrew.contains_key(key) {
            if op.coord.book < BOUNDARY as int && op.n as usize == key {
                assert(0 <= ops.len() - 1 < ops.len() && ops[ops.len() - 1].n as usize == key
                    && ops[ops.len() - 1].coord.book < BOUNDARY as int);
            } else {
                assert(mid.hebrew.contains_key(key));
            }
        }
        if fin.greek.contains_key(key) && !bv.greek.contains_key(key) {
            if op.coord.book >= BOUNDARY as int && op.n as usize == key {
                assert(0 <= ops.len() - 1 < ops.len() && ops[ops.len() - 1].n as usize == key
                    && ops[ops.len() - 1].coord.book >= BOUNDARY as int);
            } else {
                assert(mid.greek.contains_key(key));
            }
        }
        if exists|i: int|
            0 <= i < ops.len() && (#[trigger] ops[i]).n as usize == key && ops[i].coord.book
                < BOUNDARY as int {
            let i = choose|i: int|
                0 <= i < ops.len() && (#[trigger] ops[i]).n as usize == key && ops[i].coord.book
                    < BOUNDARY as int;
            if i < ops.len() - 1 {
                assert(0 <= i < prefix.len() && (#[trigger] prefix[i]).n as usize == key
                    && prefix[i].coord.book < BOUNDARY as int);
            }
        }
        if exists|i: int|
            0 <= i < ops.len() && (#[trigger] ops[i]).n as usize == key && ops[i].coord.book
                >= BOUNDARY as int {
            let i = choose|i: int|
                0 <= i < ops.len() && (#[trigger] ops[i]).n as usize == key && ops[i].coord.book
                    >= BOUNDARY as int;
            if i < ops.len() - 1 {
                assert(0 <= i < prefix.len() && (#[trigger] prefix[i]).n as usize == key
                    && prefix[i].coord.book >= BOUNDARY as int);
            }
        }
    }
}

// A small helper: a mutable borrow of one vector element, with the final
// vector expressed through the final value of the borrow.

fn vec_mut<T>(v: &mut Vec<T>, i: usize) -> (element: &mut T)
    requires
        i < old(v).len(),
    ensures
        *element == old(v)@[i as int],
        final(v)@ == old(v)@.update(i as int, *final(element)),
{
    &mut v[i]
}

impl PartialEq for Book {
    fn eq(&self, other: &Self) -> (r: bool) {
        self.nr == other.nr
    }
}

impl vstd::std_specs::cmp::PartialEqSpecImpl for Book {
    open spec fn obeys_eq_spec() -> bool {
        true
    }

    open spec fn eq_spec(&self, other: &Book) -> bool {
        self.nr == other.nr
    }
}

impl PartialEq for Chapter {
    fn eq(&self, other: &Self) -> (r: bool) {
        self.chapter == other.chapter
    }
}

impl vstd::std_specs::cmp::PartialEqSpecImpl for Chapter {
    open spec fn obeys_eq_spec() -> bool {
        true
    }

    open spec fn eq_spec(&self, other: &Chapter) -> bool {
        self.chapter == other.chapter
    }
}

impl PartialEq for Verse {
    fn eq(&self, other: &Self) -> (r: bool) {
        self.verse == other.verse
    }
}

impl vstd::std_specs::cmp::PartialEqSpecImpl for Verse {
    open spec fn obeys_eq_spec() -> bool {
        true
    }

    open spec fn eq_spec(&self, other: &Verse) -> bool {
        self.verse == other.verse
    }
}

impl Book {
    /// A fresh book with the given 0-based index.
    pub fn new(book: usize) -> (r: Book)
        ensures
            r@ == new_book_v(book as int),
    {
        let r = Book { nr: book, name: "", chapters: vec![] };
        proof {
            reveal_strlit("");
            assert(r@.name =~= Seq::<char>::empty());
            assert(r@.chapters =~= Seq::<ChapterV>::empty());
        }
        r
    }

    /// Appends a chapter with the given 0-based index.
    pub fn add_chapter(&mut self, chapter: usize)
        ensures
            final(self)@ == (BookV {
                chapters: old(self)@.chapters.push(new_chapter_v(chapter as int)),
                ..old(self)@
            }),
    {
        self.chapters.push(Chapter::new(chapter));
        proof {
            assert(chapter_seq_view(self.chapters@) =~= old(self)@.chapters.push(
                new_chapter_v(chapter as int),
            ));
        }
    }

    /// The chapter of this book whose index was asked for, created first if
    /// it was absent.
    pub fn get_chapter_mut(&mut self, chapter: usize) -> (r: &mut Chapter)
        ensures
            (*r)@ == fi_chapters(old(self)@.chapters, chapter as int)[fi_chapter_at(
                old(self)@.chapters,
                chapter as int,
            )],
            final(self)@ == (BookV {
                chapters: fi_chapters(old(self)@.chapters, chapter as int).update(
                    fi_chapter_at(old(self)@.chapters, chapter as int),
                    (*final(r))@,
                ),
                ..old(self)@
            }),
    {
        let n = self.chapters.len();
        let mut i: usize = 0;
        while i < n
            invariant
                *self == *old(self),
                n == self.chapters.len(),
                0 <= i <= n,
                chapter_idx(self@.chapters, chapter as int) == chapter_idx_from(
                    self@.chapters,
                    chapter as int,
                    i as int,
                ),
            decreases n - i,
        {
            if self.chapters[i].chapter == chapter {
                proof {
                    assert(chapter_idx(self@.chapters, chapter as int) == Some(i as int));
                }
                let r = vec_mut(&mut self.chapters, i);
                proof {
                    assert(chapter_seq_view(old(self).chapters@.update(i as int, *final(r))) =~=
                        chapter_seq_view(old(self).chapters@).update(i as int, (*final(r))@));
                }
                return r;
            }
            i = i + 1;
        }
        proof {
            assert(chapter_idx(self@.chapters, chapter as int) is None);
        }
        self.chapters.push(Chapter::new(chapter));
        let ghost mid: Seq<Chapter> = self.chapters@;
        proof {
            assert(chapter_seq_view(mid) =~= chapter_seq_view(old(self).chapters@).push(
                new_chapter_v(chapter as int),
            ));
        }
        let last = self.chapters.len() - 1;
        let r = vec_mut(&mut self.chapters, last);
        proof {
            assert(chapter_seq_view(mid.update(last as int, *final(r))) =~= chapter_seq_view(
                mid,
            ).update(last as int, (*final(r))@));
        }
        r
    }

    /// Ensures a chapter with the given index exists: appends a fresh one
    /// if none is present.
    pub fn find_or_add_chapter(&mut self, chapter: usize)
        ensures
            final(self)@ == (BookV {
                chapters: fi_chapters(old(self)@.chapters, chapter as int),
                ..old(self)@
            }),
    {
        let n = self.chapters.len();
        let mut i: usize = 0;
        while i < n
            invariant
                *self == *old(self),
                n == self.chapters.len(),
                0 <= i <= n,
                chapter_idx(self@.chapters, chapter as int) == chapter_idx_from(
                    self@.chapters,
                    chapter as int,
                    i as int,
                ),
            decreases n - i,
        {
            if self.chapters[i].chapter == chapter {
                proof {
                    assert(chapter_idx(self@.chapters, chapter as int) == Some(i as int));
                }
                return ;
            }
            i = i + 1;
        }
        proof {
            assert(chapter_idx(self@.chapters, chapter as int) is None);
        }
        self.chapters.push(Chapter::new(chapter));
        proof {
            assert(chapter_seq_view(self.chapters@) =~= chapter_seq_view(old(self).chapters@).push(
                new_chapter_v(chapter as int),
            ));
        }
    }

    /// The chapter at the given position, or absent if it is out of range.
    pub fn get_chapter(&self, chapter: usize) -> (r: Option<&Chapter>)
        ensures
            match r {
                Some(c) => chapter < self@.chapters.len() && c@ == self@.chapters[chapter as int],
                None => chapter >= self@.chapters.len(),
            },
    {
        if self.chapters.len() > chapter {
            Some(&self.chapters[chapter])
        } else {
            None
        }
    }
}

impl Chapter {
    /// A fresh chapter with the given 0-based index.
    pub fn new(chapter: usize) -> (r: Chapter)
        ensures
            r@ == new_chapter_v(chapter as int),
    {
        let r = Chapter { chapter: chapter, verses: vec![] };
        proof {
            assert(verse_seq_view(r.verses@) =~= Seq::<VerseV>::empty());
        }
        r
    }

    /// Appends the given verse.
    pub fn add_verse(&mut self, verse: Verse)
        ensures
            final(self)@ == (ChapterV {
                verses: old(self)@.verses.push(verse@),
                ..old(self)@
            }),
    {
        self.verses.push(verse);
        proof {
            assert(verse_seq_view(self.verses@) =~= old(self)@.verses.push(verse@));
        }
    }

    /// The verse of this chapter whose index was asked for, created first if
    /// it was absent.
    pub fn get_verse_mut(&mut self, verse: usize) -> (r: &mut Verse)
        ensures
            (*r)@ == fi_verses(old(self)@.verses, verse as int)[fi_verse_at(
                old(self)@.verses,
                verse as int,
            )],
            final(self)@ == (ChapterV {
                verses: fi_verses(old(self)@.verses, verse as int).update(
                    fi_verse_at(old(self)@.verses, verse as int),
                    (*final(r))@,
                ),
                ..old(self)@
            }),
    {
        let n = self.verses.len();
        let mut i: usize = 0;
        while i < n
            invariant
                *self == *old(self),
                n == self.verses.len(),
                0 <= i <= n,
                verse_idx(self@.verses, verse as int) == verse_idx_from(
                    self@.verses,
                    verse as int,
                    i as int,
                ),
            decreases n - i,
        {
            if self.verses[i].verse == verse {
                proof {
                    assert(verse_idx(self@.verses, verse as int) == Some(i as int));
                }
                let r = vec_mut(&mut self.verses, i);
                proof {
                    assert(verse_seq_view(old(self).verses@.update(i as int, *final(r))) =~=
                        verse_seq_view(old(self).verses@).update(i as int, (*final(r))@));
                }
                return r;
            }
            i = i + 1;
        }
        proof {
            assert(verse_idx(self@.verses, verse as int) is None);
        }
        self.verses.push(Verse::new(verse));
        let ghost mid: Seq<Verse> = self.verses@;
        proof {
            assert(verse_seq_view(mid) =~= verse_seq_view(old(self).verses@).push(
                new_verse_v(verse as int),
            ));
        }
        let last = self.verses.len() - 1;
        let r = vec_mut(&mut self.verses, last);
        proof {
            assert(verse_seq_view(mid.update(last as int, *final(r))) =~= verse_seq_view(
                mid,
            ).update(last as int, (*final(r))@));
        }
        r
    }

    /// The verse at the given position, or absent if it is out of range.
    pub fn get_verse(&self, verse: usize) -> (r: Option<&Verse>)
        ensures
            match r {
                Some(v) => verse < self@.verses.len() && v@ == self@.verses[verse as int],
                None => verse >= self@.verses.len(),
            },
    {
        if self.verses.len() > verse {
            Some(&self.verses[verse])
        } else {
            None
        }
    }
}

/// Joins the texts of the chunks with single spaces, in order.
fn join_chunk_texts(chunks: &Vec<Chunk>) -> (r: String)
    ensures
        r@ == join_texts(chunk_seq_view(chunks@)),
{
    let ghost cv: Seq<ChunkV> = chunk_seq_view(chunks@);
    let mut s = String::new();
    let n = chunks.len();
    let mut i: usize = 0;
    while i < n
        invariant
            n == chunks.len(),
            cv == chunk_seq_view(chunks@),
            0 <= i <= n,
            s@ == join_texts(cv.take(i as int)),
        decreases n - i,
    {
        proof {
            reveal_strlit(" ");
            assert(" "@ =~= seq![' ']);
            assert(cv.take(i as int + 1).drop_last() =~= cv.take(i as int));
            assert(cv.take(i as int + 1).last() == cv[i as int]);
            if i == 0 {
                assert(join_texts(cv.take(1)) == cv.take(1)[0].text);
            }
        }
        if i > 0 {
            s.append(" ");
        }
        s.append(chunks[i].text.as_str());
        i = i + 1;
    }
    proof {
        assert(cv.take(n as int) =~= cv);
    }
    s
}

impl Verse {
    /// A fresh verse with the given 0-based index.
    pub fn new(verse: usize) -> (r: Verse)
        ensures
            r@ == new_verse_v(verse as int),
    {
        let r = Verse { verse: verse, chunks: vec![] };
        proof {
            assert(chunk_seq_view(r.chunks@) =~= Seq::<ChunkV>::empty());
        }
        r
    }

    /// Appends a plain chunk, unless the text is empty: a chunk is never
    /// created from empty text.
    pub fn add_chunk(&mut self, text: String)
        ensures
            text@.len() == 0 ==> final(self)@ == old(self)@,
            text@.len() > 0 ==> final(self)@ == (VerseV {
                chunks: old(self)@.chunks.push(ChunkV { text: text@, strong: None }),
                ..old(self)@
            }),
    {
        if !text.as_str().is_empty() {
            let ghost before: Seq<Chunk> = self.chunks@;
            let ghost tv: Seq<char> = text@;
            self.chunks.push(Chunk::new(text));
            proof {
                assert(chunk_seq_view(self.chunks@) =~= chunk_seq_view(before).push(
                    ChunkV { text: tv, strong: None },
                ));
            }
        }
    }

    /// Appends the given chunk, annotated or not.
    pub fn add_strong(&mut self, chunk: Chunk)
        ensures
            final(self)@ == (VerseV {
                chunks: old(self)@.chunks.push(chunk@),
                ..old(self)@
            }),
    {
        let ghost cv: ChunkV = chunk@;
        self.chunks.push(chunk);
        proof {
            assert(chunk_seq_view(self.chunks@) =~= chunk_seq_view(old(self).chunks@).push(cv));
        }
    }

    /// The display text of the verse: the chunk texts joined by single
    /// spaces, in original order.
    pub fn to_string(&self) -> (r: String)
        ensures
            r@ == join_texts(self@.chunks),
    {
        join_chunk_texts(&self.chunks)
    }

    /// A mutable borrow of the chunk at the given position, or absent if it
    /// is out of range.
    pub fn get_chunk_mut(&mut self, index: usize) -> (r: Option<&mut Chunk>)
        ensures
            index >= old(self)@.chunks.len() ==> r is None && final(self)@ == old(self)@,
            index < old(self)@.chunks.len() ==> match r {
                Some(c) => (*c)@ == old(self)@.chunks[index as int] && final(self)@ == (VerseV {
                    chunks: old(self)@.chunks.update(index as int, (*final(c))@),
                    ..old(self)@
                }),
                None => false,
            },
    {
        if self.chunks.len() > index {
            let c = vec_mut(&mut self.chunks, index);
            proof {
                assert(chunk_seq_view(old(self).chunks@.update(index as int, *final(c))) =~=
                    chunk_seq_view(old(self).chunks@).update(index as int, (*final(c))@));
            }
            Some(c)
        } else {
            None
        }
    }
}

impl Chunk {
    /// A plain chunk holding the given text.
    pub fn new(text: String) -> (r: Chunk)
        ensures
            r@ == (ChunkV { text: text@, strong: None }),
    {
        Chunk { text: text, strong: None }
    }

    /// A chunk annotated with a lexicon number and an optional grammatical
    /// code.
    pub fn new_strong(text: String, strong_number: i32, grammar: Option<String>) -> (r: Chunk)
        ensures
            r@ == (ChunkV {
                text: text@,
                strong: Some(
                    StrongNumberV {
                        number: strong_number as int,
                        grammar: match grammar {
                            Some(g) => Some(g@),
                            None => None,
                        },
                    },
                ),
            }),
    {
        Chunk { text: text, strong: Some(StrongNumber::new(strong_number, grammar)) }
    }

    /// The text of the chunk.
    pub fn to_string(&self) -> (r: String)
        ensures
            r@ == self@.text,
    {
        self.text.clone()
    }
}

impl StrongNumber {
    /// An annotation from a lexicon number and an optional grammatical code.
    pub fn new(number: i32, grammar: Option<String>) -> (r: StrongNumber)
        ensures
            r@ == (StrongNumberV {
                number: number as int,
                grammar: match grammar {
                    Some(g) => Some(g@),
                    None => None,
                },
            }),
    {
        StrongNumber { number: number, grammar: grammar }
    }
}

impl VerseRef {
    /// A bare coordinate, without a chunk snapshot.
    pub fn new(book: usize, chapter: usize, verse: usize) -> (r: Self)
        ensures
            r@ == (VerseRefV {
                book: book as int,
                chapter: chapter as int,
                verse: verse as int,
                chunks: None,
            }),
    {
        Self { book: book, chapter: chapter, verse: verse, chunks: None }
    }

    /// A coordinate enriched with a snapshot of the verse's chunks.
    pub fn new_with_chunks(book: usize, chapter: usize, verse: usize, chunks: Vec<Chunk>) -> (r:
        Self)
        ensures
            r@ == (VerseRefV {
                book: book as int,
                chapter: chapter as int,
                verse: verse as int,
                chunks: Some(chunk_seq_view(chunks@)),
            }),
    {
        Self { book: book, chapter: chapter, verse: verse, chunks: Some(chunks) }
    }

    /// The display form of the reference: the compact coordinate
    /// `book_chapter_verse`, with the chunk texts appended when a snapshot
    /// is attached.
    pub fn to_string(&self) -> (r: String)
        ensures
            r@ == ref_str(self@),
    {
        proof {
            reveal_strlit("_");
            assert("_"@ =~= seq!['_']);
            reveal_strlit(": ");
            assert(": "@ =~= seq![':', ' ']);
        }
        let mut s = crate::text::usize_to_string(self.book);
        s.append("_");
        let c = crate::text::usize_to_string(self.chapter);
        s.append(c.as_str());
        s.append("_");
        let v = crate::text::usize_to_string(self.verse);
        s.append(v.as_str());
        match &self.chunks {
            Some(cs) => {
                s.append(": ");
                let joined = join_chunk_texts(cs);
                s.append(joined.as_str());
            },
            None => {},
        }
        s
    }
}

/// A copy of a chunk, text and annotation alike.
pub(crate) fn clone_chunk(c: &Chunk) -> (r: Chunk)
    ensures
        r@ == c@,
{
    let strong = match &c.strong {
        Some(s) => Some(
            StrongNumber {
                number: s.number,
                grammar: match &s.grammar {
                    Some(g) => Some(g.clone()),
                    None => None,
                },
            },
        ),
        None => None,
    };
    Chunk { text: c.text.clone(), strong: strong }
}

/// A copy of a chunk list, in order.
pub(crate) fn clone_chunks(chunks: &Vec<Chunk>) -> (r: Vec<Chunk>)
    ensures
        chunk_seq_view(r@) == chunk_seq_view(chunks@),
{
    let mut out: Vec<Chunk> = Vec::new();
    let n = chunks.len();
    let mut i: usize = 0;
    while i < n
        invariant
            n == chunks.len(),
            0 <= i <= n,
            chunk_seq_view(out@) == chunk_seq_view(chunks@).take(i as int),
        decreases n - i,
    {
        let ghost prev: Seq<Chunk> = out@;
        out.push(clone_chunk(&chunks[i]));
        proof {
            assert(chunk_seq_view(prev).len() == i as int);
            assert(prev.len() == i as int);
            assert forall|k: int| 0 <= k <= i as int implies chunk_seq_view(out@)[k]
                == chunk_seq_view(chunks@).take(i as int + 1)[k] by {
                if k < i as int {
                    assert(chunk_seq_view(prev)[k] == chunk_seq_view(chunks@).take(i as int)[k]);
                    assert(out@[k] == prev[k]);
                }
            }
            assert(chunk_seq_view(out@) =~= chunk_seq_view(chunks@).take(i as int + 1));
        }
        i = i + 1;
    }
    proof {
        assert(chunk_seq_view(chunks@).take(n as int) =~= chunk_seq_view(chunks@));
    }
    out
}

/// A copy of a verse, in order, chunk for chunk.
pub(crate) fn clone_verse(v: &Verse) -> (r: Verse)
    ensures
        r@ == v@,
{
    Verse { verse: v.verse, chunks: clone_chunks(&v.chunks) }
}

/// A copy of a chapter, verse for verse.
pub(crate) fn clone_chapter(c: &Chapter) -> (r: Chapter)
    ensures
        r@ == c@,
{
    let mut verses: Vec<Verse> = Vec::new();
    let n = c.verses.len();
    let mut i: usize = 0;
    while i < n
        invariant
            n == c.verses.len(),
            0 <= i <= n,
            verse_seq_view(verses@) == verse_seq_view(c.verses@).take(i as int),
        decreases n - i,
    {
        let ghost prev: Seq<Verse> = verses@;
        verses.push(clone_verse(&c.verses[i]));
        proof {
            assert(verse_seq_view(prev).len() == i as int);
            assert(prev.len() == i as int);
            assert forall|k: int| 0 <= k <= i as int implies verse_seq_view(verses@)[k]
                == verse_seq_view(c.verses@).take(i as int + 1)[k] by {
                if k < i as int {
                    assert(verse_seq_view(prev)[k] == verse_seq_view(c.verses@).take(i as int)[k]);
                    assert(verses@[k] == prev[k]);
                }
            }
            assert(verse_seq_view(verses@) =~= verse_seq_view(c.verses@).take(i as int + 1));
        }
        i = i + 1;
    }
    proof {
        assert(verse_seq_view(c.verses@).take(n as int) =~= verse_seq_view(c.verses@));
    }
    Chapter { chapter: c.chapter, verses: verses }
}

/// A copy of a book, chapter for chapter.
pub(crate) fn clone_book(b: &Book) -> (r: Book)
    ensures
        r@ == b@,
{
    let mut chapters: Vec<Chapter> = Vec::new();
    let n = b.chapters.len();
    let mut i: usize = 0;
    while i < n
        invariant
            n == b.chapters.len(),
            0 <= i <= n,
            chapter_seq_view(chapters@) == chapter_seq_view(b.chapters@).take(i as int),
        decreases n - i,
    {
        let ghost prev: Seq<Chapter> = chapters@;
        chapters.push(clone_chapter(&b.chapters[i]));
        proof {
            assert(chapter_seq_view(prev).len() == i as int);
            assert(prev.len() == i as int);
            assert forall|k: int| 0 <= k <= i as int implies chapter_seq_view(chapters@)[k]
                == chapter_seq_view(b.chapters@).take(i as int + 1)[k] by {
                if k < i as int {
                    assert(chapter_seq_view(prev)[k] == chapter_seq_view(b.chapters@).take(
                        i as int,
                    )[k]);
                    assert(chapters@[k] == prev[k]);
                }
            }
            assert(chapter_seq_view(chapters@) =~= chapter_seq_view(b.chapters@).take(
                i as int + 1,
            ));
        }
        i = i + 1;
    }
    proof {
        assert(chapter_seq_view(b.chapters@).take(n as int) =~= chapter_seq_view(b.chapters@));
    }
    Book { nr: b.nr, name: b.name, chapters: chapters }
}

impl StrongDictEntry {
    /// An empty concordance entry.
    pub fn new() -> (r: StrongDictEntry)
        ensures
            r@ == (EntryV { variants: Seq::empty(), refs: Seq::empty() }),
    {
        let r = StrongDictEntry { refs: vec![], variants: vec![] };
        proof {
            assert(variant_seq_view(r.variants@) =~= Seq::<VariantV>::empty());
            assert(ref_seq_view(r.refs@) =~= Seq::<VerseRefV>::empty());
        }
        r
    }

    /// The read-side projection of this entry against a document: for each
    /// stored coordinate that still names a verse, a reference enriched
    /// with that verse's full ordered chunk list; the stored entry itself
    /// is left untouched.
    pub fn get_with_chunks(&self, bible: &Bible) -> (r: Self)
        ensures
            r@ == expand_entry(self@, bible@),
    {
        let ghost rv: Seq<VerseRefV> = self@.refs;
        let mut refs: Vec<VerseRef> = Vec::new();
        let n = self.refs.len();
        let mut i: usize = 0;
        while i < n
            invariant
                n == self.refs.len(),
                rv == ref_seq_view(self.refs@),
                0 <= i <= n,
                ref_seq_view(refs@) == expand_refs(rv.take(i as int), bible@),
            decreases n - i,
        {
            let cur = &self.refs[i];
            proof {
                assert(rv.take(i as int + 1).drop_last() =~= rv.take(i as int));
                assert(rv.take(i as int + 1).last() == rv[i as int]);
                assert(rv[i as int] == cur@);
            }
            match bible.get_verse(cur.book, cur.chapter, cur.verse) {
                Some(v) => {
                    let chunks = clone_chunks(&v.chunks);
                    refs.push(VerseRef::new_with_chunks(cur.book, cur.chapter, cur.verse, chunks));
                    proof {
                        assert(ref_seq_view(refs@) =~= expand_refs(rv.take(i as int + 1), bible@));
                    }
                },
                None => {
                    proof {
                        assert(expand_refs(rv.take(i as int + 1), bible@) == expand_refs(
                            rv.take(i as int),
                            bible@,
                        ));
                    }
                },
            }
            i = i + 1;
        }
        proof {
            assert(rv.take(n as int) =~= rv);
        }
        let mut variants: Vec<StrongVariant> = Vec::new();
        let m = self.variants.len();
        let mut j: usize = 0;
        while j < m
            invariant
                m == self.variants.len(),
                0 <= j <= m,
                variant_seq_view(variants@) == variant_seq_view(self.variants@).take(j as int),
            decreases m - j,
        {
            let var = &self.variants[j];
            let ghost prev: Seq<StrongVariant> = variants@;
            variants.push(StrongVariant { count: var.count, variant: var.variant.clone() });
            proof {
                assert(variant_seq_view(prev).len() == j as int);
                assert(prev.len() == j as int);
                assert forall|k: int| 0 <= k <= j as int implies variant_seq_view(variants@)[k]
                    == variant_seq_view(self.variants@).take(j as int + 1)[k] by {
                    if k < j as int {
                        assert(variant_seq_view(prev)[k] == variant_seq_view(
                            self.variants@,
                        ).take(j as int)[k]);
                        assert(variants@[k] == prev[k]);
                    }
                }
                assert(variant_seq_view(variants@) =~= variant_seq_view(self.variants@).take(
                    j as int + 1,
                ));
            }
            j = j + 1;
        }
        proof {
            assert(variant_seq_view(self.variants@).take(m as int) =~= variant_seq_view(
                self.variants@,
            ));
        }
        Self { refs: refs, variants: variants }
    }
}

impl Bible {
    /// An empty document with the given identifier and display name.
    pub fn new(identifier: &'static str, name: &'static str) -> (r: Bible)
        ensures
            r@ == (BibleV {
                identifier: identifier@,
                name: name@,
                books: Seq::empty(),
                greek: Map::empty(),
                hebrew: Map::empty(),
            }),
    {
        let r = Bible {
            identifier: String::from_str(identifier),
            name: String::from_str(name),
            books: vec![],
            greek_strong_dict: HashMap::new(),
            hebrew_strong_dict: HashMap::new(),
        };
        proof {
            assert(book_seq_view(r.books@) =~= Seq::<BookV>::empty());
            assert(dict_view(r.greek_strong_dict@) =~= Map::<usize, EntryV>::empty());
            assert(dict_view(r.hebrew_strong_dict@) =~= Map::<usize, EntryV>::empty());
        }
        r
    }

    /// Appends a fresh book with the given 0-based index.
    pub fn add_book(&mut self, book: usize)
        ensures
            final(self)@ == (BibleV {
                books: old(self)@.books.push(new_book_v(book as int)),
                ..old(self)@
            }),
    {
        self.books.push(Book::new(book));
        proof {
            assert(book_seq_view(self.books@) =~= old(self)@.books.push(new_book_v(book as int)));
        }
    }

    /// Ensures a book with the given stored index exists: appends a fresh
    /// one if none is present.
    pub fn find_or_add_book(&mut self, book: usize)
        ensures
            final(self)@ == (BibleV {
                books: fi_books(old(self)@.books, book as int),
                ..old(self)@
            }),
    {
        let n = self.books.len();
        let mut i: usize = 0;
        while i < n
            invariant
                *self == *old(self),
                n == self.books.len(),
                0 <= i <= n,
                book_idx(self@.books, book as int) == book_idx_from(
                    self@.books,
                    book as int,
                    i as int,
                ),
            decreases n - i,
        {
            if self.books[i].nr == book {
                proof {
                    assert(book_idx(self@.books, book as int) == Some(i as int));
                }
                return ;
            }
            i = i + 1;
        }
        proof {
            assert(book_idx(self@.books, book as int) is None);
        }
        self.books.push(Book::new(book));
        proof {
            assert(book_seq_view(self.books@) =~= book_seq_view(old(self).books@).push(
                new_book_v(book as int),
            ));
        }
    }

    /// The book whose stored index was asked for, created first if it was
    /// absent.
    pub fn get_book_mut(&mut self, book: usize) -> (r: &mut Book)
        ensures
            (*r)@ == fi_books(old(self)@.books, book as int)[fi_book_at(
                old(self)@.books,
                book as int,
            )],
            final(self)@ == (BibleV {
                books: fi_books(old(self)@.books, book as int).update(
                    fi_book_at(old(self)@.books, book as int),
                    (*final(r))@,
                ),
                ..old(self)@
            }),
    {
        let n = self.books.len();
        let mut i: usize = 0;
        while i < n
            invariant
                *self == *old(self),
                n == self.books.len(),
                0 <= i <= n,
                book_idx(self@.books, book as int) == book_idx_from(
                    self@.books,
                    book as int,
                    i as int,
                ),
            decreases n - i,
        {
            if self.books[i].nr == book {
                proof {
                    assert(book_idx(self@.books, book as int) == Some(i as int));
                }
                let r = vec_mut(&mut self.books, i);
                proof {
                    assert(book_seq_view(old(self).books@.update(i as int, *final(r))) =~=
                        book_seq_view(old(self).books@).update(i as int, (*final(r))@));
                }
                return r;
            }
            i = i + 1;
        }
        proof {
            assert(book_idx(self@.books, book as int) is None);
        }
        self.books.push(Book::new(book));
        let ghost mid: Seq<Book> = self.books@;
        proof {
            assert(book_seq_view(mid) =~= book_seq_view(old(self).books@).push(
                new_book_v(book as int),
            ));
        }
        let last = self.books.len() - 1;
        let r = vec_mut(&mut self.books, last);
        proof {
            assert(book_seq_view(mid.update(last as int, *final(r))) =~= book_seq_view(mid).update(
                last as int,
                (*final(r))@,
            ));
        }
        r
    }

    /// The chapter reached by find-or-insert of the book, then of the
    /// chapter index within it.
    pub fn get_chapter_mut(&mut self, book: usize, chapter: usize) -> (r: &mut Chapter)
        ensures
            (*r)@ == fi_chapter_path(old(self)@, book as int, chapter as int),
            final(self)@ == set_chapter_path(
                old(self)@,
                book as int,
                chapter as int,
                (*final(r))@,
            ),
    {
        self.get_book_mut(book).get_chapter_mut(chapter)
    }

    /// The verse reached by find-or-insert of the book, the chapter, then
    /// the verse index within it.
    pub fn get_verse_mut(&mut self, book: usize, chapter: usize, verse: usize) -> (r: &mut Verse)
        ensures
            (*r)@ == fi_verse_path(old(self)@, book as int, chapter as int, verse as int),
            final(self)@ == set_verse_path(
                old(self)@,
                book as int,
                chapter as int,
                verse as int,
                (*final(r))@,
            ),
    {
        self.get_chapter_mut(book, chapter).get_verse_mut(verse)
    }

    /// The verse reached by find-or-insert of the coordinate's book,
    /// chapter, and verse.
    pub fn get_verse_mut2(&mut self, verse: &VerseRef) -> (r: &mut Verse)
        ensures
            (*r)@ == fi_verse_path(old(self)@, verse@.book, verse@.chapter, verse@.verse),
            final(self)@ == set_verse_path(
                old(self)@,
                verse@.book,
                verse@.chapter,
                verse@.verse,
                (*final(r))@,
            ),
    {
        self.get_verse_mut(verse.book, verse.chapter, verse.verse)
    }

    /// The book with the given stored index, or absent: a pure lookup that
    /// never fails on out-of-range input.
    pub fn get_book(&self, book: usize) -> (r: Option<&Book>)
        ensures
            match r {
                Some(b) => spec_get_book(self@, book as int) == Some(b@),
                None => spec_get_book(self@, book as int) is None,
            },
    {
        let n = self.books.len();
        let mut i: usize = 0;
        while i < n
            invariant
                n == self.books.len(),
                0 <= i <= n,
                book_idx(self@.books, book as int) == book_idx_from(
                    self@.books,
                    book as int,
                    i as int,
                ),
            decreases n - i,
        {
            if self.books[i].nr == book {
                proof {
                    assert(book_idx(self@.books, book as int) == Some(i as int));
                }
                return Some(&self.books[i]);
            }
            i = i + 1;
        }
        None
    }

    /// The chapter at the given position of the given book, or absent.
    pub fn get_chapter(&self, book: usize, chapter: usize) -> (r: Option<&Chapter>)
        ensures
            match r {
                Some(c) => spec_get_chapter(self@, book as int, chapter as int) == Some(c@),
                None => spec_get_chapter(self@, book as int, chapter as int) is None,
            },
    {
        match self.get_book(book) {
            Some(b) => b.get_chapter(chapter),
            None => None,
        }
    }

    /// The verse at the given position of the given chapter, or absent.
    pub fn get_verse(&self, book: usize, chapter: usize, verse: usize) -> (r: Option<&Verse>)
        ensures
            match r {
                Some(v) => spec_get_verse(self@, book as int, chapter as int, verse as int)
                    == Some(v@),
                None => spec_get_verse(self@, book as int, chapter as int, verse as int) is None,
            },
    {
        match self.get_chapter(book, chapter) {
            Some(c) => c.get_verse(verse),
            None => None,
        }
    }

    /// A bare reference to the verse at the given coordinate, or absent if
    /// there is no such verse.
    pub fn get_verse_ref(&self, book: usize, chapter: usize, verse: usize) -> (r: Option<VerseRef>)
        ensures
            match r {
                Some(vr) => spec_get_verse(self@, book as int, chapter as int, verse as int)
                    is Some && vr@ == (VerseRefV {
                    book: book as int,
                    chapter: chapter as int,
                    verse: verse as int,
                    chunks: None,
                }),
                None => spec_get_verse(self@, book as int, chapter as int, verse as int) is None,
            },
    {
        match self.get_verse(book, chapter, verse) {
            Some(_) => Some(VerseRef::new(book, chapter, verse)),
            None => None,
        }
    }

    /// The identifier and display name of this translation.
    pub fn get_translation(&self) -> (r: Translation)
        ensures
            r@ == (TranslationV { identifier: self@.identifier, name: self@.name }),
    {
        Translation { identifier: self.identifier.clone(), name: self.name.clone() }
    }

    /// Registers one occurrence of a lexicon number: the book index of the
    /// coordinate selects the concordance, the lowercased text is counted
    /// among the entry's variants, and the coordinate is appended to its
    /// reference log.
    pub fn insert_strong_variant(&mut self, strong_nr: i32, text: String, verse_ref: VerseRef)
        requires
            strong_nr >= 0,
            bible_wf(old(self)@),
        ensures
            final(self)@ == register(old(self)@, strong_nr as int, text@, verse_ref@),
            bible_wf(final(self)@),
    {
        let hebrew = verse_ref.book < BOUNDARY;
        let key = strong_nr as usize;
        let lower = crate::text::lowercase(text.as_str());
        let ghost dict0: Map<usize, EntryV> = if hebrew {
            self@.hebrew
        } else {
            self@.greek
        };
        let mut entry = if hebrew {
            match self.hebrew_strong_dict.remove(&key) {
                Some(e) => e,
                None => StrongDictEntry::new(),
            }
        } else {
            match self.greek_strong_dict.remove(&key) {
                Some(e) => e,
                None => StrongDictEntry::new(),
            }
        };
        proof {
            assert(entry@ == entry_or_empty(dict0, key));
            assert(entry_wf(entry@));
        }
        let ghost e0: EntryV = entry@;
        entry.refs.push(verse_ref);
        let n = entry.refs.len();
        proof {
            assert(ref_seq_view(entry.refs@) =~= e0.refs.push(verse_ref@));
            assert(n == e0.refs.len() + 1);
        }
        match find_variant(&entry.variants, &lower) {
            Some(i) => {
                let c = entry.variants[i].count;
                proof {
                    assert(e0.variants == variant_seq_view(entry.variants@));
                    assert(e0.variants[i as int].count == c);
                    assert(1 <= e0.variants[i as int].count <= e0.refs.len());
                    assert(c < u64::MAX);
                }
                entry.variants.set(i, StrongVariant { variant: lower, count: c + 1 });
                proof {
                    assert(variant_seq_view(entry.variants@) =~= bump_variant(
                        e0.variants,
                        lower_of(text@),
                    ));
                }
            },
            None => {
                entry.variants.push(StrongVariant { variant: lower, count: 1 });
                proof {
                    assert(variant_seq_view(entry.variants@) =~= bump_variant(
                        e0.variants,
                        lower_of(text@),
                    ));
                }
            },
        }
        proof {
            assert(entry@ == entry_register(e0, lower_of(text@), verse_ref@));
            lemma_entry_register_wf(e0, lower_of(text@), verse_ref@);
        }
        let ghost e1: EntryV = entry_register(e0, lower_of(text@), verse_ref@);
        if hebrew {
            self.hebrew_strong_dict.insert(key, entry);
            proof {
                assert(dict_view(self.hebrew_strong_dict@) =~= dict0.insert(key, e1));
                assert(final(self)@ == register(old(self)@, strong_nr as int, text@, verse_ref@));
                lemma_dict_wf_insert(dict0, key, e1);
            }
        } else {
            self.greek_strong_dict.insert(key, entry);
            proof {
                assert(dict_view(self.greek_strong_dict@) =~= dict0.insert(key, e1));
                assert(final(self)@ == register(old(self)@, strong_nr as int, text@, verse_ref@));
                lemma_dict_wf_insert(dict0, key, e1);
            }
        }
    }

    /// The concordance entry for a lexicon number, looked up in the greek
    /// (secondary) or hebrew (primary) concordance, or absent.
    pub fn lookup(&self, number: usize, greek: bool) -> (r: Option<&StrongDictEntry>)
        ensures
            ({
                let dict = if greek { self@.greek } else { self@.hebrew };
                match r {
                    Some(e) => dict.contains_key(number) && e@ == dict[number],
                    None => !dict.contains_key(number),
                }
            }),
    {
        if greek {
            self.greek_strong_dict.get(&number)
        } else {
            self.hebrew_strong_dict.get(&number)
        }
    }
}

} // verus!
