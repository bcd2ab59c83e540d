use bible::{Bible, Chapter, Chunk, StrongNumber, Verse, VerseRef};

#[test]
fn find_or_insert_book_is_idempotent() {
    let mut b = Bible::new("T", "Test");
    b.get_book_mut(5);
    b.get_book_mut(5);
    assert_eq!(b.books.len(), 1);
    assert_eq!(b.books[0].nr, 5);
    b.get_book_mut(7);
    assert_eq!(b.books.len(), 2);
}

#[test]
fn find_or_insert_chapter_and_verse_are_idempotent() {
    let mut b = Bible::new("T", "Test");
    b.get_chapter_mut(0, 3);
    b.get_chapter_mut(0, 3);
    assert_eq!(b.books.len(), 1);
    assert_eq!(b.books[0].chapters.len(), 1);
    assert_eq!(b.books[0].chapters[0].chapter, 3);
    b.get_verse_mut(0, 3, 2);
    b.get_verse_mut(0, 3, 2);
    assert_eq!(b.books[0].chapters[0].verses.len(), 1);
    assert_eq!(b.books[0].chapters[0].verses[0].verse, 2);
}

#[test]
fn getters_return_absent_on_out_of_range() {
    let mut b = Bible::new("T", "Test");
    b.get_verse_mut(0, 0, 0);
    assert!(b.get_book(0).is_some());
    assert!(b.get_book(1).is_none());
    assert!(b.get_chapter(0, 0).is_some());
    assert!(b.get_chapter(0, 1).is_none());
    assert!(b.get_verse(0, 0, 0).is_some());
    assert!(b.get_verse(0, 0, 7).is_none());
    assert!(b.get_verse_ref(0, 0, 0).is_some());
    assert!(b.get_verse_ref(9, 9, 9).is_none());
}

#[test]
fn chapter_and_verse_reads_are_positional() {
    let mut b = Bible::new("T", "Test");
    // one book stored under index 4; its first chapter carries index 9
    b.get_book_mut(4).get_chapter_mut(9);
    // books are found by their stored index, chapters by position
    assert!(b.get_book(4).is_some());
    assert_eq!(b.get_book(4).unwrap().get_chapter(0).unwrap().chapter, 9);
    assert!(b.get_book(4).unwrap().get_chapter(9).is_none());
}

#[test]
fn verse_display_text_joins_chunks_with_single_spaces() {
    let mut v = Verse::new(0);
    v.add_chunk(String::from("In"));
    v.add_chunk(String::from("the"));
    v.add_strong(Chunk::new_strong(String::from("beginning"), 7225, None));
    assert_eq!(v.to_string(), "In the beginning");
}

#[test]
fn empty_text_never_becomes_a_chunk() {
    let mut v = Verse::new(0);
    v.add_chunk(String::from(""));
    assert_eq!(v.chunks.len(), 0);
    v.add_chunk(String::from("a"));
    assert_eq!(v.chunks.len(), 1);
}

#[test]
fn verse_ref_display_is_the_compact_coordinate() {
    let r = VerseRef::new(1, 2, 3);
    assert_eq!(r.to_string(), "1_2_3");
    let chunks = vec![Chunk::new(String::from("In")), Chunk::new(String::from("love"))];
    let r2 = VerseRef::new_with_chunks(39, 0, 11, chunks);
    assert_eq!(r2.to_string(), "39_0_11: In love");
}

#[test]
fn chunk_builders_keep_their_fields() {
    let c = Chunk::new(String::from("word"));
    assert_eq!(c.to_string(), "word");
    assert!(c.strong.is_none());
    let c2 = Chunk::new_strong(String::from("logos"), 3056, Some(String::from("N-NSM")));
    assert_eq!(c2.text, "logos");
    let s = c2.strong.as_ref().unwrap();
    assert_eq!(s.number, 3056);
    assert_eq!(s.grammar.as_deref(), Some("N-NSM"));
    let n = StrongNumber::new(26, None);
    assert_eq!(n.number, 26);
    assert!(n.grammar.is_none());
}

#[test]
fn get_chunk_mut_is_positional_and_bounded() {
    let mut v = Verse::new(0);
    v.add_chunk(String::from("alpha"));
    assert!(v.get_chunk_mut(1).is_none());
    let c = v.get_chunk_mut(0).unwrap();
    c.strong = Some(StrongNumber::new(1, None));
    assert_eq!(v.chunks[0].strong.as_ref().unwrap().number, 1);
}

#[test]
fn translation_carries_identifier_and_name() {
    let b = Bible::new("ELB", "Elberfelder");
    let t = b.get_translation();
    assert_eq!(t.identifier, "ELB");
    assert_eq!(t.name, "Elberfelder");
}

#[test]
fn add_book_and_add_chapter_append() {
    let mut b = Bible::new("T", "Test");
    b.add_book(2);
    b.add_book(2);
    // the raw append does not deduplicate; only find-or-insert does
    assert_eq!(b.books.len(), 2);
    let mut ch = Chapter::new(0);
    ch.add_verse(Verse::new(4));
    assert_eq!(ch.verses.len(), 1);
    assert_eq!(ch.verses[0].verse, 4);
}
