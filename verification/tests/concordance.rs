use bible::{Bible, VerseRef, BOUNDARY};

#[test]
fn registering_the_same_pair_counts_one_variant() {
    let mut b = Bible::new("T", "Test");
    for _ in 0..3 {
        b.insert_strong_variant(26, String::from("love"), VerseRef::new(0, 0, 0));
    }
    let entry = b.lookup(26, false).unwrap();
    assert_eq!(entry.variants.len(), 1);
    assert_eq!(entry.variants[0].variant, "love");
    assert_eq!(entry.variants[0].count, 3);
    assert_eq!(entry.refs.len(), 3);
}

#[test]
fn variant_matching_is_case_insensitive() {
    let mut b = Bible::new("T", "Test");
    b.insert_strong_variant(26, String::from("Love"), VerseRef::new(0, 0, 0));
    b.insert_strong_variant(26, String::from("LOVE"), VerseRef::new(0, 0, 1));
    b.insert_strong_variant(26, String::from("loved"), VerseRef::new(0, 0, 2));
    let entry = b.lookup(26, false).unwrap();
    assert_eq!(entry.variants.len(), 2);
    assert_eq!(entry.variants[0].variant, "love");
    assert_eq!(entry.variants[0].count, 2);
    assert_eq!(entry.variants[1].variant, "loved");
    assert_eq!(entry.variants[1].count, 1);
    assert_eq!(entry.refs.len(), 3);
}

#[test]
fn book_index_routes_between_the_concordances() {
    let mut b = Bible::new("T", "Test");
    b.insert_strong_variant(26, String::from("love"), VerseRef::new(BOUNDARY - 1, 0, 0));
    b.insert_strong_variant(26, String::from("agape"), VerseRef::new(BOUNDARY, 0, 0));
    // below the boundary: primary (hebrew) concordance only
    let h = b.lookup(26, false).unwrap();
    assert_eq!(h.refs.len(), 1);
    assert_eq!(h.refs[0].book, BOUNDARY - 1);
    assert_eq!(h.variants[0].variant, "love");
    // at the boundary: secondary (greek) concordance only
    let g = b.lookup(26, true).unwrap();
    assert_eq!(g.refs.len(), 1);
    assert_eq!(g.refs[0].book, BOUNDARY);
    assert_eq!(g.variants[0].variant, "agape");
}

#[test]
fn lookup_misses_are_absent_not_errors() {
    let b = Bible::new("T", "Test");
    assert!(b.lookup(26, false).is_none());
    assert!(b.lookup(26, true).is_none());
}

#[test]
fn reference_log_keeps_duplicates_in_order() {
    let mut b = Bible::new("T", "Test");
    b.insert_strong_variant(7, String::from("a"), VerseRef::new(0, 1, 2));
    b.insert_strong_variant(7, String::from("b"), VerseRef::new(0, 1, 2));
    let entry = b.lookup(7, false).unwrap();
    assert_eq!(entry.refs.len(), 2);
    assert_eq!(entry.refs[0].chapter, 1);
    assert_eq!(entry.refs[1].verse, 2);
}

#[test]
fn expand_resolves_live_verses_and_drops_the_rest() {
    let mut b = Bible::new("T", "Test");
    b.get_verse_mut(0, 0, 0).add_chunk(String::from("In"));
    b.get_verse_mut(0, 0, 0).add_strong(bible::Chunk::new_strong(
        String::from("love"),
        26,
        Some(String::from("N-NSF")),
    ));
    b.insert_strong_variant(26, String::from("love"), VerseRef::new(0, 0, 0));
    // a second occurrence whose coordinate resolves to nothing
    b.insert_strong_variant(26, String::from("love"), VerseRef::new(9, 9, 9));
    let entry = b.lookup(26, false).unwrap();
    assert_eq!(entry.refs.len(), 2);
    assert!(entry.refs[0].chunks.is_none());

    let expanded = entry.get_with_chunks(&b);
    // the unresolvable coordinate is dropped, the live one is enriched
    assert_eq!(expanded.refs.len(), 1);
    let chunks = expanded.refs[0].chunks.as_ref().unwrap();
    assert_eq!(chunks.len(), 2);
    assert_eq!(chunks[0].text, "In");
    assert!(chunks[0].strong.is_none());
    assert_eq!(chunks[1].text, "love");
    let s = chunks[1].strong.as_ref().unwrap();
    assert_eq!(s.number, 26);
    assert_eq!(s.grammar.as_deref(), Some("N-NSF"));
    // the variants are copied unchanged, and the stored entry is untouched
    assert_eq!(expanded.variants.len(), 1);
    assert_eq!(expanded.variants[0].count, 2);
    assert_eq!(b.lookup(26, false).unwrap().refs.len(), 2);
}
