use bible::Bible;

fn target() -> String {
    String::from(
        "<x>\
           <BIBLEBOOK bnumber=\"40\">\
             <CHAPTER cnumber=\"1\">\
               <VERS vnumber=\"1\">\
                 <gr str=\"26\" rmac=\"N-NSF\">love</gr> and <gr str=\"99\" rmac=\"X\">mystery</gr>\
               </VERS>\
             </CHAPTER>\
           </BIBLEBOOK>\
         </x>",
    )
}

fn reference() -> String {
    String::from(
        "<x>\
           <BIBLEBOOK bnumber=\"40\">\
             <CHAPTER cnumber=\"1\">\
               <VERS vnumber=\"1\"><gr str=\"26\">agape</gr> <gr str=\"26\">agapen</gr></VERS>\
             </CHAPTER>\
           </BIBLEBOOK>\
         </x>",
    )
}

#[test]
fn matched_chunks_get_a_fresh_annotation_without_grammar() {
    let mut b = Bible::parse(&target(), None).unwrap();
    let g = Bible::parse(&reference(), None).unwrap();
    let unmatched = b.align(&g);
    let v = b.get_verse(39, 0, 0).unwrap();
    // the chunk tagged 26 matched (the first of the two reference chunks
    // tagged 26 decides); its number stays and its grammatical code drops
    let s = v.chunks[0].strong.as_ref().unwrap();
    assert_eq!(s.number, 26);
    assert!(s.grammar.is_none());
    // the chunk tagged 99 found no match: untouched, counted once
    let u = v.chunks[2].strong.as_ref().unwrap();
    assert_eq!(u.number, 99);
    assert_eq!(u.grammar.as_deref(), Some("X"));
    assert_eq!(unmatched, 1);
    // the untagged chunk stays plain
    assert!(v.chunks[1].strong.is_none());
    assert_eq!(v.chunks[1].text, "and");
}

#[test]
fn books_below_the_boundary_are_not_aligned() {
    let xml = String::from(
        "<x><BIBLEBOOK bnumber=\"1\"><CHAPTER cnumber=\"1\">\
         <VERS vnumber=\"1\"><gr str=\"77\" rmac=\"Q\">word</gr></VERS>\
         </CHAPTER></BIBLEBOOK></x>",
    );
    let refxml = String::from(
        "<x><BIBLEBOOK bnumber=\"1\"><CHAPTER cnumber=\"1\">\
         <VERS vnumber=\"1\"><gr str=\"77\">logos</gr></VERS>\
         </CHAPTER></BIBLEBOOK></x>",
    );
    let mut b = Bible::parse(&xml, None).unwrap();
    let g = Bible::parse(&refxml, None).unwrap();
    let unmatched = b.align(&g);
    assert_eq!(unmatched, 0);
    let s = b.get_verse(0, 0, 0).unwrap().chunks[0].strong.as_ref().unwrap();
    // grammar survives: the book lies below the boundary
    assert_eq!(s.grammar.as_deref(), Some("Q"));
}

#[test]
fn chunks_without_a_reference_verse_are_skipped_silently() {
    let mut b = Bible::parse(&target(), None).unwrap();
    // the reference document has no verse at the coordinate at all
    let g = Bible::parse(&String::from("<x></x>"), None).unwrap();
    let unmatched = b.align(&g);
    assert_eq!(unmatched, 0);
    let v = b.get_verse(39, 0, 0).unwrap();
    let s = v.chunks[0].strong.as_ref().unwrap();
    assert_eq!(s.number, 26);
    assert_eq!(s.grammar.as_deref(), Some("N-NSF"));
}

#[test]
fn parse_with_reference_runs_the_aligner() {
    let b = Bible::parse(&target(), Some(&reference())).unwrap();
    let v = b.get_verse(39, 0, 0).unwrap();
    assert!(v.chunks[0].strong.as_ref().unwrap().grammar.is_none());
    assert_eq!(v.chunks[2].strong.as_ref().unwrap().grammar.as_deref(), Some("X"));
    // the concordances are untouched by alignment
    assert_eq!(b.lookup(26, true).unwrap().refs.len(), 1);
    assert_eq!(b.lookup(99, true).unwrap().refs.len(), 1);
}

#[test]
fn alignment_leaves_texts_and_order_alone() {
    let mut b = Bible::parse(&target(), None).unwrap();
    let before = b.get_verse(39, 0, 0).unwrap().to_string();
    let g = Bible::parse(&reference(), None).unwrap();
    b.align(&g);
    let after = b.get_verse(39, 0, 0).unwrap().to_string();
    assert_eq!(before, after);
    assert_eq!(after, "love and mystery");
}
