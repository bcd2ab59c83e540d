use bible::{Bible, QueryError};

fn corpus() -> String {
    String::from(
        "<XMLBIBLE>\
           <BIBLEBOOK bnumber=\"1\">\
             <CHAPTER cnumber=\"1\">\
               <VERS vnumber=\"1\">In <gr str=\"G26\" rmac=\"N-NSF\">love</gr></VERS>\
               <VERS vnumber=\"2\">walking in truth</VERS>\
             </CHAPTER>\
           </BIBLEBOOK>\
           <BIBLEBOOK bnumber=\"40\">\
             <CHAPTER cnumber=\"1\">\
               <VERS vnumber=\"1\"><gr str=\"26\">love</gr></VERS>\
             </CHAPTER>\
           </BIBLEBOOK>\
         </XMLBIBLE>",
    )
}

#[test]
fn conjunction_returns_exactly_the_verse_holding_all_words() {
    let b = Bible::parse(&corpus(), None).unwrap();
    let hits = b.search(&String::from("In love")).unwrap();
    assert_eq!(hits.len(), 1);
    assert_eq!(hits[0].book, 0);
    assert_eq!(hits[0].chapter, 0);
    assert_eq!(hits[0].verse, 0);
    // results carry a snapshot of the verse's chunks
    let chunks = hits[0].chunks.as_ref().unwrap();
    assert_eq!(chunks.len(), 2);
    assert_eq!(chunks[0].text, "In");
    assert_eq!(chunks[1].text, "love");
}

#[test]
fn adding_a_word_narrows_the_result_set() {
    let b = Bible::parse(&corpus(), None).unwrap();
    let wide = b.search(&String::from("love")).unwrap();
    let narrow = b.search(&String::from("love in")).unwrap();
    assert_eq!(wide.len(), 2);
    assert_eq!(narrow.len(), 1);
    for hit in &narrow {
        assert!(wide.iter().any(|w| {
            w.book == hit.book && w.chapter == hit.chapter && w.verse == hit.verse
        }));
    }
}

#[test]
fn search_is_case_insensitive() {
    let b = Bible::parse(&corpus(), None).unwrap();
    let upper = b.search(&String::from("LOVE")).unwrap();
    let lower = b.search(&String::from("love")).unwrap();
    assert_eq!(upper.len(), lower.len());
    for (u, l) in upper.iter().zip(lower.iter()) {
        assert_eq!(u.book, l.book);
        assert_eq!(u.chapter, l.chapter);
        assert_eq!(u.verse, l.verse);
    }
    assert_eq!(upper.len(), 2);
}

#[test]
fn matching_is_over_the_joined_verse_text() {
    let b = Bible::parse(&corpus(), None).unwrap();
    // "in love" spans two chunks joined by one space
    let hits = b.search(&String::from("\"in love\"")).unwrap();
    assert_eq!(hits.len(), 1);
    assert_eq!(hits[0].book, 0);
    // no verse holds the two words run together
    let none = b.search(&String::from("\"inlove\"")).unwrap();
    assert_eq!(none.len(), 0);
}

#[test]
fn empty_query_matches_every_verse_in_order() {
    let b = Bible::parse(&corpus(), None).unwrap();
    let hits = b.search(&String::from("")).unwrap();
    assert_eq!(hits.len(), 3);
    assert_eq!((hits[0].book, hits[0].verse), (0, 0));
    assert_eq!((hits[1].book, hits[1].verse), (0, 1));
    assert_eq!((hits[2].book, hits[2].verse), (39, 0));
}

#[test]
fn mismatched_quoting_fails_only_the_query() {
    let b = Bible::parse(&corpus(), None).unwrap();
    assert_eq!(b.search(&String::from("\"in love")).err().unwrap(), QueryError::Quoting);
    // the document is untouched and answers the next query
    assert_eq!(b.search(&String::from("truth")).unwrap().len(), 1);
}

#[test]
fn parallel_search_yields_the_sequential_result() {
    let b = Bible::parse(&corpus(), None).unwrap();
    let seq = b.search(&String::from("love")).unwrap();
    let par = b.search_parallel(&String::from("love")).unwrap();
    assert_eq!(seq.len(), par.len());
    for (s, p) in seq.iter().zip(par.iter()) {
        assert_eq!(s.book, p.book);
        assert_eq!(s.chapter, p.chapter);
        assert_eq!(s.verse, p.verse);
    }
}
