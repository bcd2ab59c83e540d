use bible::{Bible, ParseError};

fn corpus() -> String {
    String::from(
        "<XMLBIBLE>\
           <INFORMATION><title>Test Bible</title><identifier>TST</identifier></INFORMATION>\
           <BIBLEBOOK bnumber=\"1\">\
             <CHAPTER cnumber=\"1\">\
               <VERS vnumber=\"1\">In <gr str=\"G26\" rmac=\"N-NSF\">love</gr></VERS>\
             </CHAPTER>\
           </BIBLEBOOK>\
           <BIBLEBOOK bnumber=\"40\">\
             <CHAPTER cnumber=\"1\">\
               <VERS vnumber=\"1\"><gr str=\"26\">love</gr></VERS>\
             </CHAPTER>\
           </BIBLEBOOK>\
         </XMLBIBLE>",
    )
}

#[test]
fn parse_builds_the_document_structure() {
    let b = Bible::parse(&corpus(), None).unwrap();
    assert_eq!(b.name, "Test Bible");
    assert_eq!(b.identifier, "TST");
    assert_eq!(b.books.len(), 2);
    assert_eq!(b.books[0].nr, 0);
    assert_eq!(b.books[1].nr, 39);
    let v = b.get_verse(0, 0, 0).unwrap();
    assert_eq!(v.chunks.len(), 2);
    assert_eq!(v.chunks[0].text, "In");
    assert!(v.chunks[0].strong.is_none());
    assert_eq!(v.chunks[1].text, "love");
    let s = v.chunks[1].strong.as_ref().unwrap();
    assert_eq!(s.number, 26);
    assert_eq!(s.grammar.as_deref(), Some("N-NSF"));
    let v2 = b.get_verse(39, 0, 0).unwrap();
    assert_eq!(v2.chunks.len(), 1);
    assert_eq!(v2.chunks[0].strong.as_ref().unwrap().number, 26);
    assert!(v2.chunks[0].strong.as_ref().unwrap().grammar.is_none());
}

#[test]
fn parse_fills_both_concordances() {
    let b = Bible::parse(&corpus(), None).unwrap();
    let h = b.lookup(26, false).unwrap();
    assert_eq!(h.refs.len(), 1);
    assert_eq!(h.refs[0].book, 0);
    assert_eq!(h.refs[0].chapter, 0);
    assert_eq!(h.refs[0].verse, 0);
    assert_eq!(h.variants.len(), 1);
    assert_eq!(h.variants[0].variant, "love");
    assert_eq!(h.variants[0].count, 1);
    let g = b.lookup(26, true).unwrap();
    assert_eq!(g.refs.len(), 1);
    assert_eq!(g.refs[0].book, 39);
    assert_eq!(g.variants.len(), 1);
    assert_eq!(g.variants[0].variant, "love");
    assert_eq!(g.variants[0].count, 1);
}

#[test]
fn parsing_twice_yields_identical_documents() {
    let a = Bible::parse(&corpus(), None).unwrap();
    let b = Bible::parse(&corpus(), None).unwrap();
    assert_eq!(a.name, b.name);
    assert_eq!(a.identifier, b.identifier);
    assert_eq!(a.books.len(), b.books.len());
    for (x, y) in a.books.iter().zip(b.books.iter()) {
        assert_eq!(x.nr, y.nr);
        assert_eq!(x.chapters.len(), y.chapters.len());
        for (cx, cy) in x.chapters.iter().zip(y.chapters.iter()) {
            assert_eq!(cx.chapter, cy.chapter);
            assert_eq!(cx.verses.len(), cy.verses.len());
            for (vx, vy) in cx.verses.iter().zip(cy.verses.iter()) {
                assert_eq!(vx.verse, vy.verse);
                assert_eq!(vx.to_string(), vy.to_string());
                for (kx, ky) in vx.chunks.iter().zip(vy.chunks.iter()) {
                    assert_eq!(kx.text, ky.text);
                    assert_eq!(kx.strong.is_some(), ky.strong.is_some());
                    if let (Some(sx), Some(sy)) = (&kx.strong, &ky.strong) {
                        assert_eq!(sx.number, sy.number);
                        assert_eq!(sx.grammar, sy.grammar);
                    }
                }
            }
        }
    }
}

#[test]
fn lexicon_number_is_the_first_digit_run_capped_at_four() {
    let xml = "<x><VERS vnumber=\"1\"><gr str=\"G123456\">w</gr></VERS></x>";
    let b = Bible::parse(&String::from(xml), None).unwrap();
    let v = b.get_verse(0, 0, 0).unwrap();
    // only the first four digits of the run count
    assert_eq!(v.chunks[0].strong.as_ref().unwrap().number, 1234);
}

#[test]
fn missing_numeric_attribute_aborts_the_parse() {
    let xml = "<x><BIBLEBOOK><CHAPTER cnumber=\"1\"/></BIBLEBOOK></x>";
    assert_eq!(Bible::parse(&String::from(xml), None).err().unwrap(), ParseError::Attribute);
    let zero = "<x><BIBLEBOOK bnumber=\"0\"></BIBLEBOOK></x>";
    assert_eq!(Bible::parse(&String::from(zero), None).err().unwrap(), ParseError::Attribute);
    let junk = "<x><CHAPTER cnumber=\"one\"></CHAPTER></x>";
    assert_eq!(Bible::parse(&String::from(junk), None).err().unwrap(), ParseError::Attribute);
}

#[test]
fn malformed_lexicon_number_aborts_the_parse() {
    let xml = "<x><VERS vnumber=\"1\"><gr str=\"none\">w</gr></VERS></x>";
    assert_eq!(Bible::parse(&String::from(xml), None).err().unwrap(), ParseError::LexiconNumber);
    let missing = "<x><VERS vnumber=\"1\"><gr>w</gr></VERS></x>";
    assert_eq!(Bible::parse(&String::from(missing), None).err().unwrap(), ParseError::LexiconNumber);
}

#[test]
fn broken_markup_is_a_source_error() {
    let xml = "<a><b></a></b>";
    assert_eq!(Bible::parse(&String::from(xml), None).err().unwrap(), ParseError::Source);
}

#[test]
fn text_outside_a_verse_is_ignored() {
    let xml = "<x><BIBLEBOOK bnumber=\"1\">stray<CHAPTER cnumber=\"1\">more\
               <VERS vnumber=\"1\">kept</VERS></CHAPTER></BIBLEBOOK></x>";
    let b = Bible::parse(&String::from(xml), None).unwrap();
    let v = b.get_verse(0, 0, 0).unwrap();
    assert_eq!(v.chunks.len(), 1);
    assert_eq!(v.chunks[0].text, "kept");
}

#[test]
fn text_is_trimmed_and_entities_are_decoded() {
    let xml = "<x><VERS vnumber=\"1\">  grace &amp; truth  </VERS></x>";
    let b = Bible::parse(&String::from(xml), None).unwrap();
    let v = b.get_verse(0, 0, 0).unwrap();
    assert_eq!(v.chunks.len(), 1);
    assert_eq!(v.chunks[0].text, "grace & truth");
}

#[test]
fn reinserted_indices_never_duplicate_siblings() {
    let xml = "<x>\
        <BIBLEBOOK bnumber=\"1\"><CHAPTER cnumber=\"1\"><VERS vnumber=\"1\">a</VERS></CHAPTER></BIBLEBOOK>\
        <BIBLEBOOK bnumber=\"1\"><CHAPTER cnumber=\"1\"><VERS vnumber=\"2\">b</VERS></CHAPTER></BIBLEBOOK>\
        </x>";
    let b = Bible::parse(&String::from(xml), None).unwrap();
    assert_eq!(b.books.len(), 1);
    assert_eq!(b.books[0].chapters.len(), 1);
    assert_eq!(b.books[0].chapters[0].verses.len(), 2);
}
