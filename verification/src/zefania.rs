//! The ingestion parser: a state machine over markup events that builds a
//! document and its two concordances in one pass.  The events are decoded
//! from the markup text by an outside reader; everything after that point
//! is specified exactly by the `step` function below.

use vstd::prelude::*;
use crate::bible::{
    Bible, BibleV, BookV, ChapterV, Chunk, ChunkV, StrongNumber, StrongNumberV, Verse, VerseRef,
    VerseRefV, VerseV, bible_wf, fi_book_at, fi_books, fi_chapter_path, fi_chapters,
    fi_verse_path, new_verse_v, register, set_chapter_path, set_verse_path,
};
use crate::text::{
    lex_num_v, parse_usize_v, trimmed, str_eq, trim, parse_usize, extract_lex_num,
};

verus! {

/// A document read from the Zefania markup dialect.
pub type ZefaniaBible = Bible;

/// One decoded markup event: an element opening with its attributes, a run
/// of character data, or an element closing.  End-of-stream is the end of
/// the event list.
pub enum MarkupEvent {
    Open { name: String, attrs: Vec<(String, String)> },
    Text { content: String },
    Close { name: String },
}

/// The model of a markup event.
pub enum EventV {
    Open { name: Seq<char>, attrs: Seq<(Seq<char>, Seq<char>)> },
    Text { content: Seq<char> },
    Close { name: Seq<char> },
}

/// The models of a sequence of attribute pairs.
pub open spec fn attr_seq_view(s: Seq<(String, String)>) -> Seq<(Seq<char>, Seq<char>)> {
    s.map_values(|p: (String, String)| (p.0@, p.1@))
}

impl View for MarkupEvent {
    type V = EventV;

    open spec fn view(&self) -> EventV {
        match self {
            MarkupEvent::Open { name, attrs } => EventV::Open {
                name: name@,
                attrs: attr_seq_view(attrs@),
            },
            MarkupEvent::Text { content } => EventV::Text { content: content@ },
            MarkupEvent::Close { name } => EventV::Close { name: name@ },
        }
    }
}

/// The models of a sequence of events.
pub open spec fn events_view(s: Seq<MarkupEvent>) -> Seq<EventV> {
    s.map_values(|e: MarkupEvent| e@)
}

/// Why an ingestion failed: a missing or malformed required numeric
/// attribute, a malformed lexicon-number attribute, or a failure of the
/// markup source itself.
#[derive(Clone, Copy, PartialEq, Eq, Structural, Debug)]
pub enum ParseError {
    Attribute,
    LexiconNumber,
    Source,
}

// Trusted decoding of markup text into events.

/// The event stream that the markup reader yields for a text, a function
/// of the text alone; absent when the reader reports an error.
pub uninterp spec fn xml_events(s: Seq<char>) -> Option<Seq<EventV>>;

#[verifier::external_type_specification]
#[verifier::external_body]
pub struct ExBytesStart<'a>(quick_xml::events::BytesStart<'a>);

#[verifier::external_type_specification]
#[verifier::external_body]
pub struct ExBytesEnd<'a>(quick_xml::events::BytesEnd<'a>);

/// Relies on quick_xml's BytesStart (name, attributes) and Attribute
/// (unescape_value): the element name and its decoded attribute pairs.
#[verifier::external_body]
fn open_event(e: &quick_xml::events::BytesStart<'_>) -> (r: Option<MarkupEvent>) {
    let name = String::from_utf8(e.name().as_ref().to_vec()).ok()?;
    let mut attrs: Vec<(String, String)> = Vec::new();
    for a in e.attributes() {
        let a = a.ok()?;
        let key = String::from_utf8(a.key.as_ref().to_vec()).ok()?;
        let value = a.unescape_value().ok()?.into_owned();
        attrs.push((key, value));
    }
    Some(MarkupEvent::Open { name, attrs })
}

/// Relies on quick_xml's BytesEnd (name): the closing element's name.
#[verifier::external_body]
fn close_event(e: &quick_xml::events::BytesEnd<'_>) -> (r: Option<MarkupEvent>) {
    let name = String::from_utf8(e.name().as_ref().to_vec()).ok()?;
    Some(MarkupEvent::Close { name })
}

/// Relies on quick_xml's Reader (from_str, read_event) and BytesText
/// (unescape): pulls element-open, text and element-close events from the
/// markup text until end-of-stream, skipping every other event kind; any
/// reader or decoding error yields failure.
#[verifier::external_body]
fn decode_markup(xml: &str) -> (r: Option<Vec<MarkupEvent>>)
    ensures
        r is Some <==> xml_events(xml@) is Some,
        r is Some ==> events_view(r.unwrap()@) == xml_events(xml@).unwrap(),
{
    let mut reader = quick_xml::Reader::from_str(xml);
    let mut out: Vec<MarkupEvent> = Vec::new();
    loop {
        match reader.read_event() {
            Ok(quick_xml::events::Event::Start(e)) => out.push(open_event(&e)?),
            Ok(quick_xml::events::Event::Text(t)) => out.push(MarkupEvent::Text {
                content: t.unescape().ok()?.into_owned(),
            }),
            Ok(quick_xml::events::Event::End(e)) => out.push(close_event(&e)?),
            Ok(quick_xml::events::Event::Eof) => return Some(out),
            Ok(_) => {},
            Err(_) => return None,
        }
    }
}

// Attribute lookup: the first pair with the asked-for name wins.

/// The value of the first attribute at or after `from` with the given
/// name, or absent.
pub open spec fn attr_from(
    attrs: Seq<(Seq<char>, Seq<char>)>,
    key: Seq<char>,
    from: int,
) -> Option<Seq<char>>
    decreases attrs.len() - from,
{
    if from >= attrs.len() {
        None
    } else if attrs[from].0 == key {
        Some(attrs[from].1)
    } else {
        attr_from(attrs, key, from + 1)
    }
}

/// The value of the first attribute with the given name, or absent.
pub open spec fn attr_value_v(attrs: Seq<(Seq<char>, Seq<char>)>, key: Seq<char>) -> Option<
    Seq<char>,
> {
    attr_from(attrs, key, 0)
}

/// The value of the first attribute with the given name, or empty.
pub open spec fn attr_or_empty(attrs: Seq<(Seq<char>, Seq<char>)>, key: Seq<char>) -> Seq<char> {
    match attr_value_v(attrs, key) {
        Some(s) => s,
        None => Seq::empty(),
    }
}

/// The 0-based index read from a 1-based numeric attribute: present
/// exactly when the attribute exists, is all decimal digits, fits the
/// machine word, and is at least one.
pub open spec fn attr_index(attrs: Seq<(Seq<char>, Seq<char>)>, key: Seq<char>) -> Option<int> {
    match attr_value_v(attrs, key) {
        Some(s) => match parse_usize_v(s) {
            Some(n) => if n >= 1 {
                Some(n - 1)
            } else {
                None
            },
            None => None,
        },
        None => None,
    }
}

/// Looks up the first attribute with the given name.
fn attr_value<'a>(attrs: &'a Vec<(String, String)>, key: &str) -> (r: Option<&'a String>)
    ensures
        match r {
            Some(v) => attr_value_v(attr_seq_view(attrs@), key@) == Some(v@),
            None => attr_value_v(attr_seq_view(attrs@), key@) is None,
        },
{
    let n = attrs.len();
    let mut i: usize = 0;
    while i < n
        invariant
            n == attrs.len(),
            0 <= i <= n,
            attr_value_v(attr_seq_view(attrs@), key@) == attr_from(
                attr_seq_view(attrs@),
                key@,
                i as int,
            ),
        decreases n - i,
    {
        proof {
            assert(attr_seq_view(attrs@)[i as int] == (attrs@[i as int].0@, attrs@[i as int].1@));
        }
        if str_eq(attrs[i].0.as_str(), key) {
            return Some(&attrs[i].1);
        }
        i = i + 1;
    }
    None
}

/// Reads a 1-based numeric attribute and converts it to a 0-based index.
fn attr_index_ex(attrs: &Vec<(String, String)>, key: &str) -> (r: Option<usize>)
    ensures
        match attr_index(attr_seq_view(attrs@), key@) {
            Some(v) => r == Some(v as usize),
            None => r is None,
        },
{
    match attr_value(attrs, key) {
        Some(v) => match parse_usize(v.as_str()) {
            Some(n) => if n >= 1 {
                Some(n - 1)
            } else {
                None
            },
            None => None,
        },
        None => None,
    }
}

// The ingestion state machine.

/// The parser's state: the document under construction, the current
/// coordinate registers, the depth counter (positive only inside a verse),
/// the pending annotation, and the two singleton capture flags for the
/// document's title and identifier.
pub struct IngestV {
    pub bible: BibleV,
    pub book: int,
    pub chapter: int,
    pub verse: int,
    pub depth: int,
    pub pending: Option<StrongNumberV>,
    pub in_title: bool,
    pub in_identifier: bool,
}

/// The state before any event: an anonymous document, all registers zero.
pub open spec fn ingest_init() -> IngestV {
    IngestV {
        bible: BibleV {
            identifier: "Unknown"@,
            name: "Unknown translation"@,
            books: Seq::empty(),
            greek: Map::empty(),
            hebrew: Map::empty(),
        },
        book: 0,
        chapter: 0,
        verse: 0,
        depth: 0,
        pending: None,
        in_title: false,
        in_identifier: false,
    }
}

/// The document after book-open: the book is found or created.
pub open spec fn open_book(bv: BibleV, b: int) -> BibleV {
    BibleV { books: fi_books(bv.books, b), ..bv }
}

/// The document after chapter-open: the book is found or created, and the
/// chapter is found or created within it.
pub open spec fn open_chapter(bv: BibleV, b: int, c: int) -> BibleV {
    let i = fi_book_at(bv.books, b);
    let bk = fi_books(bv.books, b)[i];
    BibleV {
        books: fi_books(bv.books, b).update(
            i,
            BookV { chapters: fi_chapters(bk.chapters, c), ..bk },
        ),
        ..bv
    }
}

/// The document after verse-open: the book and chapter are found or
/// created, and a fresh empty verse is appended to the chapter.
pub open spec fn open_verse(bv: BibleV, b: int, c: int, v: int) -> BibleV {
    let ch = fi_chapter_path(bv, b, c);
    set_chapter_path(bv, b, c, ChapterV { verses: ch.verses.push(new_verse_v(v)), ..ch })
}

/// The document after a text chunk lands in the verse at the coordinate:
/// book, chapter and verse are found or created and the chunk is appended.
pub open spec fn append_chunk(bv: BibleV, b: int, c: int, v: int, chunk: ChunkV) -> BibleV {
    let verse = fi_verse_path(bv, b, c, v);
    set_verse_path(bv, b, c, v, VerseV { chunks: verse.chunks.push(chunk), ..verse })
}

/// The depth counter one step deeper, clamped at the machine limit.
pub open spec fn inc_depth(d: int) -> int {
    if d < i64::MAX {
        d + 1
    } else {
        d
    }
}

/// The depth counter one step shallower, clamped at the machine limit.
pub open spec fn dec_depth(d: int) -> int {
    if d > i64::MIN {
        d - 1
    } else {
        d
    }
}

/// One step of the ingestion state machine.
pub open spec fn step(st: IngestV, ev: EventV) -> Result<IngestV, ParseError> {
    match ev {
        EventV::Open { name, attrs } => {
            if name == "title"@ {
                Ok(IngestV { in_title: true, ..st })
            } else if name == "identifier"@ {
                Ok(IngestV { in_identifier: true, ..st })
            } else if name == "BIBLEBOOK"@ {
                match attr_index(attrs, "bnumber"@) {
                    Some(b) => Ok(
                        IngestV {
                            bible: open_book(st.bible, b),
                            book: b,
                            chapter: 0,
                            depth: 0,
                            ..st
                        },
                    ),
                    None => Err(ParseError::Attribute),
                }
            } else if name == "CHAPTER"@ {
                match attr_index(attrs, "cnumber"@) {
                    Some(c) => Ok(
                        IngestV {
                            bible: open_chapter(st.bible, st.book, c),
                            chapter: c,
                            verse: 0,
                            depth: 0,
                            ..st
                        },
                    ),
                    None => Err(ParseError::Attribute),
                }
            } else if name == "VERS"@ {
                match attr_index(attrs, "vnumber"@) {
                    Some(v) => Ok(
                        IngestV {
                            bible: open_verse(st.bible, st.book, st.chapter, v),
                            verse: v,
                            depth: 1,
                            pending: None,
                            ..st
                        },
                    ),
                    None => Err(ParseError::Attribute),
                }
            } else if name == "gr"@ {
                match lex_num_v(attr_or_empty(attrs, "str"@)) {
                    Some(num) => {
                        let g = attr_or_empty(attrs, "rmac"@);
                        Ok(
                            IngestV {
                                depth: inc_depth(st.depth),
                                pending: Some(
                                    StrongNumberV {
                                        number: num,
                                        grammar: if g.len() == 0 {
                                            None
                                        } else {
                                            Some(g)
                                        },
                                    },
                                ),
                                ..st
                            },
                        )
                    },
                    None => Err(ParseError::LexiconNumber),
                }
            } else {
                Ok(st)
            }
        },
        EventV::Close { name } => {
            if name == "gr"@ {
                Ok(IngestV { depth: dec_depth(st.depth), ..st })
            } else {
                Ok(st)
            }
        },
        EventV::Text { content } => {
            let st1 = if st.in_title {
                IngestV { bible: BibleV { name: content, ..st.bible }, in_title: false, ..st }
            } else {
                st
            };
            let st2 = if st1.in_identifier {
                IngestV {
                    bible: BibleV { identifier: content, ..st1.bible },
                    in_identifier: false,
                    ..st1
                }
            } else {
                st1
            };
            if st2.depth > 0 {
                let t = trimmed(content);
                if t.len() > 0 {
                    match st2.pending {
                        Some(p) => {
                            let with_chunk = append_chunk(
                                st2.bible,
                                st2.book,
                                st2.chapter,
                                st2.verse,
                                ChunkV { text: t, strong: Some(p) },
                            );
                            let coord = VerseRefV {
                                book: st2.book,
                                chapter: st2.chapter,
                                verse: st2.verse,
                                chunks: None,
                            };
                            Ok(
                                IngestV {
                                    bible: register(with_chunk, p.number, t, coord),
                                    pending: None,
                                    ..st2
                                },
                            )
                        },
                        None => Ok(
                            IngestV {
                                bible: append_chunk(
                                    st2.bible,
                                    st2.book,
                                    st2.chapter,
                                    st2.verse,
                                    ChunkV { text: t, strong: None },
                                ),
                                ..st2
                            },
                        ),
                    }
                } else {
                    Ok(st2)
                }
            } else {
                Ok(st2)
            }
        },
    }
}

/// The state machine folded over a list of events, stopping at the first
/// failing step.
pub open spec fn run_from(st: IngestV, evs: Seq<EventV>) -> Result<IngestV, ParseError>
    decreases evs.len(),
{
    if evs.len() == 0 {
        Ok(st)
    } else {
        match step(st, evs[0]) {
            Ok(st2) => run_from(st2, evs.skip(1)),
            Err(e) => Err(e),
        }
    }
}

/// The whole ingestion of an event list, from the initial state.
pub open spec fn run_events(evs: Seq<EventV>) -> Result<IngestV, ParseError> {
    run_from(ingest_init(), evs)
}

/// The outcome of parsing a markup text: the decoded events folded by the
/// state machine, or the error that stopped it.
pub open spec fn spec_parse(s: Seq<char>) -> Result<BibleV, ParseError> {
    match xml_events(s) {
        Some(evs) => match run_events(evs) {
            Ok(st) => Ok(st.bible),
            Err(e) => Err(e),
        },
        None => Err(ParseError::Source),
    }
}

/// Parsing is deterministic: one source text has one outcome, so two
/// ingestions of the same text yield structurally identical documents.
pub proof fn lemma_parse_deterministic(s1: Seq<char>, s2: Seq<char>)
    requires
        s1 == s2,
    ensures
        spec_parse(s1) == spec_parse(s2),
{
}

/// The model of a pending annotation register.
pub open spec fn pending_view(p: Option<StrongNumber>) -> Option<StrongNumberV> {
    match p {
        Some(s) => Some(s@),
        None => None,
    }
}

/// Consumes a list of markup events and builds the document with its two
/// concordances, exactly as the state machine specifies; fails on the
/// first missing or malformed required numeric attribute or malformed
/// lexicon number, returning no partial document.
pub fn ingest_events(events: &Vec<MarkupEvent>) -> (r: Result<Bible, ParseError>)
    ensures
        match run_events(events_view(events@)) {
            Ok(st) => r is Ok && r.unwrap()@ == st.bible && bible_wf(st.bible),
            Err(e) => r == Err::<Bible, ParseError>(e),
        },
{
    let ghost evs: Seq<EventV> = events_view(events@);
    let mut bible = Bible::new("Unknown", "Unknown translation");
    let mut book: usize = 0;
    let mut chapter: usize = 0;
    let mut verse: usize = 0;
    let mut depth: i64 = 0;
    let mut pending: Option<StrongNumber> = None;
    let mut in_title: bool = false;
    let mut in_identifier: bool = false;
    proof {
        assert(evs.skip(0) =~= evs);
        assert(IngestV {
            bible: bible@,
            book: 0,
            chapter: 0,
            verse: 0,
            depth: 0,
            pending: pending_view(pending),
            in_title: false,
            in_identifier: false,
        } == ingest_init());
    }
    let n = events.len();
    let mut i: usize = 0;
    while i < n
        invariant
            n == events.len(),
            evs == events_view(events@),
            0 <= i <= n,
            run_events(evs) == run_from(
                IngestV {
                    bible: bible@,
                    book: book as int,
                    chapter: chapter as int,
                    verse: verse as int,
                    depth: depth as int,
                    pending: pending_view(pending),
                    in_title: in_title,
                    in_identifier: in_identifier,
                },
                evs.skip(i as int),
            ),
            bible_wf(bible@),
            match pending {
                Some(p) => p.number >= 0,
                None => true,
            },
        decreases n - i,
    {
        let ghost cur = IngestV {
            bible: bible@,
            book: book as int,
            chapter: chapter as int,
            verse: verse as int,
            depth: depth as int,
            pending: pending_view(pending),
            in_title: in_title,
            in_identifier: in_identifier,
        };
        proof {
            assert(evs[i as int] == events@[i as int]@);
            assert(evs.skip(i as int)[0] == evs[i as int]);
            assert(evs.skip(i as int).skip(1) =~= evs.skip(i as int + 1));
        }
        let ev = &events[i];
        match ev {
            MarkupEvent::Open { name, attrs } => {
                if str_eq(name.as_str(), "title") {
                    in_title = true;
                } else if str_eq(name.as_str(), "identifier") {
                    in_identifier = true;
                } else if str_eq(name.as_str(), "BIBLEBOOK") {
                    match attr_index_ex(attrs, "bnumber") {
                        Some(b) => {
                            bible.find_or_add_book(b);
                            book = b;
                            chapter = 0;
                            depth = 0;
                        },
                        None => {
                            return Err(ParseError::Attribute);
                        },
                    }
                } else if str_eq(name.as_str(), "CHAPTER") {
                    match attr_index_ex(attrs, "cnumber") {
                        Some(c) => {
                            bible.get_book_mut(book).find_or_add_chapter(c);
                            chapter = c;
                            verse = 0;
                            depth = 0;
                        },
                        None => {
                            return Err(ParseError::Attribute);
                        },
                    }
                } else if str_eq(name.as_str(), "VERS") {
                    match attr_index_ex(attrs, "vnumber") {
                        Some(v) => {
                            bible.get_chapter_mut(book, chapter).add_verse(Verse::new(v));
                            verse = v;
                            depth = 1;
                            pending = None;
                        },
                        None => {
                            return Err(ParseError::Attribute);
                        },
                    }
                } else if str_eq(name.as_str(), "gr") {
                    let strs: &str = match attr_value(attrs, "str") {
                        Some(s) => s.as_str(),
                        None => "",
                    };
                    proof {
                        reveal_strlit("");
                        assert(""@ =~= Seq::<char>::empty());
                        assert(strs@ == attr_or_empty(attr_seq_view(attrs@), "str"@));
                    }
                    match extract_lex_num(strs) {
                        Some(num) => {
                            let g: &str = match attr_value(attrs, "rmac") {
                                Some(s) => s.as_str(),
                                None => "",
                            };
                            proof {
                                reveal_strlit("");
                                assert(""@ =~= Seq::<char>::empty());
                                assert(g@ == attr_or_empty(attr_seq_view(attrs@), "rmac"@));
                            }
                            let grammar: Option<String> = if g.is_empty() {
                                None
                            } else {
                                Some(String::from_str(g))
                            };
                            pending = Some(StrongNumber::new(num, grammar));
                            if depth < i64::MAX {
                                depth = depth + 1;
                            }
                        },
                        None => {
                            return Err(ParseError::LexiconNumber);
                        },
                    }
                }
            },
            MarkupEvent::Close { name } => {
                if str_eq(name.as_str(), "gr") {
                    if depth > i64::MIN {
                        depth = depth - 1;
                    }
                }
            },
            MarkupEvent::Text { content } => {
                if in_title {
                    bible.name = content.clone();
                    in_title = false;
                }
                if in_identifier {
                    bible.identifier = content.clone();
                    in_identifier = false;
                }
                if depth > 0 {
                    let t = trim(content.as_str());
                    if !t.as_str().is_empty() {
                        let p_opt = pending;
                        pending = None;
                        match p_opt {
                            Some(p) => {
                                let num = p.number;
                                let t2 = t.clone();
                                bible.get_verse_mut(book, chapter, verse).add_strong(
                                    Chunk { text: t, strong: Some(p) },
                                );
                                bible.insert_strong_variant(
                                    num,
                                    t2,
                                    VerseRef::new(book, chapter, verse),
                                );
                            },
                            None => {
                                bible.get_verse_mut(book, chapter, verse).add_chunk(t);
                            },
                        }
                    }
                }
            },
        }
        i = i + 1;
    }
    proof {
        assert(evs.skip(n as int) =~= Seq::<EventV>::empty());
    }
    Ok(bible)
}

/// Parses markup text into a document: the text is decoded into events by
/// the markup reader, which are then folded by the ingestion state
/// machine.
pub fn parse_str(xml: &str) -> (r: Result<Bible, ParseError>)
    ensures
        match spec_parse(xml@) {
            Ok(bv) => r is Ok && r.unwrap()@ == bv && bible_wf(bv),
            Err(e) => r == Err::<Bible, ParseError>(e),
        },
{
    match decode_markup(xml) {
        Some(events) => ingest_events(&events),
        None => Err(ParseError::Source),
    }
}

/// The outcome of the full parse: the translation text parsed and, when a
/// reference text is given, that text parsed too and the translation's
/// books at or after the boundary re-aligned against it.  A failure of
/// either ingestion fails the whole parse, the translation's first.
pub open spec fn spec_parse_with(s: Seq<char>, reference: Option<Seq<char>>) -> Result<
    BibleV,
    ParseError,
> {
    match reference {
        None => spec_parse(s),
        Some(rs) => match spec_parse(s) {
            Ok(b) => match spec_parse(rs) {
                Ok(g) => Ok(crate::align::spec_align(b, g)),
                Err(e) => Err(e),
            },
            Err(e) => Err(e),
        },
    }
}

impl Bible {
    /// Parses markup text into a document; when a reference text is
    /// given, parses it too and re-aligns the document's lexicon tags
    /// against it.  No partial document survives a failure.
    pub fn parse(xml: &str, reference_xml: Option<&str>) -> (r: Result<Bible, ParseError>)
        ensures
            ({
                let refv = match reference_xml {
                    Some(rx) => Some(rx@),
                    None => None,
                };
                match spec_parse_with(xml@, refv) {
                    Ok(bv) => r is Ok && r.unwrap()@ == bv && bible_wf(bv),
                    Err(e) => r == Err::<Bible, ParseError>(e),
                }
            }),
    {
        match reference_xml {
            None => parse_str(xml),
            Some(rx) => match parse_str(xml) {
                Ok(mut b) => match parse_str(rx) {
                    Ok(g) => {
                        b.align(&g);
                        Ok(b)
                    },
                    Err(e) => Err(e),
                },
                Err(e) => Err(e),
            },
        }
    }
}

} // verus!
