use std::io::Read;

use wikidumpgrep::extract::XmlEvent;
use wikidumpgrep::partition::page_tag_start_position;
use wikidumpgrep::options::is_compressed;
use wikidumpgrep::pipeline::search_events;
use wikidumpgrep::rx::CompiledRegex;

const SCENARIO_XML: &str = "<mediawiki><page><title>Foo</title><ns>0</ns><revision><id>7</id>\
<text>Abc Xyz Abc Xyz\n123 456\nAbc Xyz Abc Xyz\n</text></revision></page></mediawiki>";

fn parse_events(xml: &[u8]) -> (Vec<XmlEvent>, Vec<u64>) {
    let mut reader = quick_xml::Reader::from_reader(xml);
    reader.config_mut().check_end_names = false;
    let mut buf: Vec<u8> = Vec::new();
    let mut events: Vec<XmlEvent> = Vec::new();
    let mut positions: Vec<u64> = Vec::new();
    // character data arrives split around entity references; the tokenizer
    // adapter coalesces each run into one unescaped text event
    let mut pending: Option<Vec<u8>> = None;
    loop {
        let ev = reader.read_event_into(&mut buf).unwrap();
        // the byte position where a just-read `<page>` start tag opens
        let pos = page_tag_start_position(0, reader.buffer_position());
        match ev {
            quick_xml::events::Event::Text(t) => {
                let raw = t.into_inner();
                let unescaped = quick_xml::escape::unescape(&raw).unwrap();
                pending
                    .get_or_insert_with(Vec::new)
                    .extend_from_slice(unescaped.as_bytes());
            }
            quick_xml::events::Event::GeneralRef(r) => {
                let whole = format!("&{};", r.as_ref());
                let unescaped = quick_xml::escape::unescape(&whole).unwrap();
                pending
                    .get_or_insert_with(Vec::new)
                    .extend_from_slice(unescaped.as_bytes());
            }
            quick_xml::events::Event::Start(e) => {
                if let Some(text) = pending.take() {
                    events.push(XmlEvent::Text(text));
                    positions.push(pos);
                }
                events.push(XmlEvent::Start(e.name().as_ref().as_bytes().to_vec()));
                positions.push(pos);
            }
            quick_xml::events::Event::Empty(e) => {
                if let Some(text) = pending.take() {
                    events.push(XmlEvent::Text(text));
                    positions.push(pos);
                }
                events.push(XmlEvent::Empty(e.name().as_ref().as_bytes().to_vec()));
                positions.push(pos);
            }
            quick_xml::events::Event::End(e) => {
                if let Some(text) = pending.take() {
                    events.push(XmlEvent::Text(text));
                    positions.push(pos);
                }
                events.push(XmlEvent::End(e.name().as_ref().as_bytes().to_vec()));
                positions.push(pos);
            }
            quick_xml::events::Event::Eof => {
                if let Some(text) = pending.take() {
                    events.push(XmlEvent::Text(text));
                    positions.push(pos);
                }
                events.push(XmlEvent::Eof);
                positions.push(pos);
                break;
            }
            _ => {}
        }
        buf.clear();
    }
    (events, positions)
}

fn run_search(
    xml: &[u8],
    pattern: &str,
    end: u64,
    restrict_namespaces: Option<Vec<Vec<u8>>>,
    only_title: bool,
) -> String {
    let (events, positions) = parse_events(xml);
    let re = CompiledRegex::compile(pattern).unwrap();
    let blocks = search_events(
        &events,
        &positions,
        &re,
        end,
        restrict_namespaces,
        only_title,
        false,
    )
    .unwrap();
    let mut out: Vec<u8> = Vec::new();
    for block in blocks {
        out.extend_from_slice(&block);
    }
    String::from_utf8(out).unwrap()
}

#[test]
fn two_line_article_one_match() {
    let out = run_search(SCENARIO_XML.as_bytes(), "Abc", u64::MAX, None, false);
    assert_eq!(out, "Foo@7\nAbc Xyz Abc Xyz\nAbc Xyz Abc Xyz\n\n");
}

#[test]
fn title_only_mode() {
    let out = run_search(SCENARIO_XML.as_bytes(), "Abc", u64::MAX, None, true);
    assert_eq!(out, "Foo@7\n");
    let none = run_search(SCENARIO_XML.as_bytes(), "no_match", u64::MAX, None, true);
    assert_eq!(none, "");
}

#[test]
fn namespace_filter_excludes() {
    let out = run_search(
        SCENARIO_XML.as_bytes(),
        "Abc",
        u64::MAX,
        Some(vec![b"14".to_vec()]),
        false,
    );
    assert_eq!(out, "");
}

#[test]
fn namespace_filter_allows() {
    let out = run_search(
        SCENARIO_XML.as_bytes(),
        "Abc",
        u64::MAX,
        Some(vec![b"0".to_vec()]),
        false,
    );
    assert_eq!(out, "Foo@7\nAbc Xyz Abc Xyz\nAbc Xyz Abc Xyz\n\n");
}

#[test]
fn match_ending_at_newline() {
    let out = run_search(SCENARIO_XML.as_bytes(), "Xyz\n", u64::MAX, None, false);
    assert_eq!(out, "Foo@7\nAbc Xyz Abc Xyz\nAbc Xyz Abc Xyz\n\n");
}

#[test]
fn empty_text_element_yields_no_match() {
    let xml = "<page><title>Foo</title><ns>0</ns><revision><id>7</id>\
<text xml:space=\"preserve\" /></revision></page>";
    let out = run_search(xml.as_bytes(), ".*", u64::MAX, None, false);
    assert_eq!(out, "");
}

#[test]
fn entity_unescaping_reaches_the_regex() {
    let xml = "<page><title>Foo</title><ns>0</ns><revision><id>7</id>\
<text>a &amp;&lt;&gt; b\n</text></revision></page>";
    let out = run_search(xml.as_bytes(), "&<>", u64::MAX, None, false);
    assert_eq!(out, "Foo@7\na &<> b\n\n");
}

#[test]
fn compressed_input_equals_plain() {
    let mut compressed: Vec<u8> = Vec::new();
    bzip2::read::BzEncoder::new(SCENARIO_XML.as_bytes(), bzip2::Compression::best())
        .read_to_end(&mut compressed)
        .unwrap();
    let mut decompressed: Vec<u8> = Vec::new();
    bzip2::read::BzDecoder::new(&compressed[..])
        .read_to_end(&mut decompressed)
        .unwrap();
    let out = run_search(&decompressed, "Abc", u64::MAX, None, false);
    assert_eq!(out, "Foo@7\nAbc Xyz Abc Xyz\nAbc Xyz Abc Xyz\n\n");
    assert!(is_compressed(&b"dump.xml.bz2".to_vec()));
    assert!(is_compressed(&b"dump.xml.7z".to_vec()));
    assert!(!is_compressed(&b"dump.xml".to_vec()));
}

const TWO_PAGE_XML: &str = "<page><title>One</title><ns>0</ns><revision><id>1</id>\
<text>Abc first\n</text></revision></page><page><title>Two</title><ns>0</ns><revision>\
<id>2</id><text>Abc second\n</text></revision></page>";

#[test]
fn page_past_range_end_left_to_next_worker() {
    let xml = TWO_PAGE_XML.as_bytes();
    let second_page = xml
        .windows("<page><title>Two".len())
        .position(|w| w == b"<page><title>Two")
        .unwrap() as u64;
    // the first range ends inside the first page's text: the worker still
    // finishes the first page but leaves the second to the next range
    let first = run_search(xml, "Abc", second_page - 4, None, false);
    assert_eq!(first, "One@1\nAbc first\n\n");
    // the next range's worker starts at its offset and sees the second page
    let rest = run_search(&xml[second_page as usize..], "Abc", u64::MAX, None, false);
    assert_eq!(rest, "Two@2\nAbc second\n\n");
    // together the two workers produce what one worker over the whole file
    // produces: every page is processed exactly once
    let whole = run_search(xml, "Abc", u64::MAX, None, false);
    assert_eq!(format!("{first}{rest}"), whole);
}

#[test]
fn search_is_deterministic_across_runs() {
    let a = run_search(SCENARIO_XML.as_bytes(), "Abc", u64::MAX, None, false);
    let b = run_search(SCENARIO_XML.as_bytes(), "Abc", u64::MAX, None, false);
    assert_eq!(a, b);
}

#[test]
fn multiple_revisions_render_multiple_blocks() {
    let xml = "<page><title>Foo</title><ns>0</ns><revision><id>7</id>\
<text>Abc\n</text></revision><revision><id>8</id><text>Abc again\n</text></revision></page>";
    let out = run_search(xml.as_bytes(), "Abc", u64::MAX, None, false);
    assert_eq!(out, "Foo@7\nAbc\n\nFoo@8\nAbc again\n\n");
}

#[test]
fn revision_id_takes_first_id_only() {
    let xml = "<page><title>Foo</title><ns>0</ns><revision><id>42</id>\
<contributor><id>99</id></contributor><text>Abc\n</text></revision></page>";
    let out = run_search(xml.as_bytes(), "Abc", u64::MAX, None, false);
    assert_eq!(out, "Foo@42\nAbc\n\n");
}

#[test]
fn unexpected_eof_inside_page_is_an_error() {
    let xml = "<page><title>Foo</title><ns>0</ns>";
    let (events, positions) = parse_events(xml.as_bytes());
    let re = CompiledRegex::compile("Abc").unwrap();
    let err = search_events(&events, &positions, &re, u64::MAX, None, false, false).unwrap_err();
    assert_eq!(err.kind_name(), "xml");
}

#[test]
fn empty_id_element_is_an_error() {
    let xml = "<page><title>Foo</title><ns>0</ns><revision><id/><text>Abc</text>\
</revision></page>";
    let (events, positions) = parse_events(xml.as_bytes());
    let re = CompiledRegex::compile("Abc").unwrap();
    let err = search_events(&events, &positions, &re, u64::MAX, None, false, false).unwrap_err();
    assert_eq!(err.kind_name(), "unexpected-empty-tag");
}

#[test]
fn bad_pattern_reports_regex_error() {
    let err = match CompiledRegex::compile("(") {
        Err(e) => e,
        Ok(_) => panic!("pattern should not compile"),
    };
    assert_eq!(err.kind_name(), "regex");
}

#[test]
fn header_written_exactly_once_per_matching_revision() {
    let out = run_search(SCENARIO_XML.as_bytes(), "Abc", u64::MAX, None, false);
    assert_eq!(out.matches("Foo@7\n").count(), 1);
    let none = run_search(SCENARIO_XML.as_bytes(), "no_match", u64::MAX, None, false);
    assert_eq!(none, "");
}

#[test]
fn markup_inside_title_is_an_error() {
    let xml = "<page><title><b>Foo</b></title><ns>0</ns><revision><id>7</id>\
<text>Abc</text></revision></page>";
    let (events, positions) = parse_events(xml.as_bytes());
    let re = CompiledRegex::compile("Abc").unwrap();
    let err = search_events(&events, &positions, &re, u64::MAX, None, false, false).unwrap_err();
    assert_eq!(err.kind_name(), "only-text-expected-in-tag");
}

#[test]
fn degenerate_revision_does_not_leak_into_next_page() {
    // the first page's revision has an id but no text: the machine returns to
    // page level at the revision's end, so the second page's record carries
    // the second page's own title
    let xml = "<page><title>One</title><ns>0</ns><revision><id>9</id></revision></page>\
<page><title>Two</title><ns>0</ns><revision><id>2</id><text>Abc\n</text></revision></page>";
    let out = run_search(xml.as_bytes(), "Abc", u64::MAX, None, false);
    assert_eq!(out, "Two@2\nAbc\n\n");
}

#[test]
fn revision_without_id_yields_nothing() {
    let xml = "<page><title>Foo</title><ns>0</ns><revision></revision>\
<revision><id>5</id><text>Abc\n</text></revision></page>";
    let out = run_search(xml.as_bytes(), "Abc", u64::MAX, None, false);
    assert_eq!(out, "Foo@5\nAbc\n\n");
}
