use culler::xmp::build_xmp;
use quick_xml::events::Event;
use quick_xml::Reader;

fn parse_xmp(xml: &str) -> (Vec<String>, Option<i32>) {
    let mut reader = Reader::from_str(xml);
    let mut tags = Vec::new();
    let mut rating = None;
    let mut in_li = false;
    let mut in_rating = false;
    loop {
        match reader.read_event() {
            Ok(Event::Start(e)) => match e.name().as_ref() {
                b"rdf:li" => in_li = true,
                b"xmp:Rating" => in_rating = true,
                _ => {}
            },
            Ok(Event::End(e)) => match e.name().as_ref() {
                b"rdf:li" => in_li = false,
                b"xmp:Rating" => in_rating = false,
                _ => {}
            },
            Ok(Event::Text(t)) => {
                let txt = String::from_utf8_lossy(t.as_ref()).into_owned();
                if in_li {
                    tags.push(txt);
                } else if in_rating {
                    rating = txt.trim().parse::<i32>().ok();
                }
            }
            Ok(Event::Eof) => break,
            Err(e) => panic!("parse error: {e}"),
            _ => {}
        }
    }
    (tags, rating)
}

#[test]
fn build_xmp_emits_dc_subject_bag() {
    let xml = build_xmp(&vec!["red".to_string(), "sky".to_string()], None);
    assert!(xml.contains("<dc:subject>"), "xml was: {xml}");
    assert!(xml.contains("<rdf:Bag>"), "xml was: {xml}");
    assert!(xml.contains("<rdf:li>red</rdf:li>"), "xml was: {xml}");
    assert!(xml.contains("<rdf:li>sky</rdf:li>"), "xml was: {xml}");

    let empty = build_xmp(&vec![], None);
    assert!(!empty.contains("dc:subject"), "xml was: {empty}");
}

#[test]
fn build_xmp_round_trips_rating_and_tags() {
    let xml = build_xmp(&vec!["red".to_string(), "sky".to_string()], Some(4));
    assert!(xml.contains("<xmp:Rating>4</xmp:Rating>"), "xml was: {xml}");
    let (tags, rating) = parse_xmp(&xml);
    assert_eq!(tags, vec!["red".to_string(), "sky".to_string()]);
    assert_eq!(rating, Some(4));

    let (_, r) = parse_xmp(&build_xmp(&vec![], Some(-1)));
    assert_eq!(r, Some(-1));

    let none = build_xmp(&vec!["x".to_string()], None);
    assert!(!none.contains("xmp:Rating"), "xml was: {none}");
    let (t2, r2) = parse_xmp(&none);
    assert_eq!(t2, vec!["x".to_string()]);
    assert_eq!(r2, None);
}

#[test]
fn build_xmp_strips_illegal_control_chars_from_tags() {
    let xml = build_xmp(
        &vec![
            "a\u{0007}b".to_string(),
            "\u{0000}x".to_string(),
            "tab\there\nline".to_string(),
            "del\u{7F}here".to_string(),
        ],
        Some(3),
    );

    for b in xml.bytes() {
        let legal = b >= 0x20 && b != 0x7F;
        let legal_control = matches!(b, b'\t' | b'\n' | b'\r');
        assert!(
            legal || legal_control,
            "illegal control byte {b:#x} present in: {xml}"
        );
    }
    assert!(xml.contains("<rdf:li>ab</rdf:li>"), "xml was: {xml}");
    assert!(xml.contains("<rdf:li>x</rdf:li>"), "xml was: {xml}");
    assert!(
        xml.contains("<rdf:li>tab\there\nline</rdf:li>"),
        "xml was: {xml}"
    );
    assert!(xml.contains("<rdf:li>delhere</rdf:li>"), "xml was: {xml}");

    let (tags, rating) = parse_xmp(&xml);
    assert_eq!(
        tags,
        vec![
            "ab".to_string(),
            "x".to_string(),
            "tab\there\nline".to_string(),
            "delhere".to_string(),
        ]
    );
    assert_eq!(rating, Some(3));
}

#[test]
fn markup_in_tags_is_escaped() {
    let xml = build_xmp(&vec!["a&b<c>\"d'".to_string()], None);
    assert!(
        xml.contains("<rdf:li>a&amp;b&lt;c&gt;&quot;d&apos;</rdf:li>"),
        "xml was: {xml}"
    );
}

#[test]
fn a_sidecar_is_laid_out_line_by_line() {
    let xml = build_xmp(&vec!["red".to_string()], Some(5));
    let lines: Vec<&str> = xml.lines().map(|l| l.trim_start()).collect();
    assert_eq!(
        lines,
        vec![
            "<?xpacket begin=\"\u{feff}\" id=\"W5M0MpCehiHzreSzNTczkc9d\"?>",
            "<x:xmpmeta xmlns:x=\"adobe:ns:meta/\">",
            "<rdf:RDF xmlns:rdf=\"http://www.w3.org/1999/02/22-rdf-syntax-ns#\">",
            "<rdf:Description rdf:about=\"\" xmlns:dc=\"http://purl.org/dc/elements/1.1/\" \
             xmlns:xmp=\"http://ns.adobe.com/xap/1.0/\">",
            "<xmp:Rating>5</xmp:Rating>",
            "<dc:subject>",
            "<rdf:Bag>",
            "<rdf:li>red</rdf:li>",
            "</rdf:Bag>",
            "</dc:subject>",
            "</rdf:Description>",
            "</rdf:RDF>",
            "</x:xmpmeta>",
            "<?xpacket end=\"w\"?>",
        ]
    );
    assert!(xml.contains("\n <rdf:RDF"), "xml was: {xml}");
}
