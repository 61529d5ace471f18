//! XMP sidecars: the keywords and the rating of a shot in the envelope that photo
//! catalogues import.
use quick_xml::events::{BytesEnd, BytesStart, BytesText, Event};
use quick_xml::writer::Writer;
use vstd::prelude::*;
use crate::text::{chars_of, signed_decimal, signed_text, texts};

verus! {

/// quick-xml's event writer.
#[verifier::external_type_specification]
#[verifier::external_body]
#[verifier::reject_recursive_types(W)]
pub struct ExWriter<W>(Writer<W>);

/// The text that the writer has written.
pub uninterp spec fn xml_text(w: Writer<Vec<u8>>) -> Seq<char>;

/// How many elements are open in the writer.
pub uninterp spec fn xml_depth(w: Writer<Vec<u8>>) -> nat;

/// Whether the next tag that the writer writes starts a line.
pub uninterp spec fn xml_breaks(w: Writer<Vec<u8>>) -> bool;

/// What a writer that indents by one blank holds: the text, the number of open
/// elements, and whether the next tag starts a line.
#[verifier::ext_equal]
pub struct Xml {
    pub text: Seq<char>,
    pub depth: nat,
    pub breaks: bool,
}

/// What the writer holds.
pub open spec fn xml_of(w: Writer<Vec<u8>>) -> Xml {
    Xml { text: xml_text(w), depth: xml_depth(w), breaks: xml_breaks(w) }
}

/// Before anything is written.
pub open spec fn xml_empty() -> Xml {
    Xml { text: Seq::empty(), depth: 0, breaks: false }
}

/// A new line with the indentation, where one is due.
pub open spec fn line_start(breaks: bool, depth: nat) -> Seq<char> {
    if breaks {
        seq!['\n'] + Seq::new(depth, |i: int| ' ')
    } else {
        Seq::empty()
    }
}

/// A character as XML text spells it.
pub open spec fn escaped_char(c: char) -> Seq<char> {
    if c == '<' {
        "&lt;"@
    } else if c == '>' {
        "&gt;"@
    } else if c == '\'' {
        "&apos;"@
    } else if c == '&' {
        "&amp;"@
    } else if c == '"' {
        "&quot;"@
    } else {
        seq![c]
    }
}

/// A text as XML spells it.
pub open spec fn escaped(s: Seq<char>) -> Seq<char>
    decreases s.len(),
{
    if s.len() == 0 {
        Seq::empty()
    } else {
        escaped(s.drop_last()) + escaped_char(s.last())
    }
}

/// The attributes of a start tag, each after a blank.
pub open spec fn attribute_text(attrs: Seq<(&str, &str)>) -> Seq<char>
    decreases attrs.len(),
{
    if attrs.len() == 0 {
        Seq::empty()
    } else {
        attribute_text(attrs.drop_last()) + seq![' '] + attrs.last().0@ + seq!['=', '"'] + escaped(
            attrs.last().1@,
        ) + seq!['"']
    }
}

/// After a start tag.
pub open spec fn opened(x: Xml, name: Seq<char>, attrs: Seq<(&str, &str)>) -> Xml {
    Xml {
        text: x.text + line_start(x.breaks, x.depth) + seq!['<'] + name + attribute_text(attrs)
            + seq!['>'],
        depth: x.depth + 1,
        breaks: true,
    }
}

/// After a text.
pub open spec fn worded(x: Xml, words: Seq<char>) -> Xml {
    Xml { text: x.text + escaped(words), breaks: false, ..x }
}

/// After an end tag.
pub open spec fn ended(x: Xml, name: Seq<char>) -> Xml {
    let depth = if x.depth > 0 {
        (x.depth - 1) as nat
    } else {
        0
    };
    Xml {
        text: x.text + line_start(x.breaks, depth) + seq!['<', '/'] + name + seq!['>'],
        depth,
        breaks: true,
    }
}

/// `Writer::new_with_indent` on an empty buffer, with one blank per level: nothing is
/// written yet, no element is open, and the first tag starts no line.
#[verifier::external_body]
fn xml_writer() -> (w: Writer<Vec<u8>>)
    ensures
        xml_text(w) == Seq::<char>::empty(),
        xml_depth(w) == 0,
        !xml_breaks(w),
{
    Writer::new_with_indent(Vec::new(), b' ', 1)
}

/// `Writer::write_event` of a `BytesStart` with attributes: a new line and the
/// indentation where due, then the tag with its attributes, whose values are escaped.
/// One more element is open, and the next tag starts a line. Writing to memory does
/// not fail.
#[verifier::external_body]
fn xml_start(w: &mut Writer<Vec<u8>>, name: &str, attrs: &Vec<(&str, &str)>)
    requires
        xml_depth(*old(w)) < usize::MAX,
    ensures
        xml_of(*final(w)) == opened(xml_of(*old(w)), name@, attrs@),
{
    let tag = BytesStart::new(name).with_attributes(attrs.iter().copied());
    w.write_event(Event::Start(tag)).expect("write to memory");
}

/// `Writer::write_event` of a `BytesText`: the text with `<`, `>`, `&` and the quotes
/// escaped. The next tag starts no line. Writing to memory does not fail.
#[verifier::external_body]
fn xml_words(w: &mut Writer<Vec<u8>>, words: &str)
    ensures
        xml_of(*final(w)) == worded(xml_of(*old(w)), words@),
{
    w.write_event(Event::Text(BytesText::new(words))).expect("write to memory");
}

/// `Writer::write_event` of a `BytesEnd`: one element fewer is open; a new line and the
/// indentation where due, then the tag. The next tag starts a line. Writing to memory
/// does not fail.
#[verifier::external_body]
fn xml_end(w: &mut Writer<Vec<u8>>, name: &str)
    ensures
        xml_of(*final(w)) == ended(xml_of(*old(w)), name@),
{
    w.write_event(Event::End(BytesEnd::new(name))).expect("write to memory");
}

/// `Writer::into_inner`: the bytes written, which are UTF-8 as everything written was.
#[verifier::external_body]
fn xml_finish(w: Writer<Vec<u8>>) -> (r: String)
    ensures
        r@ == xml_text(w),
{
    String::from_utf8(w.into_inner()).expect("only text was written")
}

/// Whether a character may stand in the text of a sidecar: no control character but
/// tab, line feed and carriage return, and not DEL.
pub open spec fn is_legal(c: char) -> bool {
    let n = c as int;
    !(0 <= n <= 0x08 || n == 0x0B || n == 0x0C || 0x0E <= n <= 0x1F || n == 0x7F)
}

/// The characters of a text that may stand in a sidecar.
pub open spec fn legal_part(s: Seq<char>) -> Seq<char>
    decreases s.len(),
{
    if s.len() == 0 {
        Seq::empty()
    } else if is_legal(s.last()) {
        legal_part(s.drop_last()).push(s.last())
    } else {
        legal_part(s.drop_last())
    }
}

fn is_legal_char(c: char) -> (r: bool)
    ensures
        r == is_legal(c),
{
    let n: u32 = c as u32;
    !(n <= 0x08 || n == 0x0B || n == 0x0C || (0x0E <= n && n <= 0x1F) || n == 0x7F)
}

/// Leaves out the characters that may not stand in a sidecar.
pub fn strip_illegal_xml_chars(s: &str) -> (r: String)
    ensures
        r@ == legal_part(s@),
{
    let v = chars_of(s);
    let mut r = String::new();
    let mut i: usize = 0;
    assert(v@.take(0) =~= Seq::<char>::empty());
    while i < v.len()
        invariant
            v@ == s@,
            0 <= i <= v@.len(),
            r@ == legal_part(v@.take(i as int)),
        decreases v@.len() - i,
    {
        assert(v@.take(i + 1).drop_last() =~= v@.take(i as int));
        if is_legal_char(v[i]) {
            r.push(v[i]);
        }
        i += 1;
    }
    assert(v@.take(v@.len() as int) =~= v@);
    r
}

/// After an element that holds a text only.
pub open spec fn leaf(x: Xml, name: Seq<char>, words: Seq<char>) -> Xml {
    ended(worded(opened(x, name, Seq::empty()), words), name)
}

/// After one list item per tag, for the first `n` tags.
pub open spec fn items(x: Xml, tags: Seq<Seq<char>>, n: int) -> Xml
    decreases n,
{
    if n <= 0 {
        x
    } else {
        leaf(items(x, tags, n - 1), "rdf:li"@, legal_part(tags[n - 1]))
    }
}

/// After the rating, where there is one.
pub open spec fn rated(x: Xml, rating: Option<i32>) -> Xml {
    match rating {
        Some(r) => leaf(x, "xmp:Rating"@, signed_decimal(r as int)),
        None => x,
    }
}

/// After the keywords, where there are any.
pub open spec fn tagged(x: Xml, tags: Seq<Seq<char>>) -> Xml {
    if tags.len() == 0 {
        x
    } else {
        let bag = opened(opened(x, "dc:subject"@, Seq::empty()), "rdf:Bag"@, Seq::empty());
        ended(ended(items(bag, tags, tags.len() as int), "rdf:Bag"@), "dc:subject"@)
    }
}

/// After the three start tags around the description.
pub open spec fn description() -> Xml {
    opened(
        opened(
            opened(xml_empty(), "x:xmpmeta"@, seq![("xmlns:x", "adobe:ns:meta/")]),
            "rdf:RDF"@,
            seq![("xmlns:rdf", "http://www.w3.org/1999/02/22-rdf-syntax-ns#")],
        ),
        "rdf:Description"@,
        seq![
            ("rdf:about", ""),
            ("xmlns:dc", "http://purl.org/dc/elements/1.1/"),
            ("xmlns:xmp", "http://ns.adobe.com/xap/1.0/"),
        ],
    )
}

/// The sidecar with the given tags and rating.
pub open spec fn xmp_document(tags: Seq<Seq<char>>, rating: Option<i32>) -> Seq<char> {
    let full = tagged(rated(description(), rating), tags);
    "<?xpacket begin=\"\u{feff}\" id=\"W5M0MpCehiHzreSzNTczkc9d\"?>\n"@ + ended(
        ended(ended(full, "rdf:Description"@), "rdf:RDF"@),
        "x:xmpmeta"@,
    ).text + "\n<?xpacket end=\"w\"?>\n"@
}

fn write_leaf(w: &mut Writer<Vec<u8>>, name: &str, words: &str)
    requires
        xml_depth(*old(w)) < usize::MAX,
    ensures
        xml_of(*final(w)) == leaf(xml_of(*old(w)), name@, words@),
{
    let none: Vec<(&str, &str)> = Vec::new();
    xml_start(w, name, &none);
    xml_words(w, words);
    xml_end(w, name);
}

/// Renders the sidecar with the given tags and rating.
pub fn build_xmp(tags: &Vec<String>, rating: Option<i32>) -> (r: String)
    ensures
        r@ == xmp_document(texts(tags@), rating),
{
    let none: Vec<(&str, &str)> = Vec::new();
    let mut w = xml_writer();
    let meta = vec![("xmlns:x", "adobe:ns:meta/")];
    xml_start(&mut w, "x:xmpmeta", &meta);
    let rdf = vec![("xmlns:rdf", "http://www.w3.org/1999/02/22-rdf-syntax-ns#")];
    xml_start(&mut w, "rdf:RDF", &rdf);
    let desc = vec![
        ("rdf:about", ""),
        ("xmlns:dc", "http://purl.org/dc/elements/1.1/"),
        ("xmlns:xmp", "http://ns.adobe.com/xap/1.0/"),
    ];
    xml_start(&mut w, "rdf:Description", &desc);
    proof {
        assert(meta@ =~= seq![("xmlns:x", "adobe:ns:meta/")]);
        assert(rdf@ =~= seq![("xmlns:rdf", "http://www.w3.org/1999/02/22-rdf-syntax-ns#")]);
        assert(desc@ =~= seq![
            ("rdf:about", ""),
            ("xmlns:dc", "http://purl.org/dc/elements/1.1/"),
            ("xmlns:xmp", "http://ns.adobe.com/xap/1.0/"),
        ]);
        assert(xml_of(w) == description());
    }
    if let Some(r) = rating {
        let number = signed_text(r);
        write_leaf(&mut w, "xmp:Rating", number.as_str());
    }
    if tags.len() > 0 {
        let ghost before = xml_of(w);
        assert(before.depth == 3);
        xml_start(&mut w, "dc:subject", &none);
        xml_start(&mut w, "rdf:Bag", &none);
        let ghost bag = xml_of(w);
        let mut i: usize = 0;
        while i < tags.len()
            invariant
                0 <= i <= tags@.len(),
                bag.depth == 5,
                xml_of(w).depth == 5,
                xml_of(w) == items(bag, texts(tags@), i as int),
            decreases tags@.len() - i,
        {
            let clean = strip_illegal_xml_chars(tags[i].as_str());
            write_leaf(&mut w, "rdf:li", clean.as_str());
            assert(texts(tags@)[i as int] == tags@[i as int]@);
            i += 1;
        }
        xml_end(&mut w, "rdf:Bag");
        xml_end(&mut w, "dc:subject");
    }
    xml_end(&mut w, "rdf:Description");
    xml_end(&mut w, "rdf:RDF");
    xml_end(&mut w, "x:xmpmeta");
    let body = xml_finish(w);
    let mut out = String::from_str(
        "<?xpacket begin=\"\u{feff}\" id=\"W5M0MpCehiHzreSzNTczkc9d\"?>\n",
    );
    out.append(body.as_str());
    out.append("\n<?xpacket end=\"w\"?>\n");
    out
}

/// `part` stands somewhere in `whole`.
pub open spec fn occurs(part: Seq<char>, whole: Seq<char>) -> bool {
    exists|before: Seq<char>, after: Seq<char>| whole == #[trigger] ((before + part) + after)
}

proof fn lemma_occurs_in_more(part: Seq<char>, whole: Seq<char>, front: Seq<char>, back: Seq<char>)
    requires
        occurs(part, whole),
    ensures
        occurs(part, front + whole + back),
{
    let (before, after) = choose|before: Seq<char>, after: Seq<char>|
        whole == #[trigger] ((before + part) + after);
    assert(front + whole + back =~= ((front + before) + part) + (after + back));
}

/// An element that holds a text only, as it stands on its line.
pub open spec fn element(name: Seq<char>, words: Seq<char>) -> Seq<char> {
    seq!['<'] + name + seq!['>'] + escaped(words) + seq!['<', '/'] + name + seq!['>']
}

proof fn lemma_leaf(x: Xml, name: Seq<char>, words: Seq<char>)
    ensures
        occurs(element(name, words), leaf(x, name, words).text),
        x.text.is_prefix_of(leaf(x, name, words).text),
        leaf(x, name, words).depth == x.depth,
{
    let before = x.text + line_start(x.breaks, x.depth);
    let none = Seq::<char>::empty();
    assert(leaf(x, name, words).text =~= (before + element(name, words)) + none);
    assert(x.text =~= leaf(x, name, words).text.subrange(0, x.text.len() as int));
}

proof fn lemma_prefix_occurs(part: Seq<char>, a: Seq<char>, b: Seq<char>)
    requires
        occurs(part, a),
        a.is_prefix_of(b),
    ensures
        occurs(part, b),
{
    let none = Seq::<char>::empty();
    let rest = b.skip(a.len() as int);
    assert(b =~= none + a + rest);
    lemma_occurs_in_more(part, a, none, rest);
}

proof fn lemma_items(x: Xml, tags: Seq<Seq<char>>, n: int, i: int)
    requires
        0 <= n <= tags.len(),
    ensures
        x.text.is_prefix_of(items(x, tags, n).text),
        0 <= i < n ==> occurs(
            element("rdf:li"@, legal_part(tags[i])),
            items(x, tags, n).text,
        ),
    decreases n,
{
    if n > 0 {
        let front = items(x, tags, n - 1);
        lemma_items(x, tags, n - 1, i);
        lemma_leaf(front, "rdf:li"@, legal_part(tags[n - 1]));
        assert(x.text =~= items(x, tags, n).text.subrange(0, x.text.len() as int)) by {
            assert(x.text == front.text.subrange(0, x.text.len() as int));
            assert(front.text == items(x, tags, n).text.subrange(0, front.text.len() as int));
        }
        if 0 <= i < n - 1 {
            lemma_prefix_occurs(
                element("rdf:li"@, legal_part(tags[i])),
                front.text,
                items(x, tags, n).text,
            );
        }
    } else {
        assert(x.text =~= x.text.subrange(0, x.text.len() as int));
    }
}

proof fn lemma_tags_extend(x: Xml, name: Seq<char>, attrs: Seq<(&str, &str)>)
    ensures
        x.text.is_prefix_of(opened(x, name, attrs).text),
        x.text.is_prefix_of(ended(x, name).text),
{
    assert(x.text =~= opened(x, name, attrs).text.subrange(0, x.text.len() as int));
    assert(x.text =~= ended(x, name).text.subrange(0, x.text.len() as int));
}

/// Every tag stands in the sidecar as a list item, escaped and without the characters
/// that may not stand there, and the rating stands in its own element.
pub proof fn tags_and_rating_stand_in_the_sidecar(
    tags: Seq<Seq<char>>,
    rating: Option<i32>,
    i: int,
)
    ensures
        0 <= i < tags.len() ==> occurs(
            element("rdf:li"@, legal_part(tags[i])),
            xmp_document(tags, rating),
        ),
        rating is Some ==> occurs(
            element("xmp:Rating"@, signed_decimal(rating->0 as int)),
            xmp_document(tags, rating),
        ),
{
    let head = "<?xpacket begin=\"\u{feff}\" id=\"W5M0MpCehiHzreSzNTczkc9d\"?>\n"@;
    let tail = "\n<?xpacket end=\"w\"?>\n"@;
    let none = Seq::<(&str, &str)>::empty();
    let base = rated(description(), rating);
    let full = tagged(base, tags);
    let e1 = ended(full, "rdf:Description"@);
    let e2 = ended(e1, "rdf:RDF"@);
    let e3 = ended(e2, "x:xmpmeta"@);
    lemma_tags_extend(full, "rdf:Description"@, none);
    lemma_tags_extend(e1, "rdf:RDF"@, none);
    lemma_tags_extend(e2, "x:xmpmeta"@, none);
    let s = opened(base, "dc:subject"@, none);
    let bag = opened(s, "rdf:Bag"@, none);
    let listed = items(bag, tags, tags.len() as int);
    let c1 = ended(listed, "rdf:Bag"@);
    let c2 = ended(c1, "dc:subject"@);
    lemma_tags_extend(base, "dc:subject"@, none);
    lemma_tags_extend(s, "rdf:Bag"@, none);
    lemma_tags_extend(listed, "rdf:Bag"@, none);
    lemma_tags_extend(c1, "dc:subject"@, none);
    lemma_items(bag, tags, tags.len() as int, i);
    if 0 <= i < tags.len() {
        let part = element("rdf:li"@, legal_part(tags[i]));
        lemma_prefix_occurs(part, listed.text, c1.text);
        lemma_prefix_occurs(part, c1.text, c2.text);
        lemma_prefix_occurs(part, full.text, e1.text);
        lemma_prefix_occurs(part, e1.text, e2.text);
        lemma_prefix_occurs(part, e2.text, e3.text);
        lemma_occurs_in_more(part, e3.text, head, tail);
    }
    if rating is Some {
        let part = element("xmp:Rating"@, signed_decimal(rating->0 as int));
        lemma_leaf(description(), "xmp:Rating"@, signed_decimal(rating->0 as int));
        if tags.len() > 0 {
            lemma_prefix_occurs(part, base.text, s.text);
            lemma_prefix_occurs(part, s.text, bag.text);
            lemma_prefix_occurs(part, bag.text, listed.text);
            lemma_prefix_occurs(part, listed.text, c1.text);
            lemma_prefix_occurs(part, c1.text, c2.text);
        }
        lemma_prefix_occurs(part, full.text, e1.text);
        lemma_prefix_occurs(part, e1.text, e2.text);
        lemma_prefix_occurs(part, e2.text, e3.text);
        lemma_occurs_in_more(part, e3.text, head, tail);
    }
}

proof fn lemma_escaped_front(s: Seq<char>)
    requires
        s.len() > 0,
    ensures
        escaped(s) == escaped_char(s[0]) + escaped(s.drop_first()),
    decreases s.len(),
{
    if s.len() == 1 {
        assert(s.drop_last() =~= Seq::<char>::empty());
        assert(s.drop_first() =~= Seq::<char>::empty());
        assert(escaped(s) =~= escaped_char(s[0]) + escaped(s.drop_first()));
    } else {
        lemma_escaped_front(s.drop_last());
        assert(s.drop_last().drop_first() =~= s.drop_first().drop_last());
        assert(escaped(s) =~= escaped_char(s[0]) + escaped(s.drop_first()));
    }
}

proof fn lemma_entities()
    ensures
        "&lt;"@ == seq!['&', 'l', 't', ';'],
        "&gt;"@ == seq!['&', 'g', 't', ';'],
        "&amp;"@ == seq!['&', 'a', 'm', 'p', ';'],
        "&apos;"@ == seq!['&', 'a', 'p', 'o', 's', ';'],
        "&quot;"@ == seq!['&', 'q', 'u', 'o', 't', ';'],
{
    reveal_strlit("&lt;");
    reveal_strlit("&gt;");
    reveal_strlit("&amp;");
    reveal_strlit("&apos;");
    reveal_strlit("&quot;");
    assert("&lt;"@ =~= seq!['&', 'l', 't', ';']);
    assert("&gt;"@ =~= seq!['&', 'g', 't', ';']);
    assert("&amp;"@ =~= seq!['&', 'a', 'm', 'p', ';']);
    assert("&apos;"@ =~= seq!['&', 'a', 'p', 'o', 's', ';']);
    assert("&quot;"@ =~= seq!['&', 'q', 'u', 'o', 't', ';']);
}

proof fn lemma_same_spelling(c: char, d: char, u: Seq<char>, v: Seq<char>)
    requires
        escaped_char(c) + u == escaped_char(d) + v,
    ensures
        c == d,
{
    lemma_entities();
    let x = escaped_char(c);
    let y = escaped_char(d);
    let e = x + u;
    assert(x.len() > 0 && y.len() > 0);
    assert(e[0] == x[0]);
    assert((y + v)[0] == y[0]);
    if e[0] == '&' {
        assert(x.len() >= 4 && y.len() >= 4);
        assert(e[1] == x[1] && (y + v)[1] == y[1]);
        assert(e[2] == x[2] && (y + v)[2] == y[2]);
    }
}

/// Escaping loses nothing: two texts that are spelt alike are the same text.
pub proof fn escaping_loses_nothing(a: Seq<char>, b: Seq<char>)
    requires
        escaped(a) == escaped(b),
    ensures
        a == b,
    decreases a.len(),
{
    if a.len() > 0 {
        lemma_escaped_front(a);
    }
    if b.len() > 0 {
        lemma_escaped_front(b);
    }
    if a.len() == 0 || b.len() == 0 {
        lemma_entities();
        assert(escaped(Seq::<char>::empty()).len() == 0);
        assert(a =~= b);
    } else {
        let u = escaped(a.drop_first());
        let v = escaped(b.drop_first());
        lemma_same_spelling(a[0], b[0], u, v);
        let n = escaped_char(a[0]).len() as int;
        assert(u =~= escaped(a).skip(n));
        assert(v =~= escaped(b).skip(n));
        escaping_loses_nothing(a.drop_first(), b.drop_first());
        assert(a =~= seq![a[0]] + a.drop_first());
        assert(b =~= seq![b[0]] + b.drop_first());
    }
}

/// Leaving out the illegal characters leaves only legal ones, and leaves a text that
/// holds none as it is.
pub proof fn legal_part_is_legal(s: Seq<char>)
    ensures
        forall|i: int| 0 <= i < legal_part(s).len() ==> is_legal(#[trigger] legal_part(s)[i]),
        (forall|i: int| 0 <= i < s.len() ==> is_legal(#[trigger] s[i])) ==> legal_part(s) == s,
        legal_part(legal_part(s)) == legal_part(s),
    decreases s.len(),
{
    if s.len() > 0 {
        let front = s.drop_last();
        legal_part_is_legal(front);
        if forall|i: int| 0 <= i < s.len() ==> is_legal(#[trigger] s[i]) {
            assert forall|i: int| 0 <= i < front.len() implies is_legal(#[trigger] front[i]) by {
                assert(front[i] == s[i]);
            }
            assert(is_legal(s[s.len() - 1]));
            assert(legal_part(s) =~= s);
        }
        if is_legal(s.last()) {
            assert(legal_part(s).drop_last() =~= legal_part(front));
        }
    }
}

/// What may stand in a sidecar: everything but the control characters, of which tabs and
/// line ends may stand there.
pub proof fn control_characters_are_not_legal(c: char)
    ensures
        c == '\t' || c == '\n' || c == '\r' ==> is_legal(c),
        c < ' ' && c != '\t' && c != '\n' && c != '\r' ==> !is_legal(c),
        c as int == 0x7F ==> !is_legal(c),
        c >= ' ' && c as int != 0x7F ==> is_legal(c),
{
}

/// Characters that may not stand in a sidecar are taken out one by one; the others stay in
/// their order.
pub proof fn characters_are_taken_out_one_by_one(a: Seq<char>, b: Seq<char>, c: char)
    ensures
        legal_part(a + b) == legal_part(a) + legal_part(b),
        is_legal(c) ==> legal_part(seq![c]) == seq![c],
        !is_legal(c) ==> legal_part(seq![c]).len() == 0,
    decreases b.len(),
{
    assert(seq![c].drop_last() =~= Seq::empty());
    reveal_with_fuel(legal_part, 2);
    assert(Seq::<char>::empty().push(c) =~= seq![c]);
    if b.len() == 0 {
        assert(a + b =~= a);
        assert(legal_part(a) + legal_part(b) =~= legal_part(a));
    } else {
        characters_are_taken_out_one_by_one(a, b.drop_last(), c);
        assert((a + b).drop_last() =~= a + b.drop_last());
        assert(legal_part(a + b) =~= legal_part(a) + legal_part(b));
    }
}

/// What the writer holds with more text before it.
spec fn behind(p: Seq<char>, x: Xml) -> Xml {
    Xml { text: p + x.text, ..x }
}

proof fn lemma_behind(p: Seq<char>, x: Xml, name: Seq<char>, attrs: Seq<(&str, &str)>, words: Seq<char>)
    ensures
        opened(behind(p, x), name, attrs) == behind(p, opened(x, name, attrs)),
        ended(behind(p, x), name) == behind(p, ended(x, name)),
        worded(behind(p, x), words) == behind(p, worded(x, words)),
        leaf(behind(p, x), name, words) == behind(p, leaf(x, name, words)),
{
    assert(opened(behind(p, x), name, attrs) =~= behind(p, opened(x, name, attrs)));
    assert(ended(behind(p, x), name) =~= behind(p, ended(x, name)));
    assert(worded(behind(p, x), words) =~= behind(p, worded(x, words)));
    let none: Seq<(&str, &str)> = Seq::empty();
    let o = opened(x, name, none);
    assert(opened(behind(p, x), name, none) =~= behind(p, o));
    let v = worded(o, words);
    assert(worded(behind(p, o), words) =~= behind(p, v));
    assert(ended(behind(p, v), name) =~= behind(p, ended(v, name)));
}

proof fn lemma_items_behind(p: Seq<char>, x: Xml, tags: Seq<Seq<char>>, n: int)
    ensures
        items(behind(p, x), tags, n) == behind(p, items(x, tags, n)),
    decreases n,
{
    if n > 0 {
        lemma_items_behind(p, x, tags, n - 1);
        lemma_behind(
            p,
            items(x, tags, n - 1),
            "rdf:li"@,
            Seq::empty(),
            legal_part(tags[n - 1]),
        );
    }
}

proof fn lemma_tagged_behind(p: Seq<char>, x: Xml, tags: Seq<Seq<char>>)
    ensures
        tagged(behind(p, x), tags) == behind(p, tagged(x, tags)),
{
    let none: Seq<(&str, &str)> = Seq::empty();
    lemma_behind(p, x, "dc:subject"@, none, Seq::empty());
    let s = opened(x, "dc:subject"@, none);
    lemma_behind(p, s, "rdf:Bag"@, none, Seq::empty());
    let b = opened(s, "rdf:Bag"@, none);
    lemma_items_behind(p, b, tags, tags.len() as int);
    let i = items(b, tags, tags.len() as int);
    lemma_behind(p, i, "rdf:Bag"@, none, Seq::empty());
    lemma_behind(p, ended(i, "rdf:Bag"@), "dc:subject"@, none, Seq::empty());
}

/// The end of the document.
spec fn closed_up(x: Xml) -> Xml {
    ended(ended(ended(x, "rdf:Description"@), "rdf:RDF"@), "x:xmpmeta"@)
}

proof fn lemma_closed_behind(p: Seq<char>, x: Xml)
    ensures
        closed_up(behind(p, x)) == behind(p, closed_up(x)),
{
    let none: Seq<(&str, &str)> = Seq::empty();
    lemma_behind(p, x, "rdf:Description"@, none, Seq::empty());
    let a = ended(x, "rdf:Description"@);
    lemma_behind(p, a, "rdf:RDF"@, none, Seq::empty());
    let b = ended(a, "rdf:RDF"@);
    lemma_behind(p, b, "x:xmpmeta"@, none, Seq::empty());
}

/// Whether the text is only indentation.
pub open spec fn is_indentation(s: Seq<char>) -> bool {
    forall|i: int| 0 <= i < s.len() ==> #[trigger] s[i] == '\n' || s[i] == ' '
}

/// Whether `long` is `short` with `part` put in at one place, and its indentation before it.
pub open spec fn grown_by(
    short: Seq<char>,
    long: Seq<char>,
    part: Seq<char>,
    before: Seq<char>,
    blank: Seq<char>,
    after: Seq<char>,
) -> bool {
    &&& short == before + after
    &&& long == before + blank + part + after
    &&& is_indentation(blank)
}

/// The document around what is described.
spec fn enveloped(x: Xml) -> Seq<char> {
    "<?xpacket begin=\"\u{feff}\" id=\"W5M0MpCehiHzreSzNTczkc9d\"?>\n"@ + closed_up(x).text
        + "\n<?xpacket end=\"w\"?>\n"@
}

proof fn lemma_enveloped_behind(p: Seq<char>, x: Xml)
    ensures
        enveloped(behind(p, x)) == "<?xpacket begin=\"\u{feff}\" id=\"W5M0MpCehiHzreSzNTczkc9d\"?>\n"@
            + p + (closed_up(x).text + "\n<?xpacket end=\"w\"?>\n"@),
{
    lemma_closed_behind(p, x);
    assert(enveloped(behind(p, x))
        =~= "<?xpacket begin=\"\u{feff}\" id=\"W5M0MpCehiHzreSzNTczkc9d\"?>\n"@ + p + (closed_up(
        x,
    ).text + "\n<?xpacket end=\"w\"?>\n"@));
}

proof fn lemma_leaf_grows(x: Xml, name: Seq<char>, words: Seq<char>, y: Xml)
    requires
        x.breaks,
        y.depth == x.depth,
        y.breaks,
        y.text.len() == 0,
    ensures
        is_indentation(line_start(x.breaks, x.depth)),
        x == behind(x.text, y),
        leaf(x, name, words) == behind(
            x.text + line_start(x.breaks, x.depth) + element(name, words),
            y,
        ),
{
    let l = leaf(x, name, words);
    lemma_leaf(x, name, words);
    assert(l.text =~= x.text + line_start(x.breaks, x.depth) + element(name, words));
    assert(l.breaks);
    assert(x.text + y.text =~= x.text);
    assert(l.text + y.text =~= l.text);
}

proof fn lemma_grown(
    head: Seq<char>,
    text: Seq<char>,
    blank: Seq<char>,
    part: Seq<char>,
    after: Seq<char>,
)
    requires
        is_indentation(blank),
    ensures
        grown_by(
            head + text + after,
            head + (text + blank + part) + after,
            part,
            head + text,
            blank,
            after,
        ),
{
    assert(head + (text + blank + part) + after =~= (head + text) + blank + part + after);
}

proof fn lemma_rating_grows(d: Xml, tags: Seq<Seq<char>>, words: Seq<char>)
    requires
        d.breaks,
    ensures
        exists|before: Seq<char>, blank: Seq<char>, after: Seq<char>| #[trigger]
            grown_by(
                enveloped(tagged(d, tags)),
                enveloped(tagged(leaf(d, "xmp:Rating"@, words), tags)),
                element("xmp:Rating"@, words),
                before,
                blank,
                after,
            ),
{
    let base = Xml { text: Seq::empty(), ..d };
    let blank = line_start(d.breaks, d.depth);
    let part = element("xmp:Rating"@, words);
    lemma_leaf_grows(d, "xmp:Rating"@, words, base);
    let more = d.text + blank + part;
    lemma_tagged_behind(d.text, base, tags);
    lemma_tagged_behind(more, base, tags);
    lemma_enveloped_behind(d.text, tagged(base, tags));
    lemma_enveloped_behind(more, tagged(base, tags));
    let head = "<?xpacket begin=\"\u{feff}\" id=\"W5M0MpCehiHzreSzNTczkc9d\"?>\n"@;
    let after = closed_up(tagged(base, tags)).text + "\n<?xpacket end=\"w\"?>\n"@;
    lemma_grown(head, d.text, blank, part, after);
}

/// A rating adds its own element to a sidecar and changes nothing else of it; so a sidecar
/// without one is the same document without that element.
pub proof fn a_rating_adds_its_element_alone(tags: Seq<Seq<char>>, rating: i32)
    ensures
        exists|before: Seq<char>, blank: Seq<char>, after: Seq<char>| #[trigger]
            grown_by(
                xmp_document(tags, None),
                xmp_document(tags, Some(rating)),
                element("xmp:Rating"@, signed_decimal(rating as int)),
                before,
                blank,
                after,
            ),
{
    let words = signed_decimal(rating as int);
    lemma_rating_grows(description(), tags, words);
    assert(xmp_document(tags, None) == enveloped(tagged(description(), tags)));
    assert(xmp_document(tags, Some(rating)) == enveloped(
        tagged(leaf(description(), "xmp:Rating"@, words), tags),
    ));
}

proof fn lemma_same_items(x: Xml, a: Seq<Seq<char>>, b: Seq<Seq<char>>, n: int)
    requires
        0 <= n <= a.len(),
        n <= b.len(),
        forall|i: int| 0 <= i < n ==> a[i] == b[i],
    ensures
        items(x, a, n) == items(x, b, n),
    decreases n,
{
    if n > 0 {
        lemma_same_items(x, a, b, n - 1);
    }
}

proof fn lemma_items_state(x: Xml, tags: Seq<Seq<char>>, n: int)
    requires
        n >= 0,
    ensures
        items(x, tags, n).depth == x.depth,
        x.breaks ==> items(x, tags, n).breaks,
    decreases n,
{
    if n > 0 {
        lemma_items_state(x, tags, n - 1);
        lemma_leaf(items(x, tags, n - 1), "rdf:li"@, legal_part(tags[n - 1]));
    }
}

proof fn lemma_tag_grows(d: Xml, tags: Seq<Seq<char>>, tag: Seq<char>)
    requires
        tags.len() > 0,
    ensures
        exists|before: Seq<char>, blank: Seq<char>, after: Seq<char>|
            {
                &&& #[trigger] grown_by(
                    enveloped(tagged(d, tags)),
                    enveloped(tagged(d, tags.push(tag))),
                    element("rdf:li"@, legal_part(tag)),
                    before,
                    blank,
                    after,
                )
                &&& forall|i: int|
                    0 <= i < tags.len() ==> occurs(
                        element("rdf:li"@, legal_part(#[trigger] tags[i])),
                        before,
                    )
            },
{
    let none: Seq<(&str, &str)> = Seq::empty();
    let n = tags.len() as int;
    let more = tags.push(tag);
    let bag = opened(opened(d, "dc:subject"@, none), "rdf:Bag"@, none);
    let i = items(bag, tags, n);
    let j = items(bag, more, n + 1);
    lemma_same_items(bag, tags, more, n);
    lemma_items_state(bag, tags, n);
    let words = legal_part(tag);
    let blank = line_start(i.breaks, i.depth);
    let part = element("rdf:li"@, words);
    assert(j == leaf(i, "rdf:li"@, words));
    let base = Xml { text: Seq::empty(), ..i };
    lemma_leaf_grows(i, "rdf:li"@, words, base);
    let text = i.text + blank + part;
    let bag_end = ended(base, "rdf:Bag"@);
    let all_end = ended(bag_end, "dc:subject"@);
    lemma_behind(i.text, base, "rdf:Bag"@, none, Seq::empty());
    lemma_behind(text, base, "rdf:Bag"@, none, Seq::empty());
    lemma_behind(i.text, bag_end, "dc:subject"@, none, Seq::empty());
    lemma_behind(text, bag_end, "dc:subject"@, none, Seq::empty());
    assert(tagged(d, tags) == behind(i.text, all_end));
    assert(tagged(d, more) == behind(text, all_end));
    lemma_enveloped_behind(i.text, all_end);
    lemma_enveloped_behind(text, all_end);
    let head = "<?xpacket begin=\"\u{feff}\" id=\"W5M0MpCehiHzreSzNTczkc9d\"?>\n"@;
    let after = closed_up(all_end).text + "\n<?xpacket end=\"w\"?>\n"@;
    lemma_grown(head, i.text, blank, part, after);
    let before = head + i.text;
    assert forall|k: int| 0 <= k < tags.len() implies occurs(
        element("rdf:li"@, legal_part(#[trigger] tags[k])),
        before,
    ) by {
        lemma_items(bag, tags, n, k);
        let e = Seq::<char>::empty();
        lemma_occurs_in_more(element("rdf:li"@, legal_part(tags[k])), i.text, head, e);
        assert(head + i.text + e =~= before);
    }
}

/// One more tag adds one more list item, behind those of the tags before it, and changes
/// nothing else of a sidecar.
pub proof fn a_tag_adds_its_item_alone(tags: Seq<Seq<char>>, tag: Seq<char>, rating: Option<i32>)
    requires
        tags.len() > 0,
    ensures
        exists|before: Seq<char>, blank: Seq<char>, after: Seq<char>|
            {
                &&& #[trigger] grown_by(
                    xmp_document(tags, rating),
                    xmp_document(tags.push(tag), rating),
                    element("rdf:li"@, legal_part(tag)),
                    before,
                    blank,
                    after,
                )
                &&& forall|i: int|
                    0 <= i < tags.len() ==> occurs(
                        element("rdf:li"@, legal_part(#[trigger] tags[i])),
                        before,
                    )
            },
{
    let d = rated(description(), rating);
    lemma_tag_grows(d, tags, tag);
    assert(xmp_document(tags, rating) == enveloped(tagged(d, tags)));
    assert(xmp_document(tags.push(tag), rating) == enveloped(tagged(d, tags.push(tag))));
}

} // verus!
