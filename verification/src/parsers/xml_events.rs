//! XML documents as the event streams of a pull reader.
//!
//! The XML manifest parsers read the events that `quick-xml`'s `Reader`
//! produces, as plain values: start and end tags by their local name, and
//! text with the reader's byte position right after it. The stream ends at
//! the end of the document, or with [`XmlEvent::Error`] where the reader
//! failed.

use vstd::prelude::*;
use crate::text::sb;
use quick_xml::events::{BytesDecl, BytesRef, BytesStart, Event};
use quick_xml::{Reader, XmlVersion};

verus! {

/// One event of an XML pull reader.
#[derive(Debug)]
pub enum XmlEvent {
    /// A start tag `<name ...>`, by its local name.
    Start { local_name: String },
    /// An end tag `</name>`, by its local name.
    End { local_name: String },
    /// Character data, as the reader hands it over (not unescaped), and the
    /// reader's byte position right after it.
    Text { text: String, end: usize },
    /// Any other event: an empty element, a comment, a declaration, a
    /// reference, a processing instruction, CDATA or a doctype.
    Other,
    /// A read error; the reader stops there.
    Error,
}

/// An attribute of a tag, as the reader parsed it.
#[derive(Debug)]
pub struct XmlAttribute {
    /// The attribute's name as written.
    pub key: String,
    /// The raw value between the quotes, with any escapes left in.
    pub value: String,
    /// Where the raw value starts within the tag's content, when the
    /// reader's value lies inside it.
    pub offset: Option<usize>,
    /// The value normalized as an XML 1.0 attribute value; `None` where the
    /// reader could not normalize it.
    pub normalized: Option<String>,
}

/// A start or empty-element tag, as the reader parsed it.
#[derive(Debug)]
pub struct XmlTag {
    /// The tag's local name.
    pub local_name: String,
    /// Byte length of the tag's content: its name and attributes, without
    /// the delimiters `<`, `>` and `/>`.
    pub content_len: usize,
    /// The attributes that the reader parsed, in order.
    pub attributes: Vec<XmlAttribute>,
    /// Whether the attribute list ended cleanly; `false` when the reader
    /// reported a malformed attribute after those listed.
    pub attributes_ok: bool,
}

/// A reference `&...;` in character data.
#[derive(Debug)]
pub enum XmlReference {
    /// A character reference `&#...;` that names this code point.
    Char(u32),
    /// A character reference that the reader could not read.
    InvalidChar,
    /// An entity reference `&name;`, by its name.
    Entity(String),
}

/// One event of an XML pull reader, with the detail that a validating
/// consumer reads: tags with their attributes and positions, references,
/// and the XML declaration.
#[derive(Debug)]
pub enum XmlMarkupEvent {
    /// A start tag, and the reader's byte position right after it.
    Start { tag: XmlTag, end: u64 },
    /// An empty-element tag `<name .../>`, and the reader's byte position
    /// right after it.
    Empty { tag: XmlTag, end: u64 },
    /// An end tag, by its local name.
    End { local_name: String },
    /// Character data as it stands in the document, and the reader's byte
    /// position right after it.
    Text { text: String, end: u64 },
    /// A CDATA section.
    CData,
    /// A comment.
    Comment,
    /// A processing instruction.
    PI,
    /// A reference in character data.
    Reference(XmlReference),
    /// The XML declaration: its content (starting with `xml`) and the
    /// attributes read from it after those three bytes.
    Decl { content: String, attributes: Vec<(String, String)>, attributes_ok: bool },
    /// A document type declaration.
    DocType,
    /// The end of the document.
    Eof,
    /// A read error; the reader stops there.
    Error,
}

/// `quick_xml::events::Event`, one event of `quick-xml`'s reader.
#[verifier::external_type_specification]
#[verifier::external_body]
pub struct ExXmlEvent<'a>(Event<'a>);

/// `quick_xml::Error`, a read error of `quick-xml`.
#[verifier::external_type_specification]
#[verifier::external_body]
pub struct ExXmlError(quick_xml::Error);

/// `quick_xml::events::BytesStart`, a start or empty-element tag.
#[verifier::external_type_specification]
#[verifier::external_body]
pub struct ExBytesStart<'a>(BytesStart<'a>);

/// `quick_xml::events::BytesDecl`, an XML declaration.
#[verifier::external_type_specification]
#[verifier::external_body]
pub struct ExBytesDecl<'a>(BytesDecl<'a>);

/// `quick_xml::events::BytesRef`, a reference in character data.
#[verifier::external_type_specification]
#[verifier::external_body]
pub struct ExBytesRef<'a>(BytesRef<'a>);

/// The events that `quick-xml`'s `Reader` hands out for the UTF-8 text
/// `content`, with text trimmed or not, up to the end of the document or a
/// read error.
pub uninterp spec fn xml_events_of(content: Seq<u8>, trim: bool) -> Seq<XmlEvent>;

/// The detailed events that `quick-xml`'s `Reader`, with comment checks on,
/// hands out for the UTF-8 text `content`, up to the end of the document or
/// a read error.
pub uninterp spec fn xml_markup_events_of(content: Seq<u8>) -> Seq<XmlMarkupEvent>;

/// The [`XmlEvent`] of one read, with the reader's position after it;
/// `None` at the end of the document.
#[verifier::external_body]
fn from_xml_event(ev: Result<Event<'_>, quick_xml::Error>, end: u64) -> Option<XmlEvent> {
    match ev {
        Err(_) => Some(XmlEvent::Error),
        Ok(Event::Eof) => None,
        Ok(Event::Start(e)) => Some(XmlEvent::Start { local_name: e.local_name().as_ref().to_string() }),
        Ok(Event::End(e)) => Some(XmlEvent::End { local_name: e.local_name().as_ref().to_string() }),
        Ok(Event::Text(e)) => Some(XmlEvent::Text { text: e.to_string(), end: end as usize }),
        Ok(_) => Some(XmlEvent::Other),
    }
}

/// `quick_xml::Reader::from_str` with `trim_text(trim)`, read to the end of
/// the document or to the first error, each event converted.
///
/// Trusted: the result is what `quick-xml` reads from `content`, a function
/// of the text and `trim` alone, named [`xml_events_of`]; what that is, XML's
/// grammar, is not stated here.
#[verifier::external_body]
pub fn xml_events(content: &str, trim: bool) -> (r: Vec<XmlEvent>)
    ensures
        r@ == xml_events_of(sb(content), trim),
{
    let mut reader = Reader::from_str(content);
    reader.config_mut().trim_text(trim);
    let mut out = Vec::new();
    while let Some(e) = from_xml_event(reader.read_event(), reader.buffer_position()) {
        let stop = matches!(e, XmlEvent::Error);
        out.push(e);
        if stop {
            break;
        }
    }
    out
}

/// The [`XmlTag`] of a start or empty-element tag: its local name, the
/// length of its content, and its attributes as the reader parses them,
/// each with where its raw value lies in the content and its XML 1.0
/// normalized value.
#[verifier::external_body]
fn from_xml_tag(e: &BytesStart<'_>) -> XmlTag {
    let raw: &str = e;
    let mut attributes = Vec::new();
    let mut attributes_ok = true;
    for a in e.attributes() {
        let Ok(a) = a else { attributes_ok = false; break; };
        let value: &str = a.value.as_ref();
        attributes.push(XmlAttribute {
            key: a.key.as_ref().to_string(),
            value: value.to_string(),
            offset: (value.as_ptr() as usize).checked_sub(raw.as_ptr() as usize),
            normalized: a.normalized_value(XmlVersion::Implicit1_0).ok().map(|v| v.into_owned()),
        });
    }
    XmlTag { local_name: e.local_name().as_ref().to_string(), content_len: raw.len(), attributes, attributes_ok }
}

/// The [`XmlMarkupEvent::Decl`] of an XML declaration: its content, and the
/// attributes the reader parses after its first three bytes.
#[verifier::external_body]
fn from_xml_decl(d: &BytesDecl<'_>) -> XmlMarkupEvent {
    let content: &str = d;
    let mut attributes = Vec::new();
    let mut attributes_ok = true;
    if content.len() > 3 {
        for a in BytesStart::from_content(content, 3).attributes() {
            let Ok(a) = a else { attributes_ok = false; break; };
            let value: &str = a.value.as_ref();
            attributes.push((a.key.as_ref().to_string(), value.to_string()));
        }
    }
    XmlMarkupEvent::Decl { content: content.to_string(), attributes, attributes_ok }
}

/// The [`XmlReference`] of a reference: the code point of a character
/// reference, or the name of an entity reference.
#[verifier::external_body]
fn from_xml_ref(r: &BytesRef<'_>) -> XmlReference {
    match r.resolve_char_ref() {
        Ok(Some(c)) => XmlReference::Char(c as u32),
        Ok(None) => XmlReference::Entity(r.to_string()),
        Err(_) => XmlReference::InvalidChar,
    }
}

/// The [`XmlMarkupEvent`] of an event that is not a tag or text: CDATA, a
/// comment, a processing instruction, a reference, the XML declaration, a
/// document type, or the end of the document (tags and text are converted by
/// [`from_markup_event`] and never come here).
#[verifier::external_body]
fn from_other_event(ev: Event<'_>) -> XmlMarkupEvent {
    match ev {
        Event::CData(_) => XmlMarkupEvent::CData,
        Event::Comment(_) => XmlMarkupEvent::Comment,
        Event::PI(_) => XmlMarkupEvent::PI,
        Event::GeneralRef(r) => XmlMarkupEvent::Reference(from_xml_ref(&r)),
        Event::Decl(d) => from_xml_decl(&d),
        Event::DocType(_) => XmlMarkupEvent::DocType,
        _ => XmlMarkupEvent::Eof,
    }
}

/// The [`XmlMarkupEvent`] of one read, with the reader's position after it.
#[verifier::external_body]
fn from_markup_event(ev: Result<Event<'_>, quick_xml::Error>, end: u64) -> XmlMarkupEvent {
    match ev {
        Err(_) => XmlMarkupEvent::Error,
        Ok(Event::Start(e)) => XmlMarkupEvent::Start { tag: from_xml_tag(&e), end },
        Ok(Event::Empty(e)) => XmlMarkupEvent::Empty { tag: from_xml_tag(&e), end },
        Ok(Event::End(e)) => XmlMarkupEvent::End { local_name: e.local_name().as_ref().to_string() },
        Ok(Event::Text(t)) => XmlMarkupEvent::Text { text: t.to_string(), end },
        Ok(other) => from_other_event(other),
    }
}

/// `quick_xml::Reader::from_str` with comment checks on, read to the end of
/// the document (the last event is [`XmlMarkupEvent::Eof`]) or to the first
/// error, each event converted.
///
/// Trusted: the result is what `quick-xml` reads from `content`, a function
/// of the text alone, named [`xml_markup_events_of`]; what that is, XML's
/// grammar, is not stated here.
#[verifier::external_body]
pub fn xml_markup_events(content: &str) -> (r: Vec<XmlMarkupEvent>)
    ensures
        r@ == xml_markup_events_of(sb(content)),
{
    let mut reader = Reader::from_str(content);
    reader.config_mut().check_comments = true;
    let mut out = Vec::new();
    loop {
        let e = from_markup_event(reader.read_event(), reader.buffer_position());
        let stop = matches!(e, XmlMarkupEvent::Error | XmlMarkupEvent::Eof);
        out.push(e);
        if stop {
            break;
        }
    }
    out
}

} // verus!
