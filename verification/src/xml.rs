//! Contracts for the XML reader of the `quick-xml` crate and for UTF-8
//! decoding, as the configuration parser uses them.

use std::borrow::Cow;

use vstd::prelude::*;
use vstd::utf8::{decode_utf8, valid_utf8};

use quick_xml::events::attributes::Attribute;
use quick_xml::events::Event::{Empty as EmptyTag, End as EndTag, Eof as EndOfInput, Start as StartTag};
use quick_xml::events::BytesStart;
use quick_xml::name::QName;

use crate::xml::EventKind::{Empty, Eof, Failed, Other, Start};

verus! {

#[verifier::external_type_specification]
#[verifier::external_body]
#[verifier::reject_recursive_types(R)]
pub struct ExReader<R>(quick_xml::Reader<R>);

/// A pull reader of XML events over bytes in memory.
pub type XmlReader<'a> = quick_xml::Reader<&'a [u8]>;

/// The kind of an XML event.
#[derive(Debug, Clone, Copy, PartialEq, Eq, Structural)]
pub enum EventKind {
    /// A start tag `<x ...>`.
    Start,
    /// An empty-element tag `<x .../>`.
    Empty,
    /// An end tag `</x>`.
    End,
    /// The end of the input.
    Eof,
    /// The reader met malformed XML.
    Failed,
    /// Text, comments, declarations and the like.
    Other,
}

/// An XML event as the reader gives it: the kind, the raw bytes of the tag
/// name (empty for events without one), for each attribute of a start or
/// empty tag either its raw key and value bytes or `None` when the reader
/// found it malformed, and, for a failure, the byte position the reader had
/// reached and the text of its error.
pub struct RawEvent {
    pub kind: EventKind,
    pub name: Vec<u8>,
    pub attrs: Vec<Option<(Vec<u8>, Vec<u8>)>>,
    pub failure: Option<(u64, String)>,
}

/// A failure by its position and the characters of its text.
pub open spec fn failure_view(f: Option<(u64, String)>) -> Option<(u64, Seq<char>)> {
    match f {
        Some(p) => Some((p.0, p.1@)),
        None => None,
    }
}

/// The contents of a raw attribute.
pub type RawAttrView = Option<(Seq<u8>, Seq<u8>)>;

/// The contents of a raw event.
pub type RawEventView = (EventKind, Seq<u8>, Seq<RawAttrView>);

/// The contents of a raw event.
pub open spec fn raw_view(e: RawEvent) -> RawEventView {
    (e.kind, e.name@, e.attrs@.map_values(|a: Option<(Vec<u8>, Vec<u8>)>|
        match a {
            Some(p) => Some((p.0@, p.1@)),
            None => None,
        }))
}

/// The bytes a reader reads from.
pub uninterp spec fn reader_input(r: XmlReader) -> Seq<u8>;

/// How many events a reader has handed out.
pub uninterp spec fn reader_events_read(r: XmlReader) -> nat;

/// The `k`-th event (counting from 0) that a reader with the default
/// configuration hands out over `input`.
pub uninterp spec fn xml_event_at(input: Seq<u8>, k: nat) -> RawEventView;

/// When the `k`-th event (counting from 0) that a reader with the default
/// configuration hands out over `input` is an error: the byte position the
/// reader reports after it, and the text the error displays.
pub uninterp spec fn xml_failure_at(input: Seq<u8>, k: nat) -> (u64, Seq<char>);

/// The text of an attribute value with raw bytes `raw`: decoded as UTF-8 and
/// with its entity and character references replaced; `None` when either
/// step fails.
pub uninterp spec fn attr_value_text(raw: Seq<u8>) -> Option<Seq<char>>;

/// `Reader::from_reader` over bytes in memory: a reader that has handed out
/// no event yet.
#[verifier::external_body]
pub(crate) fn open_reader(input: &[u8]) -> (r: XmlReader<'_>)
    ensures
        reader_input(r) == input@,
        reader_events_read(r) == 0,
{
    quick_xml::Reader::from_reader(input)
}

/// `Reader::read_event_into` (into a fresh buffer): the next event of the
/// input, converted to plain bytes.  An error of the reader becomes an event
/// of kind `Failed`.
#[verifier::external_body]
pub(crate) fn read_raw_event(reader: &mut XmlReader<'_>) -> (e: RawEvent)
    ensures
        reader_input(*final(reader)) == reader_input(*old(reader)),
        reader_events_read(*final(reader)) == reader_events_read(*old(reader)) + 1,
        raw_view(e) == xml_event_at(reader_input(*old(reader)), reader_events_read(*old(reader))),
        e.failure is Some <==> e.kind == Failed,
        e.failure is Some ==> failure_view(e.failure)
            == Some(xml_failure_at(reader_input(*old(reader)), reader_events_read(*old(reader)))),
{
    let attrs = |s: &BytesStart| s.attributes().map(|a| a.ok().map(|a| (a.key.0.to_vec(), a.value.to_vec()))).collect();
    match reader.read_event_into(&mut Vec::new()) {
        Ok(StartTag(s)) => RawEvent::tag(Start, s.name().0, attrs(&s)),
        Ok(EmptyTag(s)) => RawEvent::tag(Empty, s.name().0, attrs(&s)),
        Ok(EndTag(e)) => RawEvent::closing(e.name().0),
        Ok(EndOfInput) => RawEvent::bare(Eof),
        Ok(_) => RawEvent::bare(Other),
        Err(err) => RawEvent::failed(reader.buffer_position(), err.to_string()),
    }
}

impl RawEvent {
    /// An event of kind `kind` with tag name `name` and attributes `attrs`.
    pub fn tag(kind: EventKind, name: &[u8], attrs: Vec<Option<(Vec<u8>, Vec<u8>)>>) -> (e: RawEvent)
        ensures
            e.kind == kind,
            e.name@ == name@,
            e.attrs == attrs,
            e.failure is None,
    {
        RawEvent { kind, name: vstd::slice::slice_to_vec(name), attrs, failure: None }
    }

    /// An end tag with name `name`.
    pub fn closing(name: &[u8]) -> (e: RawEvent)
        ensures
            e.kind == EventKind::End,
            e.name@ == name@,
            e.attrs@ == Seq::<Option<(Vec<u8>, Vec<u8>)>>::empty(),
            e.failure is None,
    {
        RawEvent { kind: EventKind::End, name: vstd::slice::slice_to_vec(name), attrs: Vec::new(), failure: None }
    }

    /// An event of kind `kind` without name or attributes.
    pub fn bare(kind: EventKind) -> (e: RawEvent)
        ensures
            e.kind == kind,
            e.name@ == Seq::<u8>::empty(),
            e.attrs@ == Seq::<Option<(Vec<u8>, Vec<u8>)>>::empty(),
            e.failure is None,
    {
        RawEvent { kind, name: Vec::new(), attrs: Vec::new(), failure: None }
    }

    /// A failure at byte position `position` with error text `message`.
    pub fn failed(position: u64, message: String) -> (e: RawEvent)
        ensures
            e.kind == EventKind::Failed,
            e.name@ == Seq::<u8>::empty(),
            e.attrs@ == Seq::<Option<(Vec<u8>, Vec<u8>)>>::empty(),
            e.failure == Some((position, message)),
    {
        RawEvent { kind: EventKind::Failed, name: Vec::new(), attrs: Vec::new(), failure: Some((position, message)) }
    }
}

/// `Attribute::decode_and_unescape_value` with the reader's decoder, for an
/// attribute whose raw value is `raw`.  Without the crate's `encoding`
/// feature the decoder reads UTF-8, and a value with no `&` in it is only
/// decoded, with nothing replaced.
#[verifier::external_body]
pub(crate) fn decode_attr_value(reader: &XmlReader<'_>, key: &[u8], raw: &[u8]) -> (r: Option<String>)
    ensures
        r is Some <==> attr_value_text(raw@) is Some,
        r is Some ==> attr_value_text(raw@) == Some(r->0@),
        !raw@.contains(38u8) ==> (r is Some <==> valid_utf8(raw@)),
        !raw@.contains(38u8) && r is Some ==> r->0@ == decode_utf8(raw@),
{
    let attr = Attribute { key: QName(key), value: Cow::Borrowed(raw) };
    attr.decode_and_unescape_value(reader.decoder()).ok().map(|v| v.into_owned())
}

/// `std::str::from_utf8`: the text the bytes encode, or `None` when they are
/// not valid UTF-8.
#[verifier::external_body]
pub(crate) fn utf8_text(bytes: &[u8]) -> (r: Option<String>)
    ensures
        r is Some <==> valid_utf8(bytes@),
        r is Some ==> r->0@ == decode_utf8(bytes@),
{
    std::str::from_utf8(bytes).ok().map(|s| s.to_string())
}

} // verus!
