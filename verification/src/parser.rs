//! Reading a substation configuration description (SCL XML) into the model.

use vstd::prelude::*;
use vstd::utf8::{decode_utf8, valid_utf8};

use crate::hashing::{
    position_map_contents, position_map_get, position_map_keys, position_map_new, position_map_push,
    positions_under, BlockKey, PositionContents, PositionMap,
};
use crate::model::{AccessPoint, HeaderInfo, SCDModel, ServiceType, SubNetwork, VirtualTerminal, IED};
use crate::text::text_is;
use crate::xml::{
    attr_value_text, decode_attr_value, failure_view, open_reader, raw_view, read_raw_event, reader_events_read,
    reader_input, utf8_text, xml_event_at, xml_failure_at, EventKind, RawAttrView, RawEvent, RawEventView, XmlReader,
};

verus! {

/// Why a configuration could not be read.
#[derive(Debug, Clone, Copy, PartialEq, Eq, Structural)]
pub enum ParseError {
    /// A tag name or attribute key is not valid UTF-8.
    InvalidUtf8,
    /// An attribute value is not valid UTF-8 or holds a bad reference.
    InvalidAttributeValue,
}

/// One attribute of a tag: key and value as text, each `None` where it
/// could not be decoded.
pub struct XmlAttr {
    pub key: Option<String>,
    pub value: Option<String>,
}

/// One XML event with its tag name and attributes decoded; a failure keeps
/// the byte position the reader had reached and the text of its error.
pub struct XmlEvent {
    pub kind: EventKind,
    pub name: Option<String>,
    pub attrs: Vec<XmlAttr>,
    pub failure: Option<(u64, String)>,
}

/// The contents of an attribute.
pub type AttrView = (Option<Seq<char>>, Option<Seq<char>>);

/// The contents of an event.
pub type EventView = (EventKind, Option<Seq<char>>, Seq<AttrView>);

/// An optional text by its characters.
pub open spec fn opt_view(o: Option<String>) -> Option<Seq<char>> {
    match o {
        Some(s) => Some(s@),
        None => None,
    }
}

/// The contents of an attribute.
pub open spec fn attr_view(a: XmlAttr) -> AttrView {
    (opt_view(a.key), opt_view(a.value))
}

/// The contents of a list of attributes.
pub open spec fn attr_views(attrs: Seq<XmlAttr>) -> Seq<AttrView> {
    attrs.map_values(|a: XmlAttr| attr_view(a))
}

/// The contents of an event.
pub open spec fn event_view(e: XmlEvent) -> EventView {
    (e.kind, opt_view(e.name), attr_views(e.attrs@))
}

/// The contents of a list of events.
pub open spec fn event_views(es: Seq<XmlEvent>) -> Seq<EventView> {
    es.map_values(|e: XmlEvent| event_view(e))
}

/// The text that bytes encode in UTF-8, if they are valid UTF-8.
pub open spec fn utf8_opt(b: Seq<u8>) -> Option<Seq<char>> {
    if valid_utf8(b) { Some(decode_utf8(b)) } else { None }
}

/// The well-formed raw attributes, each decoded.
pub open spec fn decode_attrs(raw: Seq<RawAttrView>) -> Seq<AttrView>
    decreases raw.len(),
{
    if raw.len() == 0 {
        Seq::empty()
    } else {
        let prev = decode_attrs(raw.drop_last());
        match raw.last() {
            Some(p) => prev.push((utf8_opt(p.0), attr_value_text(p.1))),
            None => prev,
        }
    }
}

/// A tag that opens an element.
pub open spec fn is_open(k: EventKind) -> bool {
    k == EventKind::Start || k == EventKind::Empty
}

/// A raw event decoded: the name of a tag as UTF-8 text, and the
/// attributes of an opening tag.
pub open spec fn decode_event(e: RawEventView) -> EventView {
    (
        e.0,
        if is_open(e.0) || e.0 == EventKind::End { utf8_opt(e.1) } else { None },
        if is_open(e.0) { decode_attrs(e.2) } else { Seq::empty() },
    )
}

/// An event after which no more are read.
pub open spec fn is_last(k: EventKind) -> bool {
    k == EventKind::Eof || k == EventKind::Failed
}

/// The decoded events of `input` from the `k`-th on, at most `fuel` of
/// them, up to and including the first end of input or failure.
pub open spec fn events_from(input: Seq<u8>, k: nat, fuel: nat) -> Seq<EventView>
    decreases fuel,
{
    if fuel == 0 {
        Seq::empty()
    } else {
        let e = decode_event(xml_event_at(input, k));
        if is_last(e.0) { seq![e] } else { seq![e] + events_from(input, k + 1, (fuel - 1) as nat) }
    }
}

/// The decoded events of `input`.  No more than one event per byte and a
/// last one are read: each event before the end of input takes up at least
/// one byte.
pub open spec fn input_events(input: Seq<u8>) -> Seq<EventView> {
    events_from(input, 0, input.len() + 1)
}

// ----- attributes -----

/// The first attribute error in order: a key that is not text, else a value
/// that is not.
pub open spec fn first_error(attrs: Seq<AttrView>) -> Option<ParseError>
    decreases attrs.len(),
{
    if attrs.len() == 0 {
        None
    } else if attrs[0].0 is None {
        Some(ParseError::InvalidUtf8)
    } else if attrs[0].1 is None {
        Some(ParseError::InvalidAttributeValue)
    } else {
        first_error(attrs.subrange(1, attrs.len() as int))
    }
}

/// The attribute has one of the keys.
pub open spec fn key_is(a: AttrView, k1: Seq<char>, k2: Seq<char>, k3: Seq<char>) -> bool {
    a.0 == Some(k1) || a.0 == Some(k2) || a.0 == Some(k3)
}

/// The value of the last attribute with one of the keys.
pub open spec fn last_value(attrs: Seq<AttrView>, k1: Seq<char>, k2: Seq<char>, k3: Seq<char>) -> Option<Seq<char>>
    decreases attrs.len(),
{
    if attrs.len() == 0 {
        None
    } else if key_is(attrs.last(), k1, k2, k3) {
        attrs.last().1
    } else {
        last_value(attrs.drop_last(), k1, k2, k3)
    }
}

/// The value of the first attribute with the key, looking at the attributes
/// in order and failing at a key that is not text before it, or at its
/// value when that is not text.
pub open spec fn first_named(attrs: Seq<AttrView>, key: Seq<char>) -> Result<Option<Seq<char>>, ParseError>
    decreases attrs.len(),
{
    if attrs.len() == 0 {
        Ok(None)
    } else if attrs[0].0 is None {
        Err(ParseError::InvalidUtf8)
    } else if attrs[0].0 == Some(key) {
        match attrs[0].1 {
            Some(v) => Ok(Some(v)),
            None => Err(ParseError::InvalidAttributeValue),
        }
    } else {
        first_named(attrs.subrange(1, attrs.len() as int), key)
    }
}

/// A text, or the empty text.
pub open spec fn or_empty(o: Option<Seq<char>>) -> Seq<char> {
    match o {
        Some(s) => s,
        None => Seq::empty(),
    }
}

// ----- the model as the parser builds it -----

/// The contents of a virtual terminal.
pub type VtView = (
    Seq<char>,
    Seq<char>,
    Seq<char>,
    Seq<char>,
    ServiceType,
    Option<Seq<char>>,
    Option<Seq<char>>,
    Option<Seq<char>>,
    Option<Seq<char>>,
);

/// The contents of a virtual terminal.
pub open spec fn vt_view(v: VirtualTerminal) -> VtView {
    (v.ied_name@, v.ap_name@, v.ld_inst@, v.cb_name@, v.service_type, opt_view(v.mac_address),
        opt_view(v.app_id), opt_view(v.vlan_id), opt_view(v.vlan_priority))
}

/// The contents of a list of virtual terminals.
pub open spec fn vts_view(vs: Seq<VirtualTerminal>) -> Seq<VtView> {
    vs.map_values(|v: VirtualTerminal| vt_view(v))
}

/// The contents of an access point: name, IED name, then GOOSE and SV
/// publications and GOOSE and SV subscriptions.
pub type ApView = (Seq<char>, Seq<char>, Seq<VtView>, Seq<VtView>, Seq<VtView>, Seq<VtView>);

/// The contents of an access point.
pub open spec fn ap_view(a: AccessPoint) -> ApView {
    (a.name@, a.ied_name@, vts_view(a.goose_pubs@), vts_view(a.sv_pubs@), vts_view(a.goose_subs@), vts_view(a.sv_subs@))
}

/// The contents of an IED: name, type, manufacturer, access points.
pub type IedView = (Seq<char>, Option<Seq<char>>, Option<Seq<char>>, Seq<ApView>);

/// The contents of an IED.
pub open spec fn ied_view(i: IED) -> IedView {
    (i.name@, opt_view(i.ied_type), opt_view(i.manufacturer), i.access_points@.map_values(|a: AccessPoint| ap_view(a)))
}

/// The contents of a list of IEDs.
pub open spec fn ieds_view(is: Seq<IED>) -> Seq<IedView> {
    is.map_values(|i: IED| ied_view(i))
}

/// The contents of a subnetwork: name, type, connected pairs.
pub type SubnetView = (Seq<char>, Option<Seq<char>>, Seq<(Seq<char>, Seq<char>)>);

/// The contents of a subnetwork.
pub open spec fn subnet_view(s: SubNetwork) -> SubnetView {
    (s.name@, opt_view(s.type_attr), s.access_points@.map_values(|p: (String, String)| (p.0@, p.1@)))
}

/// The contents of a list of subnetworks.
pub open spec fn subnets_view(ss: Seq<SubNetwork>) -> Seq<SubnetView> {
    ss.map_values(|s: SubNetwork| subnet_view(s))
}

/// The contents of a header: id, version, history.
pub type HeaderView = (Option<Seq<char>>, Option<Seq<char>>, Seq<Seq<char>>);

/// The contents of a header.
pub open spec fn header_view(h: HeaderInfo) -> HeaderView {
    (opt_view(h.id), opt_view(h.version), h.name_history@.map_values(|s: String| s@))
}

/// The parts of a model that the reading of events builds.
pub type ParsedView = (Seq<IedView>, Seq<SubnetView>, Option<HeaderView>);

/// The parts of a model that the reading of events builds.
pub open spec fn parsed_view(m: SCDModel) -> ParsedView {
    (ieds_view(m.ieds@), subnets_view(m.sub_networks@), match m.header_info {
        Some(h) => Some(header_view(h)),
        None => None,
    })
}

/// Adds an access point named `name` to the last IED, if there is one.
pub open spec fn push_ap(ieds: Seq<IedView>, name: Seq<char>) -> Seq<IedView> {
    if ieds.len() == 0 {
        ieds
    } else {
        let l = ieds.last();
        ieds.drop_last().push((l.0, l.1, l.2, l.3.push((name, l.0, Seq::empty(), Seq::empty(), Seq::empty(), Seq::empty()))))
    }
}

/// Adds a terminal to list `which` of an access point: 0 GOOSE
/// publications, 1 SV publications, 2 GOOSE subscriptions, 3 SV subscriptions.
pub open spec fn add_to_list(ap: ApView, vt: VtView, which: int) -> ApView {
    if which == 0 {
        (ap.0, ap.1, ap.2.push(vt), ap.3, ap.4, ap.5)
    } else if which == 1 {
        (ap.0, ap.1, ap.2, ap.3.push(vt), ap.4, ap.5)
    } else if which == 2 {
        (ap.0, ap.1, ap.2, ap.3, ap.4.push(vt), ap.5)
    } else {
        (ap.0, ap.1, ap.2, ap.3, ap.4, ap.5.push(vt))
    }
}

/// There is a last access point of a last IED.
pub open spec fn has_last_ap(ieds: Seq<IedView>) -> bool {
    ieds.len() > 0 && ieds.last().3.len() > 0
}

/// Adds a terminal to list `which` of the last access point of the last IED.
pub open spec fn push_term(ieds: Seq<IedView>, vt: VtView, which: int) -> Seq<IedView> {
    if !has_last_ap(ieds) {
        ieds
    } else {
        let l = ieds.last();
        ieds.drop_last().push((l.0, l.1, l.2, l.3.drop_last().push(add_to_list(l.3.last(), vt, which))))
    }
}

/// Adds a connected pair to the last subnetwork, if there is one.
pub open spec fn push_pair(subnets: Seq<SubnetView>, pair: (Seq<char>, Seq<char>)) -> Seq<SubnetView> {
    if subnets.len() == 0 {
        subnets
    } else {
        let l = subnets.last();
        subnets.drop_last().push((l.0, l.1, l.2.push(pair)))
    }
}

// ----- the reading state -----

/// Which elements the reader is inside of.
#[derive(Debug, Clone, Copy, PartialEq, Eq, Structural)]
pub struct ParseFlags {
    pub in_ied: bool,
    pub in_access_point: bool,
    pub in_ldevice: bool,
    pub in_ln: bool,
    pub in_inputs: bool,
    pub in_gse_control: bool,
    pub in_sv_control: bool,
    pub in_subnetwork: bool,
}

/// The state of the reading: the flags, the instance of the current logical
/// device and the names of the current GOOSE and SV control blocks.
pub struct ParseState {
    pub flags: ParseFlags,
    pub ld_inst: Option<String>,
    pub gse_name: Option<String>,
    pub sv_name: Option<String>,
}

/// The contents of a reading state.
pub type StateView = (ParseFlags, Option<Seq<char>>, Option<Seq<char>>, Option<Seq<char>>);

/// The contents of a reading state.
pub open spec fn state_view(s: ParseState) -> StateView {
    (s.flags, opt_view(s.ld_inst), opt_view(s.gse_name), opt_view(s.sv_name))
}

/// The state before the first event: inside of nothing, no names.
pub open spec fn initial_state() -> StateView {
    (ParseFlags {
        in_ied: false,
        in_access_point: false,
        in_ldevice: false,
        in_ln: false,
        in_inputs: false,
        in_gse_control: false,
        in_sv_control: false,
        in_subnetwork: false,
    }, None, None, None)
}

/// The model before the first event: empty.
pub open spec fn empty_parsed() -> ParsedView {
    (Seq::empty(), Seq::empty(), None)
}

/// The service a `serviceType` value names: SV for `SMV` or `SV`, GOOSE otherwise.
pub open spec fn service_of(v: Option<Seq<char>>) -> ServiceType {
    if v == Some("SMV"@) || v == Some("SV"@) { ServiceType::SV } else { ServiceType::GOOSE }
}

/// An opening tag named `name` with attributes `attrs`.
pub open spec fn open_tag(st: StateView, m: ParsedView, name: Seq<char>, attrs: Seq<AttrView>) -> Result<(StateView, ParsedView), ParseError> {
    let f = st.0;
    let err = first_error(attrs);
    if name == "Header"@ {
        match err {
            Some(x) => Err(x),
            None => Ok((st, (m.0, m.1, Some((last_value(attrs, "id"@, "id"@, "id"@),
                last_value(attrs, "version"@, "version"@, "version"@), Seq::empty()))))),
        }
    } else if name == "IED"@ {
        match err {
            Some(x) => Err(x),
            None => Ok((
                (ParseFlags { in_ied: true, ..f }, st.1, st.2, st.3),
                (m.0.push((or_empty(last_value(attrs, "name"@, "name"@, "name"@)),
                    last_value(attrs, "type"@, "type"@, "type"@),
                    last_value(attrs, "manufacturer"@, "manufacturer"@, "manufacturer"@), Seq::empty())), m.1, m.2),
            )),
        }
    } else {
        open_in_ied(st, m, name, attrs)
    }
}

/// An opening tag inside an IED: access points and logical devices.
pub open spec fn open_in_ied(st: StateView, m: ParsedView, name: Seq<char>, attrs: Seq<AttrView>) -> Result<(StateView, ParsedView), ParseError> {
    let f = st.0;
    let err = first_error(attrs);
    if name == "AccessPoint"@ && f.in_ied {
        match first_named(attrs, "name"@) {
            Err(x) => Err(x),
            Ok(o) => Ok(((ParseFlags { in_access_point: true, ..f }, st.1, st.2, st.3), (push_ap(m.0, or_empty(o)), m.1, m.2))),
        }
    } else if name == "LDevice"@ && f.in_access_point {
        match first_named(attrs, "inst"@) {
            Err(x) => Err(x),
            Ok(o) => Ok(((ParseFlags { in_ldevice: true, ..f }, if o is Some { o } else { st.1 }, st.2, st.3), m)),
        }
    } else {
        open_in_ldevice(st, m, name, attrs)
    }
}

/// An opening tag inside a logical device: logical nodes, inputs, references.
pub open spec fn open_in_ldevice(st: StateView, m: ParsedView, name: Seq<char>, attrs: Seq<AttrView>) -> Result<(StateView, ParsedView), ParseError> {
    let f = st.0;
    let err = first_error(attrs);
    if (name == "LN0"@ || name == "LN"@) && f.in_ldevice {
        match err {
            Some(x) => Err(x),
            None => Ok(((ParseFlags { in_ln: true, ..f }, st.1, st.2, st.3), m)),
        }
    } else if name == "Inputs"@ && f.in_ln {
        Ok(((ParseFlags { in_inputs: true, ..f }, st.1, st.2, st.3), m))
    } else if name == "ExtRef"@ && f.in_inputs {
        match err {
            Some(x) => Err(x),
            None => {
                let cb = or_empty(last_value(attrs, "cbName"@, "cbName"@, "cbName"@));
                let svc = service_of(last_value(attrs, "serviceType"@, "serviceType"@, "serviceType"@));
                let vt: VtView = (or_empty(last_value(attrs, "iedName"@, "iedName"@, "iedName"@)),
                    or_empty(last_value(attrs, "apRef"@, "apRef"@, "apRef"@)),
                    or_empty(last_value(attrs, "ldInst"@, "ldInst"@, "ldInst"@)), cb, svc, None, None, None, None);
                if cb.len() > 0 {
                    Ok((st, (push_term(m.0, vt, if svc == ServiceType::GOOSE { 2 } else { 3 }), m.1, m.2)))
                } else {
                    Ok((st, m))
                }
            },
        }
    } else {
        open_control(st, m, name, attrs)
    }
}

/// An opening tag of a control block.
pub open spec fn open_control(st: StateView, m: ParsedView, name: Seq<char>, attrs: Seq<AttrView>) -> Result<(StateView, ParsedView), ParseError> {
    let f = st.0;
    let err = first_error(attrs);
    if name == "GSEControl"@ && f.in_ln {
        match first_named(attrs, "name"@) {
            Err(x) => Err(x),
            Ok(o) => Ok(((ParseFlags { in_gse_control: true, ..f }, st.1, if o is Some { o } else { st.2 }, st.3), m)),
        }
    } else if name == "SampledValueControl"@ && f.in_ln {
        match first_named(attrs, "name"@) {
            Err(x) => Err(x),
            Ok(o) => Ok(((ParseFlags { in_sv_control: true, ..f }, st.1, st.2, if o is Some { o } else { st.3 }), m)),
        }
    } else {
        open_publication(st, m, name, attrs)
    }
}

/// An opening tag that addresses a publication.
pub open spec fn open_publication(st: StateView, m: ParsedView, name: Seq<char>, attrs: Seq<AttrView>) -> Result<(StateView, ParsedView), ParseError> {
    let f = st.0;
    let err = first_error(attrs);
    if (name == "GSE"@ || name == "GOOSE"@) && f.in_gse_control {
        match err {
            Some(x) => Err(x),
            None => Ok((st, (published(m.0, st, attrs, st.2, ServiceType::GOOSE, 0), m.1, m.2))),
        }
    } else if (name == "SMV"@ || name == "SampledValue"@) && f.in_sv_control {
        match err {
            Some(x) => Err(x),
            None => Ok((st, (published(m.0, st, attrs, st.3, ServiceType::SV, 1), m.1, m.2))),
        }
    } else {
        open_network(st, m, name, attrs)
    }
}

/// An opening tag of the communication section.
pub open spec fn open_network(st: StateView, m: ParsedView, name: Seq<char>, attrs: Seq<AttrView>) -> Result<(StateView, ParsedView), ParseError> {
    let f = st.0;
    let err = first_error(attrs);
    if name == "SubNetwork"@ {
        match err {
            Some(x) => Err(x),
            None => Ok((
                (ParseFlags { in_subnetwork: true, ..f }, st.1, st.2, st.3),
                (m.0, m.1.push((or_empty(last_value(attrs, "name"@, "name"@, "name"@)),
                    last_value(attrs, "type"@, "type"@, "type"@), Seq::empty())), m.2),
            )),
        }
    } else if name == "ConnectedAP"@ && f.in_subnetwork {
        match err {
            Some(x) => Err(x),
            None => Ok((st, (m.0, push_pair(m.1, (or_empty(last_value(attrs, "iedName"@, "iedName"@, "iedName"@)),
                or_empty(last_value(attrs, "apName"@, "apName"@, "apName"@)))), m.2))),
        }
    } else {
        Ok((st, m))
    }
}

/// The IEDs after a publication tag: when a control block is current and
/// there is a last access point, a terminal of that access point and block,
/// with the addressing the attributes give, goes to list `which`.
pub open spec fn published(ieds: Seq<IedView>, st: StateView, attrs: Seq<AttrView>, cb: Option<Seq<char>>, svc: ServiceType, which: int) -> Seq<IedView> {
    match cb {
        None => ieds,
        Some(c) => if has_last_ap(ieds) {
            push_term(ieds, (ieds.last().0, ieds.last().3.last().0, or_empty(st.1), c, svc,
                last_value(attrs, "MACAddress"@, "macAddress"@, "DstAddress"@),
                last_value(attrs, "AppID"@, "appId"@, "appId"@),
                last_value(attrs, "VLANID"@, "vlanId"@, "VlanId"@),
                last_value(attrs, "VLANPriority"@, "vlanPriority"@, "vlanPriority"@)), which)
        } else {
            ieds
        },
    }
}

/// A closing tag named `name`.
pub open spec fn close_tag(st: StateView, name: Seq<char>) -> StateView {
    let f = st.0;
    if name == "IED"@ {
        (ParseFlags { in_ied: false, ..f }, st.1, st.2, st.3)
    } else if name == "AccessPoint"@ {
        (ParseFlags { in_access_point: false, ..f }, st.1, st.2, st.3)
    } else if name == "LDevice"@ {
        (ParseFlags { in_ldevice: false, ..f }, None, st.2, st.3)
    } else if name == "LN0"@ || name == "LN"@ {
        (ParseFlags { in_ln: false, ..f }, st.1, st.2, st.3)
    } else if name == "Inputs"@ {
        (ParseFlags { in_inputs: false, ..f }, st.1, st.2, st.3)
    } else if name == "GSEControl"@ {
        (ParseFlags { in_gse_control: false, ..f }, st.1, None, st.3)
    } else if name == "SampledValueControl"@ {
        (ParseFlags { in_sv_control: false, ..f }, st.1, st.2, None)
    } else if name == "SubNetwork"@ {
        (ParseFlags { in_subnetwork: false, ..f }, st.1, st.2, st.3)
    } else {
        st
    }
}

/// One event: tags change the state and the model; a tag name that is not
/// text is an error; other events change nothing.
pub open spec fn step(st: StateView, m: ParsedView, e: EventView) -> Result<(StateView, ParsedView), ParseError> {
    if is_open(e.0) {
        match e.1 {
            None => Err(ParseError::InvalidUtf8),
            Some(name) => open_tag(st, m, name, e.2),
        }
    } else if e.0 == EventKind::End {
        match e.1 {
            None => Err(ParseError::InvalidUtf8),
            Some(name) => Ok((close_tag(st, name), m)),
        }
    } else {
        Ok((st, m))
    }
}

/// The model that the events give from state `st` and model `m` on:
/// reading stops at the end of input, at a failure of the reader, and at
/// the first error.
pub open spec fn run_from(st: StateView, m: ParsedView, events: Seq<EventView>) -> Result<ParsedView, ParseError>
    decreases events.len(),
{
    if events.len() == 0 {
        Ok(m)
    } else if is_last(events[0].0) {
        Ok(m)
    } else {
        match step(st, m, events[0]) {
            Err(x) => Err(x),
            Ok(next) => run_from(next.0, next.1, events.subrange(1, events.len() as int)),
        }
    }
}

/// Adds an IED to the end.
fn push_ied(ieds: &mut Vec<IED>, ied: IED)
    ensures
        ieds_view(final(ieds)@) == ieds_view(old(ieds)@).push(ied_view(ied)),
{
    let ghost v0 = old(ieds)@;
    ieds.push(ied);
    assert(ieds_view(ieds@) =~= ieds_view(v0).push(ied_view(ied)));
}

/// Adds an access point named `name` to the last IED, if there is one.
fn add_access_point(ieds: &mut Vec<IED>, name: String)
    ensures
        ieds_view(final(ieds)@) == push_ap(ieds_view(old(ieds)@), name@),
{
    let ghost v0 = ieds@;
    if ieds.len() == 0 {
        return;
    }
    let mut ied = ieds.pop().unwrap();
    let ghost i0 = ied;
    let ap = AccessPoint {
        name,
        ied_name: ied.name.clone(),
        goose_pubs: Vec::new(),
        sv_pubs: Vec::new(),
        goose_subs: Vec::new(),
        sv_subs: Vec::new(),
    };
    ied.access_points.push(ap);
    let ghost i1 = ied;
    ieds.push(ied);
    proof {
        assert(vts_view(Seq::<VirtualTerminal>::empty()) =~= Seq::<VtView>::empty());
        assert(i1.access_points@.map_values(|a: AccessPoint| ap_view(a))
            =~= i0.access_points@.map_values(|a: AccessPoint| ap_view(a)).push(ap_view(ap)));
        assert(v0.last() == i0);
        assert(ieds_view(ieds@) =~= ieds_view(v0).drop_last().push(ied_view(i1)));
    }
}

/// Adds `vt` to list `which` (0 GOOSE publications, 1 SV publications, 2
/// GOOSE subscriptions, 3 SV subscriptions) of the last access point of the
/// last IED, if there is one.
fn add_terminal(ieds: &mut Vec<IED>, vt: VirtualTerminal, which: u8)
    requires
        which < 4,
    ensures
        ieds_view(final(ieds)@) == push_term(ieds_view(old(ieds)@), vt_view(vt), which as int),
{
    let ghost v0 = ieds@;
    if ieds.len() == 0 {
        return;
    }
    if ieds[ieds.len() - 1].access_points.len() == 0 {
        proof { assert(ieds_view(v0).last().3.len() == 0); }
        return;
    }
    let mut ied = ieds.pop().unwrap();
    let ghost i0 = ied;
    let mut ap = ied.access_points.pop().unwrap();
    let ghost a0 = ap;
    let ghost vv = vt_view(vt);
    if which == 0 {
        ap.goose_pubs.push(vt);
        proof { assert(vts_view(ap.goose_pubs@) =~= vts_view(a0.goose_pubs@).push(vv)); }
    } else if which == 1 {
        ap.sv_pubs.push(vt);
        proof { assert(vts_view(ap.sv_pubs@) =~= vts_view(a0.sv_pubs@).push(vv)); }
    } else if which == 2 {
        ap.goose_subs.push(vt);
        proof { assert(vts_view(ap.goose_subs@) =~= vts_view(a0.goose_subs@).push(vv)); }
    } else {
        ap.sv_subs.push(vt);
        proof { assert(vts_view(ap.sv_subs@) =~= vts_view(a0.sv_subs@).push(vv)); }
    }
    let ghost a1 = ap;
    ied.access_points.push(ap);
    let ghost i1 = ied;
    ieds.push(ied);
    proof {
        assert(ap_view(a1) == add_to_list(ap_view(a0), vv, which as int));
        let f = |a: AccessPoint| ap_view(a);
        assert(i0.access_points@.drop_last().push(a1) =~= i1.access_points@);
        assert(i1.access_points@.map_values(f) =~= i0.access_points@.map_values(f).drop_last().push(ap_view(a1)));
        assert(v0.last() == i0);
        assert(i0.access_points@.last() == a0);
        assert(ieds_view(ieds@) =~= ieds_view(v0).drop_last().push(ied_view(i1)));
    }
}

/// Adds a pair to the last subnetwork, if there is one.
fn add_pair(subnets: &mut Vec<SubNetwork>, ied: String, ap: String)
    ensures
        subnets_view(final(subnets)@) == push_pair(subnets_view(old(subnets)@), (ied@, ap@)),
{
    let ghost v0 = subnets@;
    if subnets.len() == 0 {
        return;
    }
    let mut sub = subnets.pop().unwrap();
    let ghost s0 = sub;
    sub.access_points.push((ied, ap));
    let ghost s1 = sub;
    subnets.push(sub);
    proof {
        let f = |p: (String, String)| (p.0@, p.1@);
        assert(s1.access_points@.map_values(f) =~= s0.access_points@.map_values(f).push((ied@, ap@)));
        assert(v0.last() == s0);
        assert(subnets_view(subnets@) =~= subnets_view(v0).drop_last().push(subnet_view(s1)));
    }
}

/// Adds a published terminal of block `cb` to list `which` of the last
/// access point of the last IED, named after them, if there is one.
fn add_published(
    ieds: &mut Vec<IED>,
    ld: String,
    cb: String,
    svc: ServiceType,
    mac: Option<String>,
    app: Option<String>,
    vlan: Option<String>,
    prio: Option<String>,
    which: u8,
)
    requires
        which < 2,
    ensures
        ieds_view(final(ieds)@) == if has_last_ap(ieds_view(old(ieds)@)) {
            push_term(ieds_view(old(ieds)@), (ieds_view(old(ieds)@).last().0, ieds_view(old(ieds)@).last().3.last().0,
                ld@, cb@, svc, opt_view(mac), opt_view(app), opt_view(vlan), opt_view(prio)), which as int)
        } else {
            ieds_view(old(ieds)@)
        },
{
    let ghost v0 = ieds_view(ieds@);
    if ieds.len() == 0 {
        return;
    }
    let k = ieds.len() - 1;
    let n_aps = ieds[k].access_points.len();
    if n_aps == 0 {
        proof { assert(v0.last().3.len() == 0); }
        return;
    }
    let ied_name = ieds[k].name.clone();
    let ap_name = ieds[k].access_points[n_aps - 1].name.clone();
    proof {
        assert(v0.last() == ied_view(ieds@[k as int]));
        assert(v0.last().3.last() == ap_view(ieds@[k as int].access_points@[n_aps - 1]));
    }
    let vt = VirtualTerminal {
        ied_name,
        ap_name,
        ld_inst: ld,
        cb_name: cb,
        service_type: svc,
        mac_address: mac,
        app_id: app,
        vlan_id: vlan,
        vlan_priority: prio,
    };
    add_terminal(ieds, vt, which);
}

/// The state and model after a step agree with the expected outcome, or the
/// step failed with the expected error.
pub open spec fn outcome(r: Result<(), ParseError>, st: StateView, m: ParsedView, expected: Result<(StateView, ParsedView), ParseError>) -> bool {
    match expected {
        Ok(p) => r is Ok && st == p.0 && m == p.1,
        Err(x) => r == Err::<(), ParseError>(x),
    }
}

/// An optional text copied.
fn copy_opt(o: &Option<String>) -> (r: Option<String>)
    ensures
        opt_view(r) == opt_view(*o),
{
    match o {
        Some(s) => Some(s.clone()),
        None => None,
    }
}

impl ParseState {
    /// The state before the first event.
    pub fn new() -> (s: Self)
        ensures
            state_view(s) == initial_state(),
    {
        ParseState {
            flags: ParseFlags {
                in_ied: false,
                in_access_point: false,
                in_ldevice: false,
                in_ln: false,
                in_inputs: false,
                in_gse_control: false,
                in_sv_control: false,
                in_subnetwork: false,
            },
            ld_inst: None,
            gse_name: None,
            sv_name: None,
        }
    }

    /// A `Header` tag.
    fn on_header(&mut self, m: &mut SCDModel, attrs: &Vec<XmlAttr>) -> (r: Result<(), ParseError>)
        ensures
            final(m).goose_connections@ == old(m).goose_connections@,
            final(m).sv_connections@ == old(m).sv_connections@,
            outcome(r, state_view(*final(self)), parsed_view(*final(m)), match first_error(attr_views(attrs@)) {
                Some(x) => Err(x),
                None => Ok((state_view(*old(self)), (parsed_view(*old(m)).0, parsed_view(*old(m)).1,
                    Some((last_value(attr_views(attrs@), "id"@, "id"@, "id"@),
                        last_value(attr_views(attrs@), "version"@, "version"@, "version"@), Seq::empty()))))),
            }),
    {
        if let Some(x) = scan_attrs(attrs) {
            return Err(x);
        }
        let id = find_last(attrs, "id", "id", "id");
        let version = find_last(attrs, "version", "version", "version");
        let h = HeaderInfo { id, version, name_history: Vec::new() };
        m.header_info = Some(h);
        proof { assert(h.name_history@.map_values(|s: String| s@) =~= Seq::<Seq<char>>::empty()); }
        Ok(())
    }

    /// An `IED` tag.
    fn on_ied(&mut self, m: &mut SCDModel, attrs: &Vec<XmlAttr>) -> (r: Result<(), ParseError>)
        ensures
            final(m).goose_connections@ == old(m).goose_connections@,
            final(m).sv_connections@ == old(m).sv_connections@,
            outcome(r, state_view(*final(self)), parsed_view(*final(m)), match first_error(attr_views(attrs@)) {
                Some(x) => Err(x),
                None => Ok((
                    (ParseFlags { in_ied: true, ..old(self).flags }, state_view(*old(self)).1, state_view(*old(self)).2, state_view(*old(self)).3),
                    (parsed_view(*old(m)).0.push((or_empty(last_value(attr_views(attrs@), "name"@, "name"@, "name"@)),
                        last_value(attr_views(attrs@), "type"@, "type"@, "type"@),
                        last_value(attr_views(attrs@), "manufacturer"@, "manufacturer"@, "manufacturer"@), Seq::empty())),
                        parsed_view(*old(m)).1, parsed_view(*old(m)).2),
                )),
            }),
    {
        if let Some(x) = scan_attrs(attrs) {
            return Err(x);
        }
        self.flags.in_ied = true;
        let name = text_or_empty(find_last(attrs, "name", "name", "name"));
        let ied_type = find_last(attrs, "type", "type", "type");
        let manufacturer = find_last(attrs, "manufacturer", "manufacturer", "manufacturer");
        let ied = IED { name, ied_type, manufacturer, access_points: Vec::new() };
        proof { assert(ied.access_points@.map_values(|a: AccessPoint| ap_view(a)) =~= Seq::<ApView>::empty()); }
        push_ied(&mut m.ieds, ied);
        Ok(())
    }

    /// A `GSE`/`GOOSE` tag (`which` 0) or an `SMV`/`SampledValue` tag
    /// (`which` 1) inside a control block.
    fn on_published(&mut self, m: &mut SCDModel, attrs: &Vec<XmlAttr>, svc: ServiceType, which: u8) -> (r: Result<(), ParseError>)
        requires
            which < 2,
        ensures
            final(m).goose_connections@ == old(m).goose_connections@,
            final(m).sv_connections@ == old(m).sv_connections@,
            outcome(r, state_view(*final(self)), parsed_view(*final(m)), match first_error(attr_views(attrs@)) {
                Some(x) => Err(x),
                None => Ok((state_view(*old(self)), (published(parsed_view(*old(m)).0, state_view(*old(self)), attr_views(attrs@),
                    if which == 0 { state_view(*old(self)).2 } else { state_view(*old(self)).3 }, svc, which as int),
                    parsed_view(*old(m)).1, parsed_view(*old(m)).2))),
            }),
    {
        if let Some(x) = scan_attrs(attrs) {
            return Err(x);
        }
        let mac = find_last(attrs, "MACAddress", "macAddress", "DstAddress");
        let app = find_last(attrs, "AppID", "appId", "appId");
        let vlan = find_last(attrs, "VLANID", "vlanId", "VlanId");
        let prio = find_last(attrs, "VLANPriority", "vlanPriority", "vlanPriority");
        let cb = if which == 0 { copy_opt(&self.gse_name) } else { copy_opt(&self.sv_name) };
        match cb {
            None => {}
            Some(c) => {
                let ld = match &self.ld_inst {
                    Some(x) => x.clone(),
                    None => String::new(),
                };
                add_published(&mut m.ieds, ld, c, svc, mac, app, vlan, prio, which);
            }
        }
        Ok(())
    }

    /// A `SubNetwork` tag.
    fn on_subnetwork(&mut self, m: &mut SCDModel, attrs: &Vec<XmlAttr>) -> (r: Result<(), ParseError>)
        ensures
            final(m).goose_connections@ == old(m).goose_connections@,
            final(m).sv_connections@ == old(m).sv_connections@,
            outcome(r, state_view(*final(self)), parsed_view(*final(m)), match first_error(attr_views(attrs@)) {
                Some(x) => Err(x),
                None => Ok((
                    (ParseFlags { in_subnetwork: true, ..old(self).flags }, state_view(*old(self)).1, state_view(*old(self)).2, state_view(*old(self)).3),
                    (parsed_view(*old(m)).0, parsed_view(*old(m)).1.push((or_empty(last_value(attr_views(attrs@), "name"@, "name"@, "name"@)),
                        last_value(attr_views(attrs@), "type"@, "type"@, "type"@), Seq::empty())), parsed_view(*old(m)).2),
                )),
            }),
    {
        if let Some(x) = scan_attrs(attrs) {
            return Err(x);
        }
        self.flags.in_subnetwork = true;
        let name = text_or_empty(find_last(attrs, "name", "name", "name"));
        let type_attr = find_last(attrs, "type", "type", "type");
        let sub = SubNetwork { name, type_attr, access_points: Vec::new() };
        let ghost s0 = m.sub_networks@;
        m.sub_networks.push(sub);
        proof {
            assert(sub.access_points@.map_values(|p: (String, String)| (p.0@, p.1@)) =~= Seq::<(Seq<char>, Seq<char>)>::empty());
            assert(subnets_view(m.sub_networks@) =~= subnets_view(s0).push(subnet_view(sub)));
        }
        Ok(())
    }

    /// A `ConnectedAP` tag inside a subnetwork.
    fn on_connected_ap(&mut self, m: &mut SCDModel, attrs: &Vec<XmlAttr>) -> (r: Result<(), ParseError>)
        ensures
            final(m).goose_connections@ == old(m).goose_connections@,
            final(m).sv_connections@ == old(m).sv_connections@,
            outcome(r, state_view(*final(self)), parsed_view(*final(m)), match first_error(attr_views(attrs@)) {
                Some(x) => Err(x),
                None => Ok((state_view(*old(self)), (parsed_view(*old(m)).0,
                    push_pair(parsed_view(*old(m)).1, (or_empty(last_value(attr_views(attrs@), "iedName"@, "iedName"@, "iedName"@)),
                        or_empty(last_value(attr_views(attrs@), "apName"@, "apName"@, "apName"@)))), parsed_view(*old(m)).2))),
            }),
    {
        if let Some(x) = scan_attrs(attrs) {
            return Err(x);
        }
        let ied = text_or_empty(find_last(attrs, "iedName", "iedName", "iedName"));
        let ap = text_or_empty(find_last(attrs, "apName", "apName", "apName"));
        add_pair(&mut m.sub_networks, ied, ap);
        Ok(())
    }

    /// An opening tag named `name`.
    fn open_element(&mut self, m: &mut SCDModel, name: &String, attrs: &Vec<XmlAttr>) -> (r: Result<(), ParseError>)
        ensures
            final(m).goose_connections@ == old(m).goose_connections@,
            final(m).sv_connections@ == old(m).sv_connections@,
            outcome(r, state_view(*final(self)), parsed_view(*final(m)),
                open_tag(state_view(*old(self)), parsed_view(*old(m)), name@, attr_views(attrs@))),
    {
        let n = name.as_str();
        if text_is(n, "Header") {
            self.on_header(m, attrs)
        } else if text_is(n, "IED") {
            self.on_ied(m, attrs)
        } else {
            self.open_in_ied_element(m, name, attrs)
        }
    }

    /// See `open_in_ied`.
    fn open_in_ied_element(&mut self, m: &mut SCDModel, name: &String, attrs: &Vec<XmlAttr>) -> (r: Result<(), ParseError>)
        ensures
            final(m).goose_connections@ == old(m).goose_connections@,
            final(m).sv_connections@ == old(m).sv_connections@,
            outcome(r, state_view(*final(self)), parsed_view(*final(m)),
                open_in_ied(state_view(*old(self)), parsed_view(*old(m)), name@, attr_views(attrs@))),
    {
        let n = name.as_str();
        if text_is(n, "AccessPoint") && self.flags.in_ied {
            match find_first(attrs, "name") {
                Err(x) => Err(x),
                Ok(o) => {
                    self.flags.in_access_point = true;
                    add_access_point(&mut m.ieds, text_or_empty(o));
                    Ok(())
                }
            }
        } else if text_is(n, "LDevice") && self.flags.in_access_point {
            match find_first(attrs, "inst") {
                Err(x) => Err(x),
                Ok(o) => {
                    self.flags.in_ldevice = true;
                    if o.is_some() {
                        self.ld_inst = o;
                    }
                    Ok(())
                }
            }
        } else {
            self.open_in_ldevice_element(m, name, attrs)
        }
    }

    /// See `open_in_ldevice`.
    fn open_in_ldevice_element(&mut self, m: &mut SCDModel, name: &String, attrs: &Vec<XmlAttr>) -> (r: Result<(), ParseError>)
        ensures
            final(m).goose_connections@ == old(m).goose_connections@,
            final(m).sv_connections@ == old(m).sv_connections@,
            outcome(r, state_view(*final(self)), parsed_view(*final(m)),
                open_in_ldevice(state_view(*old(self)), parsed_view(*old(m)), name@, attr_views(attrs@))),
    {
        let n = name.as_str();
        if (text_is(n, "LN0") || text_is(n, "LN")) && self.flags.in_ldevice {
            match scan_attrs(attrs) {
                Some(x) => Err(x),
                None => {
                    self.flags.in_ln = true;
                    Ok(())
                }
            }
        } else if text_is(n, "Inputs") && self.flags.in_ln {
            self.flags.in_inputs = true;
            Ok(())
        } else if text_is(n, "ExtRef") && self.flags.in_inputs {
            self.on_ext_ref(m, attrs)
        } else {
            self.open_control_element(m, name, attrs)
        }
    }

    /// See `open_control`.
    fn open_control_element(&mut self, m: &mut SCDModel, name: &String, attrs: &Vec<XmlAttr>) -> (r: Result<(), ParseError>)
        ensures
            final(m).goose_connections@ == old(m).goose_connections@,
            final(m).sv_connections@ == old(m).sv_connections@,
            outcome(r, state_view(*final(self)), parsed_view(*final(m)),
                open_control(state_view(*old(self)), parsed_view(*old(m)), name@, attr_views(attrs@))),
    {
        let n = name.as_str();
        if text_is(n, "GSEControl") && self.flags.in_ln {
            match find_first(attrs, "name") {
                Err(x) => Err(x),
                Ok(o) => {
                    self.flags.in_gse_control = true;
                    if o.is_some() {
                        self.gse_name = o;
                    }
                    Ok(())
                }
            }
        } else if text_is(n, "SampledValueControl") && self.flags.in_ln {
            match find_first(attrs, "name") {
                Err(x) => Err(x),
                Ok(o) => {
                    self.flags.in_sv_control = true;
                    if o.is_some() {
                        self.sv_name = o;
                    }
                    Ok(())
                }
            }
        } else {
            self.open_publication_element(m, name, attrs)
        }
    }

    /// See `open_publication`.
    fn open_publication_element(&mut self, m: &mut SCDModel, name: &String, attrs: &Vec<XmlAttr>) -> (r: Result<(), ParseError>)
        ensures
            final(m).goose_connections@ == old(m).goose_connections@,
            final(m).sv_connections@ == old(m).sv_connections@,
            outcome(r, state_view(*final(self)), parsed_view(*final(m)),
                open_publication(state_view(*old(self)), parsed_view(*old(m)), name@, attr_views(attrs@))),
    {
        let n = name.as_str();
        if (text_is(n, "GSE") || text_is(n, "GOOSE")) && self.flags.in_gse_control {
            self.on_published(m, attrs, ServiceType::GOOSE, 0)
        } else if (text_is(n, "SMV") || text_is(n, "SampledValue")) && self.flags.in_sv_control {
            self.on_published(m, attrs, ServiceType::SV, 1)
        } else {
            self.open_network_element(m, name, attrs)
        }
    }

    /// See `open_network`.
    fn open_network_element(&mut self, m: &mut SCDModel, name: &String, attrs: &Vec<XmlAttr>) -> (r: Result<(), ParseError>)
        ensures
            final(m).goose_connections@ == old(m).goose_connections@,
            final(m).sv_connections@ == old(m).sv_connections@,
            outcome(r, state_view(*final(self)), parsed_view(*final(m)),
                open_network(state_view(*old(self)), parsed_view(*old(m)), name@, attr_views(attrs@))),
    {
        let n = name.as_str();
        if text_is(n, "SubNetwork") {
            self.on_subnetwork(m, attrs)
        } else if text_is(n, "ConnectedAP") && self.flags.in_subnetwork {
            self.on_connected_ap(m, attrs)
        } else {
            Ok(())
        }
    }

    /// A closing tag named `name`.
    fn close_element(&mut self, name: &String)
        ensures
            state_view(*final(self)) == close_tag(state_view(*old(self)), name@),
    {
        let n = name.as_str();
        if text_is(n, "IED") {
            self.flags.in_ied = false;
        } else if text_is(n, "AccessPoint") {
            self.flags.in_access_point = false;
        } else if text_is(n, "LDevice") {
            self.flags.in_ldevice = false;
            self.ld_inst = None;
        } else if text_is(n, "LN0") || text_is(n, "LN") {
            self.flags.in_ln = false;
        } else if text_is(n, "Inputs") {
            self.flags.in_inputs = false;
        } else if text_is(n, "GSEControl") {
            self.flags.in_gse_control = false;
            self.gse_name = None;
        } else if text_is(n, "SampledValueControl") {
            self.flags.in_sv_control = false;
            self.sv_name = None;
        } else if text_is(n, "SubNetwork") {
            self.flags.in_subnetwork = false;
        }
    }

    /// One event.
    pub fn apply(&mut self, m: &mut SCDModel, e: &XmlEvent) -> (r: Result<(), ParseError>)
        ensures
            final(m).goose_connections@ == old(m).goose_connections@,
            final(m).sv_connections@ == old(m).sv_connections@,
            outcome(r, state_view(*final(self)), parsed_view(*final(m)), step(state_view(*old(self)), parsed_view(*old(m)), event_view(*e))),
    {
        if e.kind == EventKind::Start || e.kind == EventKind::Empty {
            match &e.name {
                None => Err(ParseError::InvalidUtf8),
                Some(name) => self.open_element(m, name, &e.attrs),
            }
        } else if e.kind == EventKind::End {
            match &e.name {
                None => Err(ParseError::InvalidUtf8),
                Some(name) => {
                    self.close_element(name);
                    Ok(())
                }
            }
        } else {
            Ok(())
        }
    }

    /// An `ExtRef` tag inside `Inputs`.
    fn on_ext_ref(&mut self, m: &mut SCDModel, attrs: &Vec<XmlAttr>) -> (r: Result<(), ParseError>)
        ensures
            final(m).goose_connections@ == old(m).goose_connections@,
            final(m).sv_connections@ == old(m).sv_connections@,
            outcome(r, state_view(*final(self)), parsed_view(*final(m)), match first_error(attr_views(attrs@)) {
                Some(x) => Err(x),
                None => {
                    let a = attr_views(attrs@);
                    let cb = or_empty(last_value(a, "cbName"@, "cbName"@, "cbName"@));
                    let svc = service_of(last_value(a, "serviceType"@, "serviceType"@, "serviceType"@));
                    let vt: VtView = (or_empty(last_value(a, "iedName"@, "iedName"@, "iedName"@)),
                        or_empty(last_value(a, "apRef"@, "apRef"@, "apRef"@)),
                        or_empty(last_value(a, "ldInst"@, "ldInst"@, "ldInst"@)), cb, svc, None, None, None, None);
                    if cb.len() > 0 {
                        Ok((state_view(*old(self)), (push_term(parsed_view(*old(m)).0, vt, if svc == ServiceType::GOOSE { 2 } else { 3 }),
                            parsed_view(*old(m)).1, parsed_view(*old(m)).2)))
                    } else {
                        Ok((state_view(*old(self)), parsed_view(*old(m))))
                    }
                },
            }),
    {
        if let Some(x) = scan_attrs(attrs) {
            return Err(x);
        }
        let ied_name = text_or_empty(find_last(attrs, "iedName", "iedName", "iedName"));
        let ap_name = text_or_empty(find_last(attrs, "apRef", "apRef", "apRef"));
        let ld_inst = text_or_empty(find_last(attrs, "ldInst", "ldInst", "ldInst"));
        let cb_name = text_or_empty(find_last(attrs, "cbName", "cbName", "cbName"));
        let svc_text = find_last(attrs, "serviceType", "serviceType", "serviceType");
        let service_type = match &svc_text {
            Some(v) => if text_is(v.as_str(), "SMV") || text_is(v.as_str(), "SV") { ServiceType::SV } else { ServiceType::GOOSE },
            None => ServiceType::GOOSE,
        };
        if cb_name.as_str().unicode_len() > 0 {
            let which: u8 = if service_type == ServiceType::GOOSE { 2 } else { 3 };
            let vt = VirtualTerminal {
                ied_name,
                ap_name,
                ld_inst,
                cb_name,
                service_type,
                mac_address: None,
                app_id: None,
                vlan_id: None,
                vlan_priority: None,
            };
            add_terminal(&mut m.ieds, vt, which);
        }
        Ok(())
    }
}

impl Default for ParseState {
    /// The state before the first event.
    fn default() -> (r: Self)
        ensures
            state_view(r) == initial_state(),
    {
        ParseState::new()
    }
}

// ----- connections -----

/// The block a terminal refers to: IED, access point, control block.
pub open spec fn vt_key(v: VtView) -> BlockKey {
    (v.0, v.1, v.3)
}

/// List `which` of an access point (see `add_to_list`).
pub open spec fn list_of(ap: ApView, which: int) -> Seq<VtView> {
    if which == 0 { ap.2 } else if which == 1 { ap.3 } else if which == 2 { ap.4 } else { ap.5 }
}

/// The terminals of list `which` of the access points, in order.
pub open spec fn aps_terminals(aps: Seq<ApView>, which: int) -> Seq<VtView>
    decreases aps.len(),
{
    if aps.len() == 0 { Seq::empty() } else { aps_terminals(aps.drop_last(), which) + list_of(aps.last(), which) }
}

/// The terminals of list `which` of every access point of every IED, in order.
pub open spec fn terminals(ieds: Seq<IedView>, which: int) -> Seq<VtView>
    decreases ieds.len(),
{
    if ieds.len() == 0 { Seq::empty() } else { terminals(ieds.drop_last(), which) + aps_terminals(ieds.last().3, which) }
}

/// The positions below `n` of the terminals of `flat` that refer to block `k`.
pub open spec fn key_positions(flat: Seq<VtView>, k: BlockKey, n: int) -> Seq<usize>
    decreases n,
{
    if n <= 0 {
        Seq::empty()
    } else if vt_key(flat[n - 1]) == k {
        key_positions(flat, k, n - 1).push((n - 1) as usize)
    } else {
        key_positions(flat, k, n - 1)
    }
}

/// The connections of block `k`: each publication of `k`, in order, with
/// every subscription to `k`, in order; none when nobody subscribes.
pub open spec fn block_connections(pubs: Seq<VtView>, subs: Seq<VtView>, k: BlockKey) -> Seq<(VtView, Seq<VtView>)> {
    let si = key_positions(subs, k, subs.len() as int);
    if si.len() == 0 {
        Seq::empty()
    } else {
        key_positions(pubs, k, pubs.len() as int).map_values(|i: usize|
            (pubs[i as int], si.map_values(|j: usize| subs[j as int])))
    }
}

/// The connections of the blocks `ks`, block after block.
pub open spec fn connections_of(pubs: Seq<VtView>, subs: Seq<VtView>, ks: Seq<BlockKey>) -> Seq<(VtView, Seq<VtView>)>
    decreases ks.len(),
{
    if ks.len() == 0 {
        Seq::empty()
    } else {
        connections_of(pubs, subs, ks.drop_last()) + block_connections(pubs, subs, ks.last())
    }
}

/// The blocks that `flat` publishes.
pub open spec fn published_keys(flat: Seq<VtView>) -> Set<BlockKey> {
    Set::new(|k: BlockKey| exists|i: int| 0 <= i < flat.len() && vt_key(#[trigger] flat[i]) == k)
}

/// The connections of a model, by their contents.
pub open spec fn connection_views(cs: Seq<(VirtualTerminal, Vec<VirtualTerminal>)>) -> Seq<(VtView, Seq<VtView>)> {
    cs.map_values(|c: (VirtualTerminal, Vec<VirtualTerminal>)| (vt_view(c.0), vts_view(c.1@)))
}

/// `conns` are the connections of the publications of list `pw` and the
/// subscriptions of list `sw`, the blocks taken in some order in which each
/// published block comes once.
pub open spec fn connected(ieds: Seq<IedView>, pw: int, sw: int, conns: Seq<(VtView, Seq<VtView>)>) -> bool {
    exists|ks: Seq<BlockKey>| #[trigger] ks.no_duplicates()
        && ks.to_set() == published_keys(terminals(ieds, pw))
        && conns == connections_of(terminals(ieds, pw), terminals(ieds, sw), ks)
}

/// A copy of a terminal.
pub fn copy_vt(v: &VirtualTerminal) -> (r: VirtualTerminal)
    ensures
        vt_view(r) == vt_view(*v),
{
    VirtualTerminal {
        ied_name: v.ied_name.clone(),
        ap_name: v.ap_name.clone(),
        ld_inst: v.ld_inst.clone(),
        cb_name: v.cb_name.clone(),
        service_type: v.service_type,
        mac_address: copy_opt(&v.mac_address),
        app_id: copy_opt(&v.app_id),
        vlan_id: copy_opt(&v.vlan_id),
        vlan_priority: copy_opt(&v.vlan_priority),
    }
}

/// Copies of the terminals of list `which` of every access point of every
/// IED, in order.
fn collect_terminals(ieds: &Vec<IED>, which: u8) -> (r: Vec<VirtualTerminal>)
    requires
        which < 4,
    ensures
        vts_view(r@) == terminals(ieds_view(ieds@), which as int),
{
    let ghost iv = ieds_view(ieds@);
    let mut out: Vec<VirtualTerminal> = Vec::new();
    let mut i: usize = 0;
    proof {
        assert(iv.take(0) =~= Seq::<IedView>::empty());
        assert(vts_view(out@) =~= Seq::<VtView>::empty());
    }
    while i < ieds.len()
        invariant
            which < 4,
            iv == ieds_view(ieds@),
            i <= ieds@.len(),
            vts_view(out@) == terminals(iv.take(i as int), which as int),
        decreases ieds@.len() - i,
    {
        let ied = &ieds[i];
        let ghost av = iv[i as int].3;
        let ghost base = vts_view(out@);
        let mut a: usize = 0;
        proof {
            assert(av =~= ied.access_points@.map_values(|x: AccessPoint| ap_view(x)));
            assert(av.take(0) =~= Seq::<ApView>::empty());
            assert(base + aps_terminals(av.take(0), which as int) =~= base);
        }
        while a < ied.access_points.len()
            invariant
                which < 4,
                av == ied.access_points@.map_values(|x: AccessPoint| ap_view(x)),
                a <= ied.access_points@.len(),
                vts_view(out@) == base + aps_terminals(av.take(a as int), which as int),
            decreases ied.access_points@.len() - a,
        {
            let ap = &ied.access_points[a];
            let list = if which == 0 { &ap.goose_pubs } else if which == 1 { &ap.sv_pubs } else if which == 2 { &ap.goose_subs } else { &ap.sv_subs };
            let ghost lv = vts_view(list@);
            let ghost before = vts_view(out@);
            proof {
                assert(av[a as int] == ap_view(*ap));
                assert(lv == list_of(ap_view(*ap), which as int));
                assert(av.take(a + 1).drop_last() =~= av.take(a as int));
                assert(av.take(a + 1).last() == ap_view(*ap));
            }
            let mut t: usize = 0;
            proof { assert(before + lv.take(0) =~= before); }
            while t < list.len()
                invariant
                    lv == vts_view(list@),
                    t <= list@.len(),
                    vts_view(out@) == before + lv.take(t as int),
                decreases list@.len() - t,
            {
                let c = copy_vt(&list[t]);
                let ghost o0 = out@;
                out.push(c);
                proof {
                    assert(vts_view(out@) =~= vts_view(o0).push(vt_view(c)));
                    assert(lv.take(t + 1) =~= lv.take(t as int).push(lv[t as int]));
                    assert(vts_view(out@) =~= before + lv.take(t + 1));
                }
                t = t + 1;
            }
            proof { assert(lv.take(t as int) =~= lv); }
            a = a + 1;
        }
        proof {
            assert(av.take(a as int) =~= av);
            assert(iv.take(i + 1).drop_last() =~= iv.take(i as int));
            assert(iv.take(i + 1).last() == iv[i as int]);
        }
        i = i + 1;
    }
    proof { assert(iv.take(i as int) =~= iv); }
    out
}

/// The positions of the terminals of `flat`, grouped by block.
fn index_blocks(flat: &Vec<VirtualTerminal>) -> (m: PositionMap)
    ensures
        forall|k: BlockKey| #[trigger] positions_under(position_map_contents(m), k)
            == key_positions(vts_view(flat@), k, flat@.len() as int),
        forall|k: BlockKey| #[trigger] position_map_contents(m).dom().contains(k)
            <==> published_keys(vts_view(flat@)).contains(k),
{
    let ghost fv = vts_view(flat@);
    let mut m = position_map_new();
    let mut i: usize = 0;
    while i < flat.len()
        invariant
            fv == vts_view(flat@),
            i <= flat@.len(),
            forall|k: BlockKey| #[trigger] positions_under(position_map_contents(m), k) == key_positions(fv, k, i as int),
            forall|k: BlockKey| #[trigger] position_map_contents(m).dom().contains(k)
                <==> exists|j: int| 0 <= j < i && vt_key(#[trigger] fv[j]) == k,
        decreases flat@.len() - i,
    {
        let v = &flat[i];
        let ghost c0 = position_map_contents(m);
        let ghost vk = vt_key(fv[i as int]);
        proof { assert(fv[i as int] == vt_view(*v)); }
        position_map_push(&mut m, v.ied_name.clone(), v.ap_name.clone(), v.cb_name.clone(), i);
        proof {
            assert forall|k: BlockKey| #[trigger] positions_under(position_map_contents(m), k) == key_positions(fv, k, i + 1) by {
                if k == vk {
                } else {
                    assert(positions_under(position_map_contents(m), k) == positions_under(c0, k));
                }
            }
            assert forall|k: BlockKey| #[trigger] position_map_contents(m).dom().contains(k)
                <==> exists|j: int| 0 <= j < i + 1 && vt_key(#[trigger] fv[j]) == k by {
                if k == vk {
                    assert(vt_key(fv[i as int]) == k);
                } else if exists|j: int| 0 <= j < i + 1 && vt_key(#[trigger] fv[j]) == k {
                    let j = choose|j: int| 0 <= j < i + 1 && vt_key(#[trigger] fv[j]) == k;
                    assert(j < i);
                }
            }
        }
        i = i + 1;
    }
    proof {
        assert forall|k: BlockKey| #[trigger] position_map_contents(m).dom().contains(k)
            <==> published_keys(fv).contains(k) by {
            if published_keys(fv).contains(k) {
                let j = choose|j: int| 0 <= j < fv.len() && vt_key(#[trigger] fv[j]) == k;
            }
        }
    }
    m
}

/// Copies of the terminals of `flat` at the positions `pos`.
fn pick_terminals(flat: &Vec<VirtualTerminal>, pos: &Vec<usize>) -> (r: Vec<VirtualTerminal>)
    requires
        forall|j: int| 0 <= j < pos@.len() ==> #[trigger] pos@[j] < flat@.len(),
    ensures
        vts_view(r@) == pos@.map_values(|j: usize| vts_view(flat@)[j as int]),
{
    let mut out: Vec<VirtualTerminal> = Vec::new();
    let mut q: usize = 0;
    while q < pos.len()
        invariant
            forall|j: int| 0 <= j < pos@.len() ==> #[trigger] pos@[j] < flat@.len(),
            q <= pos@.len(),
            vts_view(out@) == pos@.take(q as int).map_values(|j: usize| vts_view(flat@)[j as int]),
        decreases pos@.len() - q,
    {
        let c = copy_vt(&flat[pos[q]]);
        let ghost o0 = out@;
        out.push(c);
        proof {
            assert(vts_view(out@) =~= vts_view(o0).push(vt_view(c)));
            assert(pos@.take(q + 1) =~= pos@.take(q as int).push(pos@[q as int]));
            assert(vts_view(out@) =~= pos@.take(q + 1).map_values(|j: usize| vts_view(flat@)[j as int]));
        }
        q = q + 1;
    }
    proof { assert(pos@.take(q as int) =~= pos@); }
    out
}

/// Key positions lie below the bound.
proof fn lemma_key_positions_below(flat: Seq<VtView>, k: BlockKey, n: int)
    requires
        0 <= n <= flat.len(),
        n <= usize::MAX,
    ensures
        forall|j: int| 0 <= j < key_positions(flat, k, n).len() ==> #[trigger] key_positions(flat, k, n)[j] < n,
    decreases n,
{
    if n > 0 {
        lemma_key_positions_below(flat, k, n - 1);
        let prev = key_positions(flat, k, n - 1);
        assert forall|j: int| 0 <= j < key_positions(flat, k, n).len() implies #[trigger] key_positions(flat, k, n)[j] < n by {
            if j < prev.len() {
                assert(key_positions(flat, k, n)[j] == prev[j]);
            }
        }
    }
}

/// The connections between the publications `pubs` and the subscriptions
/// `subs`, block by block, the blocks in the order the map of publications
/// is walked.
fn connect(pubs: &Vec<VirtualTerminal>, subs: &Vec<VirtualTerminal>) -> (r: Vec<(VirtualTerminal, Vec<VirtualTerminal>)>)
    ensures
        exists|ks: Seq<BlockKey>| #[trigger] ks.no_duplicates()
            && ks.to_set() == published_keys(vts_view(pubs@))
            && connection_views(r@) == connections_of(vts_view(pubs@), vts_view(subs@), ks),
{
    let ghost pv = vts_view(pubs@);
    let ghost sv = vts_view(subs@);
    let pub_map = index_blocks(pubs);
    let sub_map = index_blocks(subs);
    let keys = position_map_keys(&pub_map);
    let ghost kv = keys@.map_values(|k: (String, String, String)| (k.0@, k.1@, k.2@));
    let np = pubs.len();
    let ns = subs.len();
    let mut out: Vec<(VirtualTerminal, Vec<VirtualTerminal>)> = Vec::new();
    let mut q: usize = 0;
    proof {
        assert(kv.take(0) =~= Seq::<BlockKey>::empty());
        assert(connection_views(out@) =~= Seq::<(VtView, Seq<VtView>)>::empty());
    }
    while q < keys.len()
        invariant
            pv == vts_view(pubs@),
            sv == vts_view(subs@),
            kv == keys@.map_values(|k: (String, String, String)| (k.0@, k.1@, k.2@)),
            kv.no_duplicates(),
            forall|k: BlockKey| #[trigger] position_map_contents(pub_map).dom().contains(k) <==> kv.contains(k),
            np == pubs@.len(),
            ns == subs@.len(),
            q <= keys@.len(),
            forall|k: BlockKey| #[trigger] positions_under(position_map_contents(pub_map), k) == key_positions(pv, k, pubs@.len() as int),
            forall|k: BlockKey| #[trigger] position_map_contents(pub_map).dom().contains(k) <==> published_keys(pv).contains(k),
            forall|k: BlockKey| #[trigger] positions_under(position_map_contents(sub_map), k) == key_positions(sv, k, subs@.len() as int),
            forall|k: BlockKey| #[trigger] position_map_contents(sub_map).dom().contains(k) <==> published_keys(sv).contains(k),
            connection_views(out@) == connections_of(pv, sv, kv.take(q as int)),
        decreases keys@.len() - q,
    {
        let key = &keys[q];
        let ghost k = kv[q as int];
        let ghost o0 = connection_views(out@);
        proof {
            assert(k == (key.0@, key.1@, key.2@));
            assert(kv.take(q + 1).drop_last() =~= kv.take(q as int));
            assert(kv.take(q + 1).last() == k);
            lemma_key_positions_below(pv, k, pubs@.len() as int);
            lemma_key_positions_below(sv, k, subs@.len() as int);
        }
        match position_map_get(&sub_map, &key.0, &key.1, &key.2) {
            None => {
                proof {
                    assert(positions_under(position_map_contents(sub_map), k) == Seq::<usize>::empty());
                    assert(block_connections(pv, sv, k) =~= Seq::<(VtView, Seq<VtView>)>::empty());
                    assert(connection_views(out@) =~= o0 + block_connections(pv, sv, k));
                }
            }
            Some(sub_pos) => {
                proof {
                    assert(position_map_contents(sub_map).dom().contains(k));
                    assert(positions_under(position_map_contents(sub_map), k) == sub_pos@);
                    assert(published_keys(sv).contains(k));
                    let j = choose|j: int| 0 <= j < sv.len() && vt_key(#[trigger] sv[j]) == k;
                    lemma_key_positions_has(sv, k, subs@.len() as int, j);
                }
                let sub_vts = pick_terminals(subs, &sub_pos);
                let ghost subs_view = vts_view(sub_vts@);
                let pub_opt = position_map_get(&pub_map, &key.0, &key.1, &key.2);
                proof {
                    assert(kv.contains(k)) by { assert(kv[q as int] == k); }
                    assert(position_map_contents(pub_map).dom().contains(k));
                    assert(pub_opt is Some);
                    assert(pub_opt->0@ == positions_under(position_map_contents(pub_map), k));
                }
                let pub_pos = match pub_opt {
                    Some(p) => p,
                    None => Vec::new(),
                };
                proof {
                    assert(pub_pos@ == key_positions(pv, k, pubs@.len() as int));
                }
                let mut t: usize = 0;
                proof {
                    assert(o0 + pub_pos@.take(0).map_values(|i: usize| (pv[i as int], subs_view)) =~= o0);
                }
                while t < pub_pos.len()
                    invariant
                        pv == vts_view(pubs@),
                        forall|j: int| 0 <= j < pub_pos@.len() ==> #[trigger] pub_pos@[j] < pubs@.len(),
                        subs_view == vts_view(sub_vts@),
                        t <= pub_pos@.len(),
                        connection_views(out@) == o0 + pub_pos@.take(t as int).map_values(|i: usize| (pv[i as int], subs_view)),
                    decreases pub_pos@.len() - t,
                {
                    let p = copy_vt(&pubs[pub_pos[t]]);
                    let s_copy = pick_terminals(&sub_vts, &identity_positions(sub_vts.len()));
                    let ghost c0 = out@;
                    out.push((p, s_copy));
                    proof {
                        assert(vts_view(s_copy@) =~= subs_view);
                        assert(connection_views(out@) =~= connection_views(c0).push((vt_view(p), vts_view(s_copy@))));
                        assert(pub_pos@.take(t + 1) =~= pub_pos@.take(t as int).push(pub_pos@[t as int]));
                        assert(connection_views(out@) =~= o0 + pub_pos@.take(t + 1).map_values(|i: usize| (pv[i as int], subs_view)));
                    }
                    t = t + 1;
                }
                proof {
                    assert(pub_pos@.take(t as int) =~= pub_pos@);
                    assert(subs_view =~= sub_pos@.map_values(|j: usize| sv[j as int]));
                    assert(connection_views(out@) =~= o0 + block_connections(pv, sv, k));
                }
            }
        }
        q = q + 1;
    }
    proof {
        assert(kv.take(q as int) =~= kv);
        assert(kv.to_set() =~= published_keys(pv)) by {
            assert forall|k: BlockKey| kv.to_set().contains(k) <==> published_keys(pv).contains(k) by {
                assert(kv.to_set().contains(k) <==> kv.contains(k));
                assert(position_map_contents(pub_map).dom().contains(k) <==> kv.contains(k));
            }
        }
    }
    out
}

/// A position of a terminal of block `k` below `n` is among the key positions.
proof fn lemma_key_positions_has(flat: Seq<VtView>, k: BlockKey, n: int, j: int)
    requires
        0 <= j < n <= flat.len(),
        vt_key(flat[j]) == k,
    ensures
        key_positions(flat, k, n).len() > 0,
    decreases n,
{
    if j < n - 1 {
        lemma_key_positions_has(flat, k, n - 1, j);
    }
}

/// The positions `0..n`.
fn identity_positions(n: usize) -> (r: Vec<usize>)
    ensures
        r@.len() == n,
        forall|j: int| 0 <= j < n ==> #[trigger] r@[j] == j,
{
    let mut out: Vec<usize> = Vec::new();
    let mut i: usize = 0;
    while i < n
        invariant
            i <= n,
            out@.len() == i,
            forall|j: int| 0 <= j < i ==> #[trigger] out@[j] == j,
        decreases n - i,
    {
        out.push(i);
        i = i + 1;
    }
    out
}

/// A raw event with its tag name and attributes decoded: malformed
/// attributes are dropped.
fn decode_raw(reader: &XmlReader, raw: RawEvent) -> (e: XmlEvent)
    ensures
        event_view(e) == decode_event(raw_view(raw)),
        e.failure == raw.failure,
{
    let open = raw.kind == EventKind::Start || raw.kind == EventKind::Empty;
    let name = if open || raw.kind == EventKind::End { utf8_text(raw.name.as_slice()) } else { None };
    let mut attrs: Vec<XmlAttr> = Vec::new();
    let ghost rv = raw_view(raw).2;
    if open {
        let mut i: usize = 0;
        proof {
            assert(rv.take(0) =~= Seq::<RawAttrView>::empty());
            assert(attr_views(attrs@) =~= Seq::<AttrView>::empty());
        }
        while i < raw.attrs.len()
            invariant
                rv == raw_view(raw).2,
                rv.len() == raw.attrs@.len(),
                i <= raw.attrs@.len(),
                attr_views(attrs@) == decode_attrs(rv.take(i as int)),
            decreases raw.attrs@.len() - i,
        {
            let ghost a0 = attrs@;
            proof {
                assert(rv.take(i + 1).drop_last() =~= rv.take(i as int));
                assert(rv.take(i + 1).last() == rv[i as int]);
            }
            match &raw.attrs[i] {
                Some(p) => {
                    let key = utf8_text(p.0.as_slice());
                    let value = decode_attr_value(reader, p.0.as_slice(), p.1.as_slice());
                    let a = XmlAttr { key, value };
                    attrs.push(a);
                    proof {
                        assert(rv[i as int] == Some((p.0@, p.1@)));
                        assert(attr_view(a) == (utf8_opt(p.0@), attr_value_text(p.1@)));
                        assert(attr_views(attrs@) =~= attr_views(a0).push(attr_view(a)));
                    }
                }
                None => {
                    proof { assert(rv[i as int] is None); }
                }
            }
            i = i + 1;
        }
        proof { assert(rv.take(i as int) =~= rv); }
    } else {
        proof { assert(attr_views(attrs@) =~= Seq::<AttrView>::empty()); }
    }
    XmlEvent { kind: raw.kind, name, attrs, failure: raw.failure }
}

/// The decoded events of `input`; see `input_events`.
/// The decoded events of `input`, up to the end of the input or the first
/// failure, which keeps where and why the reader stopped.
pub fn read_events(input: &[u8]) -> (r: Vec<XmlEvent>)
    ensures
        event_views(r@) == input_events(input@),
        forall|j: int| 0 <= j < r@.len() ==> (#[trigger] r@[j].failure is Some <==> r@[j].kind == EventKind::Failed),
        forall|j: int| 0 <= j < r@.len() && #[trigger] r@[j].failure is Some ==>
            failure_view(r@[j].failure) == Some(xml_failure_at(input@, j as nat)),
{
    let n = input.len();
    let mut reader = open_reader(input);
    let mut out: Vec<XmlEvent> = Vec::new();
    let mut k: usize = 0;
    proof { assert(event_views(out@) + events_from(input@, 0, (n + 1) as nat) =~= input_events(input@)); }
    loop
        invariant_except_break
            k <= n,
            n == input@.len(),
            reader_input(reader) == input@,
            reader_events_read(reader) == k,
            input_events(input@) == event_views(out@) + events_from(input@, k as nat, (n + 1 - k) as nat),
            out@.len() == k,
            forall|j: int| 0 <= j < out@.len() ==> (#[trigger] out@[j].failure is Some <==> out@[j].kind == EventKind::Failed),
            forall|j: int| 0 <= j < out@.len() && #[trigger] out@[j].failure is Some ==>
                failure_view(out@[j].failure) == Some(xml_failure_at(input@, j as nat)),
        ensures
            event_views(out@) == input_events(input@),
            forall|j: int| 0 <= j < out@.len() ==> (#[trigger] out@[j].failure is Some <==> out@[j].kind == EventKind::Failed),
            forall|j: int| 0 <= j < out@.len() && #[trigger] out@[j].failure is Some ==>
                failure_view(out@[j].failure) == Some(xml_failure_at(input@, j as nat)),
        decreases n - k,
    {
        let raw = read_raw_event(&mut reader);
        let e = decode_raw(&reader, raw);
        let last = e.kind == EventKind::Eof || e.kind == EventKind::Failed;
        let ghost o0 = out@;
        out.push(e);
        proof {
            assert(event_views(out@) =~= event_views(o0).push(event_view(e)));
            let rest = events_from(input@, k as nat, (n + 1 - k) as nat);
            assert(rest[0] == event_view(e));
            if last || k == n {
                if !last {
                    assert(events_from(input@, (k + 1) as nat, 0) =~= Seq::<EventView>::empty());
                    assert(seq![event_view(e)] + Seq::<EventView>::empty() =~= seq![event_view(e)]);
                }
                assert(rest =~= seq![event_view(e)]);
                assert(event_views(out@) =~= event_views(o0) + rest);
            } else {
                assert(rest =~= seq![event_view(e)] + events_from(input@, (k + 1) as nat, (n + 1 - (k + 1)) as nat));
                assert(event_views(out@) + events_from(input@, (k + 1) as nat, (n + 1 - (k + 1)) as nat)
                    =~= event_views(o0) + rest);
            }
        }
        if last || k == n {
            break;
        }
        k = k + 1;
    }
    out
}

/// Adds to the connections of a model those of its terminals, after the
/// ones it already holds.
fn build_connections(model: &mut SCDModel)
    ensures
        parsed_view(*final(model)) == parsed_view(*old(model)),
        final(model).goose_connections@.len() >= old(model).goose_connections@.len(),
        final(model).sv_connections@.len() >= old(model).sv_connections@.len(),
        connection_views(final(model).goose_connections@).take(old(model).goose_connections@.len() as int)
            == connection_views(old(model).goose_connections@),
        connection_views(final(model).sv_connections@).take(old(model).sv_connections@.len() as int)
            == connection_views(old(model).sv_connections@),
        connected(parsed_view(*old(model)).0, 0, 2,
            connection_views(final(model).goose_connections@).skip(old(model).goose_connections@.len() as int)),
        connected(parsed_view(*old(model)).0, 1, 3,
            connection_views(final(model).sv_connections@).skip(old(model).sv_connections@.len() as int)),
{
    let gp = collect_terminals(&model.ieds, 0);
    let gs = collect_terminals(&model.ieds, 2);
    let sp = collect_terminals(&model.ieds, 1);
    let ss = collect_terminals(&model.ieds, 3);
    let mut g = connect(&gp, &gs);
    let mut v = connect(&sp, &ss);
    let ghost g0 = model.goose_connections@;
    let ghost v0 = model.sv_connections@;
    let ghost gn = g@;
    let ghost vn = v@;
    model.goose_connections.append(&mut g);
    model.sv_connections.append(&mut v);
    proof {
        assert(model.goose_connections@ == g0 + gn);
        assert(model.sv_connections@ == v0 + vn);
        assert(connection_views(g0 + gn).take(g0.len() as int) =~= connection_views(g0));
        assert(connection_views(g0 + gn).skip(g0.len() as int) =~= connection_views(gn));
        assert(connection_views(v0 + vn).take(v0.len() as int) =~= connection_views(v0));
        assert(connection_views(v0 + vn).skip(v0.len() as int) =~= connection_views(vn));
    }
}

/// What reading the events `evs` gives: the error of `run_from`, or a model
/// whose IEDs, subnetworks and header are those `run_from` builds and whose
/// connections are those of its terminals.
pub open spec fn read_outcome(evs: Seq<EventView>, r: Result<SCDModel, ParseError>) -> bool {
    match run_from(initial_state(), empty_parsed(), evs) {
        Err(x) => r == Err::<SCDModel, ParseError>(x),
        Ok(p) => r is Ok
            && parsed_view(r->Ok_0) == p
            && connected(p.0, 0, 2, connection_views(r->Ok_0.goose_connections@))
            && connected(p.0, 1, 3, connection_views(r->Ok_0.sv_connections@)),
    }
}

/// Reads substation configuration descriptions.
pub struct SCDParser;

impl SCDParser {
    /// A parser; it holds no state.
    pub fn new() -> Self {
        SCDParser
    }

    /// The model that a configuration description in `reader` gives, or why
    /// it could not be read.
    pub fn parse_from_reader(reader: &[u8]) -> (r: Result<SCDModel, ParseError>)
        ensures
            read_outcome(input_events(reader@), r),
    {
        let events = read_events(reader);
        Self::parse_events(&events)
    }

    /// The model that the decoded events `events` give, or why they could
    /// not be read.
    pub fn parse_events(events: &Vec<XmlEvent>) -> (r: Result<SCDModel, ParseError>)
        ensures
            read_outcome(event_views(events@), r),
    {
        let ghost evs = event_views(events@);
        let mut st = ParseState::new();
        let mut m = SCDModel {
            ieds: Vec::new(),
            sub_networks: Vec::new(),
            goose_connections: Vec::new(),
            sv_connections: Vec::new(),
            header_info: None,
        };
        proof {
            assert(parsed_view(m) =~= empty_parsed());
            assert(evs.subrange(0, evs.len() as int) =~= evs);
        }
        let mut i: usize = 0;
        let mut done = false;
        while i < events.len() && !done
            invariant
                evs == event_views(events@),
                i <= events@.len(),
                done ==> run_from(initial_state(), empty_parsed(), evs) == Ok::<ParsedView, ParseError>(parsed_view(m)),
                !done ==> run_from(initial_state(), empty_parsed(), evs)
                    == run_from(state_view(st), parsed_view(m), evs.subrange(i as int, evs.len() as int)),
                m.goose_connections@.len() == 0,
                m.sv_connections@.len() == 0,
            decreases events@.len() - i,
        {
            let e = &events[i];
            let ghost rest = evs.subrange(i as int, evs.len() as int);
            proof {
                assert(rest[0] == event_view(*e));
                assert(rest.subrange(1, rest.len() as int) =~= evs.subrange(i + 1, evs.len() as int));
            }
            if e.kind == EventKind::Eof || e.kind == EventKind::Failed {
                done = true;
            } else {
                match st.apply(&mut m, e) {
                    Err(x) => {
                        return Err(x);
                    }
                    Ok(()) => {}
                }
            }
            i = i + 1;
        }
        proof {
            if !done {
                assert(evs.subrange(i as int, evs.len() as int) =~= Seq::<EventView>::empty());
            }
        }
        build_connections(&mut m);
        proof {
            assert(connection_views(m.goose_connections@).skip(0) =~= connection_views(m.goose_connections@));
            assert(connection_views(m.sv_connections@).skip(0) =~= connection_views(m.sv_connections@));
        }
        Ok(m)
    }
}

impl Default for SCDParser {
    /// The same as `new`.
    fn default() -> (r: Self)
        ensures
            r == SCDParser,
    {
        SCDParser::new()
    }
}

/// The first attribute error, if any.
pub fn scan_attrs(attrs: &Vec<XmlAttr>) -> (r: Option<ParseError>)
    ensures
        r == first_error(attr_views(attrs@)),
{
    let ghost v = attr_views(attrs@);
    let mut i: usize = 0;
    proof { assert(v.subrange(0, v.len() as int) =~= v); }
    while i < attrs.len()
        invariant
            v == attr_views(attrs@),
            i <= attrs@.len(),
            first_error(v) == first_error(v.subrange(i as int, v.len() as int)),
        decreases attrs@.len() - i,
    {
        let a = &attrs[i];
        proof {
            let rest = v.subrange(i as int, v.len() as int);
            assert(rest[0] == attr_view(*a));
            assert(rest.subrange(1, rest.len() as int) =~= v.subrange(i + 1, v.len() as int));
        }
        if a.key.is_none() {
            return Some(ParseError::InvalidUtf8);
        }
        if a.value.is_none() {
            return Some(ParseError::InvalidAttributeValue);
        }
        i = i + 1;
    }
    None
}

/// The value of the last attribute with one of the keys.
pub fn find_last(attrs: &Vec<XmlAttr>, k1: &str, k2: &str, k3: &str) -> (r: Option<String>)
    ensures
        opt_view(r) == last_value(attr_views(attrs@), k1@, k2@, k3@),
{
    let ghost v = attr_views(attrs@);
    let mut i: usize = attrs.len();
    proof { assert(v.take(v.len() as int) =~= v); }
    while i > 0
        invariant
            v == attr_views(attrs@),
            i <= attrs@.len(),
            last_value(v, k1@, k2@, k3@) == last_value(v.take(i as int), k1@, k2@, k3@),
        decreases i,
    {
        let a = &attrs[i - 1];
        proof {
            assert(v.take(i as int).last() == attr_view(*a));
            assert(v.take(i as int).drop_last() =~= v.take(i - 1));
        }
        match &a.key {
            Some(k) => {
                if text_is(k.as_str(), k1) || text_is(k.as_str(), k2) || text_is(k.as_str(), k3) {
                    return match &a.value {
                        Some(s) => Some(s.clone()),
                        None => None,
                    };
                }
            }
            None => {}
        }
        i = i - 1;
    }
    None
}

/// The value of the first attribute with the key; see `first_named`.
pub fn find_first(attrs: &Vec<XmlAttr>, key: &str) -> (r: Result<Option<String>, ParseError>)
    ensures
        match first_named(attr_views(attrs@), key@) {
            Ok(o) => r is Ok && opt_view(r->Ok_0) == o,
            Err(x) => r == Err::<Option<String>, ParseError>(x),
        },
{
    let ghost v = attr_views(attrs@);
    let mut i: usize = 0;
    proof { assert(v.subrange(0, v.len() as int) =~= v); }
    while i < attrs.len()
        invariant
            v == attr_views(attrs@),
            i <= attrs@.len(),
            first_named(v, key@) == first_named(v.subrange(i as int, v.len() as int), key@),
        decreases attrs@.len() - i,
    {
        let a = &attrs[i];
        proof {
            let rest = v.subrange(i as int, v.len() as int);
            assert(rest[0] == attr_view(*a));
            assert(rest.subrange(1, rest.len() as int) =~= v.subrange(i + 1, v.len() as int));
        }
        match &a.key {
            None => {
                return Err(ParseError::InvalidUtf8);
            }
            Some(k) => {
                if text_is(k.as_str(), key) {
                    return match &a.value {
                        Some(s) => Ok(Some(s.clone())),
                        None => Err(ParseError::InvalidAttributeValue),
                    };
                }
            }
        }
        i = i + 1;
    }
    proof { assert(v.subrange(i as int, v.len() as int) =~= Seq::<AttrView>::empty()); }
    Ok(None)
}

/// An optional text, or the empty text.
pub fn text_or_empty(o: Option<String>) -> (r: String)
    ensures
        r@ == or_empty(opt_view(o)),
{
    match o {
        Some(s) => s,
        None => String::new(),
    }
}

/// `ieds2` is `ieds` with `vt` added at the end of the GOOSE publications
/// (`sv` false) or of the SV publications (`sv` true) of the last access
/// point of the last IED, and nothing else changed.
pub open spec fn publication_added(ieds: Seq<IedView>, ieds2: Seq<IedView>, vt: VtView, sv: bool) -> bool {
    let l = ieds.last();
    let l2 = ieds2.last();
    let a = l.3.last();
    let a2 = l2.3.last();
    &&& ieds2.len() == ieds.len()
    &&& ieds2.drop_last() == ieds.drop_last()
    &&& l2.0 == l.0 && l2.1 == l.1 && l2.2 == l.2
    &&& l2.3.len() == l.3.len()
    &&& l2.3.drop_last() == l.3.drop_last()
    &&& a2.0 == a.0 && a2.1 == a.1 && a2.4 == a.4 && a2.5 == a.5
    &&& if sv { a2.2 == a.2 && a2.3 == a.3.push(vt) } else { a2.2 == a.2.push(vt) && a2.3 == a.3 }
}

/// The publication terminal that a tag with attributes `attrs` describes
/// for the control block `cb` of service `svc`, in the logical device of
/// state `st`, on the last access point of the last IED of `ieds`.
pub open spec fn publication_terminal(ieds: Seq<IedView>, st: StateView, attrs: Seq<AttrView>, cb: Seq<char>, svc: ServiceType) -> VtView {
    (ieds.last().0, ieds.last().3.last().0, or_empty(st.1), cb, svc,
        last_value(attrs, "MACAddress"@, "macAddress"@, "DstAddress"@),
        last_value(attrs, "AppID"@, "appId"@, "appId"@),
        last_value(attrs, "VLANID"@, "vlanId"@, "VlanId"@),
        last_value(attrs, "VLANPriority"@, "vlanPriority"@, "vlanPriority"@))
}

/// The tag names that the reading tells apart are different texts.
proof fn lemma_tag_names()
    ensures
        "Header"@ != "IED"@,
        "Header"@ != "AccessPoint"@,
        "Header"@ != "LDevice"@,
        "Header"@ != "LN0"@,
        "Header"@ != "LN"@,
        "Header"@ != "Inputs"@,
        "Header"@ != "ExtRef"@,
        "Header"@ != "GSEControl"@,
        "Header"@ != "SampledValueControl"@,
        "Header"@ != "GSE"@,
        "Header"@ != "GOOSE"@,
        "Header"@ != "SMV"@,
        "Header"@ != "SampledValue"@,
        "Header"@ != "SubNetwork"@,
        "Header"@ != "ConnectedAP"@,
        "IED"@ != "AccessPoint"@,
        "IED"@ != "LDevice"@,
        "IED"@ != "LN0"@,
        "IED"@ != "LN"@,
        "IED"@ != "Inputs"@,
        "IED"@ != "ExtRef"@,
        "IED"@ != "GSEControl"@,
        "IED"@ != "SampledValueControl"@,
        "IED"@ != "GSE"@,
        "IED"@ != "GOOSE"@,
        "IED"@ != "SMV"@,
        "IED"@ != "SampledValue"@,
        "IED"@ != "SubNetwork"@,
        "IED"@ != "ConnectedAP"@,
        "AccessPoint"@ != "LDevice"@,
        "AccessPoint"@ != "LN0"@,
        "AccessPoint"@ != "LN"@,
        "AccessPoint"@ != "Inputs"@,
        "AccessPoint"@ != "ExtRef"@,
        "AccessPoint"@ != "GSEControl"@,
        "AccessPoint"@ != "SampledValueControl"@,
        "AccessPoint"@ != "GSE"@,
        "AccessPoint"@ != "GOOSE"@,
        "AccessPoint"@ != "SMV"@,
        "AccessPoint"@ != "SampledValue"@,
        "AccessPoint"@ != "SubNetwork"@,
        "AccessPoint"@ != "ConnectedAP"@,
        "LDevice"@ != "LN0"@,
        "LDevice"@ != "LN"@,
        "LDevice"@ != "Inputs"@,
        "LDevice"@ != "ExtRef"@,
        "LDevice"@ != "GSEControl"@,
        "LDevice"@ != "SampledValueControl"@,
        "LDevice"@ != "GSE"@,
        "LDevice"@ != "GOOSE"@,
        "LDevice"@ != "SMV"@,
        "LDevice"@ != "SampledValue"@,
        "LDevice"@ != "SubNetwork"@,
        "LDevice"@ != "ConnectedAP"@,
        "LN0"@ != "LN"@,
        "LN0"@ != "Inputs"@,
        "LN0"@ != "ExtRef"@,
        "LN0"@ != "GSEControl"@,
        "LN0"@ != "SampledValueControl"@,
        "LN0"@ != "GSE"@,
        "LN0"@ != "GOOSE"@,
        "LN0"@ != "SMV"@,
        "LN0"@ != "SampledValue"@,
        "LN0"@ != "SubNetwork"@,
        "LN0"@ != "ConnectedAP"@,
        "LN"@ != "Inputs"@,
        "LN"@ != "ExtRef"@,
        "LN"@ != "GSEControl"@,
        "LN"@ != "SampledValueControl"@,
        "LN"@ != "GSE"@,
        "LN"@ != "GOOSE"@,
        "LN"@ != "SMV"@,
        "LN"@ != "SampledValue"@,
        "LN"@ != "SubNetwork"@,
        "LN"@ != "ConnectedAP"@,
        "Inputs"@ != "ExtRef"@,
        "Inputs"@ != "GSEControl"@,
        "Inputs"@ != "SampledValueControl"@,
        "Inputs"@ != "GSE"@,
        "Inputs"@ != "GOOSE"@,
        "Inputs"@ != "SMV"@,
        "Inputs"@ != "SampledValue"@,
        "Inputs"@ != "SubNetwork"@,
        "Inputs"@ != "ConnectedAP"@,
        "ExtRef"@ != "GSEControl"@,
        "ExtRef"@ != "SampledValueControl"@,
        "ExtRef"@ != "GSE"@,
        "ExtRef"@ != "GOOSE"@,
        "ExtRef"@ != "SMV"@,
        "ExtRef"@ != "SampledValue"@,
        "ExtRef"@ != "SubNetwork"@,
        "ExtRef"@ != "ConnectedAP"@,
        "GSEControl"@ != "SampledValueControl"@,
        "GSEControl"@ != "GSE"@,
        "GSEControl"@ != "GOOSE"@,
        "GSEControl"@ != "SMV"@,
        "GSEControl"@ != "SampledValue"@,
        "GSEControl"@ != "SubNetwork"@,
        "GSEControl"@ != "ConnectedAP"@,
        "SampledValueControl"@ != "GSE"@,
        "SampledValueControl"@ != "GOOSE"@,
        "SampledValueControl"@ != "SMV"@,
        "SampledValueControl"@ != "SampledValue"@,
        "SampledValueControl"@ != "SubNetwork"@,
        "SampledValueControl"@ != "ConnectedAP"@,
        "GSE"@ != "GOOSE"@,
        "GSE"@ != "SMV"@,
        "GSE"@ != "SampledValue"@,
        "GSE"@ != "SubNetwork"@,
        "GSE"@ != "ConnectedAP"@,
        "GOOSE"@ != "SMV"@,
        "GOOSE"@ != "SampledValue"@,
        "GOOSE"@ != "SubNetwork"@,
        "GOOSE"@ != "ConnectedAP"@,
        "SMV"@ != "SampledValue"@,
        "SMV"@ != "SubNetwork"@,
        "SMV"@ != "ConnectedAP"@,
        "SampledValue"@ != "SubNetwork"@,
        "SampledValue"@ != "ConnectedAP"@,
        "SubNetwork"@ != "ConnectedAP"@,
{
    reveal_strlit("Header");
    reveal_strlit("IED");
    reveal_strlit("AccessPoint");
    reveal_strlit("LDevice");
    reveal_strlit("LN0");
    reveal_strlit("LN");
    reveal_strlit("Inputs");
    reveal_strlit("ExtRef");
    reveal_strlit("GSEControl");
    reveal_strlit("SampledValueControl");
    reveal_strlit("GSE");
    reveal_strlit("GOOSE");
    reveal_strlit("SMV");
    reveal_strlit("SampledValue");
    reveal_strlit("SubNetwork");
    reveal_strlit("ConnectedAP");
    assert("Header"@.len() != "IED"@.len());
    assert("Header"@.len() != "AccessPoint"@.len());
    assert("Header"@.len() != "LDevice"@.len());
    assert("Header"@.len() != "LN0"@.len());
    assert("Header"@.len() != "LN"@.len());
    assert("Header"@[0] != "Inputs"@[0]);
    assert("Header"@[0] != "ExtRef"@[0]);
    assert("Header"@.len() != "GSEControl"@.len());
    assert("Header"@.len() != "SampledValueControl"@.len());
    assert("Header"@.len() != "GSE"@.len());
    assert("Header"@.len() != "GOOSE"@.len());
    assert("Header"@.len() != "SMV"@.len());
    assert("Header"@.len() != "SampledValue"@.len());
    assert("Header"@.len() != "SubNetwork"@.len());
    assert("Header"@.len() != "ConnectedAP"@.len());
    assert("IED"@.len() != "AccessPoint"@.len());
    assert("IED"@.len() != "LDevice"@.len());
    assert("IED"@[0] != "LN0"@[0]);
    assert("IED"@.len() != "LN"@.len());
    assert("IED"@.len() != "Inputs"@.len());
    assert("IED"@.len() != "ExtRef"@.len());
    assert("IED"@.len() != "GSEControl"@.len());
    assert("IED"@.len() != "SampledValueControl"@.len());
    assert("IED"@[0] != "GSE"@[0]);
    assert("IED"@.len() != "GOOSE"@.len());
    assert("IED"@[0] != "SMV"@[0]);
    assert("IED"@.len() != "SampledValue"@.len());
    assert("IED"@.len() != "SubNetwork"@.len());
    assert("IED"@.len() != "ConnectedAP"@.len());
    assert("AccessPoint"@.len() != "LDevice"@.len());
    assert("AccessPoint"@.len() != "LN0"@.len());
    assert("AccessPoint"@.len() != "LN"@.len());
    assert("AccessPoint"@.len() != "Inputs"@.len());
    assert("AccessPoint"@.len() != "ExtRef"@.len());
    assert("AccessPoint"@.len() != "GSEControl"@.len());
    assert("AccessPoint"@.len() != "SampledValueControl"@.len());
    assert("AccessPoint"@.len() != "GSE"@.len());
    assert("AccessPoint"@.len() != "GOOSE"@.len());
    assert("AccessPoint"@.len() != "SMV"@.len());
    assert("AccessPoint"@.len() != "SampledValue"@.len());
    assert("AccessPoint"@.len() != "SubNetwork"@.len());
    assert("AccessPoint"@[0] != "ConnectedAP"@[0]);
    assert("LDevice"@.len() != "LN0"@.len());
    assert("LDevice"@.len() != "LN"@.len());
    assert("LDevice"@.len() != "Inputs"@.len());
    assert("LDevice"@.len() != "ExtRef"@.len());
    assert("LDevice"@.len() != "GSEControl"@.len());
    assert("LDevice"@.len() != "SampledValueControl"@.len());
    assert("LDevice"@.len() != "GSE"@.len());
    assert("LDevice"@.len() != "GOOSE"@.len());
    assert("LDevice"@.len() != "SMV"@.len());
    assert("LDevice"@.len() != "SampledValue"@.len());
    assert("LDevice"@.len() != "SubNetwork"@.len());
    assert("LDevice"@.len() != "ConnectedAP"@.len());
    assert("LN0"@.len() != "LN"@.len());
    assert("LN0"@.len() != "Inputs"@.len());
    assert("LN0"@.len() != "ExtRef"@.len());
    assert("LN0"@.len() != "GSEControl"@.len());
    assert("LN0"@.len() != "SampledValueControl"@.len());
    assert("LN0"@[0] != "GSE"@[0]);
    assert("LN0"@.len() != "GOOSE"@.len());
    assert("LN0"@[0] != "SMV"@[0]);
    assert("LN0"@.len() != "SampledValue"@.len());
    assert("LN0"@.len() != "SubNetwork"@.len());
    assert("LN0"@.len() != "ConnectedAP"@.len());
    assert("LN"@.len() != "Inputs"@.len());
    assert("LN"@.len() != "ExtRef"@.len());
    assert("LN"@.len() != "GSEControl"@.len());
    assert("LN"@.len() != "SampledValueControl"@.len());
    assert("LN"@.len() != "GSE"@.len());
    assert("LN"@.len() != "GOOSE"@.len());
    assert("LN"@.len() != "SMV"@.len());
    assert("LN"@.len() != "SampledValue"@.len());
    assert("LN"@.len() != "SubNetwork"@.len());
    assert("LN"@.len() != "ConnectedAP"@.len());
    assert("Inputs"@[0] != "ExtRef"@[0]);
    assert("Inputs"@.len() != "GSEControl"@.len());
    assert("Inputs"@.len() != "SampledValueControl"@.len());
    assert("Inputs"@.len() != "GSE"@.len());
    assert("Inputs"@.len() != "GOOSE"@.len());
    assert("Inputs"@.len() != "SMV"@.len());
    assert("Inputs"@.len() != "SampledValue"@.len());
    assert("Inputs"@.len() != "SubNetwork"@.len());
    assert("Inputs"@.len() != "ConnectedAP"@.len());
    assert("ExtRef"@.len() != "GSEControl"@.len());
    assert("ExtRef"@.len() != "SampledValueControl"@.len());
    assert("ExtRef"@.len() != "GSE"@.len());
    assert("ExtRef"@.len() != "GOOSE"@.len());
    assert("ExtRef"@.len() != "SMV"@.len());
    assert("ExtRef"@.len() != "SampledValue"@.len());
    assert("ExtRef"@.len() != "SubNetwork"@.len());
    assert("ExtRef"@.len() != "ConnectedAP"@.len());
    assert("GSEControl"@.len() != "SampledValueControl"@.len());
    assert("GSEControl"@.len() != "GSE"@.len());
    assert("GSEControl"@.len() != "GOOSE"@.len());
    assert("GSEControl"@.len() != "SMV"@.len());
    assert("GSEControl"@.len() != "SampledValue"@.len());
    assert("GSEControl"@[0] != "SubNetwork"@[0]);
    assert("GSEControl"@.len() != "ConnectedAP"@.len());
    assert("SampledValueControl"@.len() != "GSE"@.len());
    assert("SampledValueControl"@.len() != "GOOSE"@.len());
    assert("SampledValueControl"@.len() != "SMV"@.len());
    assert("SampledValueControl"@.len() != "SampledValue"@.len());
    assert("SampledValueControl"@.len() != "SubNetwork"@.len());
    assert("SampledValueControl"@.len() != "ConnectedAP"@.len());
    assert("GSE"@.len() != "GOOSE"@.len());
    assert("GSE"@[0] != "SMV"@[0]);
    assert("GSE"@.len() != "SampledValue"@.len());
    assert("GSE"@.len() != "SubNetwork"@.len());
    assert("GSE"@.len() != "ConnectedAP"@.len());
    assert("GOOSE"@.len() != "SMV"@.len());
    assert("GOOSE"@.len() != "SampledValue"@.len());
    assert("GOOSE"@.len() != "SubNetwork"@.len());
    assert("GOOSE"@.len() != "ConnectedAP"@.len());
    assert("SMV"@.len() != "SampledValue"@.len());
    assert("SMV"@.len() != "SubNetwork"@.len());
    assert("SMV"@.len() != "ConnectedAP"@.len());
    assert("SampledValue"@.len() != "SubNetwork"@.len());
    assert("SampledValue"@.len() != "ConnectedAP"@.len());
    assert("SubNetwork"@.len() != "ConnectedAP"@.len());
}

/// Adding a terminal to a list of the last access point changes that list
/// alone.
proof fn lemma_push_term_publication(ieds: Seq<IedView>, vt: VtView, which: int)
    requires
        has_last_ap(ieds),
        which == 0 || which == 1,
    ensures
        publication_added(ieds, push_term(ieds, vt, which), vt, which == 1),
{
    lemma_push_term_shape(ieds, vt, which);
}

/// Adding a terminal keeps everything but the last access point of the
/// last IED.
proof fn lemma_push_term_shape(ieds: Seq<IedView>, vt: VtView, which: int)
    requires
        has_last_ap(ieds),
    ensures
        push_term(ieds, vt, which).drop_last() == ieds.drop_last(),
        push_term(ieds, vt, which).last().3.drop_last() == ieds.last().3.drop_last(),
        push_term(ieds, vt, which).len() == ieds.len(),
        push_term(ieds, vt, which).last().3.len() == ieds.last().3.len(),
{
    let r = push_term(ieds, vt, which);
    let l = ieds.last();
    assert(r.drop_last() =~= ieds.drop_last());
    assert(r.last().3.drop_last() =~= l.3.drop_last());
}

/// Inside a sampled-value control block with a name, an opening `SMV` or
/// `SampledValue` tag with well-formed attributes, in an IED that has an
/// access point, keeps the state and adds to the SV publications of the last
/// access point of the last IED one terminal of that IED, access point,
/// logical device and block, with the tag's addresses; nothing else of the
/// model changes.
pub proof fn lemma_sv_publication_tag(st: StateView, m: ParsedView, kind: EventKind, name: Seq<char>, attrs: Seq<AttrView>)
    requires
        kind == EventKind::Start || kind == EventKind::Empty,
        name == "SMV"@ || name == "SampledValue"@,
        st.0.in_sv_control,
        st.3 is Some,
        first_error(attrs) is None,
        m.0.len() > 0,
        m.0.last().3.len() > 0,
    ensures
        step(st, m, (kind, Some(name), attrs)) is Ok,
        step(st, m, (kind, Some(name), attrs))->Ok_0.0 == st,
        step(st, m, (kind, Some(name), attrs))->Ok_0.1.1 == m.1,
        step(st, m, (kind, Some(name), attrs))->Ok_0.1.2 == m.2,
        publication_added(m.0, step(st, m, (kind, Some(name), attrs))->Ok_0.1.0,
            publication_terminal(m.0, st, attrs, st.3->0, ServiceType::SV), true),
{
    lemma_tag_names();
    lemma_push_term_publication(m.0, publication_terminal(m.0, st, attrs, st.3->0, ServiceType::SV), 1);
}

/// Inside a GOOSE control block with a name, an opening `GSE` or `GOOSE`
/// tag with well-formed
/// attributes, in an IED that has an access point, keeps the state and adds
/// to the GOOSE publications of the last access point of the last IED one
/// terminal of that IED, access point, logical device and block; nothing
/// else of the model changes.
pub proof fn lemma_goose_publication_tag(st: StateView, m: ParsedView, kind: EventKind, name: Seq<char>, attrs: Seq<AttrView>)
    requires
        kind == EventKind::Start || kind == EventKind::Empty,
        name == "GSE"@ || name == "GOOSE"@,
        st.0.in_gse_control,
        st.2 is Some,
        first_error(attrs) is None,
        m.0.len() > 0,
        m.0.last().3.len() > 0,
    ensures
        step(st, m, (kind, Some(name), attrs)) is Ok,
        step(st, m, (kind, Some(name), attrs))->Ok_0.0 == st,
        step(st, m, (kind, Some(name), attrs))->Ok_0.1.1 == m.1,
        step(st, m, (kind, Some(name), attrs))->Ok_0.1.2 == m.2,
        publication_added(m.0, step(st, m, (kind, Some(name), attrs))->Ok_0.1.0,
            publication_terminal(m.0, st, attrs, st.2->0, ServiceType::GOOSE), false),
{
    lemma_tag_names();
    lemma_push_term_publication(m.0, publication_terminal(m.0, st, attrs, st.2->0, ServiceType::GOOSE), 0);
}

/// `ieds2` is `ieds` with `vt` added at the end of the GOOSE subscriptions
/// (`sv` false) or of the SV subscriptions (`sv` true) of the last access
/// point of the last IED, and nothing else changed.
pub open spec fn subscription_added(ieds: Seq<IedView>, ieds2: Seq<IedView>, vt: VtView, sv: bool) -> bool {
    let l = ieds.last();
    let l2 = ieds2.last();
    let a = l.3.last();
    let a2 = l2.3.last();
    &&& ieds2.len() == ieds.len()
    &&& ieds2.drop_last() == ieds.drop_last()
    &&& l2.0 == l.0 && l2.1 == l.1 && l2.2 == l.2
    &&& l2.3.len() == l.3.len()
    &&& l2.3.drop_last() == l.3.drop_last()
    &&& a2.0 == a.0 && a2.1 == a.1 && a2.2 == a.2 && a2.3 == a.3
    &&& if sv { a2.4 == a.4 && a2.5 == a.5.push(vt) } else { a2.4 == a.4.push(vt) && a2.5 == a.5 }
}

/// The service an `ExtRef` names: SV when its `serviceType` reads `SMV` or
/// `SV`, GOOSE otherwise.
pub open spec fn ext_ref_is_sv(attrs: Seq<AttrView>) -> bool {
    let v = last_value(attrs, "serviceType"@, "serviceType"@, "serviceType"@);
    v == Some("SMV"@) || v == Some("SV"@)
}

/// The subscription terminal an `ExtRef` with attributes `attrs` describes.
pub open spec fn ext_ref_terminal(attrs: Seq<AttrView>) -> VtView {
    (or_empty(last_value(attrs, "iedName"@, "iedName"@, "iedName"@)),
        or_empty(last_value(attrs, "apRef"@, "apRef"@, "apRef"@)),
        or_empty(last_value(attrs, "ldInst"@, "ldInst"@, "ldInst"@)),
        or_empty(last_value(attrs, "cbName"@, "cbName"@, "cbName"@)),
        if ext_ref_is_sv(attrs) { ServiceType::SV } else { ServiceType::GOOSE }, None, None, None, None)
}

/// Inside `Inputs`, an opening `ExtRef` tag with well-formed attributes, in
/// an IED that has an access point, keeps the state; when it names a control
/// block it adds the subscription it describes to the SV subscriptions of the
/// last access point of the last IED if its service type is `SMV` or `SV`,
/// and to its GOOSE subscriptions otherwise; without a block name it changes
/// nothing.
pub proof fn lemma_ext_ref_tag(st: StateView, m: ParsedView, kind: EventKind, attrs: Seq<AttrView>)
    requires
        kind == EventKind::Start || kind == EventKind::Empty,
        st.0.in_inputs,
        first_error(attrs) is None,
        m.0.len() > 0,
        m.0.last().3.len() > 0,
    ensures
        step(st, m, (kind, Some("ExtRef"@), attrs)) is Ok,
        step(st, m, (kind, Some("ExtRef"@), attrs))->Ok_0.0 == st,
        step(st, m, (kind, Some("ExtRef"@), attrs))->Ok_0.1.1 == m.1,
        step(st, m, (kind, Some("ExtRef"@), attrs))->Ok_0.1.2 == m.2,
        ext_ref_terminal(attrs).3.len() == 0 ==> step(st, m, (kind, Some("ExtRef"@), attrs))->Ok_0.1.0 == m.0,
        ext_ref_terminal(attrs).3.len() > 0 ==> subscription_added(m.0, step(st, m, (kind, Some("ExtRef"@), attrs))->Ok_0.1.0,
            ext_ref_terminal(attrs), ext_ref_is_sv(attrs)),
{
    lemma_tag_names();
    let vt = ext_ref_terminal(attrs);
    let which: int = if ext_ref_is_sv(attrs) { 3 } else { 2 };
    lemma_push_term_shape(m.0, vt, which);
    assert(service_of(last_value(attrs, "serviceType"@, "serviceType"@, "serviceType"@))
        == (if ext_ref_is_sv(attrs) { ServiceType::SV } else { ServiceType::GOOSE }));
}

/// An opening `IED` tag with well-formed attributes enters an IED and adds
/// one at the end of the model, named by its `name` attribute (empty without
/// one), with its `type` and `manufacturer` and no access point; nothing
/// else changes.
pub proof fn lemma_ied_tag(st: StateView, m: ParsedView, kind: EventKind, attrs: Seq<AttrView>)
    requires
        kind == EventKind::Start || kind == EventKind::Empty,
        first_error(attrs) is None,
    ensures
        step(st, m, (kind, Some("IED"@), attrs)) == Ok::<(StateView, ParsedView), ParseError>((
            (ParseFlags { in_ied: true, ..st.0 }, st.1, st.2, st.3),
            (m.0.push((or_empty(last_value(attrs, "name"@, "name"@, "name"@)), last_value(attrs, "type"@, "type"@, "type"@),
                last_value(attrs, "manufacturer"@, "manufacturer"@, "manufacturer"@), Seq::<ApView>::empty())), m.1, m.2),
        )),
{
    lemma_tag_names();
}

/// Inside an IED, an opening `AccessPoint` tag with well-formed attributes
/// enters an access point and adds one to the last IED, named by its first
/// `name` attribute (empty without one), belonging to that IED and without
/// publications or subscriptions; nothing else changes.
pub proof fn lemma_access_point_tag(st: StateView, m: ParsedView, kind: EventKind, attrs: Seq<AttrView>)
    requires
        kind == EventKind::Start || kind == EventKind::Empty,
        first_error(attrs) is None,
        st.0.in_ied,
        m.0.len() > 0,
    ensures
        step(st, m, (kind, Some("AccessPoint"@), attrs)) is Ok,
        step(st, m, (kind, Some("AccessPoint"@), attrs))->Ok_0.0 == (ParseFlags { in_access_point: true, ..st.0 }, st.1, st.2, st.3),
        step(st, m, (kind, Some("AccessPoint"@), attrs))->Ok_0.1.0 == m.0.drop_last().push((m.0.last().0, m.0.last().1, m.0.last().2,
            m.0.last().3.push((or_empty(first_named(attrs, "name"@)->Ok_0), m.0.last().0,
                Seq::empty(), Seq::empty(), Seq::empty(), Seq::empty())))),
        step(st, m, (kind, Some("AccessPoint"@), attrs))->Ok_0.1.1 == m.1,
        step(st, m, (kind, Some("AccessPoint"@), attrs))->Ok_0.1.2 == m.2,
{
    lemma_tag_names();
    lemma_first_named_ok(attrs, "name"@);
}

/// Without malformed attributes the first attribute of a key is found.
proof fn lemma_first_named_ok(attrs: Seq<AttrView>, key: Seq<char>)
    requires
        first_error(attrs) is None,
    ensures
        first_named(attrs, key) is Ok,
    decreases attrs.len(),
{
    if attrs.len() > 0 {
        lemma_first_named_ok(attrs.subrange(1, attrs.len() as int), key);
    }
}

/// Inside an access point, an opening `LDevice` tag with well-formed
/// attributes enters a logical device whose instance is its first `inst`
/// attribute (the current one is kept without one); the model does not
/// change.
pub proof fn lemma_ldevice_tag(st: StateView, m: ParsedView, kind: EventKind, attrs: Seq<AttrView>)
    requires
        kind == EventKind::Start || kind == EventKind::Empty,
        first_error(attrs) is None,
        st.0.in_access_point,
    ensures
        step(st, m, (kind, Some("LDevice"@), attrs)) == Ok::<(StateView, ParsedView), ParseError>((
            (ParseFlags { in_ldevice: true, ..st.0 },
                if first_named(attrs, "inst"@)->Ok_0 is Some { first_named(attrs, "inst"@)->Ok_0 } else { st.1 }, st.2, st.3),
            m,
        )),
{
    lemma_tag_names();
    lemma_first_named_ok(attrs, "inst"@);
}

/// Inside a logical node, an opening `GSEControl` tag with well-formed
/// attributes enters a GOOSE control block named by its first `name`
/// attribute (the current name is kept without one), and an opening
/// `SampledValueControl` tag likewise enters a sampled-value control block;
/// the model does not change.
pub proof fn lemma_control_block_tags(st: StateView, m: ParsedView, kind: EventKind, attrs: Seq<AttrView>)
    requires
        kind == EventKind::Start || kind == EventKind::Empty,
        first_error(attrs) is None,
        st.0.in_ln,
    ensures
        step(st, m, (kind, Some("GSEControl"@), attrs)) == Ok::<(StateView, ParsedView), ParseError>((
            (ParseFlags { in_gse_control: true, ..st.0 }, st.1,
                if first_named(attrs, "name"@)->Ok_0 is Some { first_named(attrs, "name"@)->Ok_0 } else { st.2 }, st.3),
            m,
        )),
        step(st, m, (kind, Some("SampledValueControl"@), attrs)) == Ok::<(StateView, ParsedView), ParseError>((
            (ParseFlags { in_sv_control: true, ..st.0 }, st.1, st.2,
                if first_named(attrs, "name"@)->Ok_0 is Some { first_named(attrs, "name"@)->Ok_0 } else { st.3 }),
            m,
        )),
{
    lemma_tag_names();
    lemma_first_named_ok(attrs, "name"@);
}

/// An opening `SubNetwork` tag with well-formed attributes enters a
/// subnetwork and adds one at the end, named by its `name` attribute (empty
/// without one), with its `type` and no pair; inside a subnetwork an opening
/// `ConnectedAP` tag adds the pair of its `iedName` and `apName` to the last
/// subnetwork and changes nothing else.
pub proof fn lemma_network_tags(st: StateView, m: ParsedView, kind: EventKind, attrs: Seq<AttrView>)
    requires
        kind == EventKind::Start || kind == EventKind::Empty,
        first_error(attrs) is None,
    ensures
        step(st, m, (kind, Some("SubNetwork"@), attrs)) == Ok::<(StateView, ParsedView), ParseError>((
            (ParseFlags { in_subnetwork: true, ..st.0 }, st.1, st.2, st.3),
            (m.0, m.1.push((or_empty(last_value(attrs, "name"@, "name"@, "name"@)), last_value(attrs, "type"@, "type"@, "type"@),
                Seq::<(Seq<char>, Seq<char>)>::empty())), m.2),
        )),
        st.0.in_subnetwork && m.1.len() > 0 ==> step(st, m, (kind, Some("ConnectedAP"@), attrs)) == Ok::<(StateView, ParsedView), ParseError>((
            st,
            (m.0, m.1.drop_last().push((m.1.last().0, m.1.last().1, m.1.last().2.push((
                or_empty(last_value(attrs, "iedName"@, "iedName"@, "iedName"@)),
                or_empty(last_value(attrs, "apName"@, "apName"@, "apName"@)))))), m.2),
        )),
{
    lemma_tag_names();
}

/// A closing tag leaves the element it names: `IED`, `AccessPoint`,
/// `LDevice` (forgetting its instance), `LN0` or `LN`, `Inputs`,
/// `GSEControl` and `SampledValueControl` (forgetting the block's name) and
/// `SubNetwork`; it changes no other part of the state, and never the model.
pub proof fn lemma_closing_tags(st: StateView, m: ParsedView)
    ensures
        step(st, m, (EventKind::End, Some("IED"@), Seq::empty())) == Ok::<(StateView, ParsedView), ParseError>(((ParseFlags { in_ied: false, ..st.0 }, st.1, st.2, st.3), m)),
        step(st, m, (EventKind::End, Some("AccessPoint"@), Seq::empty())) == Ok::<(StateView, ParsedView), ParseError>(((ParseFlags { in_access_point: false, ..st.0 }, st.1, st.2, st.3), m)),
        step(st, m, (EventKind::End, Some("LDevice"@), Seq::empty())) == Ok::<(StateView, ParsedView), ParseError>(((ParseFlags { in_ldevice: false, ..st.0 }, None, st.2, st.3), m)),
        step(st, m, (EventKind::End, Some("LN0"@), Seq::empty())) == Ok::<(StateView, ParsedView), ParseError>(((ParseFlags { in_ln: false, ..st.0 }, st.1, st.2, st.3), m)),
        step(st, m, (EventKind::End, Some("LN"@), Seq::empty())) == Ok::<(StateView, ParsedView), ParseError>(((ParseFlags { in_ln: false, ..st.0 }, st.1, st.2, st.3), m)),
        step(st, m, (EventKind::End, Some("Inputs"@), Seq::empty())) == Ok::<(StateView, ParsedView), ParseError>(((ParseFlags { in_inputs: false, ..st.0 }, st.1, st.2, st.3), m)),
        step(st, m, (EventKind::End, Some("GSEControl"@), Seq::empty())) == Ok::<(StateView, ParsedView), ParseError>(((ParseFlags { in_gse_control: false, ..st.0 }, st.1, None, st.3), m)),
        step(st, m, (EventKind::End, Some("SampledValueControl"@), Seq::empty())) == Ok::<(StateView, ParsedView), ParseError>(((ParseFlags { in_sv_control: false, ..st.0 }, st.1, st.2, None), m)),
        step(st, m, (EventKind::End, Some("SubNetwork"@), Seq::empty())) == Ok::<(StateView, ParsedView), ParseError>(((ParseFlags { in_subnetwork: false, ..st.0 }, st.1, st.2, st.3), m)),
{
    lemma_tag_names();
}

/// An opening `Header` tag with well-formed attributes sets the header to
/// its `id` and `version` with no history; inside a logical device an
/// opening `LN0` or `LN` tag enters a logical node, and inside a logical
/// node an opening `Inputs` tag enters its inputs; none of these changes
/// anything else.
pub proof fn lemma_header_and_node_tags(st: StateView, m: ParsedView, kind: EventKind, attrs: Seq<AttrView>)
    requires
        kind == EventKind::Start || kind == EventKind::Empty,
        first_error(attrs) is None,
    ensures
        step(st, m, (kind, Some("Header"@), attrs)) == Ok::<(StateView, ParsedView), ParseError>((st,
            (m.0, m.1, Some((last_value(attrs, "id"@, "id"@, "id"@), last_value(attrs, "version"@, "version"@, "version"@),
                Seq::<Seq<char>>::empty()))))),
        st.0.in_ldevice ==> step(st, m, (kind, Some("LN0"@), attrs))
            == Ok::<(StateView, ParsedView), ParseError>(((ParseFlags { in_ln: true, ..st.0 }, st.1, st.2, st.3), m)),
        st.0.in_ldevice ==> step(st, m, (kind, Some("LN"@), attrs))
            == Ok::<(StateView, ParsedView), ParseError>(((ParseFlags { in_ln: true, ..st.0 }, st.1, st.2, st.3), m)),
        st.0.in_ln ==> step(st, m, (kind, Some("Inputs"@), attrs))
            == Ok::<(StateView, ParsedView), ParseError>(((ParseFlags { in_inputs: true, ..st.0 }, st.1, st.2, st.3), m)),
{
    lemma_tag_names();
}

/// The value read for a key is that of the last attribute whose key is one
/// of its spellings, and there is none when no attribute has such a key.
pub proof fn lemma_last_value(attrs: Seq<AttrView>, k1: Seq<char>, k2: Seq<char>, k3: Seq<char>)
    ensures
        (forall|i: int| 0 <= i < attrs.len() ==> !key_is(#[trigger] attrs[i], k1, k2, k3))
            ==> last_value(attrs, k1, k2, k3) is None,
        forall|i: int| 0 <= i < attrs.len() && key_is(#[trigger] attrs[i], k1, k2, k3)
            && (forall|j: int| i < j < attrs.len() ==> !key_is(#[trigger] attrs[j], k1, k2, k3))
            ==> last_value(attrs, k1, k2, k3) == attrs[i].1,
    decreases attrs.len(),
{
    if attrs.len() > 0 {
        let p = attrs.drop_last();
        let n = attrs.len() - 1;
        lemma_last_value(p, k1, k2, k3);
        assert(attrs[n] == attrs.last());
        assert forall|i: int| 0 <= i < n implies attrs[i] == p[i] by {}
        assert forall|i: int| 0 <= i < attrs.len() && key_is(#[trigger] attrs[i], k1, k2, k3)
            && (forall|j: int| i < j < attrs.len() ==> !key_is(#[trigger] attrs[j], k1, k2, k3))
            implies last_value(attrs, k1, k2, k3) == attrs[i].1 by {
            if i < n {
                assert(!key_is(attrs[n], k1, k2, k3));
                assert(key_is(p[i], k1, k2, k3));
                assert forall|j: int| i < j < p.len() implies !key_is(#[trigger] p[j], k1, k2, k3) by {
                    assert(p[j] == attrs[j]);
                }
            }
        }
        if forall|i: int| 0 <= i < attrs.len() ==> !key_is(#[trigger] attrs[i], k1, k2, k3) {
            assert(!key_is(attrs[n], k1, k2, k3));
            assert forall|i: int| 0 <= i < p.len() implies !key_is(#[trigger] p[i], k1, k2, k3) by {
                assert(p[i] == attrs[i]);
            }
        }
    }
}

/// The positions of the terminals of block `k` among the first `n` of
/// `flat` are exactly those positions, in increasing order.
pub proof fn lemma_key_positions(flat: Seq<VtView>, k: BlockKey, n: int)
    requires
        n <= flat.len(),
        n <= usize::MAX,
    ensures
        forall|i: int| 0 <= i < n ==> (key_positions(flat, k, n).contains(i as usize) <==> #[trigger] vt_key(flat[i]) == k),
        forall|a: int| 0 <= a < key_positions(flat, k, n).len() ==> 0 <= #[trigger] key_positions(flat, k, n)[a] < n
            && vt_key(flat[key_positions(flat, k, n)[a] as int]) == k,
        forall|a: int, b: int| 0 <= a < b < key_positions(flat, k, n).len()
            ==> #[trigger] key_positions(flat, k, n)[a] < #[trigger] key_positions(flat, k, n)[b],
    decreases n,
{
    if n > 0 {
        lemma_key_positions(flat, k, n - 1);
        let r0 = key_positions(flat, k, n - 1);
        let r = key_positions(flat, k, n);
        if vt_key(flat[n - 1]) == k {
            assert(r == r0.push((n - 1) as usize));
            assert forall|i: int| 0 <= i < n implies (r.contains(i as usize) <==> #[trigger] vt_key(flat[i]) == k) by {
                if r.contains(i as usize) && i < n - 1 {
                    let a = choose|a: int| 0 <= a < r.len() && r[a] == i as usize;
                    if a < r0.len() { assert(r0[a] == r[a]); assert(r0.contains(i as usize)); }
                }
                if i < n - 1 && vt_key(flat[i]) == k {
                    assert(r0.contains(i as usize));
                    let a = choose|a: int| 0 <= a < r0.len() && r0[a] == i as usize;
                    assert(r[a] == r0[a]);
                }
                if i == n - 1 {
                    assert(r[r0.len() as int] == i as usize);
                }
            }
            assert forall|a: int| 0 <= a < r.len() implies 0 <= #[trigger] r[a] < n && vt_key(flat[r[a] as int]) == k by {
                if a < r0.len() { assert(r[a] == r0[a]); }
            }
            assert forall|a: int, b: int| 0 <= a < b < r.len() implies #[trigger] r[a] < #[trigger] r[b] by {
                assert(r[a] == r0[a]);
                assert(r0[a] < n - 1);
                if b < r0.len() { assert(r[b] == r0[b]); } else { assert(r[b] == (n - 1) as usize); }
            }
        } else {
            assert forall|i: int| 0 <= i < n implies (r.contains(i as usize) <==> #[trigger] vt_key(flat[i]) == k) by {
                if i == n - 1 && r.contains(i as usize) {
                    let a = choose|a: int| 0 <= a < r.len() && r[a] == i as usize;
                }
            }
        }
    }
}

/// `c` pairs a publication of `pubs` of one of the blocks `ks` with the
/// subscriptions of `subs` to that block, all of them in order, there being
/// at least one.
pub open spec fn is_connection(pubs: Seq<VtView>, subs: Seq<VtView>, ks: Seq<BlockKey>, c: (VtView, Seq<VtView>)) -> bool {
    &&& pubs.contains(c.0)
    &&& ks.contains(vt_key(c.0))
    &&& c.1.len() > 0
    &&& c.1 == subs.filter(|s: VtView| vt_key(s) == vt_key(c.0))
}

/// Every connection pairs a publication of one of the blocks with all the
/// subscriptions to its block, in order, and there is one.
pub proof fn lemma_connections_of(pubs: Seq<VtView>, subs: Seq<VtView>, ks: Seq<BlockKey>)
    requires
        pubs.len() <= usize::MAX,
        subs.len() <= usize::MAX,
    ensures
        forall|m: int| 0 <= m < connections_of(pubs, subs, ks).len()
            ==> is_connection(pubs, subs, ks, #[trigger] connections_of(pubs, subs, ks)[m]),
    decreases ks.len(),
{
    if ks.len() > 0 {
        let k0 = ks.drop_last();
        let k = ks.last();
        lemma_connections_of(pubs, subs, k0);
        let r0 = connections_of(pubs, subs, k0);
        let rb = block_connections(pubs, subs, k);
        let r = connections_of(pubs, subs, ks);
        assert(r == r0 + rb);
        assert(ks[ks.len() - 1] == k);
        lemma_key_positions(pubs, k, pubs.len() as int);
        lemma_key_positions(subs, k, subs.len() as int);
        let si = key_positions(subs, k, subs.len() as int);
        let pi = key_positions(pubs, k, pubs.len() as int);
        let f = |s: VtView| vt_key(s) == k;
        assert(si.map_values(|j: usize| subs[j as int]) =~= subs.filter(f)) by {
            lemma_filter_by_positions(subs, k, subs.len() as int);
            assert(subs.take(subs.len() as int) =~= subs);
        }
        assert forall|m: int| 0 <= m < r.len() implies is_connection(pubs, subs, ks, #[trigger] r[m]) by {
            if m < r0.len() {
                assert(r[m] == r0[m]);
                assert(is_connection(pubs, subs, k0, r0[m]));
                let q = choose|q: int| 0 <= q < k0.len() && k0[q] == vt_key(r0[m].0);
                assert(ks[q] == k0[q]);
            } else {
                let q = m - r0.len();
                assert(r[m] == rb[q]);
                assert(si.len() > 0);
                let pos = pi[q];
                assert(rb[q] == (pubs[pos as int], si.map_values(|j: usize| subs[j as int])));
                assert(pubs.contains(pubs[pos as int]));
                assert(vt_key(pubs[pos as int]) == k);
            }
        }
    }
}

/// Picking the terminals at the positions of block `k` among the first `n`
/// keeps exactly those of block `k`, in order.
proof fn lemma_filter_by_positions(flat: Seq<VtView>, k: BlockKey, n: int)
    requires
        0 <= n <= flat.len(),
        n <= usize::MAX,
    ensures
        key_positions(flat, k, n).map_values(|j: usize| flat[j as int])
            == flat.take(n).filter(|s: VtView| vt_key(s) == k),
    decreases n,
{
    let f = |s: VtView| vt_key(s) == k;
    if n == 0 {
        assert(flat.take(0) =~= Seq::<VtView>::empty());
        assert(key_positions(flat, k, 0).map_values(|j: usize| flat[j as int]) =~= Seq::<VtView>::empty());
        reveal(Seq::filter);
        assert(Seq::<VtView>::empty().filter(f) =~= Seq::<VtView>::empty());
    } else {
        lemma_filter_by_positions(flat, k, n - 1);
        let t = flat.take(n);
        assert(t.drop_last() =~= flat.take(n - 1));
        assert(t.last() == flat[n - 1]);
        reveal(Seq::filter);
        assert(t.filter(f) == if f(t.last()) { t.drop_last().filter(f).push(t.last()) } else { t.drop_last().filter(f) });
        let r0 = key_positions(flat, k, n - 1);
        if vt_key(flat[n - 1]) == k {
            assert(key_positions(flat, k, n).map_values(|j: usize| flat[j as int])
                =~= r0.map_values(|j: usize| flat[j as int]).push(flat[n - 1]));
        }
    }
}

} // verus!
