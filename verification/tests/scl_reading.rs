use scd_topology_checker::model::ServiceType;
use scd_topology_checker::{ParseError, SCDParser};

const SAMPLE: &str = r#"<?xml version="1.0" encoding="UTF-8"?>
<SCL>
  <Header id="demo" version="1.0"/>
  <Communication>
    <SubNetwork name="StationBus" type="8-MMS">
      <ConnectedAP iedName="PROT1" apName="G1"/>
      <ConnectedAP iedName="CB1" apName="G1"/>
    </SubNetwork>
  </Communication>
  <IED name="PROT1" type="P" manufacturer="ACME">
    <AccessPoint name="G1">
      <Server>
        <LDevice inst="PROT">
          <LN0 lnClass="LLN0" inst="">
            <GSEControl name="gcb1">
              <GSE MACAddress="01-0C-CD-01-00-01" AppID="0001" VLANID="100" VLANPriority="4"/>
            </GSEControl>
          </LN0>
        </LDevice>
      </Server>
    </AccessPoint>
  </IED>
  <IED name="CB1">
    <AccessPoint name="G1">
      <LDevice inst="CTRL">
        <LN lnClass="XCBR" inst="1">
          <Inputs>
            <ExtRef iedName="PROT1" apRef="G1" ldInst="PROT" cbName="gcb1" serviceType="GOOSE"/>
            <ExtRef iedName="MU1" apRef="M1" ldInst="MU" cbName="smv1" serviceType="SMV"/>
            <ExtRef iedName="MU1" apRef="M1" ldInst="MU"/>
          </Inputs>
        </LN>
      </LDevice>
    </AccessPoint>
  </IED>
</SCL>
"#;

#[test]
fn reads_header_ieds_and_subnetworks() {
    let m = SCDParser::parse_from_reader(SAMPLE.as_bytes()).unwrap();
    let h = m.header_info.as_ref().unwrap();
    assert_eq!(h.id.as_deref(), Some("demo"));
    assert_eq!(h.version.as_deref(), Some("1.0"));
    assert_eq!(m.ieds.len(), 2);
    assert_eq!(m.ieds[0].name, "PROT1");
    assert_eq!(m.ieds[0].ied_type.as_deref(), Some("P"));
    assert_eq!(m.ieds[0].manufacturer.as_deref(), Some("ACME"));
    assert_eq!(m.ieds[1].ied_type, None);
    assert_eq!(m.sub_networks.len(), 1);
    assert_eq!(m.sub_networks[0].name, "StationBus");
    assert_eq!(m.sub_networks[0].type_attr.as_deref(), Some("8-MMS"));
    assert_eq!(m.sub_networks[0].access_points, vec![
        ("PROT1".to_string(), "G1".to_string()),
        ("CB1".to_string(), "G1".to_string()),
    ]);
}

#[test]
fn reads_publications_and_subscriptions() {
    let m = SCDParser::parse_from_reader(SAMPLE.as_bytes()).unwrap();
    let prot = &m.ieds[0].access_points[0];
    assert_eq!(prot.name, "G1");
    assert_eq!(prot.ied_name, "PROT1");
    assert_eq!(prot.goose_pubs.len(), 1);
    let p = &prot.goose_pubs[0];
    assert_eq!(p.ied_name, "PROT1");
    assert_eq!(p.ap_name, "G1");
    assert_eq!(p.ld_inst, "PROT");
    assert_eq!(p.cb_name, "gcb1");
    assert_eq!(p.service_type, ServiceType::GOOSE);
    assert_eq!(p.mac_address.as_deref(), Some("01-0C-CD-01-00-01"));
    assert_eq!(p.app_id.as_deref(), Some("0001"));
    assert_eq!(p.vlan_id.as_deref(), Some("100"));
    assert_eq!(p.vlan_priority.as_deref(), Some("4"));
    let cb = &m.ieds[1].access_points[0];
    assert_eq!(cb.goose_subs.len(), 1);
    assert_eq!(cb.goose_subs[0].ied_name, "PROT1");
    assert_eq!(cb.goose_subs[0].cb_name, "gcb1");
    assert_eq!(cb.goose_subs[0].vlan_id, None);
    assert_eq!(cb.sv_subs.len(), 1);
    assert_eq!(cb.sv_subs[0].service_type, ServiceType::SV);
    assert_eq!(cb.sv_subs[0].cb_name, "smv1");
}

#[test]
fn pairs_publications_with_their_subscribers() {
    let m = SCDParser::parse_from_reader(SAMPLE.as_bytes()).unwrap();
    assert_eq!(m.goose_connections.len(), 1);
    let (p, subs) = &m.goose_connections[0];
    assert_eq!(p.cb_name, "gcb1");
    assert_eq!(p.ied_name, "PROT1");
    assert_eq!(subs.len(), 1);
    assert_eq!(subs[0].ied_name, "PROT1");
    assert!(m.sv_connections.is_empty());
}

#[test]
fn bad_reference_in_a_read_value_is_an_error() {
    let r = SCDParser::parse_from_reader(br#"<SCL><IED name="A&bogus;"/></SCL>"#);
    assert_eq!(r.err(), Some(ParseError::InvalidAttributeValue));
}

#[test]
fn unread_value_is_not_checked() {
    let xml = br#"<SCL><IED name="A"><AccessPoint name="G1" desc="x&bogus;"/></IED></SCL>"#;
    let m = SCDParser::parse_from_reader(xml).unwrap();
    assert_eq!(m.ieds[0].access_points[0].name, "G1");
}

#[test]
fn access_point_outside_an_ied_is_ignored() {
    let xml = br#"<SCL><AccessPoint name="G1"/><IED name="A"/></SCL>"#;
    let m = SCDParser::parse_from_reader(xml).unwrap();
    assert_eq!(m.ieds.len(), 1);
    assert!(m.ieds[0].access_points.is_empty());
}

#[test]
fn malformed_xml_stops_reading() {
    let xml = br#"<SCL><IED name="A"></SCL><IED name="B"/>"#;
    let m = SCDParser::parse_from_reader(xml).unwrap();
    assert_eq!(m.ieds.len(), 1);
    assert_eq!(m.ieds[0].name, "A");
}

#[test]
fn empty_input_gives_an_empty_model() {
    let m = SCDParser::parse_from_reader(b"").unwrap();
    assert!(m.ieds.is_empty());
    assert!(m.sub_networks.is_empty());
    assert!(m.header_info.is_none());
}

#[test]
fn escaped_values_are_unescaped() {
    let m = SCDParser::parse_from_reader(br#"<SCL><IED name="A&amp;B"/></SCL>"#).unwrap();
    assert_eq!(m.ieds[0].name, "A&B");
}

#[test]
fn repeated_attribute_is_dropped() {
    let xml = br#"<SCL><SubNetwork name="N1"><ConnectedAP iedName="A" apName="P" apName="Q"/></SubNetwork></SCL>"#;
    let m = SCDParser::parse_from_reader(xml).unwrap();
    assert_eq!(m.sub_networks[0].access_points, vec![("A".to_string(), "P".to_string())]);
}

#[test]
fn reader_failure_keeps_its_position_and_text() {
    let xml = br#"<SCL><IED name="A"></SCL><IED name="B"/>"#;
    let events = scd_topology_checker::parser::read_events(xml);
    let last = events.last().unwrap();
    assert_eq!(last.kind, scd_topology_checker::xml::EventKind::Failed);
    let (pos, msg) = last.failure.clone().unwrap();
    assert!(pos > 0 && pos as usize <= xml.len());
    assert!(msg.contains("`</IED>`") && msg.contains("`</SCL>`"));
    assert!(events[..events.len() - 1].iter().all(|e| e.failure.is_none()));
    let m = SCDParser::parse_events(&events).unwrap();
    assert_eq!(m.ieds.len(), 1);
}

#[test]
fn well_formed_input_has_no_reader_failure() {
    let events = scd_topology_checker::parser::read_events(SAMPLE.as_bytes());
    assert!(events.iter().all(|e| e.failure.is_none()));
    assert_eq!(events.last().unwrap().kind, scd_topology_checker::xml::EventKind::Eof);
}
