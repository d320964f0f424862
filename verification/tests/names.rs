use trej::model::ports::{
    category_of_folded, port_category_of, str_contains, PortCategory, PortFullname,
    CLIENT_NAME_MAX, PORT_NAME_MAX,
};
use trej::NameError;

#[test]
fn parse_keeps_segments() {
    let name1 = PortFullname::new("client1:port1:port3".to_owned()).unwrap();
    assert_eq!(name1.client_name(), "client1");
    assert_eq!(name1.port_shortname(), "port1:port3");
    let name2 = PortFullname::new("client2:port1:port3".to_owned()).unwrap();
    assert_eq!(name2.client_name(), "client2");
    assert_eq!(name2.port_shortname(), "port1:port3");
}

#[test]
fn parse_rejoins_to_original() {
    let raw = "system:capture_1";
    let name = PortFullname::new(raw.to_owned()).unwrap();
    let rejoined = format!("{}:{}", name.client_name(), name.port_shortname());
    assert_eq!(rejoined, raw);
    assert_eq!(name.as_str(), raw);
}

#[test]
fn parse_rejects_missing_colon() {
    let err = PortFullname::new("no_separator_here".to_owned()).unwrap_err();
    assert_eq!(err, NameError::InvalidFullname);
}

#[test]
fn parse_rejects_overlong_name() {
    let raw: String = std::iter::repeat('a')
        .take(PORT_NAME_MAX)
        .collect::<String>()
        + ":x";
    assert!(raw.len() > PORT_NAME_MAX);
    let err = PortFullname::new(raw).unwrap_err();
    assert_eq!(err, NameError::PortnameTooLong);
}

#[test]
fn parse_rejects_overlong_client() {
    let client: String = std::iter::repeat('c').take(CLIENT_NAME_MAX).collect();
    let raw = format!("{}:p", client);
    assert!(raw.len() <= PORT_NAME_MAX);
    let err = PortFullname::new(raw).unwrap_err();
    assert_eq!(err, NameError::ClientnameTooLong);
}

#[test]
fn parse_accepts_boundary_lengths() {
    let client: String = std::iter::repeat('c').take(CLIENT_NAME_MAX - 1).collect();
    let short: String =
        std::iter::repeat('p').take(PORT_NAME_MAX - CLIENT_NAME_MAX).collect();
    let raw = format!("{}:{}", client, short);
    assert_eq!(raw.len(), PORT_NAME_MAX);
    let name = PortFullname::new(raw).unwrap();
    assert_eq!(name.client_name(), client);
    assert_eq!(name.port_shortname(), short);
}

#[test]
fn lexicographic_order() {
    let a = PortFullname::new("alpha:out".to_owned()).unwrap();
    let b = PortFullname::new("beta:in".to_owned()).unwrap();
    assert!(a.lt(&b));
    assert!(!b.lt(&a));
    assert!(!a.lt(&a));
}

#[test]
fn categorizes_port_types() {
    // Folding is part of the classification: the raw strings are mixed
    // case.
    assert_eq!(port_category_of("8 Bit Raw MIDI"), PortCategory::Midi);
    assert_eq!(
        port_category_of("32 Bit Float Mono Audio"),
        PortCategory::Audio
    );
    assert_eq!(port_category_of("video frames"), PortCategory::Unknown);
    // MIDI wins over audio when a type names both.
    assert_eq!(category_of_folded("audio midi hybrid"), PortCategory::Midi);
    assert!(str_contains("32 bit float mono audio", "audio"));
    assert!(!str_contains("audi", "audio"));
    assert!(str_contains("anything", ""));
}
