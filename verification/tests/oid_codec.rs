use kairowiki::oid::Oid;

#[test]
fn roundtrip_oid() {
    let oid = Oid::parse("3fc1961eb2ce860a1c05b4cd6a36ca9521127e78").unwrap();
    let serialized = oid.as_str().to_string();
    let deserialized = Oid::parse(&serialized).unwrap();
    assert_eq!(oid.as_str(), deserialized.as_str());
}

#[test]
fn oid_rejects_bad_strings() {
    assert!(Oid::parse("").is_err());
    assert!(Oid::parse("3fc1961eb2ce860a1c05b4cd6a36ca9521127e7").is_err());
    assert!(Oid::parse("3fc1961eb2ce860a1c05b4cd6a36ca9521127e788").is_err());
    assert!(Oid::parse("3FC1961EB2CE860A1C05B4CD6A36CA9521127E78").is_err());
    assert!(Oid::parse("zfc1961eb2ce860a1c05b4cd6a36ca9521127e78").is_err());
}
