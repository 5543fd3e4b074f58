use rgb_consignment::cli::Format;

#[test]
fn format_names_parse() {
    assert_eq!(Format::from_str("yaml"), Ok(Format::Yaml));
    assert_eq!(Format::from_str("  JSON "), Ok(Format::Json));
    assert_eq!(Format::from_str("Hex"), Ok(Format::Hexadecimal));
    assert_eq!(Format::from_str("bin"), Ok(Format::Binary));
    assert_eq!(Format::from_str("raw"), Ok(Format::Binary));
    assert_eq!(Format::from_str("binary"), Ok(Format::Binary));
    assert_eq!(Format::from_str("rust"), Ok(Format::Rust));
    assert_eq!(Format::from_str("debug"), Ok(Format::Debug));
    assert_eq!(Format::from_str("bech32"), Ok(Format::Bech32));
    assert_eq!(Format::from_str("commitment"), Ok(Format::Commitment));
}

#[test]
fn unknown_format_is_reported_normalized() {
    assert_eq!(Format::from_str(" XML "), Err("Unknown format: xml".to_string()));
    assert_eq!(Format::from_str("xml"), Err("Unknown format: xml".to_string()));
}
