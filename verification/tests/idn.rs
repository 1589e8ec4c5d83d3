use autosilica::idn::parse_idn;

#[test]
fn parses_standard_idn_response() {
    let fields = parse_idn("Keysight Technologies,DSOX3024A,MY123456,02.41\n");
    assert_eq!(fields.vendor, "Keysight Technologies");
    assert_eq!(fields.model, "DSOX3024A");
    assert_eq!(fields.serial, "MY123456");
    assert_eq!(fields.firmware, "02.41");
}

#[test]
fn pads_missing_fields_with_unknown() {
    let fields = parse_idn("OnlyVendor");
    assert_eq!(fields.vendor, "OnlyVendor");
    assert_eq!(fields.model, "UNKNOWN");
    assert_eq!(fields.serial, "UNKNOWN");
    assert_eq!(fields.firmware, "UNKNOWN");
}

#[test]
fn joins_trailing_fields_into_firmware() {
    let fields = parse_idn("Acme,Model1,SN1,1.0,OPT01,OPT02");
    assert_eq!(fields.firmware, "1.0,OPT01,OPT02");
}

#[test]
fn trims_whitespace_around_every_field() {
    let fields = parse_idn("  Rigol , DS1054Z ,\tDS1ZA1234 , 00.04.04 \r\n");
    assert_eq!(fields.vendor, "Rigol");
    assert_eq!(fields.model, "DS1054Z");
    assert_eq!(fields.serial, "DS1ZA1234");
    assert_eq!(fields.firmware, "00.04.04");
}

#[test]
fn empty_fields_read_unknown() {
    let fields = parse_idn("Vendor,,  ,");
    assert_eq!(fields.vendor, "Vendor");
    assert_eq!(fields.model, "UNKNOWN");
    assert_eq!(fields.serial, "UNKNOWN");
    assert_eq!(fields.firmware, "UNKNOWN");
}

#[test]
fn empty_reply_reads_unknown_everywhere() {
    let fields = parse_idn("   ");
    assert_eq!(fields.vendor, "UNKNOWN");
    assert_eq!(fields.model, "UNKNOWN");
    assert_eq!(fields.serial, "UNKNOWN");
    assert_eq!(fields.firmware, "UNKNOWN");
}

#[test]
fn trailing_pieces_are_trimmed_and_keep_empty_ones() {
    let fields = parse_idn("A,B,C,1.0 , ,OPT");
    assert_eq!(fields.firmware, "1.0,,OPT");
}

#[test]
fn five_pieces_join_even_when_all_empty() {
    let fields = parse_idn("A,B,C,,");
    assert_eq!(fields.firmware, ",");
}

#[test]
fn unicode_whitespace_is_trimmed() {
    let fields = parse_idn("\u{2003}Acme\u{00A0},M,S,F\u{3000}");
    assert_eq!(fields.vendor, "Acme");
    assert_eq!(fields.firmware, "F");
}

#[test]
fn fields_hold_no_comma_and_trim_to_themselves() {
    for raw in ["  Rigol , DS1054Z ,\tSN , 00.04 \r\n", "A,B,C,,", "x, ,y", ",,,,, ,"] {
        let f = parse_idn(raw);
        for field in [&f.vendor, &f.model, &f.serial] {
            assert!(!field.contains(','));
            assert_eq!(field.trim(), field.as_str());
        }
        assert_eq!(f.firmware.trim(), f.firmware.as_str());
    }
    assert_eq!(parse_idn("A,B,C,,").firmware, ",");
}
