use autosilica::discovery::{assemble_discovered, generate_id, normalize_resources};
use autosilica::dto::DiscoveredInstrumentResponse;

#[test]
fn id_is_lowercase_slug_with_padded_position() {
    assert_eq!(generate_id(0, "DSOX3024A"), "dsox3024a-01");
    assert_eq!(generate_id(11, "DSOX3024A"), "dsox3024a-12");
}

#[test]
fn id_replaces_other_characters_with_hyphens_and_trims_them() {
    assert_eq!(generate_id(2, "--E5071C Network/Analyzer--"), "e5071c-network-analyzer-03");
    assert_eq!(generate_id(0, "Ünit"), "nit-01");
}

#[test]
fn id_falls_back_to_instrument_without_slug() {
    assert_eq!(generate_id(0, ""), "instrument-01");
    assert_eq!(generate_id(4, "???"), "instrument-05");
    assert_eq!(generate_id(99, "UNKNOWN"), "unknown-100");
}

#[test]
fn resources_are_sorted_and_deduplicated() {
    let input = vec![
        "USB0::1::INSTR".to_string(),
        "GPIB0::5::INSTR".to_string(),
        "TCPIP0::10.0.0.2::INSTR".to_string(),
        "GPIB0::5::INSTR".to_string(),
        "ASRL1::INSTR".to_string(),
    ];
    let out = normalize_resources(input);
    assert_eq!(
        out,
        vec![
            "ASRL1::INSTR".to_string(),
            "GPIB0::5::INSTR".to_string(),
            "TCPIP0::10.0.0.2::INSTR".to_string(),
            "USB0::1::INSTR".to_string(),
        ]
    );
}

#[test]
fn resources_order_by_code_point() {
    let out = normalize_resources(vec!["b".to_string(), "B".to_string(), "ab".to_string(), "a".to_string()]);
    assert_eq!(out, vec!["B".to_string(), "a".to_string(), "ab".to_string(), "b".to_string()]);
}

#[test]
fn assembly_skips_silent_resources_and_keeps_positions() {
    let resources = vec![
        "GPIB0::5::INSTR".to_string(),
        "TCPIP0::192.168.1.100::INSTR".to_string(),
        "USB0::1::INSTR".to_string(),
    ];
    let replies = vec![
        None,
        Some("Keysight Technologies,DSOX3024A,MY123456,02.41".to_string()),
        Some("Acme".to_string()),
    ];
    let found = assemble_discovered(resources, replies);
    assert_eq!(found.len(), 2);
    assert_eq!(found[0].id, "dsox3024a-02");
    assert_eq!(found[0].resource, "TCPIP0::192.168.1.100::INSTR");
    assert_eq!(found[0].vendor, "Keysight Technologies");
    assert_eq!(found[0].model, "DSOX3024A");
    assert_eq!(found[0].serial, "MY123456");
    assert_eq!(found[0].firmware, "02.41");
    assert_eq!(found[1].id, "unknown-03");
    assert_eq!(found[1].vendor, "Acme");
    assert_eq!(found[1].model, "UNKNOWN");
}

#[test]
fn discovered_response_copies_every_field() {
    let found = assemble_discovered(
        vec!["TCPIP0::1.2.3.4::INSTR".to_string()],
        vec![Some("V,M,S,F".to_string())],
    );
    let response = DiscoveredInstrumentResponse::from(found.into_iter().next().unwrap());
    assert_eq!(
        response,
        DiscoveredInstrumentResponse {
            id: "m-01".to_string(),
            resource: "TCPIP0::1.2.3.4::INSTR".to_string(),
            vendor: "V".to_string(),
            model: "M".to_string(),
            serial: "S".to_string(),
            firmware: "F".to_string(),
        }
    );
}

#[test]
fn generated_ids_differ_between_positions() {
    let a = generate_id(0, "x-02");
    let b = generate_id(1, "x");
    assert_eq!(a, "x-02-01");
    assert_eq!(b, "x-02");
    assert_ne!(a, b);
}

#[test]
fn normalization_ignores_the_order_found() {
    let a = normalize_resources(vec!["USB0::1".to_string(), "ASRL1".to_string(), "GPIB0::5".to_string()]);
    let b = normalize_resources(vec![
        "GPIB0::5".to_string(),
        "USB0::1".to_string(),
        "ASRL1".to_string(),
        "USB0::1".to_string(),
    ]);
    assert_eq!(a, b);
}

#[test]
fn assembled_ids_are_distinct_for_same_model() {
    let resources: Vec<String> = (0..12).map(|i| format!("TCPIP0::10.0.0.{i}::INSTR")).collect();
    let replies: Vec<Option<String>> = (0..12).map(|_| Some("Acme,Model-1,SN,1.0".to_string())).collect();
    let found = assemble_discovered(resources, replies);
    let mut ids: Vec<String> = found.iter().map(|d| d.id.clone()).collect();
    assert_eq!(ids[0], "model-1-01");
    assert_eq!(ids[11], "model-1-12");
    ids.sort();
    ids.dedup();
    assert_eq!(ids.len(), 12);
}

#[test]
fn generated_ids_use_slug_characters_only() {
    for (i, model) in ["DSOX3024A", "--E5071C Network/Analyzer--", "", "Ünit", "a_b.c"].iter().enumerate() {
        let id = generate_id(i, model);
        assert!(id.chars().all(|c| c.is_ascii_lowercase() || c.is_ascii_digit() || c == '-'));
        assert!(!id.starts_with('-') && !id.ends_with('-'));
    }
    assert_eq!(generate_id(4, "a_b.c"), "a-b-c-05");
}

#[test]
fn each_resource_is_reported_once() {
    let resources = normalize_resources(vec![
        "USB0::1::INSTR".to_string(),
        "GPIB0::5::INSTR".to_string(),
        "USB0::1::INSTR".to_string(),
    ]);
    let replies = vec![Some("A,M,S,F".to_string()); resources.len()];
    let found = assemble_discovered(resources, replies);
    assert_eq!(found.len(), 2);
    assert_ne!(found[0].resource, found[1].resource);
}
