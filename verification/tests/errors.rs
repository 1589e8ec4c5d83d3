use autosilica::api_error::{ApiError, ErrorResponse};
use autosilica::errors::{ApplicationError, DomainError, InfrastructureError};
use autosilica::settings::ServerSettings;
use autosilica::visa::{check_status, find_outcome, resource_patterns, VisaSessionError};

#[test]
fn domain_messages() {
    assert_eq!(DomainError::NotFound("x".to_string()).message(), "entity not found: x");
    assert_eq!(DomainError::Validation("bad".to_string()).message(), "validation error: bad");
    assert_eq!(DomainError::Conflict("dup".to_string()).message(), "conflict: dup");
}

#[test]
fn application_messages_keep_domain_text() {
    assert_eq!(
        ApplicationError::Domain(DomainError::NotFound("x".to_string())).message(),
        "entity not found: x"
    );
    assert_eq!(ApplicationError::InvalidInput("y".to_string()).message(), "invalid input: y");
    assert_eq!(ApplicationError::Unexpected("z".to_string()).message(), "unexpected error: z");
    let e: ApplicationError = DomainError::Conflict("c".to_string()).into();
    assert_eq!(e, ApplicationError::Domain(DomainError::Conflict("c".to_string())));
}

#[test]
fn api_error_status_codes() {
    let code = |e| ApiError::from(e).status_code();
    assert_eq!(code(ApplicationError::Domain(DomainError::NotFound(String::new()))), 404);
    assert_eq!(code(ApplicationError::Domain(DomainError::Validation(String::new()))), 400);
    assert_eq!(code(ApplicationError::Domain(DomainError::Conflict(String::new()))), 409);
    assert_eq!(code(ApplicationError::InvalidInput(String::new())), 400);
    assert_eq!(code(ApplicationError::Unexpected(String::new())), 500);
}

#[test]
fn api_error_body_carries_message() {
    let e = ApiError::from(ApplicationError::InvalidInput("name must not be empty".to_string()));
    assert_eq!(e.body(), ErrorResponse { error: "invalid input: name must not be empty".to_string() });
}

#[test]
fn infrastructure_messages() {
    assert_eq!(InfrastructureError::Config("missing".to_string()).message(), "configuration error: missing");
    assert_eq!(InfrastructureError::Io("denied".to_string()).message(), "io error: denied");
}

#[test]
fn visa_call_error_message() {
    assert_eq!(
        VisaSessionError::Call("viOpen", -1073807343).message(),
        "VISA call `viOpen` failed with status -1073807343"
    );
    assert_eq!(VisaSessionError::Call("viRead", 7).message(), "VISA call `viRead` failed with status 7");
    assert_eq!(
        VisaSessionError::Call("viWrite", i32::MIN).message(),
        "VISA call `viWrite` failed with status -2147483648"
    );
    assert_eq!(
        VisaSessionError::InvalidResourceString.message(),
        "resource string contained an interior NUL byte"
    );
}

#[test]
fn visa_status_checks() {
    assert_eq!(check_status("viOpen", 0), Ok(()));
    assert_eq!(check_status("viOpen", 1073676294), Ok(()));
    assert_eq!(check_status("viOpen", -1), Err(VisaSessionError::Call("viOpen", -1)));
    assert_eq!(find_outcome(-1073807343), Ok(false));
    assert_eq!(find_outcome(0), Ok(true));
    assert_eq!(find_outcome(-5), Err(VisaSessionError::Call("viFindRsrc", -5)));
}

#[test]
fn discovery_patterns_cover_four_interfaces() {
    assert_eq!(
        resource_patterns(),
        vec![("USB", "USB?*INSTR"), ("LAN", "TCPIP?*INSTR"), ("GPIB", "GPIB?*INSTR"), ("Serial", "ASRL?*INSTR")]
    );
}

#[test]
fn bind_address_joins_host_and_port() {
    let s = ServerSettings { host: "0.0.0.0".to_string(), port: 8080 };
    assert_eq!(s.bind_address(), "0.0.0.0:8080");
    let s = ServerSettings { host: "localhost".to_string(), port: 0 };
    assert_eq!(s.bind_address(), "localhost:0");
}

#[test]
fn reply_is_decoded_up_to_the_read_count_and_trimmed() {
    let mut buffer = [0u8; 32];
    let reply = b"  Acme,M1,SN,1.0\r\n";
    buffer[..reply.len()].copy_from_slice(reply);
    buffer[reply.len()] = b'X';
    assert_eq!(autosilica::visa::decode_reply(&buffer, reply.len()), "Acme,M1,SN,1.0");
    assert_eq!(autosilica::visa::decode_reply(&buffer, 0), "");
}

#[test]
fn invalid_utf8_in_reply_becomes_replacement_character() {
    let buffer = [b'A', 0xFF, b'B', b'\n'];
    assert_eq!(autosilica::visa::decode_reply(&buffer, 4), "A\u{FFFD}B");
}
