use autosilica::dto::{InstrumentResponse, RegisterInstrumentRequest};
use autosilica::errors::{ApplicationError, DomainError};
use autosilica::instrument::{Instrument, InstrumentId, InstrumentStatus};
use autosilica::repository::{InMemoryInstrumentRepository, InstrumentRepository};
use autosilica::use_cases::{GetInstrumentUseCase, ListInstrumentsUseCase, RegisterInstrumentUseCase};

fn request(name: &str, model: &str) -> RegisterInstrumentRequest {
    RegisterInstrumentRequest { name: name.to_string(), model: model.to_string() }
}

#[test]
fn id_text_is_hyphenated_lowercase_hex() {
    let id = InstrumentId(0xa1a2a3a4b1b2c1c2d1d2d3d4d5d6d7d8);
    assert_eq!(id.to_string(), "a1a2a3a4-b1b2-c1c2-d1d2-d3d4d5d6d7d8");
    assert_eq!(InstrumentId(0).to_string(), "00000000-0000-0000-0000-000000000000");
}

#[test]
fn id_text_reads_back() {
    let id = InstrumentId::new();
    assert_eq!(InstrumentId::parse(&id.to_string()), Some(id));
    assert_eq!(
        InstrumentId::parse("A1A2A3A4B1B2C1C2D1D2D3D4D5D6D7D8"),
        Some(InstrumentId(0xa1a2a3a4b1b2c1c2d1d2d3d4d5d6d7d8))
    );
}

#[test]
fn invalid_id_text_is_refused() {
    assert_eq!(InstrumentId::parse("not-a-uuid"), None);
    assert_eq!(InstrumentId::parse(""), None);
}

#[test]
fn new_ids_are_random_version_four() {
    let a = InstrumentId::new();
    let b = InstrumentId::default();
    assert_ne!(a, b);
    assert_eq!((a.0 >> 76) & 0xF, 4);
    assert_eq!((a.0 >> 62) & 0x3, 2);
    assert_eq!(&a.to_string()[14..15], "4");
}

#[test]
fn new_instrument_is_registered() {
    let i = Instrument::new("Scope".to_string(), "DSOX".to_string());
    assert_eq!(i.name, "Scope");
    assert_eq!(i.model, "DSOX");
    assert_eq!(i.status, InstrumentStatus::Registered);
}

#[test]
fn saved_instrument_is_read_back() {
    let mut repo = InMemoryInstrumentRepository::new();
    let i = Instrument::new("Scope".to_string(), "DSOX".to_string());
    let id = i.id;
    let saved = repo.save(i.clone()).unwrap();
    assert_eq!(saved.id, id);
    let got = repo.get(id).unwrap();
    assert_eq!(got.id, id);
    assert_eq!(got.name, "Scope");
    assert_eq!(got.created_at, i.created_at);
}

#[test]
fn missing_instrument_is_not_found_with_its_id() {
    let repo = InMemoryInstrumentRepository::new();
    let id = InstrumentId(0x0123456789abcdef0123456789abcdef);
    match repo.get(id) {
        Err(DomainError::NotFound(s)) => assert_eq!(s, "01234567-89ab-cdef-0123-456789abcdef"),
        other => panic!("unexpected {:?}", other),
    }
}

#[test]
fn list_holds_every_record_once() {
    let mut repo = InMemoryInstrumentRepository::new();
    assert!(repo.list().unwrap().is_empty());
    let a = Instrument::new("A".to_string(), "m".to_string());
    let b = Instrument::new("B".to_string(), "m".to_string());
    repo.save(a.clone()).unwrap();
    repo.save(b.clone()).unwrap();
    let mut renamed = a.clone();
    renamed.name = "A2".to_string();
    repo.save(renamed).unwrap();
    let mut names: Vec<String> = repo.list().unwrap().into_iter().map(|i| i.name).collect();
    names.sort();
    assert_eq!(names, vec!["A2".to_string(), "B".to_string()]);
}

#[test]
fn register_then_get_returns_the_same_instrument() {
    let mut repo = InMemoryInstrumentRepository::new();
    let registered = RegisterInstrumentUseCase::new()
        .execute(&mut repo, request("Bench DMM", "34465A"))
        .unwrap();
    assert_eq!(registered.name, "Bench DMM");
    assert_eq!(registered.model, "34465A");
    assert_eq!(registered.status, "registered");
    let fetched = GetInstrumentUseCase::new().execute(&repo, &registered.id).unwrap();
    assert_eq!(fetched, registered);
    let listed = ListInstrumentsUseCase::new().execute(&repo).unwrap();
    assert_eq!(listed, vec![registered]);
}

#[test]
fn blank_name_is_refused_and_nothing_is_stored() {
    let mut repo = InMemoryInstrumentRepository::new();
    let r = RegisterInstrumentUseCase::new().execute(&mut repo, request(" \t ", "m"));
    assert_eq!(r, Err(ApplicationError::InvalidInput("name must not be empty".to_string())));
    assert!(repo.list().unwrap().is_empty());
}

#[test]
fn get_with_invalid_id_is_invalid_input() {
    let repo = InMemoryInstrumentRepository::new();
    let r = GetInstrumentUseCase::new().execute(&repo, "12345");
    assert_eq!(r, Err(ApplicationError::InvalidInput("invalid instrument id".to_string())));
}

#[test]
fn get_of_unknown_id_is_not_found() {
    let repo = InMemoryInstrumentRepository::new();
    let r = GetInstrumentUseCase::new().execute(&repo, "67e55044-10b1-426f-9247-bb680e5fe0c8");
    assert_eq!(
        r,
        Err(ApplicationError::Domain(DomainError::NotFound(
            "67e55044-10b1-426f-9247-bb680e5fe0c8".to_string()
        )))
    );
}

#[test]
fn instrument_response_names_status() {
    for (status, text) in [
        (InstrumentStatus::Registered, "registered"),
        (InstrumentStatus::Online, "online"),
        (InstrumentStatus::Offline, "offline"),
        (InstrumentStatus::Maintenance, "maintenance"),
    ] {
        let mut i = Instrument::new("n".to_string(), "m".to_string());
        i.status = status;
        i.id = InstrumentId(1);
        let r = InstrumentResponse::from(i);
        assert_eq!(r.status, text);
        assert_eq!(r.id, "00000000-0000-0000-0000-000000000001");
    }
}
