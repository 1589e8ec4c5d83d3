use autosilica::connection::{Connection, ConnectionManagerPort, ConnectionState};
use autosilica::discovery::{DiscoveredInstrument, InstrumentDiscoveryPort};
use autosilica::dto::ConnectionResponse;
use autosilica::errors::{ApplicationError, DomainError};
use autosilica::pool::ConnectionPool;
use autosilica::use_cases::{
    ConnectInstrumentUseCase, DisconnectInstrumentUseCase, DiscoverInstrumentsUseCase,
    ListConnectionsUseCase,
};

#[test]
fn connected_record_is_reused() {
    let mut pool = ConnectionPool::new();
    assert!(pool.reusable("TCPIP0::1::INSTR").is_none());
    let (c, _) = pool.record_connected("TCPIP0::1::INSTR", 7);
    assert_eq!(c.state, ConnectionState::Connected);
    assert_eq!(c.retry_count, 0);
    assert!(c.connected_at.is_some());
    assert_eq!(c.connected_at, c.last_heartbeat_at);
    let again = pool.reusable("TCPIP0::1::INSTR").unwrap();
    assert_eq!(again.resource, "TCPIP0::1::INSTR");
    assert_eq!(again.connected_at, c.connected_at);
    assert_eq!(pool.lookup("TCPIP0::1::INSTR").unwrap().session, Some(7));
}

#[test]
fn failed_connects_count_retries() {
    let mut pool = ConnectionPool::new();
    let (first, _) = pool.record_connect_failure("GPIB0::3::INSTR", "viOpen failed with status -1".to_string());
    assert_eq!(first.state, ConnectionState::Error);
    assert_eq!(first.retry_count, 1);
    assert_eq!(first.last_error.as_deref(), Some("viOpen failed with status -1"));
    assert!(first.connected_at.is_none());
    let (second, _) = pool.record_connect_failure("GPIB0::3::INSTR", "again".to_string());
    assert_eq!(second.retry_count, 2);
    assert!(pool.reusable("GPIB0::3::INSTR").is_none());
    let (ok, _) = pool.record_connected("GPIB0::3::INSTR", 9);
    assert_eq!(ok.retry_count, 0);
    assert_eq!(ok.last_error, None);
}

#[test]
fn disconnect_of_untracked_resource_is_not_found() {
    let mut pool = ConnectionPool::new();
    match pool.disconnect("USB0::1::INSTR") {
        Err(DomainError::NotFound(r)) => assert_eq!(r, "USB0::1::INSTR"),
        other => panic!("unexpected {:?}", other),
    }
}

#[test]
fn disconnect_hands_back_session_and_resets_record() {
    let mut pool = ConnectionPool::new();
    pool.record_connected("USB0::1::INSTR", 42);
    let (c, session) = pool.disconnect("USB0::1::INSTR").unwrap();
    assert_eq!(session, Some(42));
    assert_eq!(c.state, ConnectionState::Disconnected);
    assert!(c.connected_at.is_none());
    assert!(c.last_heartbeat_at.is_some());
    assert_eq!(c.retry_count, 0);
    assert!(pool.reusable("USB0::1::INSTR").is_none());
    let (_, session) = pool.disconnect("USB0::1::INSTR").unwrap();
    assert_eq!(session, None);
}

#[test]
fn list_is_ordered_by_resource() {
    let mut pool = ConnectionPool::new();
    pool.record_connected("USB0::1::INSTR", 1);
    pool.record_connect_failure("ASRL1::INSTR", "x".to_string());
    pool.record_connected("GPIB0::5::INSTR", 2);
    pool.record_connected("USB0::1::INSTR", 3);
    let listed: Vec<String> = pool.list().into_iter().map(|c| c.resource).collect();
    assert_eq!(listed, vec!["ASRL1::INSTR", "GPIB0::5::INSTR", "USB0::1::INSTR"]);
}

#[test]
fn heartbeat_cycle() {
    let mut pool = ConnectionPool::new();
    pool.record_connected("A", 1);
    pool.record_connected("B", 2);
    pool.disconnect("B").unwrap();
    pool.record_connect_failure("C", "e".to_string());
    let (connected, reopen) = pool.heartbeat_targets();
    assert_eq!(connected, vec!["A".to_string()]);
    assert_eq!(reopen, vec!["B".to_string()]);

    assert_eq!(pool.begin_heartbeat("A"), Some(1));
    assert_eq!(pool.lookup("A").unwrap().connection.state, ConnectionState::Busy);
    assert_eq!(pool.begin_heartbeat("B"), None);
    pool.record_heartbeat_ok("A", 1);
    let a = pool.lookup("A").unwrap();
    assert_eq!(a.connection.state, ConnectionState::Connected);
    assert_eq!(a.session, Some(1));

    assert_eq!(pool.begin_reconnect("B"), Some(None));
    pool.record_reconnect_failure("B", "viOpen failed".to_string());
    let b = pool.lookup("B").unwrap();
    assert_eq!(b.connection.state, ConnectionState::Error);
    assert_eq!(b.connection.retry_count, 1);
    assert_eq!(b.connection.last_error.as_deref(), Some("viOpen failed"));
    assert_eq!(b.session, None);

    assert_eq!(pool.begin_reconnect("B"), Some(None));
    assert_eq!(pool.record_reconnected("B", 5), None);
    let b = pool.lookup("B").unwrap();
    assert_eq!(b.connection.state, ConnectionState::Connected);
    assert_eq!(b.connection.retry_count, 0);
    assert_eq!(b.session, Some(5));

    assert_eq!(pool.begin_reconnect("A"), Some(Some(1)));
    let a = pool.lookup("A").unwrap();
    assert_eq!(a.session, None);
    assert_eq!(a.connection.state, ConnectionState::Disconnected);
    assert_eq!(pool.begin_reconnect("Z"), None);
    pool.record_heartbeat_ok("Z", 9);
    assert!(pool.lookup("Z").is_none());
}

#[test]
fn heartbeat_does_not_undo_a_disconnect() {
    let mut pool = ConnectionPool::new();
    pool.record_connected("A", 7);
    assert_eq!(pool.begin_heartbeat("A"), Some(7));
    let (c, session) = pool.disconnect("A").unwrap();
    assert_eq!(session, Some(7));
    assert_eq!(c.state, ConnectionState::Disconnected);
    pool.record_heartbeat_ok("A", 7);
    let a = pool.lookup("A").unwrap();
    assert_eq!(a.connection.state, ConnectionState::Disconnected);
    assert_eq!(a.session, None);
}

#[test]
fn stale_heartbeat_on_another_session_changes_nothing() {
    let mut pool = ConnectionPool::new();
    pool.record_connected("A", 7);
    assert_eq!(pool.begin_heartbeat("A"), Some(7));
    pool.record_heartbeat_ok("A", 8);
    let a = pool.lookup("A").unwrap();
    assert_eq!(a.connection.state, ConnectionState::Busy);
    assert_eq!(a.session, Some(7));
}

#[test]
fn reconnect_failure_after_a_fresh_connect_changes_nothing() {
    let mut pool = ConnectionPool::new();
    pool.record_connected("A", 1);
    assert_eq!(pool.begin_reconnect("A"), Some(Some(1)));
    assert_eq!(pool.record_connected("A", 2).1, None);
    pool.record_reconnect_failure("A", "late".to_string());
    let a = pool.lookup("A").unwrap();
    assert_eq!(a.connection.state, ConnectionState::Connected);
    assert_eq!(a.session, Some(2));
    assert_eq!(a.connection.last_error, None);
}

#[test]
fn list_shows_the_record_connect_returned() {
    let mut pool = ConnectionPool::new();
    pool.record_connected("B", 1);
    let (c, _) = pool.record_connect_failure("A", "viOpen failed".to_string());
    let listed = pool.list();
    let same: Vec<&Connection> = listed.iter().filter(|e| e.resource == "A").collect();
    assert_eq!(same.len(), 1);
    assert_eq!(same[0].state, c.state);
    assert_eq!(same[0].retry_count, c.retry_count);
    assert_eq!(same[0].last_error, c.last_error);
    assert_eq!(same[0].connected_at, c.connected_at);
}

#[test]
fn connection_response_renders_times() {
    let mut pool = ConnectionPool::new();
    let (c, _) = pool.record_connected("A", 1);
    let t = c.connected_at.unwrap();
    let r = ConnectionResponse::from(c);
    let expected = chrono::DateTime::from_timestamp(t.secs(), t.subsec_nanos()).unwrap().to_rfc3339();
    assert_eq!(r.connected_at.as_deref(), Some(expected.as_str()));
    assert_eq!(r.last_heartbeat_at.as_deref(), Some(expected.as_str()));
    assert_eq!(r.state, "connected");
    let d = ConnectionResponse::from(Connection::disconnected("B".to_string()));
    assert_eq!(
        d,
        ConnectionResponse {
            resource: "B".to_string(),
            state: "disconnected".to_string(),
            connected_at: None,
            last_heartbeat_at: None,
            retry_count: 0,
            last_error: None,
        }
    );
}

#[test]
fn timestamps_come_from_the_clock() {
    let before = chrono::Utc::now().timestamp();
    let mut pool = ConnectionPool::new();
    let (c, _) = pool.record_connected("A", 1);
    let after = chrono::Utc::now().timestamp();
    let t = c.connected_at.unwrap();
    assert!(before <= t.secs() && t.secs() <= after);
    assert!(t.to_rfc3339().ends_with("+00:00"));
}

struct FakeManager {
    fail: bool,
}

impl ConnectionManagerPort for FakeManager {
    fn connect(&self, resource: &str) -> Result<Connection, DomainError> {
        if self.fail {
            Err(DomainError::Validation("no runtime".to_string()))
        } else {
            let mut c = Connection::disconnected(resource.to_string());
            c.state = ConnectionState::Error;
            c.retry_count = 1;
            c.last_error = Some("viOpen failed".to_string());
            Ok(c)
        }
    }

    fn disconnect(&self, resource: &str) -> Result<Connection, DomainError> {
        Err(DomainError::NotFound(resource.to_string()))
    }

    fn list(&self) -> Result<Vec<Connection>, DomainError> {
        Ok(vec![Connection::disconnected("X".to_string())])
    }
}

#[test]
fn blank_resource_is_refused() {
    let uc = ConnectInstrumentUseCase::new(FakeManager { fail: false });
    assert_eq!(
        uc.execute("   "),
        Err(ApplicationError::InvalidInput("resource must not be empty".to_string()))
    );
    let uc = DisconnectInstrumentUseCase::new(FakeManager { fail: false });
    assert_eq!(
        uc.execute(""),
        Err(ApplicationError::InvalidInput("resource must not be empty".to_string()))
    );
}

#[test]
fn connect_use_case_maps_record_and_errors() {
    let uc = ConnectInstrumentUseCase::new(FakeManager { fail: false });
    let r = uc.execute("TCPIP0::1::INSTR").unwrap();
    assert_eq!(r.state, "error");
    assert_eq!(r.retry_count, 1);
    assert_eq!(r.last_error.as_deref(), Some("viOpen failed"));
    let uc = ConnectInstrumentUseCase::new(FakeManager { fail: true });
    assert_eq!(
        uc.execute("TCPIP0::1::INSTR"),
        Err(ApplicationError::Domain(DomainError::Validation("no runtime".to_string())))
    );
}

#[test]
fn disconnect_and_list_use_cases() {
    let uc = DisconnectInstrumentUseCase::new(FakeManager { fail: false });
    assert_eq!(
        uc.execute("R"),
        Err(ApplicationError::Domain(DomainError::NotFound("R".to_string())))
    );
    let uc = ListConnectionsUseCase::new(FakeManager { fail: false });
    let listed = uc.execute().unwrap();
    assert_eq!(listed.len(), 1);
    assert_eq!(listed[0].resource, "X");
    assert_eq!(listed[0].state, "disconnected");
}

struct FakeDiscovery;

impl InstrumentDiscoveryPort for FakeDiscovery {
    fn discover(&self) -> Result<Vec<DiscoveredInstrument>, DomainError> {
        Ok(vec![DiscoveredInstrument {
            id: "dsox3024a-01".to_string(),
            resource: "TCPIP0::192.168.1.100::INSTR".to_string(),
            vendor: "Keysight Technologies".to_string(),
            model: "DSOX3024A".to_string(),
            serial: "MY123456".to_string(),
            firmware: "02.41".to_string(),
        }])
    }
}

#[test]
fn discover_use_case_maps_records() {
    let uc = DiscoverInstrumentsUseCase::new(FakeDiscovery);
    let found = uc.execute().unwrap();
    assert_eq!(found.len(), 1);
    assert_eq!(found[0].id, "dsox3024a-01");
    assert_eq!(found[0].firmware, "02.41");
}

#[test]
fn error_records_are_not_reopened_by_heartbeat() {
    let mut pool = ConnectionPool::new();
    pool.record_connect_failure("E", "viOpen failed".to_string());
    pool.record_connected("D", 1);
    pool.disconnect("D").unwrap();
    pool.record_connected("B", 2);
    pool.begin_heartbeat("B");
    let (connected, reopen) = pool.heartbeat_targets();
    assert!(connected.is_empty());
    assert_eq!(reopen, vec!["D".to_string()]);
}

#[test]
fn connect_over_a_busy_entry_hands_back_its_session() {
    let mut pool = ConnectionPool::new();
    pool.record_connected("A", 3);
    assert_eq!(pool.begin_heartbeat("A"), Some(3));
    let (c, replaced) = pool.record_connected("A", 4);
    assert_eq!(replaced, Some(3));
    assert_eq!(c.state, ConnectionState::Connected);
    assert_eq!(pool.lookup("A").unwrap().session, Some(4));
    assert_eq!(pool.begin_heartbeat("A"), Some(4));
    let (e, replaced) = pool.record_connect_failure("A", "viOpen failed".to_string());
    assert_eq!(replaced, Some(4));
    assert_eq!(e.state, ConnectionState::Error);
    assert_eq!(pool.lookup("A").unwrap().session, None);
}

#[test]
fn reopen_overtaken_hands_back_the_new_session() {
    let mut pool = ConnectionPool::new();
    pool.record_connected("A", 1);
    assert_eq!(pool.begin_reconnect("A"), Some(Some(1)));
    pool.record_connected("A", 2);
    assert_eq!(pool.record_reconnected("A", 3), Some(3));
    assert_eq!(pool.lookup("A").unwrap().session, Some(2));
    assert_eq!(pool.record_reconnected("Z", 4), Some(4));
    assert!(pool.lookup("Z").is_none());
}
