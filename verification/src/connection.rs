//! Pooled connections to VISA resources: their records, states and port.
use vstd::prelude::*;
use crate::clock::Timestamp;
use crate::errors::DomainError;

verus! {

/// Lifecycle state of a pooled connection.
#[derive(Clone, Copy, Debug, PartialEq, Eq, Structural)]
pub enum ConnectionState {
    /// A live, idle session is open and ready for use.
    Connected,
    /// No session is currently open for this resource.
    Disconnected,
    /// A session is open but momentarily occupied (a heartbeat or a
    /// command is in flight).
    Busy,
    /// The most recent connect/reconnect attempt failed.
    Error,
}

/// Point-in-time record of a pooled connection to a VISA resource.
#[derive(Debug)]
pub struct Connection {
    pub resource: String,
    pub state: ConnectionState,
    pub connected_at: Option<Timestamp>,
    pub last_heartbeat_at: Option<Timestamp>,
    pub retry_count: u32,
    pub last_error: Option<String>,
}

impl Clone for Connection {
    fn clone(&self) -> (r: Self)
        ensures
            r == *self,
    {
        Connection {
            resource: self.resource.clone(),
            state: self.state,
            connected_at: self.connected_at,
            last_heartbeat_at: self.last_heartbeat_at,
            retry_count: self.retry_count,
            last_error: match &self.last_error {
                Some(e) => Some(e.clone()),
                None => None,
            },
        }
    }
}

impl Connection {
    /// A fresh, never-connected record for `resource`.
    pub fn disconnected(resource: String) -> (r: Self)
        ensures
            r.resource@ == resource@,
            r.state == ConnectionState::Disconnected,
            r.connected_at is None,
            r.last_heartbeat_at is None,
            r.retry_count == 0,
            r.last_error is None,
    {
        Connection {
            resource,
            state: ConnectionState::Disconnected,
            connected_at: None,
            last_heartbeat_at: None,
            retry_count: 0,
            last_error: None,
        }
    }
}

/// Port for the instrument connection pool, implemented by an adapter
/// that holds real, persistent sessions and reuses them across calls.
///
/// Each method's outcome is named by a relation that a verified adapter
/// defines: `connect_outcome(resource, r)` holds of what `connect` may
/// return for `resource`, and likewise for `disconnect` and `list`. An
/// adapter that does not define them promises nothing more than `true`.
pub trait ConnectionManagerPort {
    /// What `connect` may return for `resource`.
    open spec fn connect_outcome(&self, resource: Seq<char>, r: Result<Connection, DomainError>) -> bool {
        true
    }

    /// What `disconnect` may return for `resource`.
    open spec fn disconnect_outcome(&self, resource: Seq<char>, r: Result<Connection, DomainError>) -> bool {
        true
    }

    /// What `list` may return.
    open spec fn list_outcome(&self, r: Result<Vec<Connection>, DomainError>) -> bool {
        true
    }

    /// Connects to `resource`, reusing an already-open connection. A failed
    /// attempt is a normal outcome: the record then has state `Error`.
    fn connect(&self, resource: &str) -> (r: Result<Connection, DomainError>)
        ensures
            self.connect_outcome(resource@, r),
    ;

    /// Disconnects `resource`; `NotFound` where the pool does not track it.
    fn disconnect(&self, resource: &str) -> (r: Result<Connection, DomainError>)
        ensures
            self.disconnect_outcome(resource@, r),
    ;

    /// Every connection the pool tracks.
    fn list(&self) -> (r: Result<Vec<Connection>, DomainError>)
        ensures
            self.list_outcome(r),
    ;
}

} // verus!
