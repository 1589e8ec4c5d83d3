//! Wire shapes of the HTTP layer and how records map onto them.
use vstd::prelude::*;
use crate::clock::{rfc3339_text, Timestamp};
use crate::connection::{Connection, ConnectionState};
use crate::discovery::DiscoveredInstrument;
use crate::instrument::{uuid_text, Instrument, InstrumentStatus};
use vstd::string::*;

verus! {

/// The wire name of an instrument status.
pub open spec fn status_text(s: InstrumentStatus) -> Seq<char> {
    match s {
        InstrumentStatus::Registered => "registered"@,
        InstrumentStatus::Online => "online"@,
        InstrumentStatus::Offline => "offline"@,
        InstrumentStatus::Maintenance => "maintenance"@,
    }
}

/// The wire name of an instrument status.
pub fn status_to_str(status: &InstrumentStatus) -> (r: &'static str)
    ensures
        r@ == status_text(*status),
{
    match status {
        InstrumentStatus::Registered => "registered",
        InstrumentStatus::Online => "online",
        InstrumentStatus::Offline => "offline",
        InstrumentStatus::Maintenance => "maintenance",
    }
}

/// The wire name of a connection state.
pub open spec fn state_text(s: ConnectionState) -> Seq<char> {
    match s {
        ConnectionState::Connected => "connected"@,
        ConnectionState::Disconnected => "disconnected"@,
        ConnectionState::Busy => "busy"@,
        ConnectionState::Error => "error"@,
    }
}

/// The wire name of a connection state.
pub fn state_to_str(state: ConnectionState) -> (r: &'static str)
    ensures
        r@ == state_text(state),
{
    match state {
        ConnectionState::Connected => "connected",
        ConnectionState::Disconnected => "disconnected",
        ConnectionState::Busy => "busy",
        ConnectionState::Error => "error",
    }
}

/// Outbound shape of an instrument record.
#[derive(Debug, PartialEq, Eq)]
pub struct InstrumentResponse {
    pub id: String,
    pub name: String,
    pub model: String,
    pub status: String,
}

/// Whether `r` is the wire shape of `i`.
pub open spec fn instrument_response_of(i: Instrument, r: InstrumentResponse) -> bool {
    &&& r.id@ == uuid_text(i.id.0)
    &&& r.name@ == i.name@
    &&& r.model@ == i.model@
    &&& r.status@ == status_text(i.status)
}

impl InstrumentResponse {
    /// The wire shape of an instrument: its identifier as UUID text, its
    /// status by name.
    pub fn from(instrument: Instrument) -> (r: Self)
        ensures
            instrument_response_of(instrument, r),
    {
        let id = instrument.id.to_string();
        let status = String::from_str(status_to_str(&instrument.status));
        InstrumentResponse { id, name: instrument.name, model: instrument.model, status }
    }
}

/// Inbound shape for registering a new instrument.
#[derive(Debug)]
pub struct RegisterInstrumentRequest {
    pub name: String,
    pub model: String,
}

/// Outbound shape of a pooled connection record.
#[derive(Debug, PartialEq, Eq)]
pub struct ConnectionResponse {
    pub resource: String,
    pub state: String,
    pub connected_at: Option<String>,
    pub last_heartbeat_at: Option<String>,
    pub retry_count: u32,
    pub last_error: Option<String>,
}

/// Whether `s` renders the optional instant `t` as RFC 3339 text.
pub open spec fn time_text_of(t: Option<Timestamp>, s: Option<String>) -> bool {
    match (t, s) {
        (None, None) => true,
        (Some(t), Some(s)) => s@ == rfc3339_text(t.unix_secs(), t.unix_nanos()),
        _ => false,
    }
}

/// Whether `r` is the wire shape of `c`.
pub open spec fn connection_response_of(c: Connection, r: ConnectionResponse) -> bool {
    &&& r.resource@ == c.resource@
    &&& r.state@ == state_text(c.state)
    &&& time_text_of(c.connected_at, r.connected_at)
    &&& time_text_of(c.last_heartbeat_at, r.last_heartbeat_at)
    &&& r.retry_count == c.retry_count
    &&& r.last_error == c.last_error
}

fn time_text(t: Option<Timestamp>) -> (r: Option<String>)
    ensures
        time_text_of(t, r),
{
    match t {
        Some(t) => Some(t.to_rfc3339()),
        None => None,
    }
}

impl ConnectionResponse {
    /// The wire shape of a connection record: its state by name, its
    /// instants as RFC 3339 text.
    pub fn from(connection: Connection) -> (r: Self)
        ensures
            connection_response_of(connection, r),
    {
        ConnectionResponse {
            state: String::from_str(state_to_str(connection.state)),
            connected_at: time_text(connection.connected_at),
            last_heartbeat_at: time_text(connection.last_heartbeat_at),
            retry_count: connection.retry_count,
            resource: connection.resource,
            last_error: connection.last_error,
        }
    }
}

/// Request body naming the resource to connect or disconnect.
#[derive(Debug)]
pub struct ConnectionRequest {
    pub resource: String,
}

/// Outbound shape of a discovered instrument.
#[derive(Debug, PartialEq, Eq)]
pub struct DiscoveredInstrumentResponse {
    pub id: String,
    pub resource: String,
    pub vendor: String,
    pub model: String,
    pub serial: String,
    pub firmware: String,
}

/// Whether `r` is the wire shape of `d`.
pub open spec fn discovered_response_of(d: DiscoveredInstrument, r: DiscoveredInstrumentResponse) -> bool {
    &&& r.id == d.id
    &&& r.resource == d.resource
    &&& r.vendor == d.vendor
    &&& r.model == d.model
    &&& r.serial == d.serial
    &&& r.firmware == d.firmware
}

impl DiscoveredInstrumentResponse {
    /// The wire shape of a discovered instrument: the same six fields.
    pub fn from(instrument: DiscoveredInstrument) -> (r: Self)
        ensures
            discovered_response_of(instrument, r),
    {
        DiscoveredInstrumentResponse {
            id: instrument.id,
            resource: instrument.resource,
            vendor: instrument.vendor,
            model: instrument.model,
            serial: instrument.serial,
            firmware: instrument.firmware,
        }
    }
}

} // verus!
