//! Use cases of the application layer: each checks its input, calls its
//! port once and maps what comes back onto the wire shapes.
use vstd::prelude::*;
use crate::connection::{Connection, ConnectionManagerPort};
use crate::discovery::{DiscoveredInstrument, InstrumentDiscoveryPort};
use crate::dto::{
    connection_response_of, discovered_response_of, instrument_response_of, ConnectionResponse,
    DiscoveredInstrumentResponse, InstrumentResponse, RegisterInstrumentRequest,
};
use crate::errors::{ApplicationError, DomainError};
use crate::instrument::{
    is_random_uuid, uuid_parse, uuid_text, Instrument, InstrumentId, InstrumentStatus,
};
use crate::repository::{lists_exactly, InstrumentRepository};
use crate::text::{chars_of, trim, trim_chars};
use vstd::string::*;

verus! {

/// Whether `s` is empty once whitespace is trimmed.
pub fn is_blank(s: &str) -> (r: bool)
    ensures
        r == (trim(s@).len() == 0),
{
    let chars = chars_of(s);
    trim_chars(chars.as_slice()).len() == 0
}

/// `v` maps `l` element by element onto wire shapes.
pub open spec fn instrument_responses_of(l: Seq<Instrument>, v: Seq<InstrumentResponse>) -> bool {
    &&& l.len() == v.len()
    &&& forall|k: int| 0 <= k < l.len() ==> instrument_response_of(#[trigger] l[k], v[k])
}

/// `v` maps `l` element by element onto wire shapes.
pub open spec fn connection_responses_of(l: Seq<Connection>, v: Seq<ConnectionResponse>) -> bool {
    &&& l.len() == v.len()
    &&& forall|k: int| 0 <= k < l.len() ==> connection_response_of(#[trigger] l[k], v[k])
}

/// `v` maps `l` element by element onto wire shapes.
pub open spec fn discovered_responses_of(
    l: Seq<DiscoveredInstrument>,
    v: Seq<DiscoveredInstrumentResponse>,
) -> bool {
    &&& l.len() == v.len()
    &&& forall|k: int| 0 <= k < l.len() ==> discovered_response_of(#[trigger] l[k], v[k])
}

/// Wire shapes of a list of instruments, in order.
pub fn instrument_responses(items: Vec<Instrument>) -> (r: Vec<InstrumentResponse>)
    ensures
        instrument_responses_of(items@, r@),
{
    let mut rest = items;
    let mut out: Vec<InstrumentResponse> = Vec::new();
    while rest.len() > 0
        invariant
            out@.len() + rest@.len() == items@.len(),
            rest@ == items@.subrange(out@.len() as int, items@.len() as int),
            forall|k: int| 0 <= k < out@.len() ==> instrument_response_of(#[trigger] items@[k], out@[k]),
        decreases rest.len(),
    {
        let ghost n = out@.len();
        let first = rest.remove(0);
        assert(first == items@[n as int]);
        out.push(InstrumentResponse::from(first));
        assert(rest@ =~= items@.subrange(out@.len() as int, items@.len() as int));
    }
    out
}

/// Wire shapes of a list of connection records, in order.
pub fn connection_responses(items: Vec<Connection>) -> (r: Vec<ConnectionResponse>)
    ensures
        connection_responses_of(items@, r@),
{
    let mut rest = items;
    let mut out: Vec<ConnectionResponse> = Vec::new();
    while rest.len() > 0
        invariant
            out@.len() + rest@.len() == items@.len(),
            rest@ == items@.subrange(out@.len() as int, items@.len() as int),
            forall|k: int| 0 <= k < out@.len() ==> connection_response_of(#[trigger] items@[k], out@[k]),
        decreases rest.len(),
    {
        let ghost n = out@.len();
        let first = rest.remove(0);
        assert(first == items@[n as int]);
        out.push(ConnectionResponse::from(first));
        assert(rest@ =~= items@.subrange(out@.len() as int, items@.len() as int));
    }
    out
}

/// Wire shapes of a list of discovered instruments, in order.
pub fn discovered_responses(items: Vec<DiscoveredInstrument>) -> (r: Vec<DiscoveredInstrumentResponse>)
    ensures
        discovered_responses_of(items@, r@),
{
    let mut rest = items;
    let mut out: Vec<DiscoveredInstrumentResponse> = Vec::new();
    while rest.len() > 0
        invariant
            out@.len() + rest@.len() == items@.len(),
            rest@ == items@.subrange(out@.len() as int, items@.len() as int),
            forall|k: int| 0 <= k < out@.len() ==> discovered_response_of(#[trigger] items@[k], out@[k]),
        decreases rest.len(),
    {
        let ghost n = out@.len();
        let first = rest.remove(0);
        assert(first == items@[n as int]);
        out.push(DiscoveredInstrumentResponse::from(first));
        assert(rest@ =~= items@.subrange(out@.len() as int, items@.len() as int));
    }
    out
}

/// Use case: list every registered instrument.
pub struct ListInstrumentsUseCase;

impl ListInstrumentsUseCase {
    pub fn new() -> Self {
        ListInstrumentsUseCase
    }

    /// Every record of `repository`, as wire shapes; the repository's
    /// failure as a domain error.
    pub fn execute<R: InstrumentRepository>(&self, repository: &R) -> (r: Result<Vec<InstrumentResponse>, ApplicationError>)
        ensures
            exists|pr: Result<Vec<Instrument>, DomainError>| #[trigger] repository.list_outcome(pr)
                && match pr {
                Ok(l) => lists_exactly(l@, repository.stored()) && (r matches Ok(v)
                    && instrument_responses_of(l@, v@)),
                Err(e) => r == Err::<Vec<InstrumentResponse>, ApplicationError>(
                    ApplicationError::Domain(e),
                ),
            },
    {
        let listed = repository.list();
        let ghost pr = listed;
        match listed {
            Ok(items) => {
                let ghost l = items@;
                let v = instrument_responses(items);
                let r: Result<Vec<InstrumentResponse>, ApplicationError> = Ok(v);
                assert(r matches Ok(w) && instrument_responses_of(l, w@));
                assert(repository.list_outcome(pr));
                r
            },
            Err(e) => {
                let r = Err(ApplicationError::Domain(e));
                assert(repository.list_outcome(pr));
                r
            },
        }
    }
}

/// Use case: fetch one instrument by the text of its identifier.
pub struct GetInstrumentUseCase;

impl GetInstrumentUseCase {
    pub fn new() -> Self {
        GetInstrumentUseCase
    }

    /// The instrument whose identifier `raw_id` names, as a wire shape.
    /// `InvalidInput("invalid instrument id")` where `raw_id` is no UUID;
    /// `NotFound` carrying the identifier's text where nothing is stored
    /// under it.
    pub fn execute<R: InstrumentRepository>(&self, repository: &R, raw_id: &str) -> (r: Result<InstrumentResponse, ApplicationError>)
        ensures
            uuid_parse(raw_id@) is None ==> (r matches Err(ApplicationError::InvalidInput(s))
                && s@ == "invalid instrument id"@),
            uuid_parse(raw_id@) matches Some(v) ==> {
                &&& r matches Ok(resp) ==> repository.stored().contains_key(v)
                    && instrument_response_of(repository.stored()[v], resp)
                &&& !repository.stored().contains_key(v) ==> (r matches Err(
                    ApplicationError::Domain(DomainError::NotFound(s)),
                ) && s@ == uuid_text(v))
                &&& exists|pr: Result<Instrument, DomainError>|
                    #[trigger] repository.get_outcome(InstrumentId(v), pr) && match pr {
                    Ok(i) => r matches Ok(resp) && instrument_response_of(i, resp),
                    Err(e) => r == Err::<InstrumentResponse, ApplicationError>(
                        ApplicationError::Domain(e),
                    ),
                }
            },
    {
        match InstrumentId::parse(raw_id) {
            None => Err(ApplicationError::InvalidInput(String::from_str("invalid instrument id"))),
            Some(id) => {
                let got = repository.get(id);
                let ghost pr = got;
                assert(repository.get_outcome(id, pr));
                match got {
                    Ok(instrument) => Ok(InstrumentResponse::from(instrument)),
                    Err(e) => Err(ApplicationError::Domain(e)),
                }
            },
        }
    }
}

/// Whether `i` is the record that registering `request` creates.
pub open spec fn registered_from(i: Instrument, request: RegisterInstrumentRequest) -> bool {
    &&& i.name@ == request.name@
    &&& i.model@ == request.model@
    &&& i.status == InstrumentStatus::Registered
    &&& is_random_uuid(i.id.0)
}

/// Use case: register a new instrument.
pub struct RegisterInstrumentUseCase;

impl RegisterInstrumentUseCase {
    pub fn new() -> Self {
        RegisterInstrumentUseCase
    }

    /// Registers `request` as a new instrument and returns its wire
    /// shape. A name that is empty once trimmed is refused with
    /// `InvalidInput("name must not be empty")` and nothing is stored.
    pub fn execute<R: InstrumentRepository>(&self, repository: &mut R, request: RegisterInstrumentRequest) -> (r: Result<InstrumentResponse, ApplicationError>)
        ensures
            trim(request.name@).len() == 0 ==> (r matches Err(ApplicationError::InvalidInput(s))
                && s@ == "name must not be empty"@) && final(repository).stored() == old(repository).stored(),
            trim(request.name@).len() > 0 ==> exists|i: Instrument, sr: Result<Instrument, DomainError>|
                #[trigger] registered_from(i, request) && #[trigger] old(repository).save_outcome(i, sr)
                && match sr {
                Ok(saved) => saved == i && final(repository).stored() == old(repository).stored().insert(
                    i.id.0,
                    i,
                ) && (r matches Ok(resp) && instrument_response_of(i, resp)),
                Err(e) => final(repository).stored() == old(repository).stored() && r == Err::<
                    InstrumentResponse,
                    ApplicationError,
                >(ApplicationError::Domain(e)),
            },
    {
        if is_blank(request.name.as_str()) {
            return Err(ApplicationError::InvalidInput(String::from_str("name must not be empty")));
        }
        let ghost req = request;
        let instrument = Instrument::new(request.name, request.model);
        let ghost i = instrument;
        assert(registered_from(i, req));
        let outcome = repository.save(instrument);
        let ghost sr = outcome;
        match outcome {
            Ok(saved) => Ok(InstrumentResponse::from(saved)),
            Err(e) => Err(ApplicationError::Domain(e)),
        }
    }
}

/// Use case: discover the instruments reachable over VISA.
pub struct DiscoverInstrumentsUseCase<D> {
    discovery: D,
}

impl<D: InstrumentDiscoveryPort> DiscoverInstrumentsUseCase<D> {
    /// The discovery port this use case calls.
    pub closed spec fn port(&self) -> D {
        self.discovery
    }

    /// A use case that calls `discovery`.
    pub fn new(discovery: D) -> (r: Self)
        ensures
            r.port() == discovery,
    {
        DiscoverInstrumentsUseCase { discovery }
    }

    /// What the discovery port found, as wire shapes in its order; its
    /// failure as a domain error.
    pub fn execute(&self) -> (r: Result<Vec<DiscoveredInstrumentResponse>, ApplicationError>)
        ensures
            exists|pr: Result<Vec<DiscoveredInstrument>, DomainError>|
                #[trigger] self.port().discover_outcome(pr) && match pr {
                Ok(l) => r matches Ok(v) && discovered_responses_of(l@, v@),
                Err(e) => r == Err::<Vec<DiscoveredInstrumentResponse>, ApplicationError>(
                    ApplicationError::Domain(e),
                ),
            },
    {
        let found = self.discovery.discover();
        let ghost pr = found;
        match found {
            Ok(items) => {
                let ghost l = items@;
                let v = discovered_responses(items);
                let r: Result<Vec<DiscoveredInstrumentResponse>, ApplicationError> = Ok(v);
                assert(r matches Ok(w) && discovered_responses_of(l, w@));
                assert(self.port().discover_outcome(pr));
                r
            },
            Err(e) => {
                let r = Err(ApplicationError::Domain(e));
                assert(self.port().discover_outcome(pr));
                r
            },
        }
    }
}

/// Use case: connect to a VISA resource, reusing a pooled connection.
pub struct ConnectInstrumentUseCase<M> {
    manager: M,
}

impl<M: ConnectionManagerPort> ConnectInstrumentUseCase<M> {
    /// The connection manager this use case calls.
    pub closed spec fn port(&self) -> M {
        self.manager
    }

    /// A use case that calls `manager`.
    pub fn new(manager: M) -> (r: Self)
        ensures
            r.port() == manager,
    {
        ConnectInstrumentUseCase { manager }
    }

    /// The record of the connection to `resource`, as a wire shape. A
    /// resource that is empty once trimmed is refused with
    /// `InvalidInput("resource must not be empty")`; the manager's
    /// failure comes back as a domain error.
    pub fn execute(&self, resource: &str) -> (r: Result<ConnectionResponse, ApplicationError>)
        ensures
            trim(resource@).len() == 0 <==> (r matches Err(ApplicationError::InvalidInput(s))
                && s@ == "resource must not be empty"@),
            trim(resource@).len() > 0 ==> exists|pr: Result<Connection, DomainError>|
                #[trigger] self.port().connect_outcome(resource@, pr) && match pr {
                Ok(c) => r matches Ok(resp) && connection_response_of(c, resp),
                Err(e) => r == Err::<ConnectionResponse, ApplicationError>(ApplicationError::Domain(e)),
            },
    {
        if is_blank(resource) {
            return Err(ApplicationError::InvalidInput(String::from_str("resource must not be empty")));
        }
        let outcome = self.manager.connect(resource);
        let ghost pr = outcome;
        assert(self.port().connect_outcome(resource@, pr));
        match outcome {
            Ok(c) => {
                let ghost g = c;
                let resp = ConnectionResponse::from(c);
                assert(connection_response_of(g, resp));
                Ok(resp)
            },
            Err(e) => Err(ApplicationError::Domain(e)),
        }
    }
}

/// Use case: disconnect a pooled connection.
pub struct DisconnectInstrumentUseCase<M> {
    manager: M,
}

impl<M: ConnectionManagerPort> DisconnectInstrumentUseCase<M> {
    /// The connection manager this use case calls.
    pub closed spec fn port(&self) -> M {
        self.manager
    }

    /// A use case that calls `manager`.
    pub fn new(manager: M) -> (r: Self)
        ensures
            r.port() == manager,
    {
        DisconnectInstrumentUseCase { manager }
    }

    /// The record of `resource` after the disconnect, as a wire shape. A
    /// resource that is empty once trimmed is refused with
    /// `InvalidInput("resource must not be empty")`; the manager's
    /// failure comes back as a domain error.
    pub fn execute(&self, resource: &str) -> (r: Result<ConnectionResponse, ApplicationError>)
        ensures
            trim(resource@).len() == 0 <==> (r matches Err(ApplicationError::InvalidInput(s))
                && s@ == "resource must not be empty"@),
            trim(resource@).len() > 0 ==> exists|pr: Result<Connection, DomainError>|
                #[trigger] self.port().disconnect_outcome(resource@, pr) && match pr {
                Ok(c) => r matches Ok(resp) && connection_response_of(c, resp),
                Err(e) => r == Err::<ConnectionResponse, ApplicationError>(ApplicationError::Domain(e)),
            },
    {
        if is_blank(resource) {
            return Err(ApplicationError::InvalidInput(String::from_str("resource must not be empty")));
        }
        let outcome = self.manager.disconnect(resource);
        let ghost pr = outcome;
        assert(self.port().disconnect_outcome(resource@, pr));
        match outcome {
            Ok(c) => {
                let ghost g = c;
                let resp = ConnectionResponse::from(c);
                assert(connection_response_of(g, resp));
                Ok(resp)
            },
            Err(e) => Err(ApplicationError::Domain(e)),
        }
    }
}

/// Use case: list every connection the pool tracks.
pub struct ListConnectionsUseCase<M> {
    manager: M,
}

impl<M: ConnectionManagerPort> ListConnectionsUseCase<M> {
    /// The connection manager this use case calls.
    pub closed spec fn port(&self) -> M {
        self.manager
    }

    /// A use case that calls `manager`.
    pub fn new(manager: M) -> (r: Self)
        ensures
            r.port() == manager,
    {
        ListConnectionsUseCase { manager }
    }

    /// The manager's records, as wire shapes in its order; its failure as
    /// a domain error.
    pub fn execute(&self) -> (r: Result<Vec<ConnectionResponse>, ApplicationError>)
        ensures
            exists|pr: Result<Vec<Connection>, DomainError>| #[trigger] self.port().list_outcome(pr)
                && match pr {
                Ok(l) => r matches Ok(v) && connection_responses_of(l@, v@),
                Err(e) => r == Err::<Vec<ConnectionResponse>, ApplicationError>(
                    ApplicationError::Domain(e),
                ),
            },
    {
        let listed = self.manager.list();
        let ghost pr = listed;
        match listed {
            Ok(items) => {
                let ghost l = items@;
                let v = connection_responses(items);
                let r: Result<Vec<ConnectionResponse>, ApplicationError> = Ok(v);
                assert(r matches Ok(w) && connection_responses_of(l, w@));
                assert(self.port().list_outcome(pr));
                r
            },
            Err(e) => {
                let r = Err(ApplicationError::Domain(e));
                assert(self.port().list_outcome(pr));
                r
            },
        }
    }
}

} // verus!
