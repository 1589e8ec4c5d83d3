//! Errors of the domain and application layers, and their messages.
use vstd::prelude::*;
use vstd::string::*;

verus! {

/// `prefix` followed by `rest`.
pub fn prefixed(prefix: &str, rest: &str) -> (r: String)
    ensures
        r@ == prefix@ + rest@,
{
    let mut r = String::from_str(prefix);
    r.append(rest);
    r
}

/// Errors raised by domain logic itself (invariants, business rule
/// violations), independent of any technical concern.
#[derive(Debug, PartialEq, Eq)]
pub enum DomainError {
    NotFound(String),
    Validation(String),
    Conflict(String),
}

/// The message of a domain error.
pub open spec fn domain_message(e: DomainError) -> Seq<char> {
    match e {
        DomainError::NotFound(s) => "entity not found: "@ + s@,
        DomainError::Validation(s) => "validation error: "@ + s@,
        DomainError::Conflict(s) => "conflict: "@ + s@,
    }
}

impl DomainError {
    /// The human-readable message (`entity not found: ..`,
    /// `validation error: ..`, `conflict: ..`).
    pub fn message(&self) -> (r: String)
        ensures
            r@ == domain_message(*self),
    {
        match self {
            DomainError::NotFound(s) => prefixed("entity not found: ", s.as_str()),
            DomainError::Validation(s) => prefixed("validation error: ", s.as_str()),
            DomainError::Conflict(s) => prefixed("conflict: ", s.as_str()),
        }
    }
}

/// Errors surfaced by the application layer: domain errors, and failures
/// of its own (bad input that never reaches the domain).
#[derive(Debug, PartialEq, Eq)]
pub enum ApplicationError {
    Domain(DomainError),
    InvalidInput(String),
    Unexpected(String),
}

/// The message of an application error; a domain error keeps its own.
pub open spec fn application_message(e: ApplicationError) -> Seq<char> {
    match e {
        ApplicationError::Domain(d) => domain_message(d),
        ApplicationError::InvalidInput(s) => "invalid input: "@ + s@,
        ApplicationError::Unexpected(s) => "unexpected error: "@ + s@,
    }
}

impl ApplicationError {
    /// The human-readable message.
    pub fn message(&self) -> (r: String)
        ensures
            r@ == application_message(*self),
    {
        match self {
            ApplicationError::Domain(d) => d.message(),
            ApplicationError::InvalidInput(s) => prefixed("invalid input: ", s.as_str()),
            ApplicationError::Unexpected(s) => prefixed("unexpected error: ", s.as_str()),
        }
    }
}

/// Errors of infrastructure concerns (configuration, I/O), carrying the
/// message of the failure underneath.
#[derive(Debug, PartialEq, Eq)]
pub enum InfrastructureError {
    Config(String),
    Io(String),
}

/// The message of an infrastructure error.
pub open spec fn infrastructure_message(e: InfrastructureError) -> Seq<char> {
    match e {
        InfrastructureError::Config(s) => "configuration error: "@ + s@,
        InfrastructureError::Io(s) => "io error: "@ + s@,
    }
}

impl InfrastructureError {
    /// The human-readable message.
    pub fn message(&self) -> (r: String)
        ensures
            r@ == infrastructure_message(*self),
    {
        match self {
            InfrastructureError::Config(s) => prefixed("configuration error: ", s.as_str()),
            InfrastructureError::Io(s) => prefixed("io error: ", s.as_str()),
        }
    }
}

impl From<DomainError> for ApplicationError {
    fn from(e: DomainError) -> (r: Self) {
        ApplicationError::Domain(e)
    }
}

impl vstd::std_specs::convert::FromSpecImpl<DomainError> for ApplicationError {
    open spec fn obeys_from_spec() -> bool {
        true
    }

    open spec fn from_spec(v: DomainError) -> Self {
        ApplicationError::Domain(v)
    }
}

} // verus!
