//! Verified core of an instrument platform: instrument records and their
//! in-memory registry, the connection pool's state machine, the `*IDN?`
//! reply parser and the discovery assembly, the request/response shapes of
//! the HTTP layer and the error mapping.
pub mod text;
pub mod idn;
pub mod clock;
pub mod instrument;
pub mod errors;
pub mod repository;
pub mod connection;
pub mod discovery;
pub mod pool;
pub mod dto;
pub mod use_cases;
pub mod api_error;
pub mod settings;
pub mod visa;
