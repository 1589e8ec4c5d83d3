//! Configuration of the server and its logging.
use vstd::prelude::*;
use crate::text::{decimal, push_decimal, string_of};
use vstd::string::*;

verus! {

/// HTTP server settings.
#[derive(Debug)]
pub struct ServerSettings {
    pub host: String,
    pub port: u16,
}

/// Logging settings: a tracing filter directive such as `info`.
#[derive(Debug)]
pub struct LoggingSettings {
    pub level: String,
}

/// Root configuration.
#[derive(Debug)]
pub struct Settings {
    pub server: ServerSettings,
    pub logging: LoggingSettings,
}

impl ServerSettings {
    /// The address to listen on: `host:port`.
    pub fn bind_address(&self) -> (r: String)
        ensures
            r@ == self.host@ + seq![':'] + decimal(self.port as nat),
    {
        let mut tail: Vec<char> = Vec::new();
        tail.push(':');
        push_decimal(&mut tail, self.port as u64);
        let mut r = self.host.clone();
        r.append(string_of(tail.as_slice()).as_str());
        assert(r@ =~= self.host@ + seq![':'] + decimal(self.port as nat));
        r
    }
}

} // verus!
