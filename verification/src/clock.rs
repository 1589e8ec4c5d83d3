//! Points in time, read from the system clock and rendered as RFC 3339
//! text through `chrono`.
use vstd::prelude::*;

verus! {

/// Whether `chrono` can represent the UTC instant `secs` seconds and
/// `nanos` nanoseconds after the Unix epoch (`DateTime::from_timestamp`
/// returns `Some`).
pub uninterp spec fn utc_representable(secs: i64, nanos: u32) -> bool;

/// The text that `DateTime::<Utc>::to_rfc3339` gives for that instant.
pub uninterp spec fn rfc3339_text(secs: i64, nanos: u32) -> Seq<char>;

/// Reads the system clock (`chrono::Utc::now`) as whole seconds since the
/// Unix epoch and the nanoseconds past that second. The instant is one
/// that `chrono` itself produced, so `DateTime::from_timestamp` gives it
/// back (chrono documents that round trip); what time it is, nothing
/// states.
#[verifier::external_body]
fn utc_now() -> (t: (i64, u32))
    ensures
        utc_representable(t.0, t.1),
{
    let now = chrono::Utc::now();
    (now.timestamp(), now.timestamp_subsec_nanos())
}

/// Renders an instant with `chrono::DateTime::<Utc>::to_rfc3339`, after
/// building it with `DateTime::from_timestamp`. The text is named, not
/// spelled out.
#[verifier::external_body]
fn rfc3339_of(secs: i64, nanos: u32) -> (s: String)
    requires
        utc_representable(secs, nanos),
    ensures
        s@ == rfc3339_text(secs, nanos),
{
    chrono::DateTime::from_timestamp(secs, nanos).unwrap().to_rfc3339()
}

/// A UTC instant that `chrono` can represent.
#[derive(Clone, Copy, Debug, PartialEq, Eq)]
pub struct Timestamp {
    secs: i64,
    nanos: u32,
}

impl Timestamp {
    #[verifier::type_invariant]
    closed spec fn representable(self) -> bool {
        utc_representable(self.secs, self.nanos)
    }

    /// Whole seconds since the Unix epoch.
    pub closed spec fn unix_secs(self) -> i64 {
        self.secs
    }

    /// Nanoseconds past the whole second.
    pub closed spec fn unix_nanos(self) -> u32 {
        self.nanos
    }

    /// The current instant.
    pub fn now() -> (t: Timestamp) {
        let (secs, nanos) = utc_now();
        Timestamp { secs, nanos }
    }

    /// Whole seconds since the Unix epoch.
    pub fn secs(&self) -> (r: i64)
        ensures
            r == self.unix_secs(),
    {
        self.secs
    }

    /// Nanoseconds past the whole second.
    pub fn subsec_nanos(&self) -> (r: u32)
        ensures
            r == self.unix_nanos(),
    {
        self.nanos
    }

    /// The instant as RFC 3339 text (`2024-05-01T12:00:00.123456789+00:00`).
    pub fn to_rfc3339(&self) -> (s: String)
        ensures
            s@ == rfc3339_text(self.unix_secs(), self.unix_nanos()),
    {
        proof {
            use_type_invariant(self);
        }
        rfc3339_of(self.secs, self.nanos)
    }
}

/// One reading of the system clock, numbered by whoever keeps count of
/// the readings it takes. A reading is made only by `Reading::take`, which
/// reads the clock, so a value of this type is always an instant that the
/// clock gave at the moment its number was handed out.
#[derive(Clone, Copy)]
pub struct Reading {
    time: Timestamp,
    number: Ghost<nat>,
}

impl Reading {
    /// The number this reading was taken under.
    pub closed spec fn number(&self) -> nat {
        self.number@
    }

    /// The instant the clock gave.
    pub closed spec fn instant(&self) -> Timestamp {
        self.time
    }

    /// Reads the clock now, numbering the reading `n`.
    pub fn take(Ghost(n): Ghost<nat>) -> (r: Reading)
        ensures
            r.number() == n,
    {
        Reading { time: Timestamp::now(), number: Ghost(n) }
    }

    /// The instant the clock gave.
    pub fn time(&self) -> (t: Timestamp)
        ensures
            t == self.instant(),
    {
        self.time
    }
}

} // verus!
