//! Registered instruments: their identifier, lifecycle status and record.
use vstd::prelude::*;
use vstd::arithmetic::power2::pow2;
use crate::clock::Timestamp;

verus! {

/// Lower-case hexadecimal digit for `n` in `0..16`.
pub open spec fn hex_char(n: int) -> char {
    if n < 10 {
        ((n + 48) as u32) as char
    } else {
        ((n + 87) as u32) as char
    }
}

/// Hex digit `k` of `v`, counting from the most significant of its 32.
pub open spec fn uuid_nibble(v: u128, k: int) -> int {
    ((v as int) / (pow2((4 * (31 - k)) as nat) as int)) % 16
}

/// The hyphenated lower-case text of a UUID (8-4-4-4-12 hex digits, most
/// significant first), as `uuid::Uuid`'s `Display` writes it.
pub open spec fn uuid_text(v: u128) -> Seq<char> {
    Seq::new(
        36,
        |i: int|
            if i == 8 || i == 13 || i == 18 || i == 23 {
                '-'
            } else {
                let k = if i < 8 {
                    i
                } else if i < 13 {
                    i - 1
                } else if i < 18 {
                    i - 2
                } else if i < 23 {
                    i - 3
                } else {
                    i - 4
                };
                hex_char(uuid_nibble(v, k))
            },
    )
}

/// What `uuid::Uuid::parse_str` gives for a text: the UUID's value, or
/// `None` where it reports an error.
pub uninterp spec fn uuid_parse(s: Seq<char>) -> Option<u128>;

/// Whether `v` carries the version (4, random) and variant (RFC 4122)
/// bits of a random UUID.
pub open spec fn is_random_uuid(v: u128) -> bool {
    &&& v & 0xF000_0000_0000_0000_0000u128 == 0x4000_0000_0000_0000_0000u128
    &&& v & 0xC000_0000_0000_0000u128 == 0x8000_0000_0000_0000u128
}

/// A fresh random UUID (`uuid::Uuid::new_v4`) as its 128-bit value. The
/// crate sets the version and variant bits and takes the rest from its
/// random source; which value comes out, nothing states.
#[verifier::external_body]
fn random_uuid() -> (v: u128)
    ensures
        is_random_uuid(v),
{
    uuid::Uuid::new_v4().as_u128()
}

/// `uuid::Uuid::from_u128(v).to_string()`: the hyphenated lower-case text.
#[verifier::external_body]
fn uuid_string(v: u128) -> (s: String)
    ensures
        s@ == uuid_text(v),
{
    uuid::Uuid::from_u128(v).to_string()
}

/// `uuid::Uuid::parse_str` on `s`, the result as a 128-bit value. Its
/// result is named; the crate documents that it reads back the
/// hyphenated text that it writes, which the second clause states.
#[verifier::external_body]
fn parse_uuid(s: &str) -> (r: Option<u128>)
    ensures
        r == uuid_parse(s@),
        forall|v: u128| #[trigger] uuid_text(v) == s@ ==> r == Some(v),
{
    match uuid::Uuid::parse_str(s) {
        Ok(u) => Some(u.as_u128()),
        Err(_) => None,
    }
}

/// Strongly-typed identifier of an [`Instrument`]: the 128-bit value of
/// a UUID.
#[derive(Clone, Copy, Debug, PartialEq, Eq, Hash, Structural)]
pub struct InstrumentId(pub u128);

impl InstrumentId {
    /// A fresh random (version 4) identifier.
    pub fn new() -> (id: Self)
        ensures
            is_random_uuid(id.0),
    {
        InstrumentId(random_uuid())
    }

    /// Reads an identifier from UUID text in any form that
    /// `uuid::Uuid::parse_str` accepts; `None` where it does not.
    pub fn parse(raw: &str) -> (r: Option<Self>)
        ensures
            r == (match uuid_parse(raw@) {
                Some(v) => Some(InstrumentId(v)),
                None => None,
            }),
            forall|v: u128| #[trigger] uuid_text(v) == raw@ ==> r == Some(InstrumentId(v)),
    {
        match parse_uuid(raw) {
            Some(v) => Some(InstrumentId(v)),
            None => None,
        }
    }

    /// The hyphenated lower-case UUID text of the identifier.
    pub fn to_string(&self) -> (s: String)
        ensures
            s@ == uuid_text(self.0),
    {
        uuid_string(self.0)
    }
}

impl Default for InstrumentId {
    fn default() -> (id: Self)
        ensures
            is_random_uuid(id.0),
    {
        InstrumentId::new()
    }
}

/// Lifecycle status of an instrument record (its registration lifecycle,
/// not its connectivity).
#[derive(Clone, Copy, Debug, PartialEq, Eq, Structural)]
pub enum InstrumentStatus {
    Registered,
    Online,
    Offline,
    Maintenance,
}

/// An instrument known to the platform.
#[derive(Debug)]
pub struct Instrument {
    pub id: InstrumentId,
    pub name: String,
    pub model: String,
    pub status: InstrumentStatus,
    pub created_at: Timestamp,
}

impl Clone for Instrument {
    fn clone(&self) -> (r: Self)
        ensures
            r == *self,
    {
        Instrument {
            id: self.id,
            name: self.name.clone(),
            model: self.model.clone(),
            status: self.status,
            created_at: self.created_at,
        }
    }
}

impl Instrument {
    /// A new instrument in the `Registered` state, with a fresh random
    /// identifier and the current time as its creation time.
    pub fn new(name: String, model: String) -> (r: Self)
        ensures
            r.name@ == name@,
            r.model@ == model@,
            r.status == InstrumentStatus::Registered,
            is_random_uuid(r.id.0),
    {
        Instrument {
            id: InstrumentId::new(),
            name,
            model,
            status: InstrumentStatus::Registered,
            created_at: Timestamp::now(),
        }
    }
}

} // verus!
