//! Status codes of the VISA C API and the errors of a VISA session.
use vstd::prelude::*;
use crate::errors::prefixed;
use crate::text::{chars_of, push_decimal, signed_decimal, string_of, trim, trim_chars};
use vstd::utf8::{decode_utf8, valid_utf8};
use vstd::string::*;

verus! {

/// `VI_SUCCESS`: any status at or above it is success (0) or an
/// informational completion code; any status below it is an error.
pub const VI_SUCCESS: i32 = 0;

/// `VI_ERROR_RSRC_NFOUND` (0xBFFF0011): `viFindRsrc` found no resource
/// matching the search expression. Not a failure.
pub const VI_ERROR_RSRC_NFOUND: i32 = -1073807343;

/// Errors of a VISA resource-manager session.
#[derive(Debug, PartialEq, Eq)]
pub enum VisaSessionError {
    /// The named VISA call returned an error status.
    Call(&'static str, i32),
    /// A resource string held an interior NUL byte.
    InvalidResourceString,
}

/// The message of a VISA session error.
pub open spec fn visa_message(e: VisaSessionError) -> Seq<char> {
    match e {
        VisaSessionError::Call(call, status) => "VISA call `"@ + call@ + "` failed with status "@
            + signed_decimal(status as int),
        VisaSessionError::InvalidResourceString => "resource string contained an interior NUL byte"@,
    }
}

/// The decimal text of `n`, with a minus sign where it is negative.
pub fn signed_decimal_string(n: i32) -> (r: String)
    ensures
        r@ == signed_decimal(n as int),
{
    let mut v: Vec<char> = Vec::new();
    if n < 0 {
        v.push('-');
        let m: i64 = -(n as i64);
        push_decimal(&mut v, m as u64);
    } else {
        push_decimal(&mut v, n as u64);
    }
    assert(v@ =~= signed_decimal(n as int));
    string_of(v.as_slice())
}

impl VisaSessionError {
    /// The human-readable message.
    pub fn message(&self) -> (r: String)
        ensures
            r@ == visa_message(*self),
    {
        match self {
            VisaSessionError::Call(call, status) => {
                let mut r = prefixed("VISA call `", call);
                r.append("` failed with status ");
                r.append(signed_decimal_string(*status).as_str());
                r
            },
            VisaSessionError::InvalidResourceString => String::from_str(
                "resource string contained an interior NUL byte",
            ),
        }
    }
}

/// The outcome of a VISA call that returned `status`: an error naming
/// `call` where the status is below `VI_SUCCESS`.
pub fn check_status(call: &'static str, status: i32) -> (r: Result<(), VisaSessionError>)
    ensures
        status < VI_SUCCESS ==> r == Err::<(), VisaSessionError>(VisaSessionError::Call(call, status)),
        status >= VI_SUCCESS ==> r is Ok,
{
    if status < VI_SUCCESS {
        Err(VisaSessionError::Call(call, status))
    } else {
        Ok(())
    }
}

/// The outcome of `viFindRsrc`: `Ok(false)` where nothing matched,
/// `Ok(true)` where something did, an error for any other error status.
pub fn find_outcome(status: i32) -> (r: Result<bool, VisaSessionError>)
    ensures
        status == VI_ERROR_RSRC_NFOUND ==> r == Ok::<bool, VisaSessionError>(false),
        status != VI_ERROR_RSRC_NFOUND && status < VI_SUCCESS ==> r == Err::<bool, VisaSessionError>(
            VisaSessionError::Call("viFindRsrc", status),
        ),
        status >= VI_SUCCESS ==> r == Ok::<bool, VisaSessionError>(true),
{
    if status == VI_ERROR_RSRC_NFOUND {
        Ok(false)
    } else if status < VI_SUCCESS {
        Err(VisaSessionError::Call("viFindRsrc", status))
    } else {
        Ok(true)
    }
}

/// The VISA search expressions of the interface classes that discovery
/// enumerates, with their labels.
pub fn resource_patterns() -> (r: Vec<(&'static str, &'static str)>)
    ensures
        r@.len() == 4,
        r@[0].0@ == "USB"@ && r@[0].1@ == "USB?*INSTR"@,
        r@[1].0@ == "LAN"@ && r@[1].1@ == "TCPIP?*INSTR"@,
        r@[2].0@ == "GPIB"@ && r@[2].1@ == "GPIB?*INSTR"@,
        r@[3].0@ == "Serial"@ && r@[3].1@ == "ASRL?*INSTR"@,
{
    let mut r: Vec<(&'static str, &'static str)> = Vec::new();
    r.push(("USB", "USB?*INSTR"));
    r.push(("LAN", "TCPIP?*INSTR"));
    r.push(("GPIB", "GPIB?*INSTR"));
    r.push(("Serial", "ASRL?*INSTR"));
    r
}

/// The text that `String::from_utf8_lossy` makes of a byte string:
/// invalid sequences become U+FFFD.
pub uninterp spec fn utf8_lossy_text(bytes: Seq<u8>) -> Seq<char>;

/// `String::from_utf8_lossy`, owned. Its result is named; std documents
/// that valid UTF-8 comes back unchanged, which the second clause states.
#[verifier::external_body]
fn lossy_string(bytes: &[u8]) -> (s: String)
    ensures
        s@ == utf8_lossy_text(bytes@),
        valid_utf8(bytes@) ==> s@ == decode_utf8(bytes@),
{
    String::from_utf8_lossy(bytes).into_owned()
}

/// The `*IDN?` reply held in the first `read` bytes of `buffer`: decoded
/// leniently as UTF-8, whitespace trimmed.
pub fn decode_reply(buffer: &[u8], read: usize) -> (r: String)
    requires
        read <= buffer@.len(),
    ensures
        r@ == trim(utf8_lossy_text(buffer@.subrange(0, read as int))),
        valid_utf8(buffer@.subrange(0, read as int)) ==> r@ == trim(
            decode_utf8(buffer@.subrange(0, read as int)),
        ),
{
    let mut head: Vec<u8> = Vec::new();
    let mut i: usize = 0;
    while i < read
        invariant
            i <= read <= buffer@.len(),
            head@ == buffer@.subrange(0, i as int),
        decreases read - i,
    {
        head.push(buffer[i]);
        i = i + 1;
    }
    let text = lossy_string(head.as_slice());
    let chars = chars_of(text.as_str());
    string_of(trim_chars(chars.as_slice()).as_slice())
}

} // verus!
