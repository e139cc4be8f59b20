//! The Mod side of the host's C protocol: reading host text in two calls,
//! and turning a failed status into an error that carries the host's own
//! message.
//!
//! The calls through the host table happen around this module; it decides
//! what each answer means.

use vstd::prelude::*;
use vstd::utf8::{valid_utf8, decode_utf8};
use crate::status::{Error, Status, OK, ERROR, BUFFER_TOO_SMALL, error_from_status};
use crate::text::{push_chars, push_str, signed, signed_decimal, string_of, utf8_text};

verus! {

/// What to do after asking the host how long a text is.
pub enum TextRead {
    /// The host failed with this status.
    Failed(Status),
    /// The text is empty; no second call is needed.
    Empty,
    /// Read again into a buffer of this many bytes.
    Fetch(u32),
}

/// Decides on the answer to the size query: a status other than OK and
/// BUFFER_TOO_SMALL is a failure; otherwise the reported length decides.
pub fn text_request(status: Status, required: u32) -> (r: TextRead)
    ensures
        status != OK && status != BUFFER_TOO_SMALL ==> r == TextRead::Failed(status),
        (status == OK || status == BUFFER_TOO_SMALL) && required == 0 ==> r is Empty,
        (status == OK || status == BUFFER_TOO_SMALL) && required != 0 ==> r == TextRead::Fetch(required),
{
    if status != OK && status != BUFFER_TOO_SMALL {
        return TextRead::Failed(status);
    }
    if required == 0 {
        TextRead::Empty
    } else {
        TextRead::Fetch(required)
    }
}

/// Decides on the answer to the read: on OK the first `required` bytes of
/// the buffer are the text, which must be UTF-8 (else ERROR).
pub fn text_result(status: Status, buffer: Vec<u8>, required: u32) -> (r: Result<String, Status>)
    requires
        status == OK ==> required <= buffer@.len(),
    ensures
        status != OK ==> r == Err::<String, Status>(status),
        status == OK && !valid_utf8(buffer@.subrange(0, required as int)) ==> r == Err::<String, Status>(ERROR),
        status == OK && valid_utf8(buffer@.subrange(0, required as int)) ==> (r matches Ok(s) && s@ == decode_utf8(
            buffer@.subrange(0, required as int),
        )),
{
    if status != OK {
        return Err(status);
    }
    let mut bytes = buffer;
    bytes.truncate(required as usize);
    proof {
        assert(bytes@ =~= buffer@.subrange(0, required as int));
    }
    match utf8_text(bytes) {
        Some(text) => Ok(text),
        None => Err(ERROR),
    }
}

/// The message of a failed host operation without its own message.
pub open spec fn fallback_message(status: Status) -> Seq<char> {
    "host operation failed ("@ + signed_decimal(status as int) + ")"@
}

/// Turns a host status into a result. A failure carries the host's last
/// error for this Mod when it could be read and is not empty, otherwise a
/// message naming the status; its kind follows the status.
pub fn check(status: Status, last_error: Option<String>) -> (r: Result<(), Error>)
    ensures
        r is Ok <==> status == OK,
        r matches Err(e) ==> e.spec_status() == status && e.spec_message() == match last_error {
            Some(m) => if m@.len() > 0 {
                m@
            } else {
                fallback_message(status)
            },
            None => fallback_message(status),
        },
{
    if status == OK {
        return Ok(());
    }
    let message = match last_error {
        Some(text) => {
            if !text.as_str().is_empty() {
                text
            } else {
                fallback_text(status)
            }
        },
        None => fallback_text(status),
    };
    Err(error_from_status(status, message.as_str()))
}

fn fallback_text(status: Status) -> (r: String)
    ensures
        r@ == fallback_message(status),
{
    let mut out: Vec<char> = Vec::new();
    push_str(&mut out, "host operation failed (");
    let digits = signed(status as i64);
    push_chars(&mut out, &digits);
    push_str(&mut out, ")");
    string_of(&out)
}

} // verus!
