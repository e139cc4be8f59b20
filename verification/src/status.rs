//! Status codes of the host C protocol and the typed errors built on them.

use vstd::prelude::*;
use crate::text::{push_str, push_chars, signed, signed_decimal, string_of};

verus! {

/// A C protocol status. Zero is success; every other value is a failure.
pub type Status = i32;

pub const OK: Status = 0;
pub const ERROR: Status = 1;
pub const BUFFER_TOO_SMALL: Status = 2;
pub const NOT_FOUND: Status = 3;
pub const INVALID_STATE: Status = 4;
pub const CONFLICT: Status = 5;
pub const CANCELLED: Status = 6;

pub const LOG_ERROR: u32 = 0;
pub const LOG_WARN: u32 = 1;
pub const LOG_INFO: u32 = 2;
pub const LOG_DEBUG: u32 = 3;
pub const LOG_TRACE: u32 = 4;

pub const PHASE_PREPARE: u32 = 0;
pub const PHASE_CHECK: u32 = 1;
pub const PHASE_ATTACH: u32 = 2;
pub const PHASE_RUNNING: u32 = 3;
pub const PHASE_STOP: u32 = 4;
pub const PHASE_DETACH: u32 = 5;
pub const PHASE_DESTROY: u32 = 6;

/// The category of a failure, as seen by ordinary callers.
#[derive(Clone, Copy, Debug, PartialEq, Eq, Structural)]
pub enum ErrorKind {
    OperationFailed,
    BufferTooSmall,
    NotFound,
    InvalidState,
    Conflict,
    Other,
}

/// The status that represents each kind of failure.
pub open spec fn kind_status(kind: ErrorKind) -> Status {
    match kind {
        ErrorKind::OperationFailed => ERROR,
        ErrorKind::BufferTooSmall => BUFFER_TOO_SMALL,
        ErrorKind::NotFound => NOT_FOUND,
        ErrorKind::InvalidState => INVALID_STATE,
        ErrorKind::Conflict => CONFLICT,
        ErrorKind::Other => -1i32,
    }
}

/// The kind that a status reports; unknown codes are `Other`.
pub open spec fn status_kind(status: Status) -> ErrorKind {
    if status == ERROR {
        ErrorKind::OperationFailed
    } else if status == BUFFER_TOO_SMALL {
        ErrorKind::BufferTooSmall
    } else if status == NOT_FOUND {
        ErrorKind::NotFound
    } else if status == INVALID_STATE {
        ErrorKind::InvalidState
    } else if status == CONFLICT {
        ErrorKind::Conflict
    } else {
        ErrorKind::Other
    }
}

/// A typed error. The raw code keeps a provider's original failure for ABI
/// forwarding without exposing numeric status codes to ordinary callers.
#[derive(Debug)]
pub struct Error {
    raw_status: Status,
    message: String,
}

impl Error {
    /// A failure never carries the success status.
    #[verifier::type_invariant]
    spec fn never_ok(self) -> bool {
        self.raw_status != OK
    }

    /// The status this failure forwards.
    pub closed spec fn spec_status(self) -> Status {
        self.raw_status
    }

    /// The failure's message.
    pub closed spec fn spec_message(self) -> Seq<char> {
        self.message@
    }

    /// A general operation failure.
    pub fn new(message: &str) -> (r: Error)
        ensures
            r.spec_status() == ERROR,
            r.spec_message() == message@,
            r.kind_spec() == ErrorKind::OperationFailed,
    {
        Error::with_kind(ErrorKind::OperationFailed, message)
    }

    /// A failure of the given kind.
    pub fn with_kind(kind: ErrorKind, message: &str) -> (r: Error)
        ensures
            r.spec_status() == kind_status(kind),
            r.spec_message() == message@,
            kind != ErrorKind::Other ==> r.kind_spec() == kind,
            kind == ErrorKind::Other ==> r.kind_spec() == ErrorKind::Other,
    {
        Error { raw_status: status_for_kind(kind), message: message.to_owned() }
    }

    pub open spec fn kind_spec(&self) -> ErrorKind {
        status_kind(self.spec_status())
    }

    /// The category of this failure.
    pub fn kind(&self) -> (r: ErrorKind)
        ensures
            r == self.kind_spec(),
    {
        kind_for_status(self.raw_status)
    }

    /// The message, as `Display` shows it.
    pub fn text(&self) -> (r: String)
        ensures
            r@ == self.spec_message(),
    {
        self.message.clone()
    }
}

/// The status that represents each kind of failure.
pub fn status_for_kind(kind: ErrorKind) -> (r: Status)
    ensures
        r == kind_status(kind),
{
    match kind {
        ErrorKind::OperationFailed => ERROR,
        ErrorKind::BufferTooSmall => BUFFER_TOO_SMALL,
        ErrorKind::NotFound => NOT_FOUND,
        ErrorKind::InvalidState => INVALID_STATE,
        ErrorKind::Conflict => CONFLICT,
        ErrorKind::Other => -1,
    }
}

/// The kind that a status reports; unknown codes are `Other`.
pub fn kind_for_status(status: Status) -> (r: ErrorKind)
    ensures
        r == status_kind(status),
{
    if status == ERROR {
        ErrorKind::OperationFailed
    } else if status == BUFFER_TOO_SMALL {
        ErrorKind::BufferTooSmall
    } else if status == NOT_FOUND {
        ErrorKind::NotFound
    } else if status == INVALID_STATE {
        ErrorKind::InvalidState
    } else if status == CONFLICT {
        ErrorKind::Conflict
    } else {
        ErrorKind::Other
    }
}

/// Translates a foreign failure without discarding an unknown provider code.
/// A success status cannot describe a failure and becomes `ERROR`.
pub fn error_from_status(status: Status, message: &str) -> (r: Error)
    ensures
        r.spec_status() == (if status == OK { ERROR } else { status }),
        r.spec_message() == message@,
{
    Error { raw_status: if status == OK { ERROR } else { status }, message: message.to_owned() }
}

/// The raw status that an error forwards across the C protocol.
pub fn error_status(error: &Error) -> (r: Status)
    ensures
        r == error.spec_status(),
        r != OK,
{
    proof {
        use_type_invariant(error);
    }
    error.raw_status
}

/// The message of a failed host operation: "<operation> failed (<status>)".
pub open spec fn failure_message(operation: Seq<char>, status: Status) -> Seq<char> {
    operation + " failed ("@ + signed_decimal(status as int) + ")"@
}

/// Converts a C status into a result, naming the operation on failure.
pub fn status_result(status: Status, operation: &str) -> (r: Result<(), Error>)
    ensures
        status == OK <==> r is Ok,
        r matches Err(e) ==> e.spec_status() == status && e.spec_message() == failure_message(
            operation@,
            status,
        ),
{
    if status == OK {
        Ok(())
    } else {
        let mut message: Vec<char> = Vec::new();
        push_str(&mut message, operation);
        push_str(&mut message, " failed (");
        let digits = signed(status as i64);
        push_chars(&mut message, &digits);
        push_str(&mut message, ")");
        proof {
            reveal_strlit(" failed (");
            reveal_strlit(")");
        }
        let message = string_of(&message);
        Err(error_from_status(status, message.as_str()))
    }
}

/// Severity of a host log message.
#[derive(Clone, Copy, Debug, PartialEq, Eq, Structural)]
pub enum LogLevel {
    Error,
    Warn,
    Info,
    Debug,
    Trace,
}

/// The C protocol code of each log level.
pub open spec fn level_code(level: LogLevel) -> u32 {
    match level {
        LogLevel::Error => LOG_ERROR,
        LogLevel::Warn => LOG_WARN,
        LogLevel::Info => LOG_INFO,
        LogLevel::Debug => LOG_DEBUG,
        LogLevel::Trace => LOG_TRACE,
    }
}

/// The C protocol code of a log level, as passed to the host's log callback.
pub fn log_level_code(level: LogLevel) -> (r: u32)
    ensures
        r == level_code(level),
{
    match level {
        LogLevel::Error => LOG_ERROR,
        LogLevel::Warn => LOG_WARN,
        LogLevel::Info => LOG_INFO,
        LogLevel::Debug => LOG_DEBUG,
        LogLevel::Trace => LOG_TRACE,
    }
}

/// A Mod lifecycle phase.
#[derive(Clone, Copy, Debug, PartialEq, Eq, Structural)]
pub enum Phase {
    Prepare,
    Check,
    Attach,
    Running,
    Stop,
    Detach,
    Destroy,
}

/// The C protocol code of each phase.
pub open spec fn phase_code(phase: Phase) -> u32 {
    match phase {
        Phase::Prepare => PHASE_PREPARE,
        Phase::Check => PHASE_CHECK,
        Phase::Attach => PHASE_ATTACH,
        Phase::Running => PHASE_RUNNING,
        Phase::Stop => PHASE_STOP,
        Phase::Detach => PHASE_DETACH,
        Phase::Destroy => PHASE_DESTROY,
    }
}

/// Decodes the phase a host reports. An unknown code is an `InvalidState`
/// error, as the host protocol defines only seven phases.
pub fn phase_from_code(code: u32) -> (r: Result<Phase, Error>)
    ensures
        code <= PHASE_DESTROY <==> r is Ok,
        r matches Ok(p) ==> phase_code(p) == code,
        r matches Err(e) ==> e.spec_status() == INVALID_STATE && e.spec_message() == "host returned an unknown lifecycle phase"@,
{
    proof {
        reveal_strlit("host returned an unknown lifecycle phase");
    }
    if code == PHASE_PREPARE {
        Ok(Phase::Prepare)
    } else if code == PHASE_CHECK {
        Ok(Phase::Check)
    } else if code == PHASE_ATTACH {
        Ok(Phase::Attach)
    } else if code == PHASE_RUNNING {
        Ok(Phase::Running)
    } else if code == PHASE_STOP {
        Ok(Phase::Stop)
    } else if code == PHASE_DETACH {
        Ok(Phase::Detach)
    } else if code == PHASE_DESTROY {
        Ok(Phase::Destroy)
    } else {
        Err(Error::with_kind(ErrorKind::InvalidState, "host returned an unknown lifecycle phase"))
    }
}

/// Every kind that names a protocol status survives the trip through its code.
pub proof fn kind_round_trip(kind: ErrorKind)
    requires
        kind != ErrorKind::Other,
    ensures
        status_kind(kind_status(kind)) == kind,
{
}

/// A failure built from a status never reports success.
pub proof fn foreign_failures_are_failures(status: Status)
    ensures
        (if status == OK { ERROR } else { status }) != OK,
{
}

} // verus!
