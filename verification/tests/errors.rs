use mhf_runtime::status::{
    error_from_status, error_status, kind_for_status, log_level_code, phase_from_code,
    status_for_kind, status_result, Error, ErrorKind, LogLevel, Phase, CONFLICT, LOG_WARN, OK,
    PHASE_RUNNING,
};

#[test]
fn typed_errors_preserve_known_and_foreign_failure_codes() {
    let error = Error::with_kind(ErrorKind::Conflict, "duplicate hook");
    assert_eq!(error.kind(), ErrorKind::Conflict);
    assert_eq!(error_status(&error), CONFLICT);
    let foreign = error_from_status(42, "provider detail");
    assert_eq!(foreign.kind(), ErrorKind::Other);
    assert_eq!(foreign.text(), "provider detail");
    assert_eq!(error_status(&foreign), 42);
    assert_eq!(error_from_status(OK, "failure").kind(), ErrorKind::OperationFailed);
}

#[test]
fn every_known_kind_survives_the_status_round_trip() {
    for kind in [
        ErrorKind::OperationFailed,
        ErrorKind::BufferTooSmall,
        ErrorKind::NotFound,
        ErrorKind::InvalidState,
        ErrorKind::Conflict,
    ] {
        assert_eq!(kind_for_status(status_for_kind(kind)), kind);
    }
}

#[test]
fn failed_statuses_name_their_operation() {
    assert!(status_result(OK, "enable").is_ok());
    let error = status_result(5, "enable").unwrap_err();
    assert_eq!(error.text(), "enable failed (5)");
    assert_eq!(error.kind(), ErrorKind::Conflict);
    assert_eq!(status_result(-3, "drain").unwrap_err().text(), "drain failed (-3)");
}

#[test]
fn levels_and_phases_use_the_c_codes() {
    assert_eq!(log_level_code(LogLevel::Warn), LOG_WARN);
    assert_eq!(phase_from_code(PHASE_RUNNING).unwrap(), Phase::Running);
    let unknown = phase_from_code(99).unwrap_err();
    assert_eq!(unknown.kind(), ErrorKind::InvalidState);
    assert_eq!(unknown.text(), "host returned an unknown lifecycle phase");
}
