use mhf_runtime::sdk::{check, text_request, text_result, TextRead};
use mhf_runtime::status::{error_status, ErrorKind, BUFFER_TOO_SMALL, ERROR, NOT_FOUND, OK};

#[test]
fn host_text_is_read_in_two_calls() {
    assert!(matches!(text_request(OK, 0), TextRead::Empty));
    assert!(matches!(text_request(BUFFER_TOO_SMALL, 12), TextRead::Fetch(12)));
    assert!(matches!(text_request(NOT_FOUND, 12), TextRead::Failed(NOT_FOUND)));
    let text = "name = \"字体\"\n";
    let mut buffer = text.as_bytes().to_vec();
    buffer.extend_from_slice(&[0, 0, 0]);
    assert_eq!(text_result(OK, buffer, text.len() as u32), Ok(text.to_string()));
    assert_eq!(text_result(OK, vec![0xff, 0xfe], 2), Err(ERROR));
    assert_eq!(text_result(NOT_FOUND, Vec::new(), 0), Err(NOT_FOUND));
}

#[test]
fn host_failures_keep_the_hosts_message_and_kind() {
    assert!(check(OK, None).is_ok());
    let error = check(NOT_FOUND, Some("dependency is not declared".into())).unwrap_err();
    assert_eq!(error.kind(), ErrorKind::NotFound);
    assert_eq!(error.text(), "dependency is not declared");
    assert_eq!(check(7, Some(String::new())).unwrap_err().text(), "host operation failed (7)");
    assert_eq!(error_status(&check(7, None).unwrap_err()), 7);
}
