use share_count::entrypoint::{AppError, ErrorKind};

#[test]
fn not_found_is_404() {
    let (status, body) = AppError::not_found().convert_message();
    assert_eq!(status, 404);
    assert_eq!(body, r#"{"content":null,"message":"Record not found"}"#);
}

#[test]
fn validation_is_500_with_the_rule_as_content() {
    let error = AppError::validation("An amount should be strictly positive".to_string());
    assert_eq!(error.kind, ErrorKind::Validation);
    let (status, body) = error.convert_message();
    assert_eq!(status, 500);
    assert_eq!(
        body,
        r#"{"content":"An amount should be strictly positive","message":"500 Internal Server Error"}"#
    );
}

#[test]
fn storage_is_500() {
    let (status, body) = AppError::storage("connection lost".to_string()).convert_message();
    assert_eq!(status, 500);
    assert_eq!(body, r#"{"content":null,"message":"connection lost"}"#);
}

#[test]
fn message_is_escaped_as_json() {
    let error = AppError::storage("bad \"quote\"\nand \\ tab\t".to_string());
    let body = error.message();
    assert_eq!(body, r#"{"content":null,"message":"bad \"quote\"\nand \\ tab\t"}"#);
    let parsed: serde_json::Value = serde_json::from_str(&body).expect("valid JSON");
    assert_eq!(parsed["message"], "bad \"quote\"\nand \\ tab\t");
    assert!(parsed["content"].is_null());
}

#[test]
fn content_is_escaped_as_json() {
    let error = AppError::validation("say \"no\"".to_string());
    let parsed: serde_json::Value = serde_json::from_str(&error.message()).expect("valid JSON");
    assert_eq!(parsed["content"], "say \"no\"");
}
