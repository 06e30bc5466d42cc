use patchproof_verify::{check_certificate, Status};

const CLASS_A: &str = r#"{
  "claim": {"defect_class": "A"},
  "constraints": [
    {"form": "index - size + 1 <= 0", "multiplier": 1},
    {"form": "- index + size <= 0", "multiplier": 1}
  ]
}"#;

fn entry_message(multiplier: &str) -> String {
    let raw = format!(
        r#"{{"constraints": [{{"form": "x <= 0", "multiplier": {}}}]}}"#,
        multiplier
    );
    let (status, message) = check_certificate(&raw);
    assert_eq!(status, Status::Rejected);
    message
}

#[test]
fn certificate_text_that_proves_its_class_is_verified() {
    let (status, message) = check_certificate(CLASS_A);
    assert_eq!(status, Status::Verified);
    assert_eq!(
        message,
        "replayed: combination is 1 <= 0, a contradiction; constraints match the canonical corrected-AND-NOT-safety forms of class A"
    );
    assert_eq!(status.exit_code(), 0);
}

#[test]
fn certificate_text_without_a_claim_is_unverified() {
    let raw = CLASS_A.replace(r#""claim": {"defect_class": "A"},"#, "");
    let (status, message) = check_certificate(&raw);
    assert_eq!(status, Status::Unverified);
    assert!(message.starts_with("arithmetic replays: the listed inequalities combine to 1 <= 0"));
    assert_eq!(status.exit_code(), 1);
}

#[test]
fn text_that_is_not_json_is_rejected_with_the_parser_reason() {
    for raw in ["", "{", "{\"constraints\": [}", "nul", "[1, 2,]", "{} trailing"] {
        let reason = serde_json::from_str::<serde_json::Value>(raw).unwrap_err().to_string();
        let (status, message) = check_certificate(raw);
        assert_eq!(status, Status::Rejected);
        assert_eq!(message, format!("certificate is not valid JSON: {}", reason));
        assert_eq!(status.exit_code(), 1);
    }
}

#[test]
fn a_json_document_that_is_no_certificate_is_rejected() {
    for raw in ["null", "[]", "{\"constraints\": []}", "{\"constraints\": {}}", "\"A\""] {
        let (status, message) = check_certificate(raw);
        assert_eq!(status, Status::Rejected);
        assert_eq!(message, "malformed certificate: 'constraints' must be a non-empty list");
    }
}

#[test]
fn multipliers_read_from_text_keep_their_kind() {
    assert_eq!(
        entry_message("1.5"),
        "malformed constraint entry 0: multiplier must be an integer, got 1.5"
    );
    assert_eq!(
        entry_message("\"1\""),
        "malformed constraint entry 0: multiplier must be an integer, got \"1\""
    );
    assert_eq!(
        entry_message("{\"b\": 1, \"a\": [true, null]}"),
        "malformed constraint entry 0: multiplier must be an integer, got {\"a\":[true,null],\"b\":1}"
    );
    assert_eq!(
        entry_message(r#""a\"b\\c\u0001\u001f\u00e9\t/""#),
        "malformed constraint entry 0: multiplier must be an integer, got \"a\\\"b\\\\c\\u0001\\u001f\u{e9}\\t/\""
    );
    assert_eq!(
        entry_message("18446744073709551615"),
        "malformed constraint entry 0: multiplier too large"
    );
    assert_eq!(
        entry_message("-1"),
        "negative multiplier: Farkas requires non-negative multipliers"
    );
    assert_eq!(
        entry_message("0"),
        "certificate is empty: every multiplier is zero"
    );
}
