use patchproof_verify::{
    canonical_forms, parse_form, replay_bound, verify, Json, LinearForm, Number, Status, VerifyError,
};

fn text(t: &str) -> Json {
    Json::String(t.to_string())
}

fn integer(i: i64) -> Json {
    if i >= 0 {
        Json::Number(Number::PosInt(i as u64))
    } else {
        Json::Number(Number::NegInt(i))
    }
}

fn object(members: Vec<(&str, Json)>) -> Json {
    Json::Object(members.into_iter().map(|(k, v)| (k.to_string(), v)).collect())
}

fn constraint(form: &str, multiplier: Json) -> Json {
    object(vec![("form", text(form)), ("multiplier", multiplier)])
}

fn certificate(class: Option<&str>, constraints: Vec<Json>) -> Json {
    let mut members = Vec::new();
    if let Some(c) = class {
        members.push(("claim", object(vec![("defect_class", text(c))])));
    }
    members.push(("constraints", Json::Array(constraints)));
    object(members)
}

#[test]
fn parses_a_real_form() {
    let f = parse_form("index - size + 1 <= 0").unwrap();
    assert_eq!(f.coeffs.get("index"), Some(&1));
    assert_eq!(f.coeffs.get("size"), Some(&-1));
    assert_eq!(f.constant, 1);
}

#[test]
fn parses_coefficients() {
    let f = parse_form("2*a - 3*b <= 0").unwrap();
    assert_eq!(f.coeffs.get("a"), Some(&2));
    assert_eq!(f.coeffs.get("b"), Some(&-3));
}

#[test]
fn rejects_garbage_rather_than_coercing_it() {
    for bad in [
        "@@@ <= 0",
        "1e9 <= 0",
        "x ++ y <= 0",
        "x <= 0 <= 0",
        "x & y <= 0",
        "x <= 1",
        "x >= 0",
        "<= 0",
        "",
        "x y <= 0",
    ] {
        assert!(parse_form(bad).is_err(), "accepted garbage: {:?}", bad);
    }
}

#[test]
fn overflow_is_an_error_not_a_wrap() {
    let mut f = LinearForm::new();
    f.coeffs.insert("x".into(), i64::MAX);
    assert_eq!(f.scale(2), Err(VerifyError::Overflow));
}

#[test]
fn a_genuine_class_a_certificate_verifies() {
    let cert = certificate(
        Some("A"),
        vec![
            constraint("index - size + 1 <= 0", integer(1)),
            constraint("- index + size <= 0", integer(1)),
        ],
    );
    assert_eq!(replay_bound(&cert).0, Status::Verified);
}

#[test]
fn an_unbound_certificate_is_unverified_not_verified() {
    let cert = certificate(
        None,
        vec![constraint("x + 1 <= 0", integer(1)), constraint("- x <= 0", integer(1))],
    );
    let (status, msg) = replay_bound(&cert);
    assert_eq!(status, Status::Unverified);
    assert_ne!(status, Status::Verified);
    assert!(msg.contains("does NOT establish"));
    assert_eq!(status.exit_code(), 1);
}

#[test]
fn the_forged_certificate_that_once_verified_is_rejected() {
    let cert = certificate(
        None,
        vec![constraint("@@@ <= 0", integer(1)), constraint("5 <= 0", integer(1))],
    );
    assert_eq!(replay_bound(&cert).0, Status::Rejected);
}

#[test]
fn a_relabelled_certificate_is_rejected() {
    let cert = certificate(
        Some("C"),
        vec![
            constraint("index - size + 1 <= 0", integer(1)),
            constraint("- index + size <= 0", integer(1)),
        ],
    );
    assert_eq!(replay_bound(&cert).0, Status::Rejected);
}

#[test]
fn float_multipliers_are_rejected_not_truncated() {
    let cert = certificate(
        Some("A"),
        vec![
            constraint(
                "index - size + 1 <= 0",
                Json::Number(Number::Float(1.5f64.to_string())),
            ),
            constraint("- index + size <= 0", integer(1)),
        ],
    );
    let (status, msg) = replay_bound(&cert);
    assert_eq!(status, Status::Rejected);
    assert!(msg.contains("integer"));
}

#[test]
fn negative_multipliers_are_rejected() {
    let cert = certificate(
        None,
        vec![constraint("x + 1 <= 0", integer(-1)), constraint("- x <= 0", integer(1))],
    );
    assert_eq!(replay_bound(&cert).0, Status::Rejected);
}

#[test]
fn every_shipped_class_has_a_verifying_certificate() {
    for class in ["A", "B", "C"] {
        let forms = canonical_forms(class).unwrap();
        let combined = verify(&forms, &vec![1; forms.len()]).unwrap();
        assert!(combined.constant > 0, "class {} does not combine", class);
    }
}
