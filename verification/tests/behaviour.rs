use patchproof_verify::{
    canonical_forms, parse_form, replay_bound, verify, Json, LinearForm, Number, Status, VerifyError,
};

fn text(t: &str) -> Json {
    Json::String(t.to_string())
}

fn number(i: i64) -> Json {
    if i >= 0 {
        Json::Number(Number::PosInt(i as u64))
    } else {
        Json::Number(Number::NegInt(i))
    }
}

fn object(members: Vec<(&str, Json)>) -> Json {
    Json::Object(members.into_iter().map(|(k, v)| (k.to_string(), v)).collect())
}

fn entry(form: &str, multiplier: Json) -> Json {
    object(vec![("form", text(form)), ("multiplier", multiplier)])
}

fn cert(class: Option<&str>, constraints: Vec<Json>) -> Json {
    let mut members = Vec::new();
    if let Some(c) = class {
        members.push(("claim", object(vec![("defect_class", text(c))])));
    }
    members.push(("constraints", Json::Array(constraints)));
    object(members)
}

fn class_a(first: i64, second: i64) -> Vec<Json> {
    vec![
        entry("index - size + 1 <= 0", number(first)),
        entry("- index + size <= 0", number(second)),
    ]
}

fn parse_message(t: &str) -> String {
    match parse_form(t) {
        Err(e) => e.to_string(),
        Ok(f) => panic!("accepted {:?} as {}", t, f.render()),
    }
}

#[test]
fn render_writes_terms_in_name_order() {
    assert_eq!(parse_form("index - size + 1 <= 0").unwrap().render(), "index - size + 1 <= 0");
    assert_eq!(parse_form("- 3*b + 2*a <= 0").unwrap().render(), "2*a - 3*b <= 0");
    assert_eq!(parse_form("- x - 7 <= 0").unwrap().render(), "- x - 7 <= 0");
    assert_eq!(parse_form("5 <= 0").unwrap().render(), "5 <= 0");
    assert_eq!(parse_form("-12 <= 0").unwrap().render(), "-12 <= 0");
    assert_eq!(LinearForm::new().render(), "0 <= 0");
}

#[test]
fn cancelling_terms_leave_nothing() {
    let f = parse_form("x - x + 0*y <= 0").unwrap();
    assert!(f.coeffs.is_empty());
    assert_eq!(f, parse_form("0 <= 0").unwrap());
}

#[test]
fn repeated_variables_add_up() {
    let f = parse_form("x + 2 * x - 4 + 1 <= 0").unwrap();
    assert_eq!(f.coeffs.get("x"), Some(&3));
    assert_eq!(f.constant, -3);
}

#[test]
fn unicode_whitespace_is_whitespace() {
    let f = parse_form("\u{a0}x\u{3000}-\ty <=\u{2003}0 ").unwrap();
    assert_eq!(f.coeffs.get("x"), Some(&1));
    assert_eq!(f.coeffs.get("y"), Some(&-1));
}

#[test]
fn spacing_around_operators_changes_nothing() {
    let tight = parse_form("-3*x+y-2*z+7<=0").unwrap();
    for spaced in [
        " -3*x+y-2*z+7<=0",
        "-3*x+y-2*z+7<=0\t",
        "- 3*x+y-2*z+7<=0",
        "-3 *x+y-2*z+7<=0",
        "-3* x+y-2*z+7<=0",
        "-3*x +y-2*z+7<=0",
        "-3*x+ y-2*z+7<=0",
        "-3*x+y-2*z+7 <=0",
        "-3*x+y-2*z+7<= 0",
        "\u{2003}- 3 * x + y - 2 * z + 7 <=\u{a0}0\n",
    ] {
        assert_eq!(parse_form(spaced).unwrap(), tight, "{:?}", spaced);
    }
    for refused in ["x*y<=0", "2x<=0", "x<=-0", "+<=0"] {
        assert!(parse_form(refused).is_err());
        assert!(parse_form(&refused.replace('<', " <")).is_err());
        assert!(parse_form(&refused.replacen('=', "= ", 1)).is_err());
    }
    assert!(parse_form("x*y<=0").is_err() && parse_form("x *y<=0").is_err());
    assert!(parse_form("x< =0").is_err());
}

#[test]
fn parse_errors_say_where_and_why() {
    assert_eq!(
        parse_message("@@@ <= 0"),
        "unparseable form \"@@@ <= 0\": cannot read a term at offset 0"
    );
    assert_eq!(
        parse_message("x <= 0 <= 0"),
        "unparseable form \"x <= 0 <= 0\": expected exactly one '<=' relation"
    );
    assert_eq!(
        parse_message("x <= 1"),
        "unparseable form \"x <= 1\": right-hand side must be exactly 0, got \"1\""
    );
    assert_eq!(parse_message("  <= 0"), "unparseable form \"  <= 0\": empty left-hand side");
    assert_eq!(
        parse_message("x y <= 0"),
        "unparseable form \"x y <= 0\": missing '+' or '-' before offset 2"
    );
    assert_eq!(
        parse_message("2*3 <= 0"),
        "unparseable form \"2*3 <= 0\": cannot read a term at offset 2"
    );
    assert_eq!(
        parse_message("99999999999999999999*x <= 0"),
        "coefficient \"99999999999999999999\" does not fit in i64"
    );
    assert_eq!(
        parse_message("- 9223372036854775808 <= 0"),
        "integer \"9223372036854775808\" does not fit in i64"
    );
    assert_eq!(parse_message("a\"b <= 0"), "unparseable form \"a\\\"b <= 0\": missing '+' or '-' before offset 1");
}

#[test]
fn summing_terms_past_i64_is_an_overflow() {
    assert_eq!(parse_form("9223372036854775807 + 1 <= 0"), Err(VerifyError::Overflow));
    assert_eq!(parse_form("9223372036854775807*x + x <= 0"), Err(VerifyError::Overflow));
    assert!(parse_form("9223372036854775807 - 1 <= 0").is_ok());
}

#[test]
fn scale_and_add_are_exact_or_fail() {
    let f = parse_form("2*x - y + 3 <= 0").unwrap();
    let g = f.scale(3).unwrap();
    assert_eq!(g.render(), "6*x - 3*y + 9 <= 0");
    assert!(f.scale(0).unwrap().coeffs.is_empty());
    let h = parse_form("- 2*x + z <= 0").unwrap();
    assert_eq!(f.add(&h).unwrap().render(), "- y + z + 3 <= 0");
    let big = parse_form("9223372036854775807*x <= 0").unwrap();
    assert_eq!(big.add(&big), Err(VerifyError::Overflow));
    assert_eq!(parse_form("9223372036854775807 <= 0").unwrap().scale(-2), Err(VerifyError::Overflow));
    assert_eq!(LinearForm::default(), LinearForm::new());
}

#[test]
fn verify_reports_each_failure() {
    let a = canonical_forms("A").unwrap();
    let msg = |r: Result<LinearForm, VerifyError>| r.unwrap_err().to_string();
    assert_eq!(msg(verify(&a, &[1])), "certificate has 1 multipliers for 2 constraints");
    assert_eq!(
        msg(verify(&a, &[1, -1])),
        "negative multiplier: Farkas requires non-negative multipliers"
    );
    assert_eq!(msg(verify(&a, &[0, 0])), "certificate is empty: every multiplier is zero");
    assert_eq!(msg(verify(&a, &[2, 1])), "variables did not cancel: index(1), size(-1)");
    let b = vec![parse_form("x <= 0").unwrap(), parse_form("- x <= 0").unwrap()];
    assert_eq!(
        msg(verify(&b, &[1, 1])),
        "combination yields 0 <= 0, which is satisfiable; no contradiction"
    );
    let c = vec![parse_form("9223372036854775807 <= 0").unwrap()];
    assert_eq!(verify(&c, &[2]), Err(VerifyError::Overflow));
    assert!(VerifyError::Overflow.to_string().starts_with("integer overflow"));
    assert_eq!(verify(&a, &[3, 3]).unwrap().render(), "3 <= 0");
}

#[test]
fn canonical_forms_are_held_here() {
    assert!(canonical_forms("Z").is_none());
    assert!(canonical_forms("").is_none());
    let b = canonical_forms("B").unwrap();
    assert_eq!(b[0].render(), "payload - record + 8 <= 0");
    assert_eq!(b[1].render(), "- payload + record - 7 <= 0");
    let c = canonical_forms("C").unwrap();
    assert_eq!(c[0].render(), "sel - 19 <= 0");
    assert_eq!(c[1].render(), "- sel + 20 <= 0");
}

#[test]
fn verified_message_names_the_combination_and_class() {
    let (status, msg) = replay_bound(&cert(Some("A"), class_a(1, 1)));
    assert_eq!(status, Status::Verified);
    assert_eq!(
        msg,
        "replayed: combination is 1 <= 0, a contradiction; constraints match the canonical corrected-AND-NOT-safety forms of class A"
    );
    assert_eq!(status.exit_code(), 0);
    assert_eq!(status.to_string(), "VERIFIED");
}

#[test]
fn constraint_order_does_not_matter() {
    let mut c = class_a(1, 1);
    c.reverse();
    assert_eq!(replay_bound(&cert(Some("A"), c)).0, Status::Verified);
}

#[test]
fn a_tampered_multiplier_is_rejected() {
    let (status, msg) = replay_bound(&cert(Some("A"), class_a(2, 1)));
    assert_eq!(status, Status::Rejected);
    assert_eq!(msg, "variables did not cancel: index(1), size(-1)");
    assert_eq!(status.to_string(), "REJECTED");
}

#[test]
fn an_unknown_class_is_unverified() {
    let (status, msg) = replay_bound(&cert(Some("Z"), class_a(1, 1)));
    assert_eq!(status, Status::Unverified);
    assert!(msg.starts_with("arithmetic replays, but defect class \"Z\" has no canonical"));
    assert_eq!(status.to_string(), "UNVERIFIED");
    let (status, msg) = replay_bound(&cert(Some(""), class_a(1, 1)));
    assert_eq!(status, Status::Unverified);
    assert!(msg.starts_with("arithmetic replays: the listed inequalities combine to 1 <= 0, a contradiction."));
}

#[test]
fn extra_constraints_break_the_class_binding() {
    let mut c = class_a(1, 1);
    c.push(entry("q <= 0", number(0)));
    let (status, msg) = replay_bound(&cert(Some("A"), c));
    assert_eq!(status, Status::Rejected);
    assert!(msg.starts_with("certificate claims defect class A but its constraints are not that class's."));
}

#[test]
fn malformed_entries_are_rejected_with_their_index() {
    let (s, m) = replay_bound(&object(vec![("constraints", Json::Array(vec![]))]));
    assert_eq!(s, Status::Rejected);
    assert_eq!(m, "malformed certificate: 'constraints' must be a non-empty list");
    assert_eq!(replay_bound(&Json::Null).0, Status::Rejected);

    let mut c = class_a(1, 1);
    c[1] = object(vec![("form", number(3)), ("multiplier", number(1))]);
    let (_, m) = replay_bound(&cert(None, c));
    assert_eq!(m, "malformed constraint entry 1: 'form' must be a string");

    let mut c = class_a(1, 1);
    c[0] = object(vec![("form", text("x <= 0"))]);
    let (_, m) = replay_bound(&cert(None, c));
    assert_eq!(m, "malformed constraint entry 0: no multiplier");

    let c = vec![entry("x <= 0", Json::Number(Number::PosInt(u64::MAX)))];
    let (_, m) = replay_bound(&cert(None, c));
    assert_eq!(m, "malformed constraint entry 0: multiplier too large");

    let c = vec![entry("x <= 0", text("1"))];
    let (_, m) = replay_bound(&cert(None, c));
    assert_eq!(m, "malformed constraint entry 0: multiplier must be an integer, got \"1\"");

    let c = vec![entry(
        "x <= 0",
        Json::Array(vec![Json::Bool(true), Json::Null, object(vec![("k\n", number(-2))])]),
    )];
    let (_, m) = replay_bound(&cert(None, c));
    assert_eq!(
        m,
        "malformed constraint entry 0: multiplier must be an integer, got [true,null,{\"k\\n\":-2}]"
    );

    let c = vec![entry("x <= 0", Json::Number(Number::Float(1.5f64.to_string())))];
    let (_, m) = replay_bound(&cert(None, c));
    assert_eq!(m, "malformed constraint entry 0: multiplier must be an integer, got 1.5");

    let c = vec![entry("@@@ <= 0", number(1))];
    let (_, m) = replay_bound(&cert(None, c));
    assert_eq!(
        m,
        "malformed constraint entry 0: unparseable form \"@@@ <= 0\": cannot read a term at offset 0"
    );
}

#[test]
fn json_members_are_found_by_name() {
    let v = object(vec![("a", number(1)), ("b", text("x"))]);
    assert!(matches!(v.get("b"), Some(Json::String(s)) if s == "x"));
    assert!(v.get("c").is_none());
    assert!(Json::Array(vec![]).get("a").is_none());
}

#[test]
fn coefficient_map_keeps_names_in_order() {
    let mut f = LinearForm::new();
    assert_eq!(f.coeffs.insert("z".to_string(), 1), None);
    assert_eq!(f.coeffs.insert("a".to_string(), 2), None);
    assert_eq!(f.coeffs.insert("z".to_string(), 5), Some(1));
    assert_eq!(f.coeffs.len(), 2);
    assert_eq!(f.render(), "2*a + 5*z <= 0");
    assert_eq!(f.clone(), f);
}

#[test]
fn what_render_writes_parses_back() {
    let mut f = LinearForm::new();
    f.coeffs.insert("size".to_string(), -1);
    f.coeffs.insert("index".to_string(), 1);
    f.coeffs.insert("_k9".to_string(), i64::MAX);
    f.coeffs.insert("z".to_string(), -i64::MAX);
    f.constant = i64::MIN + 1;
    assert_eq!(parse_form(&f.render()), Ok(f.clone()));
    let g = parse_form("7 <= 0").unwrap();
    assert_eq!(parse_form(&g.render()), Ok(g));
    let mut h = LinearForm::new();
    h.constant = i64::MIN;
    assert!(parse_form(&h.render()).is_err());
}

fn value_of(f: &LinearForm, names: &[&str], xs: &[i64]) -> i128 {
    let mut v = f.constant as i128;
    for (n, x) in names.iter().zip(xs) {
        if let Some(c) = f.coeffs.get(n) {
            v += (*c as i128) * (*x as i128);
        }
    }
    v
}

#[test]
fn an_accepted_certificate_has_no_solution() {
    let cases: [(&str, [&str; 2]); 3] =
        [("A", ["index", "size"]), ("B", ["payload", "record"]), ("C", ["sel", "sel"])];
    for (class, names) in cases {
        let forms = canonical_forms(class).unwrap();
        let combined = verify(&forms, &vec![1; forms.len()]).unwrap();
        assert!(combined.coeffs.is_empty());
        for a in -30..30 {
            for b in -30..30 {
                let xs = if names[0] == names[1] { [a, a] } else { [a, b] };
                let names_used: &[&str] = if names[0] == names[1] { &names[..1] } else { &names };
                let violated = forms
                    .iter()
                    .any(|f| value_of(f, names_used, &xs[..names_used.len()]) > 0);
                assert!(violated, "class {} satisfied at {:?}", class, xs);
            }
        }
        // The weighted constants sum to the contradiction's constant.
        let total: i64 = forms.iter().map(|f| f.constant).sum();
        assert_eq!(total, combined.constant);
    }
}
