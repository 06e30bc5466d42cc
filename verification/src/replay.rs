//! Checking a whole certificate: its arithmetic, and that it proves the class
//! it claims.

use vstd::prelude::*;

use crate::certificate::{
    canonical, canonical_forms, lemma_accepted_is_infeasible, verify, verify_outcome, views,
};
use crate::form::{eval_form, fault_text, form_text, Form, LinearForm};
use crate::json::{json_error, json_get, json_parsed, json_text, parse_json, push_json, Json, Number};
use crate::parse::{fail_fault, parse_form, parse_text, ParseFail};
use crate::text::{debug_quote, debug_quoted, dec_int, push_u64, str_eq};

verus! {

broadcast use vstd::seq_lib::group_to_multiset_ensures;

/// Outcome of checking a certificate.
#[derive(Debug, Clone, Copy, PartialEq, Eq, Structural)]
pub enum Status {
    /// Arithmetic replays and the constraints match the claimed defect class.
    Verified,
    /// Arithmetic replays, but no claim is bound, so it proves nothing about a
    /// patch. This is not a pass.
    Unverified,
    /// The certificate does not check out.
    Rejected,
}

/// The word a status is displayed as.
pub open spec fn status_text(s: Status) -> Seq<char> {
    match s {
        Status::Verified => "VERIFIED"@,
        Status::Unverified => "UNVERIFIED"@,
        Status::Rejected => "REJECTED"@,
    }
}

impl Status {
    /// Exit code. Only `Verified` succeeds; `Unverified` is a failure, because a
    /// gate that accepted it could be satisfied by a certificate proving nothing.
    pub fn exit_code(self) -> (c: i32)
        ensures
            c == (if self == Status::Verified {
                0i32
            } else {
                1i32
            }),
    {
        match self {
            Status::Verified => 0,
            _ => 1,
        }
    }

    /// The status as `Display` writes it.
    pub fn to_string(&self) -> (r: String)
        ensures
            r@ == status_text(*self),
    {
        match self {
            Status::Verified => String::from_str("VERIFIED"),
            Status::Unverified => String::from_str("UNVERIFIED"),
            Status::Rejected => String::from_str("REJECTED"),
        }
    }
}

/// What constraint entry `i` holds, or the message that rejects it.
pub open spec fn entry_outcome(e: Json, i: int) -> Result<(Form, i64), Seq<char>> {
    let head = "malformed constraint entry "@ + dec_int(i);
    match json_get(e, "form"@) {
        Some(Json::String(t)) => match parse_text(t@) {
            Err(pf) => Err(head + ": "@ + fault_text(fail_fault(t@, pf))),
            Ok(f) => match json_get(e, "multiplier"@) {
                None => Err(head + ": no multiplier"@),
                Some(Json::Number(Number::NegInt(m))) => Ok((f, m)),
                Some(Json::Number(Number::PosInt(u))) => if u <= i64::MAX {
                    Ok((f, u as i64))
                } else {
                    Err(head + ": multiplier too large"@)
                },
                Some(v) => Err(head + ": multiplier must be an integer, got "@ + json_text(v)),
            },
        },
        _ => Err(head + ": 'form' must be a string"@),
    }
}

/// The forms and multipliers of the first `n` entries, or the message that
/// rejects the first bad one.
pub open spec fn entries_outcome(es: Seq<Json>, n: nat) -> Result<(Seq<Form>, Seq<i64>), Seq<char>>
    decreases n,
{
    if n == 0 {
        Ok((Seq::empty(), Seq::empty()))
    } else {
        match entries_outcome(es, (n - 1) as nat) {
            Err(m) => Err(m),
            Ok(p) => match entry_outcome(es[n - 1], n - 1) {
                Err(m) => Err(m),
                Ok(q) => Ok((p.0.push(q.0), p.1.push(q.1))),
            },
        }
    }
}

/// The defect class a certificate claims: a non-empty string at
/// `claim.defect_class`.
pub open spec fn claimed_class(cert: Json) -> Option<Seq<char>> {
    match json_get(cert, "claim"@) {
        Some(c) => match json_get(c, "defect_class"@) {
            Some(Json::String(s)) => if s@.len() > 0 {
                Some(s@)
            } else {
                None
            },
            _ => None,
        },
        None => None,
    }
}

/// What checking a certificate reports.
pub open spec fn replay_outcome(cert: Json) -> (Status, Seq<char>) {
    match json_get(cert, "constraints"@) {
        Some(Json::Array(a)) if a@.len() > 0 => match entries_outcome(a@, a@.len()) {
            Err(m) => (Status::Rejected, m),
            Ok(p) => match verify_outcome(p.0, p.1) {
                Err(f) => (Status::Rejected, fault_text(f)),
                Ok(c) => match claimed_class(cert) {
                    None => (
                        Status::Unverified,
                        "arithmetic replays: the listed inequalities combine to "@ + form_text(c)
                            + UNBOUND_TAIL@,
                    ),
                    Some(class) => match canonical(class) {
                        None => (
                            Status::Unverified,
                            "arithmetic replays, but defect class "@ + debug_quoted(class)
                                + UNKNOWN_CLASS_TAIL@,
                        ),
                        Some(want) => if p.0.to_multiset() == want.to_multiset() {
                            (
                                Status::Verified,
                                "replayed: combination is "@ + form_text(c) + MATCHED_MIDDLE@
                                    + class,
                            )
                        } else {
                            (
                                Status::Rejected,
                                "certificate claims defect class "@ + class + MISMATCH_TAIL@,
                            )
                        },
                    },
                },
            },
        },
        _ => (Status::Rejected, NO_CONSTRAINTS@),
    }
}

pub const NO_CONSTRAINTS: &'static str = "malformed certificate: 'constraints' must be a non-empty list";

pub const UNBOUND_TAIL: &'static str = ", a contradiction. But the certificate names no defect class, so there is nothing to check those inequalities against: this does NOT establish that any patch is complete.";

pub const UNKNOWN_CLASS_TAIL: &'static str = " has no canonical linear form in this verifier (known: A, B, C), so the constraints cannot be checked against the claim.";

pub const MATCHED_MIDDLE: &'static str = ", a contradiction; constraints match the canonical corrected-AND-NOT-safety forms of class ";

pub const MISMATCH_TAIL: &'static str = " but its constraints are not that class's. A contradiction among other inequalities proves nothing about this patch.";


/// Whether two forms have the same coefficients and constant.
fn same_form(a: &LinearForm, b: &LinearForm) -> (r: bool)
    ensures
        r == (a@ == b@),
{
    if a.constant != b.constant || a.coeffs.len() != b.coeffs.len() {
        return false;
    }
    let n = a.coeffs.len();
    let mut i: usize = 0;
    while i < n
        invariant
            n == a@.0.len(),
            n == b@.0.len(),
            i <= n,
            forall|j: int| 0 <= j < i ==> a@.0[j] == #[trigger] b@.0[j],
        decreases n - i,
    {
        let (x, c) = a.coeffs.entry(i);
        let (y, d) = b.coeffs.entry(i);
        if c != d || !str_eq(x, y) {
            return false;
        }
        i = i + 1;
    }
    assert(a@.0 =~= b@.0);
    true
}

/// Whether `got` and `want` hold the same forms, each as often, in any order.
fn same_forms(got: &Vec<LinearForm>, want: &Vec<LinearForm>) -> (r: bool)
    ensures
        r == (views(got@).to_multiset() == views(want@).to_multiset()),
{
    broadcast use vstd::multiset::group_multiset_axioms;

    let mut rest: Vec<LinearForm> = Vec::new();
    let mut k: usize = 0;
    while k < got.len()
        invariant
            k <= got@.len(),
            views(rest@) == views(got@).take(k as int),
        decreases got.len() - k,
    {
        let c = got[k].clone();
        assert(c@ == got@[k as int]@);
        let ghost before = rest@;
        rest.push(c);
        assert(views(rest@) =~= views(before).push(got@[k as int]@));
        assert(views(got@).take(k + 1) =~= views(got@).take(k as int).push(got@[k as int]@));
        assert(views(rest@) =~= views(got@).take(k + 1));
        k = k + 1;
    }
    assert(views(got@).take(got@.len() as int) =~= views(got@));
    let ghost g = views(got@);
    let ghost w = views(want@);
    let mut i: usize = 0;
    assert(w.take(0) =~= Seq::<Form>::empty());
    while i < want.len()
        invariant
            g == views(got@),
            w == views(want@),
            i <= want@.len(),
            views(rest@).to_multiset().add(w.take(i as int).to_multiset()) == g.to_multiset(),
        decreases want.len() - i,
    {
        let mut j: usize = 0;
        let mut found = false;
        while j < rest.len() && !found
            invariant
                j <= rest@.len(),
                i < want@.len(),
                w == views(want@),
                found ==> j < rest@.len() && views(rest@)[j as int] == w[i as int],
                !found ==> forall|q: int| 0 <= q < j ==> #[trigger] views(rest@)[q] != w[i as int],
            decreases rest.len() - j + (if found { 0int } else { 1int }),
        {
            if same_form(&rest[j], &want[i]) {
                found = true;
            } else {
                j = j + 1;
            }
        }
        if !found {
            proof {
                let r = views(rest@);
                if g.to_multiset() == w.to_multiset() {
                    assert(w =~= w.take(i as int) + w.skip(i as int));
                    vstd::seq_lib::lemma_multiset_commutative(w.take(i as int), w.skip(i as int));
                    let t = w.take(i as int);
                    let u = w.skip(i as int);
                    assert forall|x: Form| r.to_multiset().count(x) == #[trigger] u.to_multiset().count(x) by {
                        assert(r.to_multiset().add(t.to_multiset()).count(x) == g.to_multiset().count(x));
                        assert(t.to_multiset().add(u.to_multiset()).count(x) == w.to_multiset().count(x));
                    }
                    assert(r.to_multiset() =~= u.to_multiset());
                    assert(w.skip(i as int)[0] == w[i as int]);
                    assert(w.skip(i as int).contains(w[i as int]));
                    assert(r.to_multiset().count(w[i as int]) > 0);
                    assert(r.contains(w[i as int]));
                }
            }
            return false;
        }
        proof {
            let r = views(rest@);
            assert(views(rest@.remove(j as int)) =~= r.remove(j as int));
            assert(w.take(i + 1) =~= w.take(i as int).push(w[i as int]));
            assert(r.remove(j as int).to_multiset().add(w.take(i + 1).to_multiset()) =~= g.to_multiset());
        }
        rest.remove(j);
        i = i + 1;
    }
    assert(w.take(want@.len() as int) =~= w);
    if rest.len() == 0 {
        assert(views(rest@).to_multiset() =~= vstd::multiset::Multiset::empty());
        assert(g.to_multiset() =~= w.to_multiset());
        true
    } else {
        assert(g.to_multiset().len() > w.to_multiset().len());
        false
    }
}


/// `malformed constraint entry <i>`, the start of every entry's rejection.
fn entry_head(i: usize) -> (r: String)
    ensures
        r@ == "malformed constraint entry "@ + dec_int(i as int),
{
    let mut m = String::from_str("malformed constraint entry ");
    push_u64(&mut m, i as u64);
    m
}

/// Reads constraint entry `i`: its form and its integer multiplier.
fn read_entry(e: &Json, i: usize) -> (r: Result<(LinearForm, i64), String>)
    ensures
        match r {
            Ok(p) => entry_outcome(*e, i as int) == Ok::<(Form, i64), Seq<char>>((p.0@, p.1)),
            Err(m) => entry_outcome(*e, i as int) == Err::<(Form, i64), Seq<char>>(m@),
        },
{
    let text = match e.get("form") {
        Some(Json::String(t)) => t,
        _ => {
            let mut m = entry_head(i);
            m.append(": 'form' must be a string");
            return Err(m);
        },
    };
    let form = match parse_form(text.as_str()) {
        Ok(f) => f,
        Err(err) => {
            let mut m = entry_head(i);
            m.append(": ");
            m.append(err.to_string().as_str());
            return Err(m);
        },
    };
    // A JSON number that is not an integer is refused, never truncated.
    match e.get("multiplier") {
        Some(Json::Number(Number::NegInt(m))) => Ok((form, *m)),
        Some(Json::Number(Number::PosInt(u))) => {
            if *u <= i64::MAX as u64 {
                Ok((form, *u as i64))
            } else {
                let mut m = entry_head(i);
                m.append(": multiplier too large");
                Err(m)
            }
        },
        Some(v) => {
            let mut m = entry_head(i);
            m.append(": multiplier must be an integer, got ");
            push_json(&mut m, v);
            Err(m)
        },
        None => {
            let mut m = entry_head(i);
            m.append(": no multiplier");
            Err(m)
        },
    }
}

/// The defect class the certificate claims, if it names one.
fn claim_of(cert: &Json) -> (r: Option<&str>)
    ensures
        match r {
            Some(c) => claimed_class(*cert) == Some(c@),
            None => claimed_class(*cert) is None,
        },
{
    match cert.get("claim") {
        Some(c) => match c.get("defect_class") {
            Some(Json::String(s)) => if s.as_str().is_empty() {
                None
            } else {
                Some(s.as_str())
            },
            _ => None,
        },
        None => None,
    }
}

/// Check a certificate and, when it names one, that it proves that class.
pub fn replay_bound(cert: &Json) -> (r: (Status, String))
    ensures
        (r.0, r.1@) == replay_outcome(*cert),
{
    let entries = match cert.get("constraints") {
        Some(Json::Array(a)) => {
            if a.len() == 0 {
                return (Status::Rejected, String::from_str(NO_CONSTRAINTS));
            }
            a
        },
        _ => {
            return (Status::Rejected, String::from_str(NO_CONSTRAINTS));
        },
    };
    let ghost es = entries@;
    let mut forms: Vec<LinearForm> = Vec::new();
    let mut mults: Vec<i64> = Vec::new();
    let mut i: usize = 0;
    assert(views(forms@) =~= Seq::<Form>::empty());
    assert(mults@ =~= Seq::<i64>::empty());
    while i < entries.len()
        invariant
            es == entries@,
            es.len() > 0,
            json_get(*cert, "constraints"@) == Some(Json::Array(*entries)),
            i <= es.len(),
            forms@.len() == i,
            mults@.len() == i,
            entries_outcome(es, i as nat) == Ok::<(Seq<Form>, Seq<i64>), Seq<char>>(
                (views(forms@), mults@),
            ),
        decreases entries.len() - i,
    {
        match read_entry(&entries[i], i) {
            Ok(p) => {
                let ghost before = forms@;
                forms.push(p.0);
                mults.push(p.1);
                assert(views(forms@) =~= views(before).push(forms@[i as int]@));
            },
            Err(m) => {
                proof {
                    lemma_entries_err(es, (i + 1) as nat, es.len());
                }
                return (Status::Rejected, m);
            },
        }
        i = i + 1;
    }
    let combined = match verify(forms.as_slice(), mults.as_slice()) {
        Ok(c) => c,
        Err(err) => {
            return (Status::Rejected, err.to_string());
        },
    };
    let class = match claim_of(cert) {
        Some(c) => c,
        None => {
            let mut m = String::from_str("arithmetic replays: the listed inequalities combine to ");
            m.append(combined.render().as_str());
            m.append(UNBOUND_TAIL);
            return (Status::Unverified, m);
        },
    };
    let want = match canonical_forms(class) {
        Some(c) => c,
        None => {
            let mut m = String::from_str("arithmetic replays, but defect class ");
            m.append(debug_quote(class).as_str());
            m.append(UNKNOWN_CLASS_TAIL);
            return (Status::Unverified, m);
        },
    };
    if !same_forms(&forms, &want) {
        let mut m = String::from_str("certificate claims defect class ");
        m.append(class);
        m.append(MISMATCH_TAIL);
        return (Status::Rejected, m);
    }
    let mut m = String::from_str("replayed: combination is ");
    m.append(combined.render().as_str());
    m.append(MATCHED_MIDDLE);
    m.append(class);
    (Status::Verified, m)
}

/// Check a certificate given as JSON text. Text that is not a JSON document
/// is rejected with serde_json's reason; a document is checked as
/// `replay_bound` checks it.
pub fn check_certificate(text: &str) -> (r: (Status, String))
    ensures
        json_parsed(text@) matches Some(v) ==> (r.0, r.1@) == replay_outcome(v),
        json_parsed(text@) is None ==> r.0 == Status::Rejected && r.1@ == "certificate is not valid JSON: "@
            + json_error(text@),
{
    match parse_json(text) {
        Ok(cert) => replay_bound(&cert),
        Err(e) => {
            let mut m = String::from_str("certificate is not valid JSON: ");
            m.append(e.as_str());
            (Status::Rejected, m)
        },
    }
}

proof fn lemma_entries_err(es: Seq<Json>, m: nat, n: nat)
    requires
        m <= n,
        entries_outcome(es, m) is Err,
    ensures
        entries_outcome(es, n) is Err,
        entries_outcome(es, n) == entries_outcome(es, m),
    decreases n,
{
    if n > m {
        lemma_entries_err(es, m, (n - 1) as nat);
    }
}


/// A VERIFIED certificate names a defect class; its constraints are exactly
/// that class's canonical forms (as a multiset: in any order); and those forms
/// cannot all hold at once: under every assignment of integers to the
/// variables, some canonical form of the class is violated.
pub proof fn lemma_verified_proves_its_class(cert: Json, x: spec_fn(Seq<char>) -> int)
    requires
        replay_outcome(cert).0 == Status::Verified,
    ensures
        claimed_class(cert) is Some,
        canonical(claimed_class(cert)->0) is Some,
        ({
            let want = canonical(claimed_class(cert)->0)->0;
            let a = json_get(cert, "constraints"@)->0->Array_0@;
            let forms = entries_outcome(a, a.len())->Ok_0.0;
            &&& forms.to_multiset() == want.to_multiset()
            &&& exists|i: int| 0 <= i < want.len() && eval_form(#[trigger] want[i], x) > 0
        }),
{
    let a = json_get(cert, "constraints"@)->0->Array_0@;
    let p = entries_outcome(a, a.len())->Ok_0;
    let want = canonical(claimed_class(cert)->0)->0;
    lemma_accepted_is_infeasible(p.0, p.1, x);
    let i = choose|i: int| 0 <= i < p.0.len() && eval_form(#[trigger] p.0[i], x) > 0;
    assert(p.0.contains(p.0[i]));
    assert(want.to_multiset().count(p.0[i]) > 0);
    assert(want.contains(p.0[i]));
}

/// An UNVERIFIED certificate's arithmetic does replay (all entries read, and
/// the multipliers combine them into a contradiction), but it binds no class
/// this checker knows.
pub proof fn lemma_unverified_replays_but_binds_nothing(cert: Json)
    requires
        replay_outcome(cert).0 == Status::Unverified,
    ensures
        json_get(cert, "constraints"@) matches Some(Json::Array(a)) && entries_outcome(a@, a@.len())
            matches Ok(p) && verify_outcome(p.0, p.1) is Ok,
        claimed_class(cert) is None || canonical(claimed_class(cert)->0) is None,
{
}

/// A certificate that proves its class is VERIFIED: when every constraint
/// entry reads, the arithmetic replays, and the forms read are, in any order
/// and each as often, exactly the canonical forms of the class the
/// certificate claims, the status is VERIFIED and the message names the
/// combination and the class.
pub proof fn lemma_matching_class_is_verified(cert: Json, class: Seq<char>)
    requires
        ({
            &&& json_get(cert, "constraints"@) matches Some(Json::Array(a))
            &&& a@.len() > 0
            &&& entries_outcome(a@, a@.len()) matches Ok(p)
            &&& verify_outcome(p.0, p.1) is Ok
            &&& canonical(class) matches Some(want)
            &&& p.0.to_multiset() == want.to_multiset()
        }),
        claimed_class(cert) == Some(class),
    ensures
        ({
            let a = json_get(cert, "constraints"@)->0->Array_0@;
            let p = entries_outcome(a, a.len())->Ok_0;
            let c = verify_outcome(p.0, p.1)->Ok_0;
            replay_outcome(cert) == (
                Status::Verified,
                "replayed: combination is "@ + form_text(c) + MATCHED_MIDDLE@ + class,
            )
        }),
{
}

/// Constraint entry `e` holds the form `f` with the multiplier `m`: its
/// `form` member is a text the reader takes as `f`, and its `multiplier`
/// member is the integer `m`, as JSON holds it (a negative integer, or a
/// non-negative one).
pub open spec fn entry_holds(e: Json, f: Form, m: i64) -> bool {
    &&& json_get(e, "form"@) matches Some(Json::String(t)) && parse_text(t@) == Ok::<Form, ParseFail>(f)
    &&& {
        ||| json_get(e, "multiplier"@) == Some(Json::Number(Number::NegInt(m)))
        ||| m >= 0 && json_get(e, "multiplier"@) == Some(Json::Number(Number::PosInt(m as u64)))
    }
}

/// Every entry that holds a form and a multiplier is read as that form and
/// that multiplier, whatever its place in the list.
pub proof fn lemma_good_entry_is_read(e: Json, i: int, f: Form, m: i64)
    requires
        entry_holds(e, f, m),
    ensures
        entry_outcome(e, i) == Ok::<(Form, i64), Seq<char>>((f, m)),
{
}

proof fn lemma_good_entries_are_read(a: Seq<Json>, forms: Seq<Form>, mults: Seq<i64>, n: nat)
    requires
        n <= a.len(),
        a.len() == forms.len(),
        a.len() == mults.len(),
        forall|i: int| 0 <= i < a.len() ==> #[trigger] entry_holds(a[i], forms[i], mults[i]),
    ensures
        entries_outcome(a, n) == Ok::<(Seq<Form>, Seq<i64>), Seq<char>>(
            (forms.take(n as int), mults.take(n as int)),
        ),
    decreases n,
{
    if n > 0 {
        lemma_good_entries_are_read(a, forms, mults, (n - 1) as nat);
        assert(entry_holds(a[n - 1], forms[n - 1], mults[n - 1]));
        lemma_good_entry_is_read(a[n - 1], n - 1, forms[n - 1], mults[n - 1]);
        assert(forms.take(n - 1).push(forms[n - 1]) =~= forms.take(n as int));
        assert(mults.take(n - 1).push(mults[n - 1]) =~= mults.take(n as int));
    } else {
        assert(forms.take(0) =~= Seq::<Form>::empty());
        assert(mults.take(0) =~= Seq::<i64>::empty());
    }
}

/// A certificate whose every constraint entry holds a form and a multiplier,
/// whose arithmetic replays, and whose forms are, in any order and each as
/// often, the canonical forms of the class it claims, is VERIFIED, with the
/// message that names the combination and the class.
pub proof fn lemma_proving_certificate_is_verified(
    cert: Json,
    forms: Seq<Form>,
    mults: Seq<i64>,
    class: Seq<char>,
)
    requires
        ({
            &&& json_get(cert, "constraints"@) matches Some(Json::Array(a))
            &&& a@.len() == forms.len()
            &&& forall|i: int| 0 <= i < a@.len() ==> #[trigger] entry_holds(a@[i], forms[i], mults[i])
        }),
        forms.len() == mults.len(),
        forms.len() > 0,
        verify_outcome(forms, mults) is Ok,
        claimed_class(cert) == Some(class),
        canonical(class) matches Some(want) && forms.to_multiset() == want.to_multiset(),
    ensures
        replay_outcome(cert) == (
            Status::Verified,
            "replayed: combination is "@ + form_text(verify_outcome(forms, mults)->Ok_0)
                + MATCHED_MIDDLE@ + class,
        ),
{
    let a = json_get(cert, "constraints"@)->0->Array_0@;
    lemma_good_entries_are_read(a, forms, mults, a.len());
    assert(forms.take(forms.len() as int) =~= forms);
    assert(mults.take(mults.len() as int) =~= mults);
    lemma_matching_class_is_verified(cert, class);
}

/// What a certificate whose entries all hold forms and multipliers earns:
/// when its arithmetic replays, VERIFIED if its forms are those of the class
/// it claims, REJECTED if they are not, and UNVERIFIED when it claims no class
/// or one without canonical forms; when its arithmetic does not replay,
/// REJECTED whatever it claims.
pub proof fn lemma_status_of_readable_certificate(cert: Json, forms: Seq<Form>, mults: Seq<i64>)
    requires
        ({
            &&& json_get(cert, "constraints"@) matches Some(Json::Array(a))
            &&& a@.len() == forms.len()
            &&& forall|i: int| 0 <= i < a@.len() ==> #[trigger] entry_holds(a@[i], forms[i], mults[i])
        }),
        forms.len() == mults.len(),
        forms.len() > 0,
    ensures
        verify_outcome(forms, mults) is Err ==> replay_outcome(cert).0 == Status::Rejected,
        verify_outcome(forms, mults) is Ok ==> replay_outcome(cert).0 == match claimed_class(cert) {
            None => Status::Unverified,
            Some(class) => match canonical(class) {
                None => Status::Unverified,
                Some(want) => if forms.to_multiset() == want.to_multiset() {
                    Status::Verified
                } else {
                    Status::Rejected
                },
            },
        },
{
    let a = json_get(cert, "constraints"@)->0->Array_0@;
    lemma_good_entries_are_read(a, forms, mults, a.len());
    assert(forms.take(forms.len() as int) =~= forms);
    assert(mults.take(mults.len() as int) =~= mults);
}

} // verus!
