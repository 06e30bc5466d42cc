//! Replaying a certificate's arithmetic, and the defect classes it may claim.

use vstd::prelude::*;

use crate::form::{
    coef, lemma_add_pointwise, lemma_scale_pointwise, add_form, drop_zeros, eval_form, eval_terms, lemma_eval_add, lemma_eval_scale, scale_form,
    sorted, upsert, Fault, Form, LinearForm, Terms, VerifyError, fits, lemma_find_sorted, no_zeros,
    lemma_coef_drop_zeros, lemma_drop_zeros, lemma_find_upsert, lemma_upsert_sorted,
};
use crate::text::{dec_int, push_char, push_i64, push_u64, str_eq};

verus! {

/// The sum of the first `n` forms, each scaled by its multiplier (zero
/// multipliers skipped), or `None` when a step leaves `i64`.
pub open spec fn combine(forms: Seq<Form>, mults: Seq<i64>, n: nat) -> Option<Form>
    decreases n,
{
    if n == 0 {
        Some((Seq::empty(), 0))
    } else {
        match combine(forms, mults, (n - 1) as nat) {
            None => None,
            Some(c) => if mults[n - 1] == 0 {
                Some(c)
            } else {
                match scale_form(forms[n - 1], mults[n - 1]) {
                    None => None,
                    Some(s) => add_form(c, s),
                }
            },
        }
    }
}

/// `name(coeff), name(coeff), ...` for the variables that did not cancel.
pub open spec fn survivors_text(s: Terms) -> Seq<char>
    decreases s.len(),
{
    if s.len() == 0 {
        Seq::empty()
    } else {
        let item = s.last().0 + seq!['('] + dec_int(s.last().1 as int) + seq![')'];
        if s.len() == 1 {
            item
        } else {
            survivors_text(s.drop_last()) + seq![',', ' '] + item
        }
    }
}

/// What `verify` returns: the combination when it is a contradiction, else
/// why not.
pub open spec fn verify_outcome(forms: Seq<Form>, mults: Seq<i64>) -> Result<Form, Fault> {
    if forms.len() != mults.len() {
        Err(
            Fault::Malformed(
                "certificate has "@ + dec_int(mults.len() as int) + " multipliers for "@ + dec_int(
                    forms.len() as int,
                ) + " constraints"@,
            ),
        )
    } else if exists|i: int| 0 <= i < mults.len() && #[trigger] mults[i] < 0 {
        Err(Fault::Malformed("negative multiplier: Farkas requires non-negative multipliers"@))
    } else if !(exists|i: int| 0 <= i < mults.len() && #[trigger] mults[i] > 0) {
        Err(Fault::Malformed("certificate is empty: every multiplier is zero"@))
    } else {
        match combine(forms, mults, forms.len()) {
            None => Err(Fault::Overflow),
            Some(c) => if c.0.len() > 0 {
                Err(Fault::Malformed("variables did not cancel: "@ + survivors_text(c.0)))
            } else if c.1 <= 0 {
                Err(
                    Fault::Malformed(
                        "combination yields "@ + dec_int(c.1 as int)
                            + " <= 0, which is satisfiable; no contradiction"@,
                    ),
                )
            } else {
                Ok(c)
            },
        }
    }
}

/// The values of a sequence of forms.
pub open spec fn views(forms: Seq<LinearForm>) -> Seq<Form> {
    forms.map_values(|f: LinearForm| f@)
}

pub proof fn lemma_combine_none(forms: Seq<Form>, mults: Seq<i64>, m: nat, n: nat)
    requires
        m <= n,
        combine(forms, mults, m) is None,
    ensures
        combine(forms, mults, n) is None,
    decreases n,
{
    if n > m {
        lemma_combine_none(forms, mults, m, (n - 1) as nat);
    }
}

/// `sum(mults[j] * value of forms[j])` over the first `n` forms, under `x`.
pub open spec fn weighted_sum(
    forms: Seq<Form>,
    mults: Seq<i64>,
    x: spec_fn(Seq<char>) -> int,
    n: nat,
) -> int
    decreases n,
{
    if n == 0 {
        0
    } else {
        weighted_sum(forms, mults, x, (n - 1) as nat) + mults[n - 1] * eval_form(forms[n - 1], x)
    }
}

/// The combination's value is the weighted sum of the forms' values.
pub proof fn lemma_combine_eval(
    forms: Seq<Form>,
    mults: Seq<i64>,
    x: spec_fn(Seq<char>) -> int,
    n: nat,
)
    requires
        n <= forms.len(),
        n <= mults.len(),
        combine(forms, mults, n) is Some,
    ensures
        sorted((combine(forms, mults, n)->0).0),
        eval_form(combine(forms, mults, n)->0, x) == weighted_sum(forms, mults, x, n),
    decreases n,
{
    if n == 0 {
        let e: Terms = Seq::empty();
        assert(sorted(e));
    } else {
        let m = (n - 1) as nat;
        lemma_combine_eval(forms, mults, x, m);
        if mults[m as int] != 0 {
            let f = forms[m as int];
            let k = mults[m as int];
            lemma_eval_scale(f, k, x);
            lemma_eval_add(combine(forms, mults, m)->0, scale_form(f, k)->0, x);
        }
    }
}

proof fn lemma_weighted_nonpositive(
    forms: Seq<Form>,
    mults: Seq<i64>,
    x: spec_fn(Seq<char>) -> int,
    n: nat,
)
    requires
        n <= forms.len(),
        n <= mults.len(),
        forall|j: int| 0 <= j < n ==> #[trigger] mults[j] >= 0,
        forall|j: int| 0 <= j < n ==> eval_form(#[trigger] forms[j], x) <= 0,
    ensures
        weighted_sum(forms, mults, x, n) <= 0,
    decreases n,
{
    if n > 0 {
        let m = (n - 1) as nat;
        lemma_weighted_nonpositive(forms, mults, x, m);
        let a = mults[m as int] as int;
        let b = eval_form(forms[m as int], x);
        assert(a >= 0 && b <= 0 ==> a * b <= 0) by (nonlinear_arith);
    }
}

/// Farkas' lemma, affine form: when `verify` accepts a certificate, no
/// assignment of integers to the variables satisfies all of its constraints
/// `form <= 0` at once.
pub proof fn lemma_accepted_is_infeasible(
    forms: Seq<Form>,
    mults: Seq<i64>,
    x: spec_fn(Seq<char>) -> int,
)
    requires
        verify_outcome(forms, mults) is Ok,
    ensures
        exists|i: int| 0 <= i < forms.len() && eval_form(#[trigger] forms[i], x) > 0,
{
    let n = forms.len();
    lemma_combine_eval(forms, mults, x, n);
    let c = combine(forms, mults, n)->0;
    assert(eval_terms(c.0, x) == 0);
    if forall|i: int| 0 <= i < forms.len() ==> eval_form(#[trigger] forms[i], x) <= 0 {
        lemma_weighted_nonpositive(forms, mults, x, n);
    }
}

/// `sum(mults[j] * coefficient of k in forms[j])` over the first `n` forms.
pub open spec fn weighted_coef(forms: Seq<Form>, mults: Seq<i64>, k: Seq<char>, n: nat) -> int
    decreases n,
{
    if n == 0 {
        0
    } else {
        weighted_coef(forms, mults, k, (n - 1) as nat) + mults[n - 1] * coef(forms[n - 1].0, k)
    }
}

/// `sum(mults[j] * constant of forms[j])` over the first `n` forms.
pub open spec fn weighted_constant(forms: Seq<Form>, mults: Seq<i64>, n: nat) -> int
    decreases n,
{
    if n == 0 {
        0
    } else {
        weighted_constant(forms, mults, (n - 1) as nat) + mults[n - 1] * forms[n - 1].1
    }
}

/// The combination is the exact integer sum of the scaled forms, coefficient
/// by coefficient.
pub proof fn lemma_combine_exact(forms: Seq<Form>, mults: Seq<i64>, n: nat)
    requires
        n <= forms.len(),
        n <= mults.len(),
        forall|j: int| 0 <= j < forms.len() ==> sorted(#[trigger] forms[j].0),
        combine(forms, mults, n) is Some,
    ensures
        sorted((combine(forms, mults, n)->0).0),
        (combine(forms, mults, n)->0).1 == weighted_constant(forms, mults, n),
        forall|k: Seq<char>|
            #[trigger] coef((combine(forms, mults, n)->0).0, k) == weighted_coef(forms, mults, k, n),
    decreases n,
{
    if n == 0 {
        let e: Terms = Seq::empty();
        assert(sorted(e));
    } else {
        let m = (n - 1) as nat;
        lemma_combine_exact(forms, mults, m);
        let c = combine(forms, mults, m)->0;
        let k = mults[m as int];
        let f = forms[m as int];
        if k != 0 {
            assert(sorted(f.0));
            lemma_scale_pointwise(f, k);
            let sc = scale_form(f, k)->0;
            lemma_add_pointwise(c, sc);
            assert forall|v: Seq<char>| #[trigger] coef((combine(forms, mults, n)->0).0, v) == weighted_coef(forms, mults, v, n) by {
                assert(coef(sc.0, v) == coef(f.0, v) * k);
                assert(coef(f.0, v) * k == k * coef(f.0, v)) by (nonlinear_arith);
            }
            assert(f.1 * k == k * f.1) by (nonlinear_arith);
        }
    }
}

/// Overflow is refused, never wrapped: when `verify` accepts, every variable
/// cancels in exact integer arithmetic (for each variable, the multiplier-
/// weighted sum of its coefficients is zero), and the weighted sum of the
/// constants is the positive constant of the contradiction.
pub proof fn lemma_accepted_cancels_exactly(forms: Seq<Form>, mults: Seq<i64>)
    requires
        forall|j: int| 0 <= j < forms.len() ==> sorted(#[trigger] forms[j].0),
        verify_outcome(forms, mults) is Ok,
    ensures
        forall|k: Seq<char>| #[trigger] weighted_coef(forms, mults, k, forms.len()) == 0,
        weighted_constant(forms, mults, forms.len()) == (verify_outcome(forms, mults)->Ok_0).1,
        weighted_constant(forms, mults, forms.len()) > 0,
{
    lemma_combine_exact(forms, mults, forms.len());
    let c = combine(forms, mults, forms.len())->0;
    assert forall|k: Seq<char>| #[trigger] weighted_coef(forms, mults, k, forms.len()) == 0 by {
        assert(coef(c.0, k) == weighted_coef(forms, mults, k, forms.len()));
    }
}

/// No product of a multiplier with a coefficient or a constant, and no running
/// weighted sum of a coefficient or of the constants, leaves `i64`.
pub open spec fn stays_in_range(forms: Seq<Form>, mults: Seq<i64>) -> bool {
    &&& forall|j: int, k: Seq<char>|
        0 <= j < forms.len() ==> fits(#[trigger] coef(forms[j].0, k) * mults[j])
    &&& forall|j: int| 0 <= j < forms.len() ==> fits(#[trigger] forms[j].1 * mults[j])
    &&& forall|n: nat, k: Seq<char>| n <= forms.len() ==> fits(#[trigger] weighted_coef(forms, mults, k, n))
    &&& forall|n: nat| n <= forms.len() ==> fits(#[trigger] weighted_constant(forms, mults, n))
}

proof fn lemma_combine_in_range(forms: Seq<Form>, mults: Seq<i64>, n: nat)
    requires
        forms.len() == mults.len(),
        n <= forms.len(),
        forall|j: int| 0 <= j < forms.len() ==> sorted(#[trigger] forms[j].0),
        stays_in_range(forms, mults),
    ensures
        combine(forms, mults, n) is Some,
        no_zeros((combine(forms, mults, n)->0).0),
    decreases n,
{
    if n > 0 {
        let m = (n - 1) as nat;
        lemma_combine_in_range(forms, mults, m);
        lemma_combine_exact(forms, mults, m);
        let c = combine(forms, mults, m)->0;
        let k = mults[m as int];
        let f = forms[m as int];
        if k != 0 {
            assert(sorted(f.0));
            assert forall|v: Seq<char>| fits(#[trigger] coef(f.0, v) * k) by {
                assert(fits(coef(forms[m as int].0, v) * mults[m as int]));
            }
            assert(fits(forms[m as int].1 * mults[m as int]));
            lemma_scale_pointwise(f, k);
            let sc = scale_form(f, k)->0;
            lemma_add_pointwise(c, sc);
            assert forall|v: Seq<char>| fits(#[trigger] coef(c.0, v) + coef(sc.0, v)) by {
                assert(coef(f.0, v) * k == k * coef(f.0, v)) by (nonlinear_arith);
                assert(fits(weighted_coef(forms, mults, v, n)));
            }
            assert(f.1 * k == k * f.1) by (nonlinear_arith);
            assert(fits(weighted_constant(forms, mults, n)));
        }
    }
}

/// Every contradiction is accepted, whatever its multipliers: when there are as
/// many multipliers as forms, none is negative and one is positive, nothing
/// leaves `i64` on the way, every variable's multiplier-weighted coefficients
/// sum to zero and the weighted constants sum to a positive number, `verify`
/// accepts and returns the form with no variables and that sum as constant.
pub proof fn lemma_contradiction_is_accepted(forms: Seq<Form>, mults: Seq<i64>)
    requires
        forms.len() == mults.len(),
        forall|j: int| 0 <= j < forms.len() ==> sorted(#[trigger] forms[j].0),
        forall|j: int| 0 <= j < mults.len() ==> #[trigger] mults[j] >= 0,
        exists|j: int| 0 <= j < mults.len() && #[trigger] mults[j] > 0,
        stays_in_range(forms, mults),
        forall|k: Seq<char>| #[trigger] weighted_coef(forms, mults, k, forms.len()) == 0,
        weighted_constant(forms, mults, forms.len()) > 0,
    ensures
        verify_outcome(forms, mults) == Ok::<Form, Fault>(
            (Seq::empty(), weighted_constant(forms, mults, forms.len()) as i64),
        ),
{
    let n = forms.len();
    lemma_combine_in_range(forms, mults, n);
    lemma_combine_exact(forms, mults, n);
    let c = combine(forms, mults, n)->0;
    if c.0.len() > 0 {
        lemma_find_sorted(c.0, 0);
        assert(coef(c.0, c.0[0].0) == weighted_coef(forms, mults, c.0[0].0, n));
    }
    assert(c.0 =~= Seq::<(Seq<char>, i64)>::empty());
    assert(!(exists|i: int| 0 <= i < mults.len() && #[trigger] mults[i] < 0));
}

/// Combine forms by their multipliers and check the result is a contradiction.
pub fn verify(forms: &[LinearForm], multipliers: &[i64]) -> (r: Result<LinearForm, VerifyError>)
    ensures
        match r {
            Ok(c) => verify_outcome(views(forms@), multipliers@) == Ok::<Form, Fault>(c@) && sorted(c@.0),
            Err(e) => verify_outcome(views(forms@), multipliers@) == Err::<Form, Fault>(e@),
        },
{
    let ghost fs = views(forms@);
    let ghost ms = multipliers@;
    if forms.len() != multipliers.len() {
        let mut m = String::from_str("certificate has ");
        push_u64(&mut m, multipliers.len() as u64);
        m.append(" multipliers for ");
        push_u64(&mut m, forms.len() as u64);
        m.append(" constraints");
        return Err(VerifyError::Malformed(m));
    }
    let n = forms.len();
    let mut i: usize = 0;
    let mut any_positive = false;
    while i < n
        invariant
            n == forms@.len(),
            n == multipliers@.len(),
            i <= n,
            forall|j: int| 0 <= j < i ==> #[trigger] multipliers@[j] >= 0,
            any_positive == exists|j: int| 0 <= j < i && #[trigger] multipliers@[j] > 0,
        decreases n - i,
    {
        if multipliers[i] < 0 {
            return Err(
                VerifyError::Malformed(
                    String::from_str("negative multiplier: Farkas requires non-negative multipliers"),
                ),
            );
        }
        if multipliers[i] > 0 {
            any_positive = true;
        }
        i = i + 1;
    }
    if !any_positive {
        return Err(
            VerifyError::Malformed(
                String::from_str("certificate is empty: every multiplier is zero"),
            ),
        );
    }
    let mut combined = LinearForm::new();
    let mut i: usize = 0;
    while i < n
        invariant
            n == forms@.len(),
            n == multipliers@.len(),
            fs == views(forms@),
            ms == multipliers@,
            forall|j: int| 0 <= j < n ==> #[trigger] multipliers@[j] >= 0,
            exists|j: int| 0 <= j < n && #[trigger] multipliers@[j] > 0,
            i <= n,
            combine(fs, ms, i as nat) == Some(combined@),
        decreases n - i,
    {
        let m = multipliers[i];
        assert(fs[i as int] == forms@[i as int]@);
        if m != 0 {
            let scaled = match forms[i].scale(m) {
                Ok(s) => s,
                Err(e) => {
                    proof {
                        lemma_combine_none(fs, ms, (i + 1) as nat, n as nat);
                    }
                    return Err(e);
                },
            };
            combined = match combined.add(&scaled) {
                Ok(c) => c,
                Err(e) => {
                    proof {
                        lemma_combine_none(fs, ms, (i + 1) as nat, n as nat);
                    }
                    return Err(e);
                },
            };
        }
        i = i + 1;
    }
    if !combined.coeffs.is_empty() {
        let mut m = String::from_str("variables did not cancel: ");
        let k = combined.coeffs.len();
        let ghost s = combined.coeffs@;
        let mut j: usize = 0;
        while j < k
            invariant
                k == s.len(),
                s == combined.coeffs@,
                j <= k,
                m@ == "variables did not cancel: "@ + survivors_text(s.take(j as int)),
            decreases k - j,
        {
            let (name, c) = combined.coeffs.entry(j);
            assert(s.take(j + 1).drop_last() =~= s.take(j as int));
            if j > 0 {
                push_char(&mut m, ',');
                push_char(&mut m, ' ');
            }
            m.append(name);
            push_char(&mut m, '(');
            push_i64(&mut m, c);
            push_char(&mut m, ')');
            assert(m@ =~= "variables did not cancel: "@ + survivors_text(s.take(j + 1)));
            j = j + 1;
        }
        assert(s.take(k as int) =~= s);
        return Err(VerifyError::Malformed(m));
    }
    if combined.constant <= 0 {
        let mut m = String::from_str("combination yields ");
        push_i64(&mut m, combined.constant);
        m.append(" <= 0, which is satisfiable; no contradiction");
        return Err(VerifyError::Malformed(m));
    }
    Ok(combined)
}


/// The coefficients that inserting `ps` in order into an empty map leaves.
pub open spec fn insert_all(ps: Terms) -> Terms
    decreases ps.len(),
{
    if ps.len() == 0 {
        Seq::empty()
    } else {
        upsert(insert_all(ps.drop_last()), ps.last().0, ps.last().1)
    }
}

/// The normalised form with these coefficients and this constant.
pub open spec fn make_form(ps: Terms, constant: i64) -> Form {
    (drop_zeros(insert_all(ps)), constant)
}

/// The canonical `corrected AND NOT safety` forms of each shipped defect class.
pub open spec fn canonical(class: Seq<char>) -> Option<Seq<Form>> {
    if class == "A"@ {
        Some(
            seq![
                make_form(seq![("index"@, 1i64), ("size"@, -1i64)], 1),
                make_form(seq![("size"@, 1i64), ("index"@, -1i64)], 0),
            ],
        )
    } else if class == "B"@ {
        Some(
            seq![
                make_form(seq![("payload"@, 1i64), ("record"@, -1i64)], 8),
                make_form(seq![("record"@, 1i64), ("payload"@, -1i64)], -7i64),
            ],
        )
    } else if class == "C"@ {
        Some(seq![make_form(seq![("sel"@, 1i64)], -19i64), make_form(seq![("sel"@, -1i64)], 20)])
    } else {
        None
    }
}

/// The normalised form holding `pairs` (inserted in order) and `constant`.
fn make(pairs: &[(&str, i64)], constant: i64) -> (f: LinearForm)
    ensures
        f@ == make_form(pairs@.map_values(|e: (&str, i64)| (e.0@, e.1)), constant),
        sorted(f@.0),
{
    let ghost ps = pairs@.map_values(|e: (&str, i64)| (e.0@, e.1));
    let mut f = LinearForm::new();
    let mut i: usize = 0;
    assert(ps.take(0) =~= Seq::<(Seq<char>, i64)>::empty());
    while i < pairs.len()
        invariant
            ps == pairs@.map_values(|e: (&str, i64)| (e.0@, e.1)),
            i <= pairs.len(),
            f.coeffs@ == insert_all(ps.take(i as int)),
        decreases pairs.len() - i,
    {
        let (name, c) = pairs[i];
        assert(ps.take(i + 1).drop_last() =~= ps.take(i as int));
        f.coeffs.insert(name.to_owned(), c);
        i = i + 1;
    }
    assert(ps.take(pairs.len() as int) =~= ps);
    f.constant = constant;
    f.normalised()
}

/// The canonical `corrected AND NOT safety` forms per shipped defect class,
/// held by the checker rather than taken from the certificate.
pub fn canonical_forms(class: &str) -> (r: Option<Vec<LinearForm>>)
    ensures
        match r {
            Some(v) => canonical(class@) == Some(views(v@)) && forall|i: int|
                0 <= i < v@.len() ==> sorted(#[trigger] v@[i]@.0),
            None => canonical(class@) is None,
        },
{
    let mut out: Vec<LinearForm> = Vec::new();
    if str_eq(class, "A") {
        let p: &[(&str, i64)] = &[("index", 1), ("size", -1)];
        let q: &[(&str, i64)] = &[("size", 1), ("index", -1)];
        assert(p@.map_values(|e: (&str, i64)| (e.0@, e.1)) =~= seq![("index"@, 1i64), ("size"@, -1i64)]);
        assert(q@.map_values(|e: (&str, i64)| (e.0@, e.1)) =~= seq![("size"@, 1i64), ("index"@, -1i64)]);
        out.push(make(p, 1));
        out.push(make(q, 0));
    } else if str_eq(class, "B") {
        let p: &[(&str, i64)] = &[("payload", 1), ("record", -1)];
        let q: &[(&str, i64)] = &[("record", 1), ("payload", -1)];
        assert(p@.map_values(|e: (&str, i64)| (e.0@, e.1)) =~= seq![("payload"@, 1i64), ("record"@, -1i64)]);
        assert(q@.map_values(|e: (&str, i64)| (e.0@, e.1)) =~= seq![("record"@, 1i64), ("payload"@, -1i64)]);
        out.push(make(p, 8));
        out.push(make(q, -7));
    } else if str_eq(class, "C") {
        let p: &[(&str, i64)] = &[("sel", 1)];
        let q: &[(&str, i64)] = &[("sel", -1)];
        assert(p@.map_values(|e: (&str, i64)| (e.0@, e.1)) =~= seq![("sel"@, 1i64)]);
        assert(q@.map_values(|e: (&str, i64)| (e.0@, e.1)) =~= seq![("sel"@, -1i64)]);
        out.push(make(p, -19));
        out.push(make(q, 20));
    } else {
        return None;
    }
    assert(views(out@) =~= canonical(class@)->0);
    Some(out)
}

/// The form with coefficient `x` for `a`, `y` for `b` (when `b` is not empty),
/// no other variable, and constant `k`.
pub open spec fn form_of(f: Form, a: Seq<char>, x: int, b: Seq<char>, y: int, k: int) -> bool {
    &&& sorted(f.0)
    &&& no_zeros(f.0)
    &&& f.1 == k
    &&& forall|v: Seq<char>| #[trigger] coef(f.0, v) == if v == a {
        x
    } else if b.len() > 0 && v == b {
        y
    } else {
        0
    }
}

proof fn lemma_make_form_of(a: Seq<char>, x: i64, b: Seq<char>, y: i64, k: i64)
    requires
        a != b,
        b.len() > 0,
        x != 0,
        y != 0,
    ensures
        form_of(make_form(seq![(a, x), (b, y)], k), a, x as int, b, y as int, k as int),
        form_of(make_form(seq![(a, x)], k), a, x as int, Seq::empty(), 0, k as int),
{
    let e: Terms = Seq::empty();
    assert(sorted(e));
    let ps = seq![(a, x), (b, y)];
    let p1 = seq![(a, x)];
    assert(ps.drop_last() =~= p1);
    assert(p1.drop_last() =~= e);
    let s1 = upsert(e, a, x);
    lemma_upsert_sorted(e, a, x);
    let s2 = upsert(s1, b, y);
    lemma_upsert_sorted(s1, b, y);
    assert(insert_all(e) == e);
    assert(p1.last() == (a, x));
    assert(ps.last() == (b, y));
    assert(insert_all(p1) == s1);
    assert(insert_all(ps) == s2);
    lemma_drop_zeros(s1);
    lemma_drop_zeros(s2);
    assert forall|v: Seq<char>| #[trigger] coef(drop_zeros(s2), v) == if v == a {
        x as int
    } else if b.len() > 0 && v == b {
        y as int
    } else {
        0
    } by {
        lemma_coef_drop_zeros(s2, v);
        lemma_find_upsert(s1, b, y, v);
        lemma_find_upsert(e, a, x, v);
    }
    assert forall|v: Seq<char>| #[trigger] coef(drop_zeros(s1), v) == if v == a {
        x as int
    } else if Seq::<char>::empty().len() > 0 && v == Seq::<char>::empty() {
        0
    } else {
        0
    } by {
        lemma_coef_drop_zeros(s1, v);
        lemma_find_upsert(e, a, x, v);
    }
}

/// The canonical forms of the shipped defect classes, coefficient by
/// coefficient: class A is `index - size + 1 <= 0` and `size - index <= 0`,
/// class B is `payload - record + 8 <= 0` and `record - payload - 7 <= 0`,
/// class C is `sel - 19 <= 0` and `20 - sel <= 0`; no other class has any.
pub proof fn lemma_shipped_classes(class: Seq<char>)
    ensures
        class == "A"@ ==> (canonical(class) matches Some(w) && w.len() == 2 && form_of(
            w[0],
            "index"@,
            1,
            "size"@,
            -1,
            1,
        ) && form_of(w[1], "size"@, 1, "index"@, -1, 0)),
        class == "B"@ ==> (canonical(class) matches Some(w) && w.len() == 2 && form_of(
            w[0],
            "payload"@,
            1,
            "record"@,
            -1,
            8,
        ) && form_of(w[1], "record"@, 1, "payload"@, -1, -7)),
        class == "C"@ ==> (canonical(class) matches Some(w) && w.len() == 2 && form_of(
            w[0],
            "sel"@,
            1,
            Seq::empty(),
            0,
            -19,
        ) && form_of(w[1], "sel"@, -1, Seq::empty(), 0, 20)),
        class != "A"@ && class != "B"@ && class != "C"@ ==> canonical(class) is None,
{
    reveal_strlit("A");
    reveal_strlit("B");
    reveal_strlit("C");
    reveal_strlit("index");
    reveal_strlit("size");
    reveal_strlit("payload");
    reveal_strlit("record");
    reveal_strlit("sel");
    assert("index"@.len() == 5 && "size"@.len() == 4);
    assert("payload"@.len() == 7 && "record"@.len() == 6);
    assert("sel"@.len() == 3);
    assert("A"@[0] == 'A' && "B"@[0] == 'B' && "C"@[0] == 'C');
    assert("B"@ != "A"@);
    assert("C"@ != "A"@ && "C"@ != "B"@);
    lemma_make_form_of("index"@, 1i64, "size"@, -1i64, 1i64);
    lemma_make_form_of("size"@, 1i64, "index"@, -1i64, 0i64);
    lemma_make_form_of("payload"@, 1i64, "record"@, -1i64, 8i64);
    lemma_make_form_of("record"@, 1i64, "payload"@, -1i64, -7i64);
    lemma_make_form_of("sel"@, 1i64, "index"@, -1i64, -19i64);
    lemma_make_form_of("sel"@, -1i64, "index"@, 1i64, 20i64);
}

} // verus!
