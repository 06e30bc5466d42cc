//! Linear forms `sum(coeff * var) + constant <= 0` and their arithmetic.

use vstd::prelude::*;

use crate::text::{
    chars_of, dec_int, lemma_less_asymmetric, lemma_less_irreflexive, lemma_less_total,
    lemma_less_transitive, push_char, push_i64, seq_less, str_eq, str_less,
};

verus! {

/// Coefficients by variable name, in increasing name order.
pub type Terms = Seq<(Seq<char>, i64)>;

/// Names strictly increase along the sequence, so no name occurs twice.
pub open spec fn sorted(s: Terms) -> bool {
    forall|i: int, j: int| 0 <= i < j < s.len() ==> seq_less(#[trigger] s[i].0, #[trigger] s[j].0)
}

/// The coefficient stored for `k`, if any.
pub open spec fn find(s: Terms, k: Seq<char>) -> Option<i64>
    decreases s.len(),
{
    if s.len() == 0 {
        None
    } else if s[0].0 == k {
        Some(s[0].1)
    } else {
        find(s.drop_first(), k)
    }
}

/// The coefficient of `k`, zero when it is absent.
pub open spec fn coef(s: Terms, k: Seq<char>) -> int {
    match find(s, k) {
        Some(v) => v as int,
        None => 0,
    }
}

/// `s` with the coefficient of `k` set to `v`, keeping the name order.
pub open spec fn upsert(s: Terms, k: Seq<char>, v: i64) -> Terms
    decreases s.len(),
{
    if s.len() == 0 {
        seq![(k, v)]
    } else if s[0].0 == k {
        seq![(k, v)] + s.drop_first()
    } else if seq_less(k, s[0].0) {
        seq![(k, v)] + s
    } else {
        seq![s[0]] + upsert(s.drop_first(), k, v)
    }
}

/// `s` without its zero coefficients.
pub open spec fn drop_zeros(s: Terms) -> Terms
    decreases s.len(),
{
    if s.len() == 0 {
        s
    } else if s.last().1 != 0 {
        drop_zeros(s.drop_last()).push(s.last())
    } else {
        drop_zeros(s.drop_last())
    }
}

/// No coefficient is zero.
pub open spec fn no_zeros(s: Terms) -> bool {
    forall|i: int| 0 <= i < s.len() ==> #[trigger] s[i].1 != 0
}

/// `x` is a value of `i64`.
pub open spec fn fits(x: int) -> bool {
    i64::MIN <= x <= i64::MAX
}

pub proof fn lemma_find_in(s: Terms, k: Seq<char>)
    ensures
        find(s, k) matches Some(v) ==> exists|i: int|
            0 <= i < s.len() && s[i] == (k, v) && #[trigger] s[i].0 == k,
        find(s, k) is None ==> forall|i: int| 0 <= i < s.len() ==> #[trigger] s[i].0 != k,
    decreases s.len(),
{
    if s.len() > 0 {
        lemma_find_in(s.drop_first(), k);
        if s[0].0 != k {
            if let Some(v) = find(s, k) {
                let i = choose|i: int| 0 <= i < s.len() - 1 && s.drop_first()[i] == (k, v) && #[trigger] s.drop_first()[i].0 == k;
                assert(s[i + 1].0 == k);
            } else {
                assert forall|i: int| 0 <= i < s.len() implies #[trigger] s[i].0 != k by {
                    if i > 0 {
                        assert(s[i] == s.drop_first()[i - 1]);
                    }
                }
            }
        }
    }
}

/// In a sorted sequence the entry at `i` is what `find` gives for its name.
pub proof fn lemma_find_sorted(s: Terms, i: int)
    requires
        sorted(s),
        0 <= i < s.len(),
    ensures
        find(s, s[i].0) == Some(s[i].1),
    decreases s.len(),
{
    if i > 0 {
        lemma_less_asymmetric(s[0].0, s[i].0);
        assert(sorted(s.drop_first()));
        lemma_find_sorted(s.drop_first(), i - 1);
    }
}

pub proof fn lemma_find_upsert(s: Terms, k: Seq<char>, v: i64, q: Seq<char>)
    ensures
        find(upsert(s, k, v), q) == if q == k { Some(v) } else { find(s, q) },
    decreases s.len(),
{
    let u = upsert(s, k, v);
    if s.len() == 0 {
        assert(u.drop_first() =~= s);
    } else {
        if s[0].0 == k {
            assert(u.drop_first() =~= s.drop_first());
        } else if seq_less(k, s[0].0) {
            assert(u.drop_first() =~= s);
        } else {
            lemma_find_upsert(s.drop_first(), k, v, q);
            assert(u.drop_first() =~= upsert(s.drop_first(), k, v));
        }
    }
}

/// Every name in `upsert(s, k, v)` is `k` or a name of `s`.
pub proof fn lemma_upsert_names(s: Terms, k: Seq<char>, v: i64)
    ensures
        upsert(s, k, v).len() >= 1,
        upsert(s, k, v).len() <= s.len() + 1,
        forall|i: int|
            0 <= i < upsert(s, k, v).len() ==> #[trigger] upsert(s, k, v)[i].0 == k || exists|
                j: int,
            | 0 <= j < s.len() && s[j].0 == upsert(s, k, v)[i].0,
    decreases s.len(),
{
    let u = upsert(s, k, v);
    if s.len() > 0 {
        if s[0].0 == k {
            assert forall|i: int| 0 <= i < u.len() implies #[trigger] u[i].0 == k || exists|j: int|
                0 <= j < s.len() && s[j].0 == u[i].0 by {
                if i > 0 {
                    assert(s[i].0 == u[i].0);
                }
            }
        } else if seq_less(k, s[0].0) {
            assert forall|i: int| 0 <= i < u.len() implies #[trigger] u[i].0 == k || exists|j: int|
                0 <= j < s.len() && s[j].0 == u[i].0 by {
                if i > 0 {
                    assert(s[i - 1].0 == u[i].0);
                }
            }
        } else {
            lemma_upsert_names(s.drop_first(), k, v);
            let r = upsert(s.drop_first(), k, v);
            assert forall|i: int| 0 <= i < u.len() implies #[trigger] u[i].0 == k || exists|j: int|
                0 <= j < s.len() && s[j].0 == u[i].0 by {
                if i == 0 {
                    assert(s[0].0 == u[0].0);
                } else {
                    assert(u[i] == r[i - 1]);
                    if r[i - 1].0 != k {
                        let j = choose|j: int| 0 <= j < s.len() - 1 && s.drop_first()[j].0 == r[i - 1].0;
                        assert(s[j + 1].0 == u[i].0);
                    }
                }
            }
        }
    }
}

pub proof fn lemma_upsert_sorted(s: Terms, k: Seq<char>, v: i64)
    requires
        sorted(s),
    ensures
        sorted(upsert(s, k, v)),
    decreases s.len(),
{
    let u = upsert(s, k, v);
    if s.len() > 0 {
        if s[0].0 == k {
            assert forall|i: int, j: int| 0 <= i < j < u.len() implies seq_less(#[trigger] u[i].0, #[trigger] u[j].0) by {
                assert(u[j] == s[j]);
                if i > 0 {
                    assert(u[i] == s[i]);
                }
            }
        } else if seq_less(k, s[0].0) {
            assert forall|i: int, j: int| 0 <= i < j < u.len() implies seq_less(#[trigger] u[i].0, #[trigger] u[j].0) by {
                assert(u[j] == s[j - 1]);
                if i > 0 {
                    assert(u[i] == s[i - 1]);
                } else if j > 1 {
                    lemma_less_transitive(k, s[0].0, s[j - 1].0);
                }
            }
        } else {
            lemma_less_total(k, s[0].0);
            assert(sorted(s.drop_first()));
            lemma_upsert_sorted(s.drop_first(), k, v);
            lemma_upsert_names(s.drop_first(), k, v);
            let r = upsert(s.drop_first(), k, v);
            assert forall|i: int, j: int| 0 <= i < j < u.len() implies seq_less(#[trigger] u[i].0, #[trigger] u[j].0) by {
                assert(u[j] == r[j - 1]);
                if i > 0 {
                    assert(u[i] == r[i - 1]);
                } else {
                    if r[j - 1].0 != k {
                        let m = choose|m: int| 0 <= m < s.len() - 1 && s.drop_first()[m].0 == r[j - 1].0;
                        assert(s[m + 1].0 == r[j - 1].0);
                    }
                }
            }
        }
    }
}


/// Where `upsert` puts `k` in a sorted sequence: at the first position whose
/// name is not less than `k`, replacing an equal name.
pub proof fn lemma_upsert_at(s: Terms, k: Seq<char>, v: i64, p: int)
    requires
        sorted(s),
        0 <= p <= s.len(),
        forall|j: int| 0 <= j < p ==> seq_less(#[trigger] s[j].0, k),
        p < s.len() ==> !seq_less(s[p].0, k),
    ensures
        p < s.len() && s[p].0 == k ==> upsert(s, k, v) == s.update(p, (k, v)),
        !(p < s.len() && s[p].0 == k) ==> upsert(s, k, v) == s.insert(p, (k, v)),
    decreases p,
{
    if p == 0 {
        if s.len() == 0 {
            assert(upsert(s, k, v) =~= s.insert(0, (k, v)));
        } else if s[0].0 == k {
            assert(upsert(s, k, v) =~= s.update(0, (k, v)));
        } else {
            lemma_less_total(k, s[0].0);
            assert(upsert(s, k, v) =~= s.insert(0, (k, v)));
        }
    } else {
        lemma_less_asymmetric(s[0].0, k);
        assert(sorted(s.drop_first()));
        assert forall|j: int| 0 <= j < p - 1 implies seq_less(#[trigger] s.drop_first()[j].0, k) by {
            assert(s.drop_first()[j] == s[j + 1]);
        }
        lemma_upsert_at(s.drop_first(), k, v, p - 1);
        if p < s.len() && s[p].0 == k {
            assert(upsert(s, k, v) =~= s.update(p, (k, v)));
        } else {
            assert(upsert(s, k, v) =~= s.insert(p, (k, v)));
        }
    }
}

/// The coefficients of a linear form: a map from variable names to integers,
/// kept in increasing name order.
#[derive(Debug, PartialEq, Eq)]
pub struct CoeffMap {
    entries: Vec<(String, i64)>,
}

impl View for CoeffMap {
    type V = Terms;

    closed spec fn view(&self) -> Terms {
        self.entries@.map_values(|e: (String, i64)| (e.0@, e.1))
    }
}

impl Clone for CoeffMap {
    fn clone(&self) -> (c: Self)
        ensures
            c@ == self@,
    {
        proof {
            use_type_invariant(self);
        }
        let mut entries: Vec<(String, i64)> = Vec::new();
        let mut i: usize = 0;
        while i < self.entries.len()
            invariant
                i <= self.entries@.len(),
                entries@.len() == i,
                forall|j: int| 0 <= j < i ==> (#[trigger] entries@[j]).0@ == self.entries@[j].0@
                    && entries@[j].1 == self.entries@[j].1,
            decreases self.entries.len() - i,
        {
            let name = self.entries[i].0.clone();
            entries.push((name, self.entries[i].1));
            i = i + 1;
        }
        assert(entries@.map_values(|e: (String, i64)| (e.0@, e.1)) =~= self@);
        CoeffMap { entries }
    }
}

impl CoeffMap {
    #[verifier::type_invariant]
    pub closed spec fn names_increase(self) -> bool {
        sorted(self@)
    }

    pub fn new() -> (m: CoeffMap)
        ensures
            m@ == Seq::<(Seq<char>, i64)>::empty(),
    {
        let m = CoeffMap { entries: Vec::new() };
        assert(m@ =~= Seq::<(Seq<char>, i64)>::empty());
        m
    }

    pub fn len(&self) -> (n: usize)
        ensures
            n == self@.len(),
    {
        self.entries.len()
    }

    pub fn is_empty(&self) -> (b: bool)
        ensures
            b == (self@.len() == 0),
    {
        self.entries.len() == 0
    }

    /// The name and coefficient at position `i` in name order.
    pub fn entry(&self, i: usize) -> (r: (&str, i64))
        requires
            i < self@.len(),
        ensures
            r.0@ == self@[i as int].0,
            r.1 == self@[i as int].1,
    {
        (self.entries[i].0.as_str(), self.entries[i].1)
    }

    /// The coefficient stored for `name`, if any.
    pub fn get(&self, name: &str) -> (r: Option<&i64>)
        ensures
            match r {
                Some(v) => find(self@, name@) == Some(*v),
                None => find(self@, name@) is None,
            },
    {
        proof {
            use_type_invariant(self);
        }
        let mut i: usize = 0;
        while i < self.entries.len()
            invariant
                sorted(self@),
                i <= self@.len(),
                forall|j: int| 0 <= j < i ==> #[trigger] self@[j].0 != name@,
            decreases self.entries.len() - i,
        {
            if str_eq(self.entries[i].0.as_str(), name) {
                proof {
                    lemma_find_sorted(self@, i as int);
                }
                return Some(&self.entries[i].1);
            }
            i = i + 1;
        }
        proof {
            lemma_find_in(self@, name@);
        }
        None
    }

    /// Sets the coefficient of `name` to `value`; returns the one it replaced.
    pub fn insert(&mut self, name: String, value: i64) -> (prev: Option<i64>)
        ensures
            final(self)@ == upsert(old(self)@, name@, value),
            prev == find(old(self)@, name@),
    {
        proof {
            use_type_invariant(&*self);
        }
        let ghost s = self@;
        let mut e: Vec<(String, i64)> = Vec::new();
        std::mem::swap(&mut e, &mut self.entries);
        assert(e@.map_values(|e: (String, i64)| (e.0@, e.1)) == s);
        let mut p: usize = 0;
        while p < e.len() && str_less(e[p].0.as_str(), name.as_str())
            invariant
                e@.map_values(|e: (String, i64)| (e.0@, e.1)) == s,
                sorted(s),
                p <= e.len(),
                forall|j: int| 0 <= j < p ==> seq_less(#[trigger] s[j].0, name@),
            decreases e.len() - p,
        {
            p = p + 1;
        }
        proof {
            lemma_upsert_at(s, name@, value, p as int);
            lemma_upsert_sorted(s, name@, value);
        }
        let mut prev: Option<i64> = None;
        if p < e.len() && str_eq(e[p].0.as_str(), name.as_str()) {
            let old_entry = e.remove(p);
            prev = Some(old_entry.1);
            proof {
                lemma_find_sorted(s, p as int);
            }
            e.insert(p, (name, value));
        } else {
            proof {
                lemma_find_in(s, name@);
                if find(s, name@) is Some {
                    let i = choose|i: int| 0 <= i < s.len() && #[trigger] s[i].0 == name@;
                    if i < p {
                        lemma_less_asymmetric(s[i].0, name@);
                    } else if i > p {
                        lemma_less_asymmetric(s[p as int].0, s[i].0);
                        lemma_less_total(s[p as int].0, name@);
                        lemma_less_transitive(name@, s[p as int].0, s[i].0);
                        lemma_less_irreflexive(name@);
                    }
                }
            }
            e.insert(p, (name, value));
        }
        assert(e@.map_values(|e: (String, i64)| (e.0@, e.1)) =~= upsert(s, name@, value));
        self.entries = e;
        prev
    }
}


/// A linear form as a value: its coefficients in name order, and its constant.
pub type Form = (Terms, i64);

/// All names of `s` occur in `t`, in the same relative positions: `s` is
/// obtained from `t` by dropping entries.
pub open spec fn names_from(s: Terms, t: Terms) -> bool {
    forall|i: int| 0 <= i < s.len() ==> exists|j: int| 0 <= j < t.len() && #[trigger] s[i] == t[j]
}

pub proof fn lemma_drop_zeros(s: Terms)
    ensures
        no_zeros(drop_zeros(s)),
        names_from(drop_zeros(s), s),
        drop_zeros(s).len() <= s.len(),
        sorted(s) ==> sorted(drop_zeros(s)),
    decreases s.len(),
{
    if s.len() > 0 {
        let p = s.drop_last();
        lemma_drop_zeros(p);
        let d = drop_zeros(s);
        let dp = drop_zeros(p);
        assert forall|i: int| 0 <= i < d.len() implies exists|j: int|
            0 <= j < s.len() && #[trigger] d[i] == s[j] by {
            if i < dp.len() {
                assert(d[i] == dp[i]);
                let j = choose|j: int| 0 <= j < p.len() && dp[i] == p[j];
                assert(s[j] == p[j]);
            } else {
                assert(d[i] == s[s.len() - 1]);
            }
        }
        if sorted(s) {
            assert(sorted(p));
            assert forall|i: int, j: int| 0 <= i < j < d.len() implies seq_less(
                #[trigger] d[i].0,
                #[trigger] d[j].0,
            ) by {
                if j < dp.len() {
                    assert(d[i] == dp[i] && d[j] == dp[j]);
                } else {
                    assert(d[i] == dp[i]);
                    let m = choose|m: int| 0 <= m < p.len() && dp[i] == p[m];
                    assert(s[m] == p[m]);
                }
            }
        }
    }
}

/// What `Display` prints for a `VerifyError`, and which kind it is.
pub enum Fault {
    Overflow,
    Parse(Seq<char>),
    Malformed(Seq<char>),
}

/// Why a certificate, or a step of checking one, failed.
#[derive(Debug, Clone, PartialEq, Eq)]
pub enum VerifyError {
    Overflow,
    Parse(String),
    Malformed(String),
}

impl View for VerifyError {
    type V = Fault;

    open spec fn view(&self) -> Fault {
        match self {
            VerifyError::Overflow => Fault::Overflow,
            VerifyError::Parse(m) => Fault::Parse(m@),
            VerifyError::Malformed(m) => Fault::Malformed(m@),
        }
    }
}

/// What a `VerifyError` says when it is displayed.
pub open spec fn fault_text(f: Fault) -> Seq<char> {
    match f {
        Fault::Overflow => OVERFLOW_TEXT@,
        Fault::Parse(m) => m,
        Fault::Malformed(m) => m,
    }
}

pub const OVERFLOW_TEXT: &'static str = "integer overflow while combining the certificate; a wrapped coefficient could make variables appear to cancel when they do not";

impl VerifyError {
    /// The error's message, as `Display` writes it.
    pub fn to_string(&self) -> (r: String)
        ensures
            r@ == fault_text(self@),
    {
        match self {
            VerifyError::Overflow => String::from_str(OVERFLOW_TEXT),
            VerifyError::Parse(m) => m.clone(),
            VerifyError::Malformed(m) => m.clone(),
        }
    }
}

/// A linear form `sum(coeff * var) + constant <= 0`.
#[derive(Debug, PartialEq, Eq)]
pub struct LinearForm {
    pub coeffs: CoeffMap,
    pub constant: i64,
}

impl View for LinearForm {
    type V = Form;

    open spec fn view(&self) -> Form {
        (self.coeffs@, self.constant)
    }
}

impl Clone for LinearForm {
    fn clone(&self) -> (c: Self)
        ensures
            c@ == self@,
    {
        LinearForm { coeffs: self.coeffs.clone(), constant: self.constant }
    }
}

impl Default for LinearForm {
    fn default() -> (f: Self)
        ensures
            f@ == (Seq::<(Seq<char>, i64)>::empty(), 0i64),
    {
        LinearForm::new()
    }
}

/// `s` with every coefficient multiplied by `k`.
pub open spec fn scale_terms(s: Terms, k: i64) -> Terms {
    s.map_values(|e: (Seq<char>, i64)| (e.0, (e.1 * k) as i64))
}

/// `f` multiplied through by `k`, or `None` when a product leaves `i64`.
pub open spec fn scale_form(f: Form, k: i64) -> Option<Form> {
    if (forall|i: int| 0 <= i < f.0.len() ==> fits(#[trigger] f.0[i].1 * k)) && fits(f.1 * k) {
        Some((drop_zeros(scale_terms(f.0, k)), (f.1 * k) as i64))
    } else {
        None
    }
}

/// The coefficients of `a` with the first `n` entries of `b` added in, entry
/// by entry; `None` when a sum leaves `i64`.
pub open spec fn fold_add(a: Terms, b: Terms, n: nat) -> Option<Terms>
    decreases n,
{
    if n == 0 {
        Some(a)
    } else {
        match fold_add(a, b, (n - 1) as nat) {
            None => None,
            Some(acc) => {
                let e = b[n - 1];
                let t = coef(acc, e.0) + e.1;
                if fits(t) {
                    Some(upsert(acc, e.0, t as i64))
                } else {
                    None
                }
            },
        }
    }
}

/// The sum of two forms, or `None` when a coefficient or the constant leaves
/// `i64`.
pub open spec fn add_form(a: Form, b: Form) -> Option<Form> {
    match fold_add(a.0, b.0, b.0.len()) {
        None => None,
        Some(acc) => if fits(a.1 + b.1) {
            Some((drop_zeros(acc), (a.1 + b.1) as i64))
        } else {
            None
        },
    }
}

/// Once a prefix of the sums overflows, so does every longer prefix.
pub proof fn lemma_fold_add_none(a: Terms, b: Terms, m: nat, n: nat)
    requires
        m <= n,
        fold_add(a, b, m) is None,
    ensures
        fold_add(a, b, n) is None,
    decreases n,
{
    if n > m {
        lemma_fold_add_none(a, b, m, (n - 1) as nat);
    }
}

/// The value of `sum(coeff * var)` when each variable `v` has the value `x(v)`.
pub open spec fn eval_terms(s: Terms, x: spec_fn(Seq<char>) -> int) -> int
    decreases s.len(),
{
    if s.len() == 0 {
        0
    } else {
        s[0].1 * x(s[0].0) + eval_terms(s.drop_first(), x)
    }
}

/// The value of the left-hand side of `f` under the assignment `x`.
pub open spec fn eval_form(f: Form, x: spec_fn(Seq<char>) -> int) -> int {
    eval_terms(f.0, x) + f.1
}

pub proof fn lemma_eval_push(s: Terms, e: (Seq<char>, i64), x: spec_fn(Seq<char>) -> int)
    ensures
        eval_terms(s.push(e), x) == eval_terms(s, x) + e.1 * x(e.0),
    decreases s.len(),
{
    if s.len() == 0 {
        assert(s.push(e).drop_first() =~= s);
    } else {
        assert(s.push(e).drop_first() =~= s.drop_first().push(e));
        lemma_eval_push(s.drop_first(), e, x);
    }
}

pub proof fn lemma_eval_drop_zeros(s: Terms, x: spec_fn(Seq<char>) -> int)
    ensures
        eval_terms(drop_zeros(s), x) == eval_terms(s, x),
    decreases s.len(),
{
    if s.len() > 0 {
        let p = s.drop_last();
        lemma_eval_drop_zeros(p, x);
        assert(p.push(s.last()) =~= s);
        lemma_eval_push(p, s.last(), x);
        if s.last().1 != 0 {
            lemma_eval_push(drop_zeros(p), s.last(), x);
        }
    }
}

pub proof fn lemma_eval_scale_terms(s: Terms, k: i64, x: spec_fn(Seq<char>) -> int)
    requires
        forall|i: int| 0 <= i < s.len() ==> fits(#[trigger] s[i].1 * k),
    ensures
        eval_terms(scale_terms(s, k), x) == k * eval_terms(s, x),
    decreases s.len(),
{
    if s.len() > 0 {
        let t = scale_terms(s, k);
        assert(t.drop_first() =~= scale_terms(s.drop_first(), k));
        assert forall|i: int| 0 <= i < s.drop_first().len() implies fits(
            #[trigger] s.drop_first()[i].1 * k,
        ) by {
            assert(s.drop_first()[i] == s[i + 1]);
        }
        lemma_eval_scale_terms(s.drop_first(), k, x);
        assert(fits(s[0].1 * k));
        let c = s[0].1 as int;
        let v = x(s[0].0);
        let r = eval_terms(s.drop_first(), x);
        assert((c * k) * v + k * r == k * (c * v + r)) by (nonlinear_arith);
    }
}

pub proof fn lemma_eval_upsert(s: Terms, k: Seq<char>, v: i64, x: spec_fn(Seq<char>) -> int)
    requires
        sorted(s),
    ensures
        eval_terms(upsert(s, k, v), x) == eval_terms(s, x) - coef(s, k) * x(k) + v * x(k),
    decreases s.len(),
{
    let u = upsert(s, k, v);
    if s.len() == 0 {
        assert(u.drop_first() =~= s);
    } else if s[0].0 == k {
        assert(u.drop_first() =~= s.drop_first());
    } else if seq_less(k, s[0].0) {
        assert(u.drop_first() =~= s);
        assert forall|j: int| 0 <= j < s.len() implies #[trigger] s[j].0 != k by {
            if j > 0 {
                lemma_less_transitive(k, s[0].0, s[j].0);
            }
            lemma_less_irreflexive(k);
        }
        lemma_find_in(s, k);
    } else {
        assert(u.drop_first() =~= upsert(s.drop_first(), k, v));
        assert(sorted(s.drop_first()));
        lemma_eval_upsert(s.drop_first(), k, v, x);
    }
}

pub proof fn lemma_eval_fold_add(a: Terms, b: Terms, n: nat, x: spec_fn(Seq<char>) -> int)
    requires
        sorted(a),
        n <= b.len(),
        fold_add(a, b, n) is Some,
    ensures
        sorted(fold_add(a, b, n)->0),
        eval_terms(fold_add(a, b, n)->0, x) == eval_terms(a, x) + eval_terms(b.take(n as int), x),
    decreases n,
{
    if n == 0 {
        assert(b.take(0) =~= Seq::<(Seq<char>, i64)>::empty());
    } else {
        let m = (n - 1) as nat;
        lemma_eval_fold_add(a, b, m, x);
        let acc = fold_add(a, b, m)->0;
        let e = b[m as int];
        let t = coef(acc, e.0) + e.1;
        lemma_upsert_sorted(acc, e.0, t as i64);
        lemma_eval_upsert(acc, e.0, t as i64, x);
        assert(b.take(n as int) =~= b.take(m as int).push(e));
        lemma_eval_push(b.take(m as int), e, x);
        let c = coef(acc, e.0);
        let w = x(e.0);
        assert((c + e.1) * w - c * w == e.1 * w) by (nonlinear_arith);
    }
}

/// The value of a sum of forms is the sum of their values.
pub proof fn lemma_eval_add(a: Form, b: Form, x: spec_fn(Seq<char>) -> int)
    requires
        sorted(a.0),
        add_form(a, b) is Some,
    ensures
        sorted((add_form(a, b)->0).0),
        eval_form(add_form(a, b)->0, x) == eval_form(a, x) + eval_form(b, x),
{
    lemma_eval_fold_add(a.0, b.0, b.0.len(), x);
    assert(b.0.take(b.0.len() as int) =~= b.0);
    let acc = fold_add(a.0, b.0, b.0.len())->0;
    lemma_eval_drop_zeros(acc, x);
    lemma_drop_zeros(acc);
}

/// The value of a scaled form is the scaled value.
pub proof fn lemma_eval_scale(f: Form, k: i64, x: spec_fn(Seq<char>) -> int)
    requires
        scale_form(f, k) is Some,
    ensures
        sorted(f.0) ==> sorted((scale_form(f, k)->0).0),
        eval_form(scale_form(f, k)->0, x) == k * eval_form(f, x),
{
    lemma_eval_scale_terms(f.0, k, x);
    lemma_eval_drop_zeros(scale_terms(f.0, k), x);
    lemma_drop_zeros(scale_terms(f.0, k));
    if sorted(f.0) {
        assert(sorted(scale_terms(f.0, k)));
    }
    let a = eval_terms(f.0, x);
    assert(k * a + (f.1 * k) == k * (a + f.1)) by (nonlinear_arith);
}

pub proof fn lemma_find_push(s: Terms, e: (Seq<char>, i64), k: Seq<char>)
    ensures
        find(s.push(e), k) == match find(s, k) {
            Some(v) => Some(v),
            None => if e.0 == k {
                Some(e.1)
            } else {
                None
            },
        },
    decreases s.len(),
{
    if s.len() == 0 {
        assert(s.push(e).drop_first() =~= s);
    } else {
        assert(s.push(e).drop_first() =~= s.drop_first().push(e));
        lemma_find_push(s.drop_first(), e, k);
    }
}

/// In a sorted sequence a name that `find` does not see is absent, and one it
/// sees is the entry with that name.
pub proof fn lemma_find_sorted_absent(s: Terms, k: Seq<char>)
    requires
        sorted(s),
        forall|i: int| 0 <= i < s.len() ==> #[trigger] s[i].0 != k,
    ensures
        find(s, k) is None,
{
    lemma_find_in(s, k);
}

/// Dropping zero coefficients keeps every coefficient.
pub proof fn lemma_coef_drop_zeros(s: Terms, k: Seq<char>)
    requires
        sorted(s),
    ensures
        coef(drop_zeros(s), k) == coef(s, k),
    decreases s.len(),
{
    if s.len() > 0 {
        let p = s.drop_last();
        let e = s.last();
        assert(sorted(p));
        lemma_coef_drop_zeros(p, k);
        assert(p.push(e) =~= s);
        lemma_find_push(p, e, k);
        lemma_drop_zeros(p);
        if e.1 != 0 {
            lemma_find_push(drop_zeros(p), e, k);
        }
        if e.0 == k {
            assert forall|i: int| 0 <= i < p.len() implies #[trigger] p[i].0 != k by {
                lemma_less_asymmetric(s[i].0, s[s.len() - 1].0);
            }
            lemma_find_in(p, k);
            lemma_find_in(drop_zeros(p), k);
            if find(drop_zeros(p), k) is Some {
                let i = choose|i: int| 0 <= i < drop_zeros(p).len() && #[trigger] drop_zeros(p)[i].0 == k;
                let j = choose|j: int| 0 <= j < p.len() && drop_zeros(p)[i] == p[j];
                assert(p[j].0 == k);
            }
        }
    }
}

/// Adding the first `n` entries of `b` into `a` succeeds exactly when each
/// coefficient sum fits in `i64`, and then adds coefficient by coefficient.
pub proof fn lemma_fold_add_pointwise(a: Terms, b: Terms, n: nat)
    requires
        sorted(a),
        sorted(b),
        n <= b.len(),
    ensures
        fold_add(a, b, n) is Some <==> forall|j: int| 0 <= j < n ==> fits(coef(a, #[trigger] b[j].0) + b[j].1),
        fold_add(a, b, n) is Some ==> sorted(fold_add(a, b, n)->0) && forall|k: Seq<char>|
            coef(#[trigger] fold_add(a, b, n)->0, k) == coef(a, k) + coef(b.take(n as int), k),
    decreases n,
{
    if n == 0 {
        assert(b.take(0) =~= Seq::<(Seq<char>, i64)>::empty());
    } else {
        let m = (n - 1) as nat;
        lemma_fold_add_pointwise(a, b, m);
        let e = b[m as int];
        assert(b.take(n as int) =~= b.take(m as int).push(e));
        assert forall|i: int| 0 <= i < b.take(m as int).len() implies #[trigger] b.take(m as int)[i].0 != e.0 by {
            lemma_less_asymmetric(b[i].0, b[m as int].0);
        }
        lemma_find_sorted_absent(b.take(m as int), e.0);
        if fold_add(a, b, m) is Some {
            let acc = fold_add(a, b, m)->0;
            let t = coef(acc, e.0) + e.1;
            assert(coef(acc, e.0) == coef(a, e.0) + coef(b.take(m as int), e.0));
            if fits(t) {
                lemma_upsert_sorted(acc, e.0, t as i64);
                assert forall|k: Seq<char>| coef(#[trigger] fold_add(a, b, n)->0, k) == coef(a, k) + coef(b.take(n as int), k) by {
                    lemma_find_upsert(acc, e.0, t as i64, k);
                    lemma_find_push(b.take(m as int), e, k);
                    assert(coef(acc, k) == coef(a, k) + coef(b.take(m as int), k));
                }
            }
        } else {
            lemma_fold_add_none(a, b, m, n);
        }
    }
}

/// `add` adds coefficient by coefficient and drops the zeros; it fails exactly
/// when some coefficient sum, or the constant sum, leaves `i64`.
pub proof fn lemma_add_pointwise(a: Form, b: Form)
    requires
        sorted(a.0),
        sorted(b.0),
    ensures
        add_form(a, b) is Some <==> (forall|k: Seq<char>| fits(#[trigger] coef(a.0, k) + coef(b.0, k)))
            && fits(a.1 + b.1),
        add_form(a, b) matches Some(c) ==> {
            &&& sorted(c.0)
            &&& no_zeros(c.0)
            &&& c.1 == a.1 + b.1
            &&& forall|k: Seq<char>| #[trigger] coef(c.0, k) == coef(a.0, k) + coef(b.0, k)
        },
{
    let n = b.0.len();
    lemma_fold_add_pointwise(a.0, b.0, n);
    assert(b.0.take(n as int) =~= b.0);
    if forall|k: Seq<char>| fits(#[trigger] coef(a.0, k) + coef(b.0, k)) {
        assert forall|j: int| 0 <= j < n implies fits(coef(a.0, #[trigger] b.0[j].0) + b.0[j].1) by {
            lemma_find_sorted(b.0, j);
            assert(fits(coef(a.0, b.0[j].0) + coef(b.0, b.0[j].0)));
        }
    }
    if fold_add(a.0, b.0, n) is Some {
        let acc = fold_add(a.0, b.0, n)->0;
        assert forall|k: Seq<char>| fits(#[trigger] coef(a.0, k) + coef(b.0, k)) by {
            lemma_find_in(b.0, k);
            if find(b.0, k) is Some {
                let j = choose|j: int| 0 <= j < b.0.len() && b.0[j] == (k, find(b.0, k)->0) && #[trigger] b.0[j].0 == k;
                assert(fits(coef(a.0, b.0[j].0) + b.0[j].1));
            }
        }
        lemma_drop_zeros(acc);
        assert forall|k: Seq<char>| #[trigger] coef(drop_zeros(acc), k) == coef(a.0, k) + coef(b.0, k) by {
            lemma_coef_drop_zeros(acc, k);
        }
    }
}

/// `scale` multiplies coefficient by coefficient and drops the zeros; it fails
/// exactly when some product leaves `i64`.
pub proof fn lemma_scale_pointwise(f: Form, m: i64)
    requires
        sorted(f.0),
    ensures
        scale_form(f, m) is Some <==> (forall|k: Seq<char>| fits(#[trigger] coef(f.0, k) * m)) && fits(
            f.1 * m,
        ),
        scale_form(f, m) matches Some(c) ==> {
            &&& sorted(c.0)
            &&& no_zeros(c.0)
            &&& c.1 == f.1 * m
            &&& forall|k: Seq<char>| #[trigger] coef(c.0, k) == coef(f.0, k) * m
        },
{
    let s = f.0;
    if forall|k: Seq<char>| fits(#[trigger] coef(s, k) * m) {
        assert forall|i: int| 0 <= i < s.len() implies fits(#[trigger] s[i].1 * m) by {
            lemma_find_sorted(s, i);
            assert(fits(coef(s, s[i].0) * m));
        }
    }
    if forall|i: int| 0 <= i < s.len() ==> fits(#[trigger] s[i].1 * m) {
        assert forall|k: Seq<char>| fits(#[trigger] coef(s, k) * m) by {
            lemma_find_in(s, k);
            if find(s, k) is Some {
                let j = choose|j: int| 0 <= j < s.len() && s[j] == (k, find(s, k)->0) && #[trigger] s[j].0 == k;
                assert(fits(s[j].1 * m));
            }
        }
        let t = scale_terms(s, m);
        assert(sorted(t));
        lemma_drop_zeros(t);
        assert forall|k: Seq<char>| #[trigger] coef(drop_zeros(t), k) == coef(s, k) * m by {
            lemma_coef_drop_zeros(t, k);
            lemma_coef_scale_terms(s, m, k);
        }
    }
}

pub proof fn lemma_coef_scale_terms(s: Terms, m: i64, k: Seq<char>)
    requires
        forall|i: int| 0 <= i < s.len() ==> fits(#[trigger] s[i].1 * m),
    ensures
        coef(scale_terms(s, m), k) == coef(s, k) * m,
    decreases s.len(),
{
    if s.len() > 0 {
        let t = scale_terms(s, m);
        assert(t.drop_first() =~= scale_terms(s.drop_first(), m));
        assert forall|i: int| 0 <= i < s.drop_first().len() implies fits(
            #[trigger] s.drop_first()[i].1 * m,
        ) by {
            assert(s.drop_first()[i] == s[i + 1]);
        }
        lemma_coef_scale_terms(s.drop_first(), m, k);
        assert(fits(s[0].1 * m));
    }
}

/// How one term `coeff * name` is written: `name`, `- name`, `- 3*name`, `3*name`.
pub open spec fn term_text(name: Seq<char>, c: i64) -> Seq<char> {
    if c == 1 {
        name
    } else if c == -1 {
        seq!['-', ' '] + name
    } else if c < 0 {
        seq!['-', ' '] + dec_int(-c) + seq!['*'] + name
    } else {
        dec_int(c as int) + seq!['*'] + name
    }
}

/// `t` begins with `- `.
pub open spec fn starts_with_minus(t: Seq<char>) -> bool {
    t.len() >= 2 && t[0] == '-' && t[1] == ' '
}

/// A term after the first carries its operator: `- ...` as it is, else `+ ...`.
pub open spec fn later_term_text(name: Seq<char>, c: i64) -> Seq<char> {
    let t = term_text(name, c);
    if starts_with_minus(t) {
        t
    } else {
        seq!['+', ' '] + t
    }
}

/// The terms of `s` in order, separated by single spaces.
pub open spec fn terms_text(s: Terms) -> Seq<char>
    decreases s.len(),
{
    if s.len() == 0 {
        Seq::empty()
    } else if s.len() == 1 {
        term_text(s[0].0, s[0].1)
    } else {
        terms_text(s.drop_last()) + seq![' '] + later_term_text(s.last().0, s.last().1)
    }
}

/// The left-hand side of a form as written: its terms, then its constant when
/// it is not zero (or when there are no terms).
pub open spec fn lhs_text(f: Form) -> Seq<char> {
    if f.0.len() == 0 {
        dec_int(f.1 as int)
    } else if f.1 == 0 {
        terms_text(f.0)
    } else if f.1 < 0 {
        terms_text(f.0) + seq![' ', '-', ' '] + dec_int(-f.1)
    } else {
        terms_text(f.0) + seq![' ', '+', ' '] + dec_int(f.1 as int)
    }
}

/// How a form is written: `lhs <= 0`.
pub open spec fn form_text(f: Form) -> Seq<char> {
    lhs_text(f) + seq![' ', '<', '=', ' ', '0']
}

/// The forms that can be written without negating `i64::MIN`.
pub open spec fn renderable(f: Form) -> bool {
    &&& forall|i: int| 0 <= i < f.0.len() ==> #[trigger] f.0[i].1 != i64::MIN
    &&& f.0.len() > 0 ==> f.1 != i64::MIN
}

/// Appends how the term `c * name` is written.
fn push_term(out: &mut String, name: &str, c: i64)
    requires
        c != i64::MIN,
    ensures
        final(out)@ == old(out)@ + term_text(name@, c),
{
    if c == 1 {
        out.append(name);
    } else if c == -1 {
        push_char(out, '-');
        push_char(out, ' ');
        out.append(name);
    } else if c < 0 {
        push_char(out, '-');
        push_char(out, ' ');
        push_i64(out, -c);
        push_char(out, '*');
        out.append(name);
    } else {
        push_i64(out, c);
        push_char(out, '*');
        out.append(name);
    }
    assert(final(out)@ =~= old(out)@ + term_text(name@, c));
}

impl LinearForm {
    pub fn new() -> (f: Self)
        ensures
            f@ == (Seq::<(Seq<char>, i64)>::empty(), 0i64),
    {
        LinearForm { coeffs: CoeffMap::new(), constant: 0 }
    }

    /// Drop zero coefficients, so `x - x` compares equal to nothing at all.
    pub(crate) fn normalised(self) -> (f: Self)
        ensures
            f@ == (drop_zeros(self.coeffs@), self.constant),
            sorted(f@.0),
    {
        proof {
            use_type_invariant(&self.coeffs);
            lemma_drop_zeros(self.coeffs@);
        }
        let ghost s = self.coeffs@;
        let mut entries: Vec<(String, i64)> = Vec::new();
        let mut i: usize = 0;
        let old_entries = &self.coeffs.entries;
        let n = old_entries.len();
        assert(s.take(0) =~= Seq::<(Seq<char>, i64)>::empty());
        assert(entries@.map_values(|e: (String, i64)| (e.0@, e.1)) =~= drop_zeros(s.take(0)));
        while i < n
            invariant
                n == s.len(),
                old_entries@.map_values(|e: (String, i64)| (e.0@, e.1)) == s,
                i <= n,
                entries@.map_values(|e: (String, i64)| (e.0@, e.1)) == drop_zeros(s.take(i as int)),
            decreases n - i,
        {
            assert(s.take(i + 1).drop_last() =~= s.take(i as int));
            assert(s.take(i + 1).last() == s[i as int]);
            let value = old_entries[i].1;
            if value != 0 {
                let name = old_entries[i].0.clone();
                entries.push((name, value));
            }
            assert(entries@.map_values(|e: (String, i64)| (e.0@, e.1)) =~= drop_zeros(s.take(i + 1)));
            i = i + 1;
        }
        assert(s.take(n as int) =~= s);
        let f = LinearForm { coeffs: CoeffMap { entries }, constant: self.constant };
        proof {
            use_type_invariant(&f.coeffs);
        }
        f
    }

    /// Multiply through by a scalar, checking for overflow.
    ///
    /// Overflow is an error rather than a wrap: a wrapped coefficient could make
    /// variables appear to cancel when they do not.
    pub fn scale(&self, k: i64) -> (r: Result<LinearForm, VerifyError>)
        ensures
            match r {
                Ok(out) => {
                    &&& scale_form(self@, k) == Some(out@)
                    &&& out@.1 == self@.1 * k
                    &&& no_zeros(out@.0)
                    &&& sorted(out@.0)
                    &&& forall|v: Seq<char>| #[trigger] coef(out@.0, v) == coef(self@.0, v) * k
                },
                Err(e) => {
                    &&& scale_form(self@, k) is None
                    &&& e@ == Fault::Overflow
                    &&& !fits(self@.1 * k) || exists|v: Seq<char>| !fits(#[trigger] coef(self@.0, v) * k)
                },
            },
    {
        proof {
            use_type_invariant(&self.coeffs);
            lemma_scale_pointwise(self@, k);
        }
        let ghost s = self.coeffs@;
        let src = &self.coeffs.entries;
        let n = src.len();
        let mut entries: Vec<(String, i64)> = Vec::new();
        let mut i: usize = 0;
        while i < n
            invariant
                n == s.len(),
                s == self.coeffs@,
                src@.map_values(|e: (String, i64)| (e.0@, e.1)) == s,
                sorted(s),
                i <= n,
                entries@.map_values(|e: (String, i64)| (e.0@, e.1)) == scale_terms(s, k).take(i as int),
                forall|j: int| 0 <= j < i ==> fits(#[trigger] s[j].1 * k),
            decreases n - i,
        {
            assert(s[i as int] == (src@[i as int].0@, src@[i as int].1));
            match src[i].1.checked_mul(k) {
                None => {
                    assert(!fits(s[i as int].1 * k));
                    proof {
                        lemma_scale_pointwise(self@, k);
                    }
                    return Err(VerifyError::Overflow);
                },
                Some(scaled) => {
                    let name = src[i].0.clone();
                    let ghost before = entries@;
                    entries.push((name, scaled));
                    assert(entries@.map_values(|e: (String, i64)| (e.0@, e.1)) =~= before.map_values(|e: (String, i64)| (e.0@, e.1)).push((s[i as int].0, scaled)));
                    assert(scale_terms(s, k).take(i + 1) =~= scale_terms(s, k).take(i as int).push(scale_terms(s, k)[i as int]));
                    assert(entries@.map_values(|e: (String, i64)| (e.0@, e.1)) =~= scale_terms(s, k).take(i + 1));
                },
            }
            i = i + 1;
        }
        let constant = match self.constant.checked_mul(k) {
            None => {
                return Err(VerifyError::Overflow);
            },
            Some(c) => c,
        };
        assert(scale_terms(s, k).take(n as int) =~= scale_terms(s, k));
        assert(sorted(scale_terms(s, k)));
        let out = LinearForm { coeffs: CoeffMap { entries }, constant };
        Ok(out.normalised())
    }

    /// The sum of two forms, checking for overflow.
    pub fn add(&self, other: &LinearForm) -> (r: Result<LinearForm, VerifyError>)
        ensures
            match r {
                Ok(out) => {
                    &&& add_form(self@, other@) == Some(out@)
                    &&& out@.1 == self@.1 + other@.1
                    &&& no_zeros(out@.0)
                    &&& sorted(out@.0)
                    &&& forall|v: Seq<char>| #[trigger] coef(out@.0, v) == coef(self@.0, v) + coef(other@.0, v)
                },
                Err(e) => {
                    &&& add_form(self@, other@) is None
                    &&& e@ == Fault::Overflow
                    &&& !fits(self@.1 + other@.1) || exists|v: Seq<char>| !fits(#[trigger] coef(self@.0, v) + coef(other@.0, v))
                },
            },
    {
        proof {
            use_type_invariant(&self.coeffs);
            use_type_invariant(&other.coeffs);
            lemma_add_pointwise(self@, other@);
        }
        let mut out = self.coeffs.clone();
        let ghost b = other.coeffs@;
        let n = other.coeffs.len();
        let mut i: usize = 0;
        while i < n
            invariant
                n == b.len(),
                b == other.coeffs@,
                i <= n,
                fold_add(self.coeffs@, b, i as nat) == Some(out@),
            decreases n - i,
        {
            let (name, c) = other.coeffs.entry(i);
            let cur = match out.get(name) {
                Some(v) => *v,
                None => 0,
            };
            match cur.checked_add(c) {
                None => {
                    proof {
                        assert(fold_add(self.coeffs@, b, (i + 1) as nat) is None);
                        lemma_fold_add_none(self.coeffs@, b, (i + 1) as nat, n as nat);
                        use_type_invariant(&self.coeffs);
                        use_type_invariant(&other.coeffs);
                        lemma_add_pointwise(self@, other@);
                    }
                    return Err(VerifyError::Overflow);
                },
                Some(t) => {
                    out.insert(name.to_owned(), t);
                },
            }
            i = i + 1;
        }
        let constant = match self.constant.checked_add(other.constant) {
            None => {
                return Err(VerifyError::Overflow);
            },
            Some(c) => c,
        };
        let sum = LinearForm { coeffs: out, constant };
        Ok(sum.normalised())
    }

    /// Writes the form as `a - 2*b + 3 <= 0`.
    pub fn render(&self) -> (r: String)
        requires
            renderable(self@),
        ensures
            r@ == form_text(self@),
    {
        let ghost s = self.coeffs@;
        let n = self.coeffs.len();
        let mut out = String::new();
        let mut i: usize = 0;
        while i < n
            invariant
                n == s.len(),
                s == self.coeffs@,
                renderable(self@),
                i <= n,
                out@ == terms_text(s.take(i as int)),
            decreases n - i,
        {
            let (name, c) = self.coeffs.entry(i);
            assert(c == s[i as int].1);
            assert(self@.0[i as int].1 != i64::MIN);
            assert(s.take(i + 1).drop_last() =~= s.take(i as int));
            if i == 0 {
                push_term(&mut out, name, c);
                assert(out@ =~= terms_text(s.take(1)));
            } else {
                let mut t = String::new();
                push_term(&mut t, name, c);
                let tc = chars_of(t.as_str());
                push_char(&mut out, ' ');
                if !(tc.len() >= 2 && tc[0] == '-' && tc[1] == ' ') {
                    push_char(&mut out, '+');
                    push_char(&mut out, ' ');
                }
                out.append(t.as_str());
                assert(out@ =~= terms_text(s.take(i + 1)));
            }
            i = i + 1;
        }
        assert(s.take(n as int) =~= s);
        let c = self.constant;
        if n == 0 {
            push_i64(&mut out, c);
        } else if c < 0 {
            push_char(&mut out, ' ');
            push_char(&mut out, '-');
            push_char(&mut out, ' ');
            push_i64(&mut out, -c);
        } else if c > 0 {
            push_char(&mut out, ' ');
            push_char(&mut out, '+');
            push_char(&mut out, ' ');
            push_i64(&mut out, c);
        }
        push_char(&mut out, ' ');
        push_char(&mut out, '<');
        push_char(&mut out, '=');
        push_char(&mut out, ' ');
        push_char(&mut out, '0');
        assert(out@ =~= form_text(self@));
        out
    }
}

} // verus!
