//! Whitespace beside an operator means nothing: putting a whitespace
//! character at either end of a form's text, beside a sign or `*`, or just
//! before or after its `<=` leaves what the text reads as unchanged.

use vstd::prelude::*;

use crate::form::{coef, fits, upsert, Form};
use crate::parse::{
    back_ws, digits_value, find_le, lemma_back_chars, lemma_find_le, lemma_skip_chars, lemma_skips,
    lemma_step_advances, lemma_trim, name_at, parse_from, parse_text, skip_digits, skip_name, skip_ws,
    step, trim, ParseFail, Step,
};
use crate::round_trip::lemma_ws_run;
use crate::text::{is_digit, is_name_char, is_name_start, is_space};

verus! {

/// A sign or `*`: no number or name runs across one.
pub open spec fn is_operator(c: char) -> bool {
    c == '+' || c == '-' || c == '*'
}

/// What reading a text gives, forgetting why a refusal was made.
pub open spec fn accepted(r: Result<Form, ParseFail>) -> Option<Form> {
    match r {
        Ok(f) => Some(f),
        Err(_) => None,
    }
}

/// Where position `i` of a text stands once a character is put at `k`.
pub open spec fn shifted(k: int, i: int) -> int {
    if i < k {
        i
    } else {
        i + 1
    }
}

/// Reading on from `i2` in the longer text goes as reading on from `i` in the
/// shorter: `i2` is `i` shifted, or the put character itself where `i` is `k`.
pub open spec fn alike(k: int, i: int, i2: int) -> bool {
    i2 == shifted(k, i) || (i == k && i2 == k)
}

/// Two steps of reading that agree: the same term, and reading goes on from
/// alike positions.
pub open spec fn steps_alike(k: int, s: Step, s2: Step) -> bool {
    match s {
        Step::End => s2 is End,
        Step::Bad(_) => s2 is Bad,
        Step::Constant(v, n) => s2 matches Step::Constant(v2, n2) && v == v2 && alike(k, n, n2),
        Step::Variable(x, c, n) => s2 matches Step::Variable(x2, c2, n2) && x == x2 && c == c2
            && alike(k, n, n2),
    }
}

proof fn lemma_insert_index(b: Seq<char>, k: int, c: char)
    requires
        0 <= k <= b.len(),
    ensures
        b.insert(k, c).len() == b.len() + 1,
        b.insert(k, c)[k] == c,
        forall|i: int| 0 <= i < b.len() ==> #[trigger] b.insert(k, c)[shifted(k, i)] == b[i],
{
    b.insert_ensures(k, c);
    assert forall|i: int| 0 <= i < b.len() implies #[trigger] b.insert(k, c)[shifted(k, i)]
        == b[i] by {
        if i >= k {
            assert(b.insert(k, c)[i + 1] == b[i]);
        }
    }
}

proof fn lemma_ws_alike(b: Seq<char>, k: int, c: char, i: int, i2: int)
    requires
        is_space(c),
        0 <= k <= b.len(),
        0 <= i <= b.len(),
        alike(k, i, i2),
    ensures
        skip_ws(b.insert(k, c), i2) == shifted(k, skip_ws(b, i)),
    decreases b.len() - i, (if i == k && i2 == k {
        1int
    } else {
        0int
    }),
{
    lemma_insert_index(b, k, c);
    if i == k && i2 == k {
        lemma_ws_alike(b, k, c, k, k + 1);
    } else if i < b.len() && is_space(b[i]) {
        lemma_ws_alike(b, k, c, i + 1, shifted(k, i) + 1);
    }
}

proof fn lemma_digits_alike(b: Seq<char>, k: int, c: char, i: int)
    requires
        is_space(c),
        0 < k < b.len(),
        !(is_digit(b[k - 1]) && is_digit(b[k])),
        0 <= i <= b.len(),
    ensures
        alike(k, skip_digits(b, i), skip_digits(b.insert(k, c), shifted(k, i))),
        b.subrange(i, skip_digits(b, i)) == b.insert(k, c).subrange(
            shifted(k, i),
            skip_digits(b.insert(k, c), shifted(k, i)),
        ),
    decreases b.len() - i,
{
    let b2 = b.insert(k, c);
    lemma_insert_index(b, k, c);
    if i < b.len() && is_digit(b[i]) {
        if i + 1 == k {
            assert(skip_digits(b, k) == k);
            assert(skip_digits(b2, k) == k);
            assert(b.subrange(i, k) =~= seq![b[i]]);
            assert(b2.subrange(i, k) =~= seq![b[i]]);
        } else {
            lemma_digits_alike(b, k, c, i + 1);
            lemma_skips(b, i + 1);
            let d = skip_digits(b, i + 1);
            let d2 = skip_digits(b2, shifted(k, i + 1));
            lemma_skips(b2, shifted(k, i + 1));
            assert(b.subrange(i, d) =~= seq![b[i]] + b.subrange(i + 1, d));
            assert(b2.subrange(shifted(k, i), d2) =~= seq![b[i]] + b2.subrange(shifted(k, i + 1), d2));
        }
    } else {
        assert(b.subrange(i, i) =~= Seq::<char>::empty());
        assert(b2.subrange(shifted(k, i), shifted(k, i)) =~= Seq::<char>::empty());
    }
}

proof fn lemma_name_chars_alike(b: Seq<char>, k: int, c: char, i: int)
    requires
        is_space(c),
        0 < k < b.len(),
        !(is_name_char(b[k - 1]) && is_name_char(b[k])),
        0 <= i <= b.len(),
    ensures
        alike(k, skip_name(b, i), skip_name(b.insert(k, c), shifted(k, i))),
        b.subrange(i, skip_name(b, i)) == b.insert(k, c).subrange(
            shifted(k, i),
            skip_name(b.insert(k, c), shifted(k, i)),
        ),
    decreases b.len() - i,
{
    let b2 = b.insert(k, c);
    lemma_insert_index(b, k, c);
    if i < b.len() && is_name_char(b[i]) {
        if i + 1 == k {
            assert(skip_name(b, k) == k);
            assert(skip_name(b2, k) == k);
            assert(b.subrange(i, k) =~= seq![b[i]]);
            assert(b2.subrange(i, k) =~= seq![b[i]]);
        } else {
            lemma_name_chars_alike(b, k, c, i + 1);
            lemma_skips(b, i + 1);
            let d = skip_name(b, i + 1);
            let d2 = skip_name(b2, shifted(k, i + 1));
            lemma_skips(b2, shifted(k, i + 1));
            assert(b.subrange(i, d) =~= seq![b[i]] + b.subrange(i + 1, d));
            assert(b2.subrange(shifted(k, i), d2) =~= seq![b[i]] + b2.subrange(shifted(k, i + 1), d2));
        }
    } else {
        assert(b.subrange(i, i) =~= Seq::<char>::empty());
        assert(b2.subrange(shifted(k, i), shifted(k, i)) =~= Seq::<char>::empty());
    }
}

proof fn lemma_name_alike(b: Seq<char>, k: int, c: char, i: int, co: int)
    requires
        is_space(c),
        0 < k < b.len(),
        is_operator(b[k - 1]) || is_operator(b[k]),
        0 <= i <= b.len(),
    ensures
        steps_alike(k, name_at(b, i, co), name_at(b.insert(k, c), shifted(k, i), co)),
{
    let b2 = b.insert(k, c);
    lemma_insert_index(b, k, c);
    if 0 <= i < b.len() && is_name_start(b[i]) {
        if i + 1 == k {
            assert(skip_name(b, k) == k);
            assert(skip_name(b2, k) == k);
            assert(b.subrange(i, k) =~= seq![b[i]]);
            assert(b2.subrange(i, k) =~= seq![b[i]]);
        } else {
            lemma_name_chars_alike(b, k, c, i + 1);
            lemma_skips(b, i + 1);
            let d = skip_name(b, i + 1);
            let d2 = skip_name(b2, shifted(k, i + 1));
            lemma_skips(b2, shifted(k, i + 1));
            assert(b.subrange(i, d) =~= seq![b[i]] + b.subrange(i + 1, d));
            assert(b2.subrange(shifted(k, i), d2) =~= seq![b[i]] + b2.subrange(shifted(k, i + 1), d2));
        }
    }
}

proof fn lemma_step_alike(b: Seq<char>, k: int, c: char, i0: int, j0: int, first: bool)
    requires
        is_space(c),
        0 < k < b.len(),
        is_operator(b[k - 1]) || is_operator(b[k]),
        0 <= i0 <= b.len(),
        alike(k, i0, j0),
    ensures
        steps_alike(k, step(b, i0, first), step(b.insert(k, c), j0, first)),
{
    let b2 = b.insert(k, c);
    lemma_insert_index(b, k, c);
    lemma_ws_alike(b, k, c, i0, j0);
    lemma_skips(b, i0);
    let i = skip_ws(b, i0);
    if 0 <= i < b.len() {
        let signed = b[i] == '+' || b[i] == '-';
        let neg = b[i] == '-';
        if signed {
            lemma_skips(b, i + 1);
            lemma_ws_alike(b, k, c, i + 1, shifted(k, i) + 1);
        }
        let i1 = if signed {
            skip_ws(b, i + 1)
        } else {
            i
        };
        lemma_digits_alike(b, k, c, i1);
        lemma_skips(b, i1);
        let dend = skip_digits(b, i1);
        let dend2 = skip_digits(b2, shifted(k, i1));
        lemma_ws_alike(b, k, c, dend, dend2);
        lemma_skips(b, dend);
        let j = skip_ws(b, dend);
        let m = digits_value(b.subrange(i1, dend)) as int;
        if 0 <= j < b.len() {
            lemma_skips(b, j + 1);
            lemma_ws_alike(b, k, c, j + 1, shifted(k, j) + 1);
            lemma_name_alike(b, k, c, skip_ws(b, j + 1), if neg { -m } else { m });
        }
        lemma_name_alike(b, k, c, i1, if neg { -1 } else { 1 });
    }
}

proof fn lemma_parse_from_alike(
    b: Seq<char>,
    k: int,
    c: char,
    i: int,
    i2: int,
    first: bool,
    acc: Seq<(Seq<char>, i64)>,
    t: i64,
)
    requires
        is_space(c),
        0 < k < b.len(),
        is_operator(b[k - 1]) || is_operator(b[k]),
        0 <= i <= b.len(),
        alike(k, i, i2),
    ensures
        accepted(parse_from(b, i, first, acc, t)) == accepted(
            parse_from(b.insert(k, c), i2, first, acc, t),
        ),
    decreases b.len() - i,
{
    let b2 = b.insert(k, c);
    lemma_step_alike(b, k, c, i, i2, first);
    lemma_step_advances(b, i, first);
    match (step(b, i, first), step(b2, i2, first)) {
        (Step::Constant(v, n), Step::Constant(_, n2)) => {
            if fits(t + v) {
                lemma_parse_from_alike(b, k, c, n, n2, false, acc, (t + v) as i64);
            }
        },
        (Step::Variable(x, co, n), Step::Variable(_, _, n2)) => {
            let s = coef(acc, x) + co;
            if fits(s) {
                lemma_parse_from_alike(b, k, c, n, n2, false, upsert(acc, x, s as i64), t);
            }
        },
        _ => {},
    }
}

proof fn lemma_back_run(b: Seq<char>, j: int, x: int)
    requires
        0 <= x <= j <= b.len(),
        forall|m: int| x <= m < j ==> is_space(#[trigger] b[m]),
        x == 0 || !is_space(b[x - 1]),
    ensures
        back_ws(b, j) == x,
    decreases j - x,
{
    if x < j {
        lemma_back_run(b, j - 1, x);
    }
}

/// Putting whitespace into a text either leaves its trimmed part alone (when
/// it goes into the whitespace around that part) or puts it into that part.
proof fn lemma_trim_insert(s: Seq<char>, i: int, c: char)
    requires
        is_space(c),
        0 <= i <= s.len(),
    ensures
        ({
            let a = skip_ws(s, 0);
            let e = back_ws(s, s.len() as int);
            &&& a < e ==> trim(s) == s.subrange(a, e)
            &&& (e <= a || i <= a || e <= i) ==> trim(s.insert(i, c)) == trim(s)
            &&& (a < i < e) ==> trim(s.insert(i, c)) == trim(s).insert(i - a, c)
        }),
{
    let n = s.len() as int;
    let s2 = s.insert(i, c);
    lemma_insert_index(s, i, c);
    lemma_trim(s);
    lemma_trim(s2);
    lemma_skip_chars(s, 0);
    lemma_skips(s, 0);
    lemma_back_chars(s, n);
    let a = skip_ws(s, 0);
    let e = back_ws(s, n);
    if e <= a {
        assert forall|j: int| 0 <= j < n + 1 implies is_space(#[trigger] s2[j]) by {
            if j != i {
                let o = if j < i { j } else { j - 1 };
                assert(s2[shifted(i, o)] == s[o]);
            }
        }
        lemma_ws_run(s2, 0, n + 1);
        lemma_back_run(s2, n + 1, 0);
        assert(trim(s) =~= Seq::<char>::empty());
        assert(trim(s2) =~= Seq::<char>::empty());
    } else {
        assert(s2[shifted(i, a)] == s[a]);
        assert(s2[shifted(i, e - 1)] == s[e - 1]);
        assert forall|j: int| 0 <= j < shifted(i, a) implies is_space(#[trigger] s2[j]) by {
            if j != i {
                let o = if j < i { j } else { j - 1 };
                assert(s2[shifted(i, o)] == s[o]);
            }
        }
        lemma_ws_run(s2, 0, shifted(i, a));
        let e2 = shifted(i, e - 1) + 1;
        assert forall|m: int| e2 <= m < n + 1 implies is_space(#[trigger] s2[m]) by {
            if m != i {
                let o = if m < i { m } else { m - 1 };
                assert(s2[shifted(i, o)] == s[o]);
            }
        }
        lemma_back_run(s2, n + 1, e2);
        if i <= a {
            assert(s2.subrange(a + 1, e + 1) =~= s.subrange(a, e));
        } else if e <= i {
            assert(s2.subrange(a, e) =~= s.subrange(a, e));
        } else {
            assert(s2.subrange(a, e + 1) =~= s.subrange(a, e).insert(i - a, c));
        }
    }
}

/// Whether `<=` begins at `p`.
pub open spec fn le_at(t: Seq<char>, p: int) -> bool {
    0 <= p && p + 1 < t.len() && t[p] == '<' && t[p + 1] == '='
}

proof fn lemma_find_le_first(t: Seq<char>, from: int, j: int)
    requires
        0 <= from <= j,
        le_at(t, j),
    ensures
        find_le(t, from) matches Some(p) && p <= j,
    decreases j - from,
{
    if !le_at(t, from) {
        lemma_find_le_first(t, from + 1, j);
    }
}

proof fn lemma_find_le_insert(t: Seq<char>, q: int, c: char, from: int, from2: int)
    requires
        is_space(c),
        0 <= q <= t.len(),
        !le_at(t, q - 1),
        0 <= from <= t.len(),
        alike(q, from, from2),
    ensures
        find_le(t.insert(q, c), from2) == (match find_le(t, from) {
            Some(p) => Some(shifted(q, p)),
            None => None,
        }),
    decreases t.len() - from, (if from == q && from2 == q {
        1int
    } else {
        0int
    }),
{
    lemma_insert_index(t, q, c);
    if from == q && from2 == q {
        lemma_find_le_insert(t, q, c, q, q + 1);
    } else if from + 1 < t.len() {
        assert(t.insert(q, c)[shifted(q, from)] == t[from]);
        if from + 1 != q {
            assert(t.insert(q, c)[shifted(q, from + 1)] == t[from + 1]);
        }
        if !le_at(t, from) {
            lemma_find_le_insert(t, q, c, from + 1, shifted(q, from) + 1);
        }
    } else if from < t.len() {
        assert(t.insert(q, c)[shifted(q, from)] == t[from]);
    }
}

/// Whether a whitespace character may be put at position `q` of `t`: at either
/// end, beside a sign or `*`, or just before or just after a `<=`.
pub open spec fn loose_at(t: Seq<char>, q: int) -> bool {
    &&& 0 <= q <= t.len()
    &&& {
        ||| q == 0
        ||| q == t.len()
        ||| is_operator(t[q - 1])
        ||| is_operator(t[q])
        ||| le_at(t, q)
        ||| le_at(t, q - 2)
    }
}

/// A right-hand side trims to `0` as often with whitespace put into it as
/// without.
proof fn lemma_rhs_insert(r: Seq<char>, i: int, c: char)
    requires
        is_space(c),
        0 <= i <= r.len(),
    ensures
        trim(r.insert(i, c)) == seq!['0'] <==> trim(r) == seq!['0'],
{
    lemma_trim_insert(r, i, c);
    lemma_skips(r, 0);
    lemma_back_chars(r, r.len() as int);
    let a = skip_ws(r, 0);
    let e = back_ws(r, r.len() as int);
    if a < i < e {
        assert(trim(r).len() == e - a);
        assert(trim(r) != seq!['0']);
        assert(trim(r.insert(i, c)).len() == e - a + 1);
    }
}

/// The left-hand side `l` of `t` (what precedes its first `<=`, at `p`) reads
/// as the same terms with a whitespace character put at a loose position `q`.
proof fn lemma_lhs_insert(t: Seq<char>, p: int, q: int, c: char)
    requires
        is_space(c),
        loose_at(t, q),
        q <= p,
        find_le(t, 0) == Some(p),
    ensures
        ({
            let l = t.subrange(0, p);
            let l2 = l.insert(q, c);
            &&& trim(l2).len() == 0 <==> trim(l).len() == 0
            &&& accepted(parse_from(trim(l2), 0, true, Seq::empty(), 0)) == accepted(
                parse_from(trim(l), 0, true, Seq::empty(), 0),
            )
        }),
{
    lemma_find_le(t, 0);
    let l = t.subrange(0, p);
    lemma_trim_insert(l, q, c);
    lemma_skips(l, 0);
    lemma_back_chars(l, p);
    let a = skip_ws(l, 0);
    let e = back_ws(l, p);
    if a < q < e {
        let body = trim(l);
        let k = q - a;
        assert(body == l.subrange(a, e));
        if le_at(t, q) {
            lemma_find_le_first(t, 0, q);
        }
        if le_at(t, q - 2) {
            lemma_find_le_first(t, 0, q - 2);
        }
        assert(body[k - 1] == l[q - 1]);
        assert(body[k] == l[q]);
        lemma_parse_from_alike(body, k, c, 0, 0, true, Seq::empty(), 0);
    }
}

/// Spacing around operators means nothing: putting a whitespace character at
/// either end of a form's text, beside a sign or `*`, or just before or just
/// after its `<=` changes neither whether the text is accepted nor the form it
/// is read as. Read from the longer text to the shorter, the same holds of
/// taking such a character out.
pub proof fn lemma_spacing_is_insignificant(t: Seq<char>, q: int, c: char)
    requires
        is_space(c),
        loose_at(t, q),
    ensures
        accepted(parse_text(t.insert(q, c))) == accepted(parse_text(t)),
{
    let n = t.len() as int;
    let t2 = t.insert(q, c);
    lemma_insert_index(t, q, c);
    assert(!le_at(t, q - 1));
    lemma_find_le_insert(t, q, c, 0, 0);
    if let Some(p) = find_le(t, 0) {
        lemma_find_le(t, 0);
        let p2 = shifted(q, p);
        lemma_find_le_insert(t, q, c, p + 2, p2 + 2);
        let r = t.subrange(p + 2, n);
        let l = t.subrange(0, p);
        if q >= p + 2 {
            assert(t2.subrange(p2 + 2, n + 1) =~= r.insert(q - (p + 2), c));
            lemma_rhs_insert(r, q - (p + 2), c);
            assert(t2.subrange(0, p2) =~= l);
        } else {
            assert(t2.subrange(p2 + 2, n + 1) =~= r);
            assert(t2.subrange(0, p2) =~= l.insert(q, c));
            lemma_lhs_insert(t, p, q, c);
        }
    }
}
/// The same law read the other way: taking out a whitespace character whose
/// place, in the shorter text, is at either end, beside a sign or `*`, or just
/// before or just after the `<=`, changes neither whether the text is accepted
/// nor the form it is read as.
pub proof fn lemma_spacing_removed(t: Seq<char>, q: int)
    requires
        0 <= q < t.len(),
        is_space(t[q]),
        loose_at(t.remove(q), q),
    ensures
        accepted(parse_text(t.remove(q))) == accepted(parse_text(t)),
{
    assert(t.remove(q).insert(q, t[q]) =~= t);
    lemma_spacing_is_insignificant(t.remove(q), q, t[q]);
}

/// `u` is `t` with one whitespace character put in or taken out at a loose
/// place (loose in the shorter of the two texts).
pub open spec fn respaced_once(t: Seq<char>, u: Seq<char>) -> bool {
    exists|q: int, c: char| #[trigger] respaced_at(t, u, q, c)
}

/// `u` is `t` with whitespace character `c` put in at `q`, or `t` is `u` with
/// it put in there; `q` is loose in the shorter text.
pub open spec fn respaced_at(t: Seq<char>, u: Seq<char>, q: int, c: char) -> bool {
    is_space(c) && ((loose_at(t, q) && u == t.insert(q, c)) || (loose_at(u, q) && t == u.insert(q, c)))
}

/// Each text of `ts` is the one before it with one whitespace character put
/// in or taken out at a loose place.
pub open spec fn respacing_chain(ts: Seq<Seq<char>>) -> bool {
    &&& ts.len() > 0
    &&& forall|i: int| 0 <= i < ts.len() - 1 ==> #[trigger] respaced_once(ts[i], ts[i + 1])
}

/// Any number of such edits mean nothing: where every text of `ts` comes from
/// the one before it by putting in or taking out one whitespace character at
/// either end, beside a sign or `*`, or just before or just after the `<=`,
/// the first and the last text are accepted alike and read as the same form.
pub proof fn lemma_respacing_is_insignificant(ts: Seq<Seq<char>>)
    requires
        respacing_chain(ts),
    ensures
        accepted(parse_text(ts[0])) == accepted(parse_text(ts.last())),
    decreases ts.len(),
{
    let n = ts.len() as int;
    if n > 1 {
        let front = ts.drop_last();
        assert forall|i: int| 0 <= i < front.len() - 1 implies #[trigger] respaced_once(
            front[i],
            front[i + 1],
        ) by {
            assert(respaced_once(ts[i], ts[i + 1]));
        }
        lemma_respacing_is_insignificant(front);
        let i = n - 2;
        assert(respaced_once(ts[i], ts[i + 1]));
        let (q, c) = choose|q: int, c: char| #[trigger] respaced_at(ts[i], ts[i + 1], q, c);
        if loose_at(ts[i], q) && ts[i + 1] == ts[i].insert(q, c) {
            lemma_spacing_is_insignificant(ts[i], q, c);
        } else {
            lemma_spacing_is_insignificant(ts[i + 1], q, c);
        }
        assert(ts[i + 1] == ts.last());
        assert(front.last() == ts[i]);
    }
}

} // verus!
