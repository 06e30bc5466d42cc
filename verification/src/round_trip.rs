//! Reading back what `render` writes gives the form that was written.

use vstd::prelude::*;

use crate::form::{
    coef, drop_zeros, fits, form_text, later_term_text, lemma_find_in, lhs_text, no_zeros,
    sorted, term_text, terms_text, upsert, Form, Terms,
};
use crate::parse::{
    back_ws, digits_value, find_le, name_at, parse_from, parse_text, skip_digits, skip_name,
    skip_ws, step, trim, ParseFail, Step,
};
use crate::text::{
    dec_int, dec_nat, digit_char, is_digit, is_name_char, is_name_start, is_space,
    lemma_less_asymmetric, lemma_less_irreflexive, seq_less,
};

verus! {

pub proof fn lemma_digit_char(d: nat)
    requires
        d < 10,
    ensures
        digit_char(d) as int == d + 48,
        is_digit(digit_char(d)),
{
}


pub proof fn lemma_dec_nat(n: nat)
    ensures
        dec_nat(n).len() >= 1,
        forall|j: int| 0 <= j < dec_nat(n).len() ==> is_digit(#[trigger] dec_nat(n)[j]),
        digits_value(dec_nat(n)) == n,
    decreases n,
{
    lemma_digit_char(n % 10);
    if n < 10 {
        let d = dec_nat(n);
        assert(d.drop_last() =~= Seq::<char>::empty());
        assert(digits_value(d) == digits_value(d.drop_last()) * 10 + ((d.last() as int) - 48) as nat);
    } else {
        lemma_dec_nat(n / 10);
        let d = dec_nat(n);
        assert(d.drop_last() =~= dec_nat(n / 10));
        assert(d.last() == digit_char(n % 10));
        assert(digits_value(d) == digits_value(d.drop_last()) * 10 + ((d.last() as int) - 48) as nat);
        assert((n / 10) * 10 + n % 10 == n);
    }
}

pub proof fn lemma_ws_run(b: Seq<char>, k: int, e: int)
    requires
        0 <= k <= e <= b.len(),
        forall|j: int| k <= j < e ==> is_space(#[trigger] b[j]),
        e == b.len() || !is_space(b[e]),
    ensures
        skip_ws(b, k) == e,
    decreases e - k,
{
    if k < e {
        lemma_ws_run(b, k + 1, e);
    }
}

pub proof fn lemma_digit_run(b: Seq<char>, k: int, e: int)
    requires
        0 <= k <= e <= b.len(),
        forall|j: int| k <= j < e ==> is_digit(#[trigger] b[j]),
        e == b.len() || !is_digit(b[e]),
    ensures
        skip_digits(b, k) == e,
    decreases e - k,
{
    if k < e {
        lemma_digit_run(b, k + 1, e);
    }
}

pub proof fn lemma_name_run(b: Seq<char>, k: int, e: int)
    requires
        0 <= k <= e <= b.len(),
        forall|j: int| k <= j < e ==> is_name_char(#[trigger] b[j]),
        e == b.len() || !is_name_char(b[e]),
    ensures
        skip_name(b, k) == e,
    decreases e - k,
{
    if k < e {
        lemma_name_run(b, k + 1, e);
    }
}


/// A variable name as the reader takes it: a letter or `_`, then letters,
/// digits or `_`.
pub open spec fn is_name(n: Seq<char>) -> bool {
    &&& n.len() > 0
    &&& is_name_start(n[0])
    &&& forall|j: int| 1 <= j < n.len() ==> is_name_char(#[trigger] n[j])
}

/// `b` holds `w` from position `p` on.
pub open spec fn holds_at(b: Seq<char>, p: int, w: Seq<char>) -> bool {
    &&& 0 <= p
    &&& p + w.len() <= b.len()
    &&& forall|j: int| 0 <= j < w.len() ==> b[p + j] == #[trigger] w[j]
}

/// Position `e` ends a term: the text ends there or a space follows.
pub open spec fn ends_term(b: Seq<char>, e: int) -> bool {
    e == b.len() || b[e] == ' '
}

/// The end of a term: optional digits followed by `*`, then a name.
proof fn lemma_core(b: Seq<char>, q: int, d: Seq<char>, name: Seq<char>, c: int)
    requires
        0 <= q,
        holds_at(b, q, d),
        forall|j: int| 0 <= j < d.len() ==> is_digit(#[trigger] d[j]),
        d.len() > 0 ==> holds_at(b, q + d.len(), seq!['*']),
        is_name(name),
        holds_at(b, if d.len() > 0 { q + d.len() + 1 } else { q }, name),
        ends_term(b, (if d.len() > 0 { q + d.len() + 1 } else { q }) + name.len()),
    ensures
        skip_digits(b, q) == q + d.len(),
        b.subrange(q, q + d.len()) == d,
        d.len() > 0 ==> skip_ws(b, q + d.len()) == q + d.len() && b[q + d.len()] == '*'
            && skip_ws(b, q + d.len() + 1) == q + d.len() + 1,
        ({
            let n0 = if d.len() > 0 { q + d.len() + 1 } else { q };
            name_at(b, n0, c) == Step::Variable(name, c, n0 + name.len())
        }),
{
    let n0 = if d.len() > 0 { q + d.len() + 1 } else { q };
    assert(b[n0] == name[0]);
    assert(!is_digit(name[0]));
    assert forall|j: int| q <= j < q + d.len() implies is_digit(#[trigger] b[j]) by {
        assert(b[q + (j - q)] == d[j - q]);
    }
    if d.len() > 0 {
        assert(b[q + d.len()] == seq!['*'][0]);
        lemma_digit_run(b, q, q + d.len());
        lemma_ws_run(b, q + d.len(), q + d.len());
        lemma_ws_run(b, q + d.len() + 1, q + d.len() + 1);
    } else {
        lemma_digit_run(b, q, q);
    }
    assert(b.subrange(q, q + d.len()) =~= d);
    assert forall|j: int| n0 + 1 <= j < n0 + name.len() implies is_name_char(#[trigger] b[j]) by {
        assert(b[n0 + (j - n0)] == name[j - n0]);
    }
    lemma_name_run(b, n0 + 1, n0 + name.len());
    assert(b.subrange(n0, n0 + name.len()) =~= name);
}


pub proof fn lemma_holds_split(b: Seq<char>, p: int, x: Seq<char>, y: Seq<char>)
    requires
        holds_at(b, p, x + y),
    ensures
        holds_at(b, p, x),
        holds_at(b, p + x.len(), y),
{
    assert forall|j: int| 0 <= j < x.len() implies b[p + j] == #[trigger] x[j] by {
        assert((x + y)[j] == x[j]);
    }
    assert forall|j: int| 0 <= j < y.len() implies b[p + x.len() + j] == #[trigger] y[j] by {
        assert((x + y)[x.len() + j] == y[j]);
    }
}

/// How the reader sees one written term: as the variable with its coefficient,
/// ending where the term's text ends.
pub proof fn lemma_step_term(b: Seq<char>, p: int, first: bool, name: Seq<char>, c: i64)
    requires
        is_name(name),
        c != 0,
        c != i64::MIN,
        holds_at(
            b,
            p,
            if first {
                term_text(name, c)
            } else {
                seq![' '] + later_term_text(name, c)
            },
        ),
        ends_term(
            b,
            p + (if first {
                term_text(name, c)
            } else {
                seq![' '] + later_term_text(name, c)
            }).len(),
        ),
    ensures
        step(b, p, first) == Step::Variable(
            name,
            c as int,
            p + (if first {
                term_text(name, c)
            } else {
                seq![' '] + later_term_text(name, c)
            }).len(),
        ),
{
    let mag: nat = if c > 0 { c as nat } else { (-c) as nat };
    let d: Seq<char> = if c == 1 || c == -1 { Seq::empty() } else { dec_nat(mag) };
    let tail: Seq<char> = if d.len() > 0 { d + seq!['*'] + name } else { name };
    lemma_dec_nat(mag);
    let lead: Seq<char> = if first {
        if c > 0 { Seq::empty() } else { seq!['-', ' '] }
    } else {
        if c > 0 { seq![' ', '+', ' '] } else { seq![' ', '-', ' '] }
    };
    let w = if first { term_text(name, c) } else { seq![' '] + later_term_text(name, c) };
    assert(name[0] != '-' && name[0] != '+' && !is_space(name[0]) && !is_digit(name[0]));
    if c > 1 {
        assert(dec_int(c as int) == dec_nat(mag));
        assert(d[0] != '-');
    } else if c < -1 {
        assert(dec_int(-c) == dec_nat(mag));
    }
    assert(w =~= lead + tail);
    lemma_holds_split(b, p, lead, tail);
    let q = p + lead.len();
    if d.len() > 0 {
        lemma_holds_split(b, q, d + seq!['*'], name);
        lemma_holds_split(b, q, d, seq!['*']);
        assert(digits_value(d) == mag);
    }
    lemma_core(b, q, d, name, c as int);
    // The lead: whitespace and the sign before the digits or the name.
    if first {
        if c > 0 {
            lemma_ws_run(b, p, p);
        } else {
            assert(b[p] == lead[0] && b[p + 1] == lead[1]);
            lemma_ws_run(b, p, p);
            lemma_ws_run(b, p + 1, p + 2);
        }
    } else {
        assert(b[p] == lead[0] && b[p + 1] == lead[1] && b[p + 2] == lead[2]);
        lemma_ws_run(b, p, p + 1);
        lemma_ws_run(b, p + 2, p + 3);
    }
    assert(w.len() == lead.len() + tail.len());
}


/// How a constant is written: alone, or after terms with its sign spaced out.
pub open spec fn constant_text(first: bool, k: i64) -> Seq<char> {
    if first {
        dec_int(k as int)
    } else if k < 0 {
        seq![' ', '-', ' '] + dec_int(-k)
    } else {
        seq![' ', '+', ' '] + dec_int(k as int)
    }
}

/// How the reader sees a written constant that ends the text.
proof fn lemma_step_constant(b: Seq<char>, p: int, first: bool, k: i64)
    requires
        k != i64::MIN,
        !first ==> k != 0,
        holds_at(b, p, constant_text(first, k)),
        p + constant_text(first, k).len() == b.len(),
    ensures
        step(b, p, first) == Step::Constant(k as int, b.len() as int),
{
    let mag: nat = if k >= 0 { k as nat } else { (-k) as nat };
    let d = dec_nat(mag);
    lemma_dec_nat(mag);
    let lead: Seq<char> = if first {
        if k >= 0 { Seq::empty() } else { seq!['-'] }
    } else {
        if k >= 0 { seq![' ', '+', ' '] } else { seq![' ', '-', ' '] }
    };
    assert(constant_text(first, k) =~= lead + d);
    lemma_holds_split(b, p, lead, d);
    let q = p + lead.len();
    assert forall|j: int| q <= j < b.len() implies is_digit(#[trigger] b[j]) by {
        assert(b[q + (j - q)] == d[j - q]);
    }
    lemma_digit_run(b, q, b.len() as int);
    lemma_ws_run(b, b.len() as int, b.len() as int);
    assert(b.subrange(q, b.len() as int) =~= d);
    if first {
        if k >= 0 {
            assert(b[p] == d[0]);
            lemma_ws_run(b, p, p);
        } else {
            assert(b[p] == lead[0] && b[p + 1] == d[0]);
            lemma_ws_run(b, p, p);
            lemma_ws_run(b, p + 1, p + 1);
        }
    } else {
        assert(b[p] == lead[0] && b[p + 1] == lead[1] && b[p + 2] == lead[2] && b[p + 3] == d[0]);
        lemma_ws_run(b, p, p + 1);
        lemma_ws_run(b, p + 2, p + 3);
    }
}


/// A character that writing a form can produce.
pub open spec fn written_char(c: char) -> bool {
    is_name_char(c) || c == ' ' || c == '+' || c == '-' || c == '*'
}

/// Every character of `t` is one that writing a form produces.
pub open spec fn all_written(t: Seq<char>) -> bool {
    forall|j: int| 0 <= j < t.len() ==> written_char(#[trigger] t[j])
}

pub proof fn lemma_term_chars(name: Seq<char>, c: i64)
    requires
        is_name(name),
        c != 0,
    ensures
        all_written(term_text(name, c)),
        all_written(later_term_text(name, c)),
        term_text(name, c).len() > 0,
        !is_space(term_text(name, c)[0]),
        later_term_text(name, c).len() > 0,
        term_text(name, c).last() == name.last(),
        later_term_text(name, c).last() == name.last(),
        is_name_char(name.last()),
{
    let mag: nat = if c > 0 { c as nat } else { (-c) as nat };
    lemma_dec_nat(mag);
    assert(all_written(name)) by {
        assert forall|j: int| 0 <= j < name.len() implies written_char(#[trigger] name[j]) by {
            if j > 0 {
                assert(is_name_char(name[j]));
            }
        }
    }
    if name.len() > 1 {
        assert(is_name_char(name[name.len() - 1]));
    }
    let t = term_text(name, c);
    if c > 1 {
        assert(dec_int(c as int) == dec_nat(mag));
    } else if c < -1 {
        assert(dec_int(-c) == dec_nat(mag));
    }
    assert(all_written(t));
    assert(all_written(seq!['+', ' '] + t));
}

pub proof fn lemma_dec_int_chars(k: int)
    ensures
        all_written(dec_int(k)),
        dec_int(k).len() > 0,
        !is_space(dec_int(k)[0]),
        is_digit(dec_int(k).last()),
{
    let mag: nat = if k >= 0 { k as nat } else { (-k) as nat };
    lemma_dec_nat(mag);
    assert(dec_nat(mag)[dec_nat(mag).len() - 1] == dec_nat(mag).last());
}

/// Terms written one after another: each prefix of the terms is written as a
/// prefix of the text, and a space follows it unless it is the whole text.
proof fn lemma_terms_prefix(s: Terms, m: int)
    requires
        0 <= m <= s.len(),
    ensures
        holds_at(terms_text(s), 0, terms_text(s.take(m))),
        0 < m < s.len() ==> terms_text(s)[terms_text(s.take(m)).len() as int] == ' ',
    decreases s.len() - m,
{
    if m == s.len() {
        assert(s.take(m) =~= s);
    } else {
        lemma_terms_prefix(s, m + 1);
        if m == 0 {
            assert(s.take(0) =~= Seq::<(Seq<char>, i64)>::empty());
        } else {
            let t = s.take(m + 1);
            assert(t.drop_last() =~= s.take(m));
            assert(terms_text(t) == terms_text(s.take(m)) + seq![' '] + later_term_text(t.last().0, t.last().1));
            lemma_holds_split(terms_text(s), 0, terms_text(s.take(m)) + seq![' '], later_term_text(t.last().0, t.last().1));
            lemma_holds_split(terms_text(s), 0, terms_text(s.take(m)), seq![' ']);
            let pm = terms_text(s.take(m)).len() as int;
            assert(terms_text(s)[pm + 0] == seq![' '][0]);
        }
    }
}

/// The text of term `i`, as it follows the terms before it.
pub open spec fn term_piece(s: Terms, i: int) -> Seq<char> {
    if i == 0 {
        term_text(s[0].0, s[0].1)
    } else {
        seq![' '] + later_term_text(s[i].0, s[i].1)
    }
}

proof fn lemma_terms_step(s: Terms, i: int)
    requires
        0 <= i < s.len(),
    ensures
        terms_text(s.take(i + 1)) == terms_text(s.take(i)) + term_piece(s, i),
{
    let t = s.take(i + 1);
    if i == 0 {
        assert(s.take(0) =~= Seq::<(Seq<char>, i64)>::empty());
        assert(terms_text(s.take(0)) + term_piece(s, 0) =~= term_piece(s, 0));
    } else {
        assert(t.drop_last() =~= s.take(i));
        assert(terms_text(t) =~= terms_text(s.take(i)) + term_piece(s, i));
    }
}

proof fn lemma_terms_chars(s: Terms)
    requires
        forall|i: int| 0 <= i < s.len() ==> is_name(#[trigger] s[i].0) && s[i].1 != 0,
    ensures
        all_written(terms_text(s)),
        s.len() > 0 ==> terms_text(s).len() > 0 && !is_space(terms_text(s)[0]) && is_name_char(
            terms_text(s).last(),
        ),
    decreases s.len(),
{
    if s.len() > 0 {
        let p = s.drop_last();
        assert forall|i: int| 0 <= i < p.len() implies is_name(#[trigger] p[i].0) && p[i].1 != 0 by {
            assert(p[i] == s[i]);
            assert(is_name(s[i].0) && s[i].1 != 0);
        }
        lemma_terms_chars(p);
        lemma_term_chars(s.last().0, s.last().1);
        lemma_term_chars(s[0].0, s[0].1);
        if s.len() > 1 {
            lemma_terms_prefix(s, 1);
            assert(s.take(1).drop_last() =~= Seq::<(Seq<char>, i64)>::empty());
            assert(terms_text(s.take(1)) == term_text(s[0].0, s[0].1));
            assert(terms_text(s)[0] == terms_text(s.take(1))[0]);
        }
    }
}

/// Upserting a name greater than every name present appends it.
proof fn lemma_upsert_append(acc: Terms, k: Seq<char>, v: i64)
    requires
        forall|j: int| 0 <= j < acc.len() ==> seq_less(#[trigger] acc[j].0, k),
    ensures
        upsert(acc, k, v) == acc.push((k, v)),
        coef(acc, k) == 0,
    decreases acc.len(),
{
    assert forall|j: int| 0 <= j < acc.len() implies #[trigger] acc[j].0 != k by {
        lemma_less_irreflexive(k);
    }
    lemma_find_in(acc, k);
    if acc.len() > 0 {
        lemma_less_asymmetric(acc[0].0, k);
        let r = acc.drop_first();
        assert forall|j: int| 0 <= j < r.len() implies seq_less(#[trigger] r[j].0, k) by {
            assert(r[j] == acc[j + 1]);
        }
        lemma_upsert_append(r, k, v);
        assert(upsert(acc, k, v) =~= acc.push((k, v)));
    } else {
        assert(upsert(acc, k, v) =~= acc.push((k, v)));
    }
}


/// The forms `render` writes so that reading them back is possible: every
/// name is one the reader accepts, and no number is `i64::MIN`, whose
/// magnitude does not fit in `i64`.
pub open spec fn writable(f: Form) -> bool {
    &&& sorted(f.0)
    &&& forall|i: int|
        0 <= i < f.0.len() ==> is_name(#[trigger] f.0[i].0) && f.0[i].1 != 0 && f.0[i].1
            != i64::MIN
    &&& f.1 != i64::MIN
}

proof fn lemma_drop_zeros_none(s: Terms)
    requires
        no_zeros(s),
    ensures
        drop_zeros(s) == s,
    decreases s.len(),
{
    if s.len() > 0 {
        lemma_drop_zeros_none(s.drop_last());
        assert(s.drop_last().push(s.last()) =~= s);
    }
}

proof fn lemma_holds_trans(b: Seq<char>, t: Seq<char>, x: Seq<char>)
    requires
        holds_at(b, 0, t),
        holds_at(t, 0, x),
    ensures
        holds_at(b, 0, x),
{
    assert forall|j: int| 0 <= j < x.len() implies b[0 + j] == #[trigger] x[j] by {
        assert(t[0 + j] == x[j]);
        assert(b[0 + j] == t[j]);
    }
}

/// The text after the terms: nothing for a zero constant, else the constant.
pub open spec fn constant_part(k: i64) -> Seq<char> {
    if k == 0 {
        Seq::empty()
    } else {
        constant_text(false, k)
    }
}

/// Reading the written terms one by one adds each into the coefficients, in
/// order.
proof fn lemma_parse_terms(f: Form, i: int)
    requires
        writable(f),
        f.0.len() > 0,
        0 <= i <= f.0.len(),
    ensures
        parse_from(lhs_text(f), terms_text(f.0.take(i)).len() as int, i == 0, f.0.take(i), 0)
            == parse_from(lhs_text(f), terms_text(f.0).len() as int, false, f.0, 0),
    decreases f.0.len() - i,
{
    let s = f.0;
    let n = s.len() as int;
    let l = lhs_text(f);
    let t = terms_text(s);
    if i == n {
        assert(s.take(n) =~= s);
    } else {
        lemma_parse_terms(f, i + 1);
        assert(l =~= t + constant_part(f.1));
        assert(holds_at(l, 0, t)) by {
            assert forall|j: int| 0 <= j < t.len() implies l[0 + j] == #[trigger] t[j] by {}
        }
        lemma_terms_step(s, i);
        lemma_terms_prefix(s, i + 1);
        lemma_holds_trans(l, t, terms_text(s.take(i + 1)));
        lemma_holds_split(l, 0, terms_text(s.take(i)), term_piece(s, i));
        let p = terms_text(s.take(i)).len() as int;
        let e = terms_text(s.take(i + 1)).len() as int;
        if i + 1 < n {
            assert(l[e] == t[e]);
        } else {
            assert(s.take(i + 1) =~= s);
            if f.1 != 0 {
                assert(l[e] == constant_part(f.1)[0]);
            }
        }
        assert(s[i] == (s[i].0, s[i].1));
        lemma_step_term(l, p, i == 0, s[i].0, s[i].1);
        assert forall|j: int| 0 <= j < s.take(i).len() implies seq_less(#[trigger] s.take(i)[j].0, s[i].0) by {
            assert(s.take(i)[j] == s[j]);
        }
        lemma_upsert_append(s.take(i), s[i].0, s[i].1);
        assert(s.take(i).push((s[i].0, s[i].1)) =~= s.take(i + 1));
    }
}

/// The written left-hand side is non-empty, starts and ends with a
/// non-space, and holds no `<`.
proof fn lemma_lhs_chars(f: Form)
    requires
        writable(f),
    ensures
        all_written(lhs_text(f)),
        lhs_text(f).len() > 0,
        !is_space(lhs_text(f)[0]),
        !is_space(lhs_text(f).last()),
{
    let s = f.0;
    let k = f.1;
    let l = lhs_text(f);
    if s.len() == 0 {
        lemma_dec_int_chars(k as int);
    } else {
        assert forall|i: int| 0 <= i < s.len() implies is_name(#[trigger] s[i].0) && s[i].1 != 0 by {
            assert(is_name(s[i].0) && s[i].1 != 0 && s[i].1 != i64::MIN);
        }
        lemma_terms_chars(s);
        assert(l =~= terms_text(s) + constant_part(k));
        if k != 0 {
            if k < 0 {
                lemma_dec_int_chars(-k);
            } else {
                lemma_dec_int_chars(k as int);
            }
            assert(all_written(constant_part(k)));
            assert(l.last() == constant_part(k).last());
        }
    }
}

/// Reading stops with what it has once only the end is left.
pub proof fn lemma_parse_end(b: Seq<char>, first: bool, acc: Terms, k: i64)
    ensures
        parse_from(b, b.len() as int, first, acc, k) == Ok::<Form, ParseFail>((acc, k)),
{
    assert(skip_ws(b, b.len() as int) == b.len());
    assert(step(b, b.len() as int, first) is End);
}

/// Reading a written constant that ends the text adds it in and stops.
proof fn lemma_parse_constant(b: Seq<char>, p: int, first: bool, acc: Terms, k: i64)
    requires
        k != i64::MIN,
        !first ==> k != 0,
        holds_at(b, p, constant_text(first, k)),
        p + constant_text(first, k).len() == b.len(),
    ensures
        parse_from(b, p, first, acc, 0) == Ok::<Form, ParseFail>((acc, k)),
{
    lemma_step_constant(b, p, first, k);
    lemma_parse_end(b, false, acc, k);
    assert(fits(0 + k));
}

/// The left-hand side reads as the form's coefficients and constant.
proof fn lemma_parse_lhs(f: Form)
    requires
        writable(f),
    ensures
        parse_from(lhs_text(f), 0, true, Seq::empty(), 0) == Ok::<Form, ParseFail>(f),
{
    let s = f.0;
    let k = f.1;
    let l = lhs_text(f);
    let empty = Seq::<(Seq<char>, i64)>::empty();
    if s.len() == 0 {
        assert(l == constant_text(true, k));
        assert(holds_at(l, 0, constant_text(true, k)));
        lemma_parse_constant(l, 0, true, empty, k);
        assert(empty =~= s);
    } else {
        lemma_parse_terms(f, 0);
        assert(s.take(0) =~= empty);
        assert(terms_text(empty).len() == 0);
        let e = terms_text(s).len() as int;
        assert(l =~= terms_text(s) + constant_part(k));
        if k != 0 {
            assert(holds_at(l, 0, terms_text(s) + constant_part(k))) by {
                assert forall|j: int| 0 <= j < l.len() implies l[0 + j] == #[trigger] (terms_text(s) + constant_part(k))[j] by {}
            }
            lemma_holds_split(l, 0, terms_text(s), constant_part(k));
            lemma_parse_constant(l, e, false, s, k);
        } else {
            lemma_parse_end(l, false, s, 0);
        }
    }
}

/// Reading back what `render` writes gives the form that was written:
/// `parse_form(&f.render())` is `Ok(f)` for every form whose names the reader
/// accepts and in which no number is `i64::MIN`.
pub proof fn lemma_parse_render_round_trip(f: Form)
    requires
        writable(f),
    ensures
        parse_text(form_text(f)) == Ok::<Form, ParseFail>(f),
{
    let s = f.0;
    let l = lhs_text(f);
    let t = form_text(f);
    let q = l.len() as int + 1;
    lemma_lhs_chars(f);
    assert forall|j: int| 0 <= j < q implies t[j] != '<' by {
        if j < l.len() {
            assert(written_char(l[j]));
        }
    }
    lemma_find_first(t, 0, q);
    assert(find_le(t, q + 3) is None);
    assert(find_le(t, q + 2) is None);
    let rhs = t.subrange(q + 2, t.len() as int);
    assert(rhs =~= seq![' ', '0']);
    assert(trim(rhs) =~= seq!['0']) by {
        lemma_ws_run(rhs, 0, 1);
        assert(back_ws(rhs, 2) == 2);
    }
    let lhs = t.subrange(0, q);
    assert(lhs =~= l + seq![' ']);
    assert(trim(lhs) =~= l) by {
        lemma_ws_run(lhs, 0, 0);
        assert(back_ws(lhs, lhs.len() as int) == back_ws(lhs, l.len() as int));
        assert(lhs[l.len() - 1] == l.last());
        assert(back_ws(lhs, l.len() as int) == l.len());
    }
    lemma_parse_lhs(f);
    assert forall|i: int| 0 <= i < s.len() implies #[trigger] s[i].1 != 0 by {
        assert(is_name(s[i].0) && s[i].1 != 0);
    }
    lemma_drop_zeros_none(s);
}

/// The first `<=` in `t` at or after `from` is at `q` when no `<` comes before it.
pub proof fn lemma_find_first(t: Seq<char>, from: int, q: int)
    requires
        0 <= from <= q,
        q + 1 < t.len(),
        t[q] == '<',
        t[q + 1] == '=',
        forall|j: int| from <= j < q ==> t[j] != '<',
    ensures
        find_le(t, from) == Some(q),
    decreases q - from,
{
    if from < q {
        lemma_find_first(t, from + 1, q);
    }
}

} // verus!
