//! What the reader makes of a left-hand side written term by term: the sum of
//! its terms, whatever their order, over every name of the grammar
//! `[A-Za-z_][A-Za-z0-9_]*`.

use vstd::prelude::*;

use crate::form::{
    coef, drop_zeros, find, fits, later_term_text, lemma_coef_drop_zeros, lemma_drop_zeros,
    lemma_find_in, lemma_find_sorted, lemma_find_upsert, lemma_upsert_sorted, no_zeros, sorted,
    term_text, upsert, Form, Terms,
};
use crate::parse::{back_ws, digits_value, find_le, parse_from, parse_text, skip_ws, step, trim, ParseFail, Step};
use crate::round_trip::{
    all_written, constant_text, holds_at, is_name, lemma_dec_int_chars, lemma_dec_nat,
    lemma_digit_run, lemma_find_first, lemma_holds_split, lemma_parse_end, lemma_step_term,
    lemma_term_chars, lemma_ws_run, written_char,
};
use crate::text::{dec_int, dec_nat, is_digit, is_space, lemma_less_asymmetric, seq_less};

verus! {

/// An ASCII letter, upper or lower case.
pub open spec fn ascii_letter(c: char) -> bool {
    ||| ('A' as int) <= (c as int) <= ('Z' as int)
    ||| ('a' as int) <= (c as int) <= ('z' as int)
}

/// A name of the grammar `[A-Za-z_][A-Za-z0-9_]*`.
pub open spec fn grammar_name(n: Seq<char>) -> bool {
    &&& n.len() > 0
    &&& ascii_letter(n[0]) || n[0] == '_'
    &&& forall|j: int|
        1 <= j < n.len() ==> ascii_letter(#[trigger] n[j]) || (('0' as int) <= (n[j] as int) <= (
        '9' as int)) || n[j] == '_'
}

/// One term of a left-hand side, written: a constant (a term with an empty
/// name) as its numeral, a variable as `name`, `- name` or `3*name`; after the
/// first term, with a space and its sign in front (` + 3*name`, ` - 5`).
pub open spec fn written_term(first: bool, t: (Seq<char>, i64)) -> Seq<char> {
    if t.0.len() == 0 {
        constant_text(first, t.1)
    } else if first {
        term_text(t.0, t.1)
    } else {
        seq![' '] + later_term_text(t.0, t.1)
    }
}

/// The terms written one after another, in the order given.
pub open spec fn written_terms(ts: Seq<(Seq<char>, i64)>) -> Seq<char>
    decreases ts.len(),
{
    if ts.len() == 0 {
        Seq::empty()
    } else {
        written_terms(ts.drop_last()) + written_term(ts.len() == 1, ts.last())
    }
}

/// The sum of the coefficients of the first `n` terms that name `k`.
pub open spec fn total_coef(ts: Seq<(Seq<char>, i64)>, k: Seq<char>, n: nat) -> int
    decreases n,
{
    if n == 0 {
        0
    } else {
        total_coef(ts, k, (n - 1) as nat) + if ts[n - 1].0.len() > 0 && ts[n - 1].0 == k {
            ts[n - 1].1 as int
        } else {
            0
        }
    }
}

/// The sum of the first `n` terms that are constants.
pub open spec fn total_constant(ts: Seq<(Seq<char>, i64)>, n: nat) -> int
    decreases n,
{
    if n == 0 {
        0
    } else {
        total_constant(ts, (n - 1) as nat) + if ts[n - 1].0.len() == 0 {
            ts[n - 1].1 as int
        } else {
            0
        }
    }
}

/// Terms the law speaks of: at least one; each a constant or a variable with a
/// grammar name, none of them zero or `i64::MIN`; and no running sum, of a
/// variable's coefficients or of the constants, leaves `i64`.
pub open spec fn readable_terms(ts: Seq<(Seq<char>, i64)>) -> bool {
    &&& ts.len() > 0
    &&& forall|i: int|
        0 <= i < ts.len() ==> (#[trigger] ts[i].0.len() == 0 || grammar_name(ts[i].0)) && ts[i].1
            != 0 && ts[i].1 != i64::MIN
    &&& forall|n: nat, k: Seq<char>| n <= ts.len() ==> fits(#[trigger] total_coef(ts, k, n))
    &&& forall|n: nat| n <= ts.len() ==> fits(#[trigger] total_constant(ts, n))
}

/// Every grammar name is one the reader takes as a name.
pub proof fn lemma_grammar_name_is_read(n: Seq<char>)
    requires
        grammar_name(n),
    ensures
        is_name(n),
{
}

proof fn lemma_step_constant_before(b: Seq<char>, p: int, first: bool, k: i64)
    requires
        k != i64::MIN,
        k != 0,
        holds_at(b, p, constant_text(first, k)),
        ({
            let e = p + constant_text(first, k).len();
            e == b.len() || (e + 1 < b.len() && b[e] == ' ' && (b[e + 1] == '+' || b[e + 1]
                == '-'))
        }),
    ensures
        step(b, p, first) == Step::Constant(k as int, p + constant_text(first, k).len()),
{
    let e = p + constant_text(first, k).len();
    let mag: nat = if k >= 0 { k as nat } else { (-k) as nat };
    let d = dec_nat(mag);
    lemma_dec_nat(mag);
    let lead: Seq<char> = if first {
        if k >= 0 { Seq::empty() } else { seq!['-'] }
    } else {
        if k >= 0 { seq![' ', '+', ' '] } else { seq![' ', '-', ' '] }
    };
    assert(constant_text(first, k) =~= lead + d);
    lemma_holds_split(b, p, lead, d);
    let q = p + lead.len();
    assert forall|j: int| q <= j < e implies is_digit(#[trigger] b[j]) by {
        assert(b[q + (j - q)] == d[j - q]);
    }
    lemma_digit_run(b, q, e);
    if e < b.len() {
        lemma_ws_run(b, e, e + 1);
    } else {
        lemma_ws_run(b, e, e);
    }
    assert(b.subrange(q, e) =~= d);
    if first {
        if k >= 0 {
            assert(b[p] == d[0]);
            lemma_ws_run(b, p, p);
        } else {
            assert(b[p] == lead[0] && b[p + 1] == d[0]);
            lemma_ws_run(b, p, p);
            lemma_ws_run(b, p + 1, p + 1);
        }
    } else {
        assert(b[p] == lead[0] && b[p + 1] == lead[1] && b[p + 2] == lead[2] && b[p + 3] == d[0]);
        lemma_ws_run(b, p, p + 1);
        lemma_ws_run(b, p + 2, p + 3);
    }
}

/// What a written term looks like from the outside: made of written
/// characters, not empty, ending in a name character or a digit; the first
/// term does not begin with a space, a later one begins with a space and a sign.
proof fn lemma_written_term(first: bool, t: (Seq<char>, i64))
    requires
        t.0.len() == 0 || is_name(t.0),
        t.1 != 0,
        t.1 != i64::MIN,
    ensures
        all_written(written_term(first, t)),
        written_term(first, t).len() >= 1,
        !is_space(written_term(first, t).last()),
        first ==> !is_space(written_term(first, t)[0]),
        !first ==> written_term(first, t).len() >= 2 && written_term(first, t)[0] == ' ' && (
        written_term(first, t)[1] == '+' || written_term(first, t)[1] == '-'),
{
    let w = written_term(first, t);
    if t.0.len() == 0 {
        let k = t.1;
        if first {
            lemma_dec_int_chars(k as int);
        } else {
            let m: int = if k < 0 { -k } else { k as int };
            lemma_dec_int_chars(m);
            let lead: Seq<char> = if k < 0 { seq![' ', '-', ' '] } else { seq![' ', '+', ' '] };
            assert(w =~= lead + dec_int(m));
            assert forall|j: int| 0 <= j < w.len() implies written_char(#[trigger] w[j]) by {
                if j >= 3 {
                    assert(w[j] == dec_int(m)[j - 3]);
                }
            }
            assert(w.last() == dec_int(m).last());
        }
    } else {
        lemma_term_chars(t.0, t.1);
        let tt = term_text(t.0, t.1);
        if first {
        } else {
            let l = later_term_text(t.0, t.1);
            assert(w =~= seq![' '] + l);
            assert forall|j: int| 0 <= j < w.len() implies written_char(#[trigger] w[j]) by {
                if j >= 1 {
                    assert(w[j] == l[j - 1]);
                }
            }
            assert(w.last() == l.last());
            if t.1 == 1 {
                assert(tt == t.0);
            } else if t.1 > 1 {
                lemma_dec_int_chars(t.1 as int);
                assert(tt[0] == dec_int(t.1 as int)[0]);
            }
            assert(w[1] == l[0]);
        }
    }
}

/// Each prefix of the terms is written as a prefix of the text, and the next
/// term's text follows it.
proof fn lemma_written_prefix(ts: Seq<(Seq<char>, i64)>, m: int)
    requires
        0 <= m < ts.len(),
    ensures
        written_terms(ts.take(m + 1)) == written_terms(ts.take(m)) + written_term(m == 0, ts[m]),
        holds_at(written_terms(ts), 0, written_terms(ts.take(m + 1))),
        holds_at(written_terms(ts), written_terms(ts.take(m)).len() as int, written_term(m == 0, ts[m])),
    decreases ts.len() - m,
{
    let t = ts.take(m + 1);
    assert(t.drop_last() =~= ts.take(m));
    if m + 1 == ts.len() {
        assert(t =~= ts);
        assert forall|j: int| 0 <= j < written_terms(ts).len() implies written_terms(ts)[0 + j]
            == #[trigger] written_terms(t)[j] by {}
    } else {
        lemma_written_prefix(ts, m + 1);
        let b = written_terms(ts);
        let x = written_terms(t);
        let y = written_term(false, ts[m + 1]);
        assert(ts.take(m + 2).drop_last() =~= t);
        lemma_holds_split(b, 0, x, y);
    }
    lemma_holds_split(written_terms(ts), 0, written_terms(ts.take(m)), written_term(m == 0, ts[m]));
}

proof fn lemma_written_chars(ts: Seq<(Seq<char>, i64)>)
    requires
        ts.len() > 0,
        forall|i: int|
            0 <= i < ts.len() ==> (#[trigger] ts[i].0.len() == 0 || is_name(ts[i].0)) && ts[i].1
                != 0 && ts[i].1 != i64::MIN,
    ensures
        all_written(written_terms(ts)),
        written_terms(ts).len() > 0,
        !is_space(written_terms(ts)[0]),
        !is_space(written_terms(ts).last()),
    decreases ts.len(),
{
    let b = written_terms(ts);
    let p = ts.drop_last();
    let w = written_term(ts.len() == 1, ts.last());
    assert(ts.last() == ts[ts.len() - 1]);
    lemma_written_term(ts.len() == 1, ts.last());
    if ts.len() == 1 {
        assert(p =~= Seq::<(Seq<char>, i64)>::empty());
        assert(written_terms(p) =~= Seq::<char>::empty());
        assert(b =~= w);
    } else {
        assert forall|i: int| 0 <= i < p.len() implies (#[trigger] p[i].0.len() == 0 || is_name(
            p[i].0,
        )) && p[i].1 != 0 && p[i].1 != i64::MIN by {
            assert(p[i] == ts[i]);
        }
        lemma_written_chars(p);
        let a = written_terms(p);
        assert(b =~= a + w);
        assert forall|j: int| 0 <= j < b.len() implies written_char(#[trigger] b[j]) by {
            if j < a.len() {
                assert(b[j] == a[j]);
            } else {
                assert(b[j] == w[j - a.len()]);
            }
        }
        assert(b[0] == a[0]);
        assert(b.last() == w.last());
    }
}

/// How the reader sees term `j` of the written terms: as that constant or
/// that variable with its coefficient, ending where the term's text ends.
proof fn lemma_term_step(ts: Seq<(Seq<char>, i64)>, j: int)
    requires
        readable_terms(ts),
        forall|i: int| 0 <= i < ts.len() ==> (#[trigger] ts[i].0.len() == 0 || is_name(ts[i].0)),
        0 <= j < ts.len(),
    ensures
        ({
            let b = written_terms(ts);
            let pos = written_terms(ts.take(j)).len() as int;
            let e = written_terms(ts.take(j + 1)).len() as int;
            &&& e <= b.len()
            &&& step(b, pos, j == 0) == if ts[j].0.len() == 0 {
                Step::Constant(ts[j].1 as int, e)
            } else {
                Step::Variable(ts[j].0, ts[j].1 as int, e)
            }
        }),
{
    let b = written_terms(ts);
    let n = ts.len() as int;
    lemma_written_prefix(ts, j);
    let pos = written_terms(ts.take(j)).len() as int;
    let w = written_term(j == 0, ts[j]);
    let e = pos + w.len();
    let t = ts[j];
    assert(t.1 != 0 && t.1 != i64::MIN);
    if j + 1 < n {
        lemma_written_prefix(ts, j + 1);
        assert(ts[j + 1].0.len() == 0 || is_name(ts[j + 1].0));
        assert(ts[j + 1].1 != 0 && ts[j + 1].1 != i64::MIN);
        lemma_written_term(false, ts[j + 1]);
        let w2 = written_term(false, ts[j + 1]);
        assert(b[e + 0] == w2[0]);
        assert(b[e + 1] == w2[1]);
    } else {
        assert(ts.take(j + 1) =~= ts);
    }
    if t.0.len() == 0 {
        lemma_step_constant_before(b, pos, j == 0, t.1);
    } else {
        assert(is_name(t.0));
        if e < b.len() {
            assert(b[e] == ' ');
        }
        lemma_step_term(b, pos, j == 0, t.0, t.1);
    }
}

/// Reading the written terms from term `j` on, with what was added up before
/// it, reaches the sums of all the terms.
proof fn lemma_read_from(ts: Seq<(Seq<char>, i64)>, j: int, acc: Terms, k: i64)
    requires
        readable_terms(ts),
        forall|i: int| 0 <= i < ts.len() ==> (#[trigger] ts[i].0.len() == 0 || is_name(ts[i].0)),
        0 <= j <= ts.len(),
        sorted(acc),
        forall|v: Seq<char>| #[trigger] coef(acc, v) == total_coef(ts, v, j as nat),
        k == total_constant(ts, j as nat),
    ensures
        ({
            let b = written_terms(ts);
            &&& parse_from(b, written_terms(ts.take(j)).len() as int, j == 0, acc, k) matches Ok(f)
            &&& sorted(f.0)
            &&& f.1 == total_constant(ts, ts.len() as nat)
            &&& forall|v: Seq<char>| #[trigger] coef(f.0, v) == total_coef(ts, v, ts.len() as nat)
        }),
    decreases ts.len() - j,
{
    let b = written_terms(ts);
    let n = ts.len() as int;
    if j == n {
        assert(ts.take(n) =~= ts);
        lemma_parse_end(b, j == 0, acc, k);
    } else {
        lemma_term_step(ts, j);
        let t = ts[j];
        assert(fits(total_constant(ts, (j + 1) as nat)));
        if t.0.len() == 0 {
            assert(fits(k + t.1));
            lemma_read_from(ts, j + 1, acc, (k + t.1) as i64);
        } else {
            let s = coef(acc, t.0) + t.1;
            assert(s == total_coef(ts, t.0, (j + 1) as nat));
            assert(fits(total_coef(ts, t.0, (j + 1) as nat)));
            let acc2 = upsert(acc, t.0, s as i64);
            lemma_upsert_sorted(acc, t.0, s as i64);
            assert forall|v: Seq<char>| #[trigger] coef(acc2, v) == total_coef(ts, v, (j + 1) as nat) by {
                lemma_find_upsert(acc, t.0, s as i64, v);
                assert(coef(acc, v) == total_coef(ts, v, j as nat));
                if v == t.0 {
                    assert(find(acc2, v) == Some(s as i64));
                    assert((s as i64) as int == s);
                } else {
                    assert(find(acc2, v) == find(acc, v));
                }
                assert(total_coef(ts, v, (j + 1) as nat) == total_coef(ts, v, j as nat) + (if t.0 == v {
                    t.1 as int
                } else {
                    0
                }));
            }
            lemma_read_from(ts, j + 1, acc2, k);
        }
    }
}

/// A left-hand side whose characters the reader can meet, read with ` <= 0`
/// after it.
proof fn lemma_read_lhs(l: Seq<char>)
    requires
        all_written(l),
        l.len() > 0,
        !is_space(l[0]),
        !is_space(l.last()),
    ensures
        parse_text(l + seq![' ', '<', '=', ' ', '0']) == (match parse_from(
            l,
            0,
            true,
            Seq::empty(),
            0,
        ) {
            Ok(f) => Ok::<Form, ParseFail>((drop_zeros(f.0), f.1)),
            Err(e) => Err(e),
        }),
{
    let t = l + seq![' ', '<', '=', ' ', '0'];
    let q = l.len() as int + 1;
    assert forall|j: int| 0 <= j < q implies t[j] != '<' by {
        if j < l.len() {
            assert(written_char(l[j]));
        }
    }
    lemma_find_first(t, 0, q);
    assert(find_le(t, q + 3) is None);
    assert(find_le(t, q + 2) is None);
    let rhs = t.subrange(q + 2, t.len() as int);
    assert(rhs =~= seq![' ', '0']);
    assert(trim(rhs) =~= seq!['0']) by {
        lemma_ws_run(rhs, 0, 1);
        assert(back_ws(rhs, 2) == 2);
    }
    let lhs = t.subrange(0, q);
    assert(lhs =~= l + seq![' ']);
    assert(trim(lhs) =~= l) by {
        lemma_ws_run(lhs, 0, 0);
        assert(back_ws(lhs, lhs.len() as int) == back_ws(lhs, l.len() as int));
        assert(lhs[l.len() - 1] == l.last());
        assert(back_ws(lhs, l.len() as int) == l.len());
    }
}

/// Terms are read as their sum, in whatever order they are written: for every
/// list of terms over grammar names (none zero, no running sum leaving `i64`),
/// the text of the terms one after another, then ` <= 0`, is accepted, and the
/// form read has, for each name, the sum of that name's coefficients, and as
/// constant the sum of the constants; its names are in increasing order and
/// none has a zero coefficient.
pub proof fn lemma_terms_read_as_their_sum(ts: Seq<(Seq<char>, i64)>)
    requires
        readable_terms(ts),
    ensures
        ({
            &&& parse_text(written_terms(ts) + " <= 0"@) matches Ok(f)
            &&& sorted(f.0)
            &&& no_zeros(f.0)
            &&& f.1 == total_constant(ts, ts.len() as nat)
            &&& forall|v: Seq<char>| #[trigger] coef(f.0, v) == total_coef(ts, v, ts.len() as nat)
        }),
{
    reveal_strlit(" <= 0");
    assert(" <= 0"@ =~= seq![' ', '<', '=', ' ', '0']);
    assert forall|i: int| 0 <= i < ts.len() implies (#[trigger] ts[i].0.len() == 0 || is_name(
        ts[i].0,
    )) by {
        if ts[i].0.len() > 0 {
            lemma_grammar_name_is_read(ts[i].0);
        }
    }
    lemma_written_chars(ts);
    let b = written_terms(ts);
    let empty = Seq::<(Seq<char>, i64)>::empty();
    assert(ts.take(0) =~= empty);
    assert(sorted(empty));
    lemma_read_from(ts, 0, empty, 0);
    lemma_read_lhs(b);
    let f = parse_from(b, 0, true, empty, 0)->Ok_0;
    lemma_drop_zeros(f.0);
    assert forall|v: Seq<char>| #[trigger] coef(drop_zeros(f.0), v) == total_coef(ts, v, ts.len() as nat) by {
        lemma_coef_drop_zeros(f.0, v);
    }
}

/// A coefficient sequence with its names in increasing order and no zero is
/// fixed by its coefficients: two such sequences that give every name the
/// same coefficient are the same.
pub proof fn lemma_terms_fixed_by_coefficients(s1: Terms, s2: Terms)
    requires
        sorted(s1),
        sorted(s2),
        no_zeros(s1),
        no_zeros(s2),
        forall|v: Seq<char>| #[trigger] coef(s1, v) == coef(s2, v),
    ensures
        s1 == s2,
    decreases s1.len() + s2.len(),
{
    if s1.len() == 0 && s2.len() == 0 {
        assert(s1 =~= s2);
    } else if s1.len() == 0 {
        lemma_find_sorted(s2, 0);
        assert(coef(s2, s2[0].0) != 0);
        assert(coef(s1, s2[0].0) == 0);
    } else if s2.len() == 0 {
        lemma_find_sorted(s1, 0);
        assert(coef(s1, s1[0].0) != 0);
        assert(coef(s2, s1[0].0) == 0);
    } else {
        let a = s1[0].0;
        let b = s2[0].0;
        lemma_find_sorted(s1, 0);
        lemma_find_sorted(s2, 0);
        assert(coef(s1, a) == coef(s2, a));
        assert(coef(s1, b) == coef(s2, b));
        lemma_find_in(s2, a);
        lemma_find_in(s1, b);
        let i = choose|i: int| 0 <= i < s2.len() && s2[i] == (a, find(s2, a)->0) && #[trigger] s2[i].0 == a;
        let i2 = choose|i2: int| 0 <= i2 < s1.len() && s1[i2] == (b, find(s1, b)->0) && #[trigger] s1[i2].0 == b;
        if i > 0 && i2 > 0 {
            assert(seq_less(s2[0].0, s2[i].0));
            assert(seq_less(s1[0].0, s1[i2].0));
            lemma_less_asymmetric(b, a);
        }
        assert(a == b);
        assert(s1[0] == s2[0]);
        let t1 = s1.drop_first();
        let t2 = s2.drop_first();
        assert(sorted(t1));
        assert(sorted(t2));
        assert forall|v: Seq<char>| #[trigger] coef(t1, v) == coef(t2, v) by {
            if v == a {
                assert forall|j: int| 0 <= j < t1.len() implies #[trigger] t1[j].0 != v by {
                    assert(seq_less(s1[0].0, s1[j + 1].0));
                    lemma_less_asymmetric(s1[0].0, s1[j + 1].0);
                }
                assert forall|j: int| 0 <= j < t2.len() implies #[trigger] t2[j].0 != v by {
                    assert(seq_less(s2[0].0, s2[j + 1].0));
                    lemma_less_asymmetric(s2[0].0, s2[j + 1].0);
                }
                lemma_find_in(t1, v);
                lemma_find_in(t2, v);
            } else {
                assert(coef(s1, v) == coef(s2, v));
            }
        }
        lemma_terms_fixed_by_coefficients(t1, t2);
        assert(s1 =~= seq![s1[0]] + t1);
        assert(s2 =~= seq![s2[0]] + t2);
    }
}

/// Every name of the grammar `[A-Za-z_][A-Za-z0-9_]*` is read: `n <= 0` is
/// the form with the single coefficient 1 for `n` and constant 0.
pub proof fn lemma_grammar_name_reads(n: Seq<char>)
    requires
        grammar_name(n),
    ensures
        parse_text(n + " <= 0"@) == Ok::<Form, ParseFail>((seq![(n, 1i64)], 0i64)),
{
    let ts = seq![(n, 1i64)];
    assert forall|m: nat, k: Seq<char>| m <= ts.len() implies fits(#[trigger] total_coef(ts, k, m)) by {
        if m == 1 {
            assert(total_coef(ts, k, 0) == 0);
        }
    }
    assert forall|m: nat| m <= ts.len() implies fits(#[trigger] total_constant(ts, m)) by {
        if m == 1 {
            assert(total_constant(ts, 0) == 0);
        }
    }
    assert(readable_terms(ts));
    lemma_terms_read_as_their_sum(ts);
    assert(ts.drop_last() =~= Seq::<(Seq<char>, i64)>::empty());
    assert(written_terms(ts.drop_last()) =~= Seq::<char>::empty());
    assert(written_terms(ts) =~= n);
    assert(written_terms(ts) + " <= 0"@ == n + " <= 0"@);
    let f = parse_text(n + " <= 0"@)->Ok_0;
    let want: Terms = seq![(n, 1i64)];
    assert(sorted(want));
    assert forall|v: Seq<char>| #[trigger] coef(f.0, v) == coef(want, v) by {
        assert(total_coef(ts, v, 0) == 0);
        assert(coef(f.0, v) == total_coef(ts, v, 1));
        assert(want.drop_first() =~= Seq::<(Seq<char>, i64)>::empty());
        if v == n {
            assert(find(want, v) == Some(1i64));
        } else {
            assert(find(want, v) == find(want.drop_first(), v));
        }
    }
    lemma_terms_fixed_by_coefficients(f.0, want);
    assert(total_constant(ts, 0) == 0);
}

proof fn lemma_totals_same_prefix(ts: Seq<(Seq<char>, i64)>, us: Seq<(Seq<char>, i64)>, m: nat)
    requires
        m <= ts.len(),
        m <= us.len(),
        forall|i: int| 0 <= i < m ==> ts[i] == us[i],
    ensures
        forall|k: Seq<char>| #[trigger] total_coef(ts, k, m) == total_coef(us, k, m),
        total_constant(ts, m) == total_constant(us, m),
    decreases m,
{
    if m > 0 {
        lemma_totals_same_prefix(ts, us, (m - 1) as nat);
        assert(ts[m - 1] == us[m - 1]);
        assert forall|k: Seq<char>| #[trigger] total_coef(ts, k, m) == total_coef(us, k, m) by {
            assert(total_coef(ts, k, (m - 1) as nat) == total_coef(us, k, (m - 1) as nat));
        }
    }
}

/// Taking a term out takes its share out of the sums.
proof fn lemma_totals_remove(ts: Seq<(Seq<char>, i64)>, i: int)
    requires
        0 <= i < ts.len(),
    ensures
        forall|k: Seq<char>|
            #[trigger] total_coef(ts, k, ts.len() as nat) == total_coef(
                ts.remove(i),
                k,
                (ts.len() - 1) as nat,
            ) + (if ts[i].0.len() > 0 && ts[i].0 == k {
                ts[i].1 as int
            } else {
                0
            }),
        total_constant(ts, ts.len() as nat) == total_constant(ts.remove(i), (ts.len() - 1) as nat)
            + (if ts[i].0.len() == 0 {
            ts[i].1 as int
        } else {
            0
        }),
    decreases ts.len(),
{
    let n = ts.len() as int;
    let d = ts.drop_last();
    let r = ts.remove(i);
    ts.remove_ensures(i);
    lemma_totals_same_prefix(ts, d, (n - 1) as nat);
    if i == n - 1 {
        assert(r =~= d);
        assert forall|k: Seq<char>|
            #[trigger] total_coef(ts, k, ts.len() as nat) == total_coef(r, k, (ts.len() - 1) as nat) + (if ts[i].0.len() > 0
                && ts[i].0 == k {
                ts[i].1 as int
            } else {
                0
            }) by {
            assert(total_coef(ts, k, (n - 1) as nat) == total_coef(d, k, (n - 1) as nat));
        }
    } else {
        lemma_totals_remove(d, i);
        d.remove_ensures(i);
        let dr = d.remove(i);
        assert forall|q: int| 0 <= q < n - 2 implies r[q] == dr[q] by {
            if q < i {
                assert(r[q] == ts[q]);
            } else {
                assert(r[q] == ts[q + 1]);
            }
        }
        lemma_totals_same_prefix(r, dr, (n - 2) as nat);
        assert(r[n - 2] == ts[n - 1]);
        assert(d[i] == ts[i]);
        assert forall|k: Seq<char>|
            #[trigger] total_coef(ts, k, ts.len() as nat) == total_coef(r, k, (ts.len() - 1) as nat) + (if ts[i].0.len() > 0
                && ts[i].0 == k {
                ts[i].1 as int
            } else {
                0
            }) by {
            assert(total_coef(ts, k, (n - 1) as nat) == total_coef(d, k, (n - 1) as nat));
            assert(total_coef(r, k, (n - 2) as nat) == total_coef(dr, k, (n - 2) as nat));
            assert(total_coef(d, k, d.len() as nat) == total_coef(dr, k, (d.len() - 1) as nat) + (
            if d[i].0.len() > 0 && d[i].0 == k {
                d[i].1 as int
            } else {
                0
            }));
            assert(total_coef(r, k, (n - 1) as nat) == total_coef(r, k, (n - 2) as nat) + (if r[n - 2].0.len()
                > 0 && r[n - 2].0 == k {
                r[n - 2].1 as int
            } else {
                0
            }));
        }
    }
}

/// The sums do not depend on the order of the terms.
proof fn lemma_totals_permuted(ts1: Seq<(Seq<char>, i64)>, ts2: Seq<(Seq<char>, i64)>)
    requires
        ts1.to_multiset() == ts2.to_multiset(),
    ensures
        forall|k: Seq<char>|
            #[trigger] total_coef(ts1, k, ts1.len() as nat) == total_coef(ts2, k, ts2.len() as nat),
        total_constant(ts1, ts1.len() as nat) == total_constant(ts2, ts2.len() as nat),
    decreases ts1.len(),
{
    broadcast use vstd::seq_lib::group_to_multiset_ensures;

    if ts1.len() == 0 {
        assert(ts1.to_multiset().len() == 0);
        assert(ts2.to_multiset().len() == ts2.len());
    } else {
        let n = ts1.len() as int;
        let x = ts1.last();
        let d = ts1.drop_last();
        assert(d.push(x) =~= ts1);
        assert(ts2.to_multiset().count(x) > 0);
        assert(ts2.contains(x));
        let i = choose|i: int| 0 <= i < ts2.len() && ts2[i] == x;
        let r = ts2.remove(i);
        assert(r.to_multiset() =~= d.to_multiset());
        lemma_totals_permuted(d, r);
        lemma_totals_remove(ts2, i);
        lemma_totals_same_prefix(ts1, d, (n - 1) as nat);
        assert forall|k: Seq<char>|
            #[trigger] total_coef(ts1, k, ts1.len() as nat) == total_coef(ts2, k, ts2.len() as nat) by {
            assert(total_coef(ts1, k, (n - 1) as nat) == total_coef(d, k, (n - 1) as nat));
            assert(total_coef(d, k, d.len() as nat) == total_coef(r, k, r.len() as nat));
        }
    }
}

/// The order of the terms does not matter: two lists that hold the same terms,
/// each as often, written out in their orders, are read as the same form (for
/// instance `1 - x <= 0` and `- x + 1 <= 0`).
pub proof fn lemma_term_order_does_not_matter(ts1: Seq<(Seq<char>, i64)>, ts2: Seq<(Seq<char>, i64)>)
    requires
        readable_terms(ts1),
        readable_terms(ts2),
        ts1.to_multiset() == ts2.to_multiset(),
    ensures
        parse_text(written_terms(ts1) + " <= 0"@) is Ok,
        parse_text(written_terms(ts1) + " <= 0"@) == parse_text(written_terms(ts2) + " <= 0"@),
{
    lemma_terms_read_as_their_sum(ts1);
    lemma_terms_read_as_their_sum(ts2);
    lemma_totals_permuted(ts1, ts2);
    let f1 = parse_text(written_terms(ts1) + " <= 0"@)->Ok_0;
    let f2 = parse_text(written_terms(ts2) + " <= 0"@)->Ok_0;
    assert forall|v: Seq<char>| #[trigger] coef(f1.0, v) == coef(f2.0, v) by {
        assert(coef(f1.0, v) == total_coef(ts1, v, ts1.len() as nat));
        assert(coef(f2.0, v) == total_coef(ts2, v, ts2.len() as nat));
    }
    lemma_terms_fixed_by_coefficients(f1.0, f2.0);
}

} // verus!
