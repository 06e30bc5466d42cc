//! Reading a linear form from its text, strictly: every character of the
//! left-hand side must belong to a term.

use vstd::prelude::*;

use crate::form::{
    coef, drop_zeros, fits, lemma_drop_zeros, no_zeros, sorted, upsert, Fault, Form, LinearForm, Terms,
    VerifyError,
};
use crate::text::{
    chars_of, debug_quote, debug_quoted, dec_int, digit, is_digit, is_name_char, is_name_start,
    is_space, name_char, name_start, push_char, push_u64, space,
};

verus! {

/// The first position at or after `from` where `<=` begins.
pub open spec fn find_le(t: Seq<char>, from: int) -> Option<int>
    decreases t.len() - from,
{
    if from < 0 || from + 1 >= t.len() {
        None
    } else if t[from] == '<' && t[from + 1] == '=' {
        Some(from)
    } else {
        find_le(t, from + 1)
    }
}

pub proof fn lemma_find_le(t: Seq<char>, from: int)
    ensures
        find_le(t, from) matches Some(p) ==> from <= p && p + 1 < t.len() && t[p] == '<' && t[p
            + 1] == '=',
    decreases t.len() - from,
{
    if !(from < 0 || from + 1 >= t.len()) && !(t[from] == '<' && t[from + 1] == '=') {
        lemma_find_le(t, from + 1);
    }
}

/// The first position at or after `i` that is not whitespace (or the end).
pub open spec fn skip_ws(b: Seq<char>, i: int) -> int
    decreases b.len() - i,
{
    if 0 <= i < b.len() && is_space(b[i]) {
        skip_ws(b, i + 1)
    } else {
        i
    }
}

/// The first position at or after `i` that is not an ASCII digit.
pub open spec fn skip_digits(b: Seq<char>, i: int) -> int
    decreases b.len() - i,
{
    if 0 <= i < b.len() && is_digit(b[i]) {
        skip_digits(b, i + 1)
    } else {
        i
    }
}

/// The first position at or after `i` that cannot continue a name.
pub open spec fn skip_name(b: Seq<char>, i: int) -> int
    decreases b.len() - i,
{
    if 0 <= i < b.len() && is_name_char(b[i]) {
        skip_name(b, i + 1)
    } else {
        i
    }
}

/// The end of `b` once trailing whitespace before `j` is dropped.
pub open spec fn back_ws(b: Seq<char>, j: int) -> int
    decreases j,
{
    if 0 < j <= b.len() && is_space(b[j - 1]) {
        back_ws(b, j - 1)
    } else {
        j
    }
}

/// `s` without leading and trailing whitespace (`str::trim`).
pub open spec fn trim(s: Seq<char>) -> Seq<char> {
    let a = skip_ws(s, 0);
    let e = back_ws(s, s.len() as int);
    if e <= a {
        Seq::empty()
    } else {
        s.subrange(a, e)
    }
}

/// The value of a run of ASCII digits.
pub open spec fn digits_value(d: Seq<char>) -> nat
    decreases d.len(),
{
    if d.len() == 0 {
        0
    } else {
        digits_value(d.drop_last()) * 10 + ((d.last() as int) - 48) as nat
    }
}

/// Why a form's text was refused.
pub enum ParseFail {
    /// The text does not hold exactly one `<=`.
    Relation,
    /// The right-hand side is not `0`.
    RightSide,
    /// Nothing stands left of `<=`.
    EmptyLeft,
    /// A term after the first has no `+` or `-` before it (at this offset).
    MissingSign(int),
    /// A coefficient does not fit in `i64`.
    Coefficient(Seq<char>),
    /// A bare integer does not fit in `i64`.
    Integer(Seq<char>),
    /// No term can be read at this offset.
    NoTerm(int),
    /// Adding up the terms leaves `i64`.
    Overflow,
}

/// One step of reading the left-hand side.
pub enum Step {
    /// Only whitespace is left.
    End,
    Bad(ParseFail),
    /// A bare integer with its sign, and where reading goes on.
    Constant(int, int),
    /// A variable, its signed coefficient, and where reading goes on.
    Variable(Seq<char>, int, int),
}

/// A variable name starting at `i`, with coefficient `c`.
pub open spec fn name_at(b: Seq<char>, i: int, c: int) -> Step {
    if 0 <= i < b.len() && is_name_start(b[i]) {
        let e = skip_name(b, i + 1);
        Step::Variable(b.subrange(i, e), c, e)
    } else {
        Step::Bad(ParseFail::NoTerm(i))
    }
}

/// Reads the term that starts at `i0` (after optional whitespace). Only the
/// first term may omit its sign; a coefficient is digits followed by `*`.
pub open spec fn step(b: Seq<char>, i0: int, first: bool) -> Step {
    let i = skip_ws(b, i0);
    if !(0 <= i < b.len()) {
        Step::End
    } else {
        let signed = b[i] == '+' || b[i] == '-';
        let neg = b[i] == '-';
        let i1 = if signed {
            skip_ws(b, i + 1)
        } else {
            i
        };
        if !signed && !first {
            Step::Bad(ParseFail::MissingSign(i1))
        } else {
            let dend = skip_digits(b, i1);
            let digits = b.subrange(i1, dend);
            let j = skip_ws(b, dend);
            let m = digits_value(digits) as int;
            if digits.len() > 0 && 0 <= j < b.len() && b[j] == '*' {
                if m > i64::MAX {
                    Step::Bad(ParseFail::Coefficient(digits))
                } else {
                    name_at(
                        b,
                        skip_ws(b, j + 1),
                        if neg {
                            -m
                        } else {
                            m
                        },
                    )
                }
            } else if digits.len() > 0 {
                if m > i64::MAX {
                    Step::Bad(ParseFail::Integer(digits))
                } else {
                    Step::Constant(
                        if neg {
                            -m
                        } else {
                            m
                        },
                        dend,
                    )
                }
            } else {
                name_at(
                    b,
                    i1,
                    if neg {
                        -1
                    } else {
                        1
                    },
                )
            }
        }
    }
}

pub proof fn lemma_skips(b: Seq<char>, i: int)
    ensures
        i <= skip_ws(b, i),
        i <= skip_digits(b, i),
        i <= skip_name(b, i),
        0 <= i <= b.len() ==> skip_ws(b, i) <= b.len() && skip_digits(b, i) <= b.len()
            && skip_name(b, i) <= b.len(),
    decreases b.len() - i,
{
    if 0 <= i < b.len() {
        lemma_skips(b, i + 1);
    }
}

/// Every term read moves strictly forward and stays inside `b`.
pub proof fn lemma_step_advances(b: Seq<char>, i: int, first: bool)
    requires
        0 <= i,
    ensures
        step(b, i, first) matches Step::Constant(_, n) ==> i < n <= b.len(),
        step(b, i, first) matches Step::Variable(_, _, n) ==> i < n <= b.len(),
{
    lemma_skips(b, i);
    let k = skip_ws(b, i);
    if 0 <= k < b.len() {
        lemma_skips(b, k + 1);
        let i1 = if b[k] == '+' || b[k] == '-' {
            skip_ws(b, k + 1)
        } else {
            k
        };
        lemma_skips(b, i1);
        let dend = skip_digits(b, i1);
        lemma_skips(b, dend);
        let j = skip_ws(b, dend);
        if 0 <= j < b.len() {
            lemma_skips(b, j + 1);
            let i2 = skip_ws(b, j + 1);
            if 0 <= i2 < b.len() {
                lemma_skips(b, i2 + 1);
            }
        }
        if 0 <= i1 < b.len() {
            lemma_skips(b, i1 + 1);
        }
    }
}

/// Reads terms from `i` on, adding each into `acc` and `k`.
pub open spec fn parse_from(b: Seq<char>, i: int, first: bool, acc: Terms, k: i64) -> Result<
    Form,
    ParseFail,
>
    decreases b.len() - i,
{
    if i < 0 {
        Err(ParseFail::NoTerm(i))
    } else {
        proof {
            lemma_step_advances(b, i, first);
        }
        match step(b, i, first) {
            Step::End => Ok((acc, k)),
            Step::Bad(f) => Err(f),
            Step::Constant(v, next) => {
                if fits(k + v) {
                    parse_from(b, next, false, acc, (k + v) as i64)
                } else {
                    Err(ParseFail::Overflow)
                }
            },
            Step::Variable(name, c, next) => {
                let s = coef(acc, name) + c;
                if fits(s) {
                    parse_from(b, next, false, upsert(acc, name, s as i64), k)
                } else {
                    Err(ParseFail::Overflow)
                }
            },
        }
    }
}

/// Reads `t` as `lhs <= 0`: exactly one `<=`, a right-hand side that trims to
/// `0`, and a non-empty left-hand side made wholly of terms.
pub open spec fn parse_text(t: Seq<char>) -> Result<Form, ParseFail> {
    match find_le(t, 0) {
        None => Err(ParseFail::Relation),
        Some(p) => if find_le(t, p + 2) is Some {
            Err(ParseFail::Relation)
        } else if trim(t.subrange(p + 2, t.len() as int)) != seq!['0'] {
            Err(ParseFail::RightSide)
        } else {
            let body = trim(t.subrange(0, p));
            if body.len() == 0 {
                Err(ParseFail::EmptyLeft)
            } else {
                match parse_from(body, 0, true, Seq::empty(), 0) {
                    Ok(f) => Ok((drop_zeros(f.0), f.1)),
                    Err(e) => Err(e),
                }
            }
        },
    }
}


/// A character that may stand in the left-hand side of a form: whitespace, a
/// sign, `*`, a digit or a name character.
pub open spec fn term_char(c: char) -> bool {
    is_space(c) || c == '+' || c == '-' || c == '*' || is_name_char(c)
}

pub proof fn lemma_skip_chars(b: Seq<char>, i: int)
    requires
        0 <= i,
    ensures
        forall|j: int| i <= j < skip_ws(b, i) ==> is_space(#[trigger] b[j]),
        forall|j: int| i <= j < skip_digits(b, i) ==> is_digit(#[trigger] b[j]),
        forall|j: int| i <= j < skip_name(b, i) ==> is_name_char(#[trigger] b[j]),
        skip_ws(b, i) < b.len() ==> !is_space(b[skip_ws(b, i)]),
    decreases b.len() - i,
{
    if i < b.len() {
        lemma_skip_chars(b, i + 1);
    }
}

pub proof fn lemma_back_chars(b: Seq<char>, j: int)
    requires
        0 <= j <= b.len(),
    ensures
        0 <= back_ws(b, j) <= j,
        forall|m: int| back_ws(b, j) <= m < j ==> is_space(#[trigger] b[m]),
        back_ws(b, j) > 0 ==> !is_space(b[back_ws(b, j) - 1]),
    decreases j,
{
    if j > 0 && is_space(b[j - 1]) {
        lemma_back_chars(b, j - 1);
    }
}

/// What `trim` keeps is a stretch of `s` with only whitespace around it.
pub proof fn lemma_trim(s: Seq<char>)
    ensures
        ({
            let a = skip_ws(s, 0);
            let e = back_ws(s, s.len() as int);
            &&& 0 <= a
            &&& 0 <= e <= s.len()
            &&& forall|j: int| 0 <= j < s.len() && !(a <= j < e) ==> is_space(#[trigger] s[j])
            &&& e > a ==> trim(s) == s.subrange(a, e)
        }),
{
    lemma_skip_chars(s, 0);
    lemma_skips(s, 0);
    lemma_back_chars(s, s.len() as int);
    let a = skip_ws(s, 0);
    let e = back_ws(s, s.len() as int);
}

/// Reading one term consumes only characters that may stand in a form.
pub proof fn lemma_step_chars(b: Seq<char>, i: int, first: bool)
    requires
        0 <= i,
    ensures
        step(b, i, first) matches Step::Constant(_, n) ==> forall|j: int|
            i <= j < n ==> term_char(#[trigger] b[j]),
        step(b, i, first) matches Step::Variable(_, _, n) ==> forall|j: int|
            i <= j < n ==> term_char(#[trigger] b[j]),
        step(b, i, first) is End ==> forall|j: int| i <= j < b.len() ==> is_space(#[trigger] b[j]),
{
    lemma_skips(b, i);
    lemma_skip_chars(b, i);
    let k = skip_ws(b, i);
    if 0 <= k < b.len() {
        lemma_skips(b, k + 1);
        lemma_skip_chars(b, k + 1);
        let signed = b[k] == '+' || b[k] == '-';
        let i1 = if signed {
            skip_ws(b, k + 1)
        } else {
            k
        };
        lemma_skips(b, i1);
        lemma_skip_chars(b, i1);
        let dend = skip_digits(b, i1);
        lemma_skips(b, dend);
        lemma_skip_chars(b, dend);
        let j = skip_ws(b, dend);
        if 0 <= j < b.len() {
            lemma_skips(b, j + 1);
            lemma_skip_chars(b, j + 1);
            let i2 = skip_ws(b, j + 1);
            if 0 <= i2 < b.len() {
                lemma_skips(b, i2 + 1);
                lemma_skip_chars(b, i2 + 1);
            }
        }
        if 0 <= i1 < b.len() {
            lemma_skips(b, i1 + 1);
            lemma_skip_chars(b, i1 + 1);
        }
    }
}

pub proof fn lemma_parse_from_chars(b: Seq<char>, i: int, first: bool, acc: Terms, k: i64)
    requires
        0 <= i,
        parse_from(b, i, first, acc, k) is Ok,
    ensures
        forall|j: int| i <= j < b.len() ==> term_char(#[trigger] b[j]),
    decreases b.len() - i,
{
    lemma_step_advances(b, i, first);
    lemma_step_chars(b, i, first);
    match step(b, i, first) {
        Step::Constant(v, next) => {
            lemma_parse_from_chars(b, next, false, acc, (k + v) as i64);
        },
        Step::Variable(name, c, next) => {
            let s = coef(acc, name) + c;
            lemma_parse_from_chars(b, next, false, upsert(acc, name, s as i64), k);
        },
        _ => {},
    }
}

/// Strictness: text that `parse_form` accepts holds exactly one `<=`, and every
/// other character of it may stand in a form (whitespace, a sign, `*`, a digit
/// or a name character). Nothing is skipped over unread.
pub proof fn lemma_accepted_text_has_no_stray_characters(t: Seq<char>)
    requires
        parse_text(t) is Ok,
    ensures
        find_le(t, 0) is Some,
        ({
            let p = find_le(t, 0)->0;
            &&& find_le(t, p + 2) is None
            &&& forall|j: int|
                0 <= j < t.len() && j != p && j != p + 1 ==> term_char(#[trigger] t[j])
        }),
{
    lemma_find_le(t, 0);
    let p = find_le(t, 0)->0;
    let lhs = t.subrange(0, p);
    let rhs = t.subrange(p + 2, t.len() as int);
    lemma_trim(lhs);
    lemma_trim(rhs);
    let body = trim(lhs);
    let a = skip_ws(lhs, 0);
    let e = back_ws(lhs, lhs.len() as int);
    lemma_parse_from_chars(body, 0, true, Seq::empty(), 0);
    let ra = skip_ws(rhs, 0);
    let re = back_ws(rhs, rhs.len() as int);
    assert(trim(rhs) == seq!['0']);
    assert forall|j: int| 0 <= j < t.len() && j != p && j != p + 1 implies term_char(#[trigger] t[j]) by {
        if j < p {
            assert(lhs[j] == t[j]);
            if a <= j < e {
                assert(body[j - a] == lhs[j]);
                assert(term_char(body[j - a]));
            }
        } else {
            assert(rhs[j - p - 2] == t[j]);
            if ra <= j - p - 2 < re {
                // The trimmed right-hand side is the single character `0`.
                assert(rhs.subrange(ra, re).len() == re - ra);
                assert(rhs[j - p - 2] == trim(rhs)[0]);
                assert(is_digit('0'));
            }
        }
    }
}

/// The right-hand side of `t`, trimmed, when `t` holds a `<=`.
pub open spec fn right_side(t: Seq<char>) -> Seq<char> {
    trim(t.subrange(find_le(t, 0)->0 + 2, t.len() as int))
}

/// The error `parse_form` gives for `t` when reading it failed with `f`.
pub open spec fn fail_fault(t: Seq<char>, f: ParseFail) -> Fault {
    let head = "unparseable form "@ + debug_quoted(t);
    match f {
        ParseFail::Relation => Fault::Parse(head + ": expected exactly one '<=' relation"@),
        ParseFail::RightSide => Fault::Parse(
            head + ": right-hand side must be exactly 0, got "@ + debug_quoted(right_side(t)),
        ),
        ParseFail::EmptyLeft => Fault::Parse(head + ": empty left-hand side"@),
        ParseFail::MissingSign(o) => Fault::Parse(
            head + ": missing '+' or '-' before offset "@ + dec_int(o),
        ),
        ParseFail::Coefficient(d) => Fault::Parse(
            "coefficient "@ + debug_quoted(d) + " does not fit in i64"@,
        ),
        ParseFail::Integer(d) => Fault::Parse("integer "@ + debug_quoted(d) + " does not fit in i64"@),
        ParseFail::NoTerm(o) => Fault::Parse(head + ": cannot read a term at offset "@ + dec_int(o)),
        ParseFail::Overflow => Fault::Overflow,
    }
}

/// Where the first `<=` at or after `from` begins.
fn find_relation(t: &Vec<char>, from: usize) -> (r: Option<usize>)
    ensures
        match r {
            Some(p) => find_le(t@, from as int) == Some(p as int),
            None => find_le(t@, from as int) is None,
        },
{
    let mut i = from;
    while i < t.len() && i + 1 < t.len()
        invariant
            from <= i,
            find_le(t@, from as int) == find_le(t@, i as int),
        decreases t.len() - i,
    {
        if t[i] == '<' && t[i + 1] == '=' {
            return Some(i);
        }
        i = i + 1;
    }
    None
}

/// The first position at or after `from` that is not whitespace.
fn skip_spaces(b: &Vec<char>, from: usize) -> (j: usize)
    requires
        from <= b.len(),
    ensures
        j == skip_ws(b@, from as int),
        from <= j <= b.len(),
{
    let mut i = from;
    while i < b.len() && space(b[i])
        invariant
            from <= i <= b.len(),
            skip_ws(b@, from as int) == skip_ws(b@, i as int),
        decreases b.len() - i,
    {
        i = i + 1;
    }
    i
}

/// The first position at or after `from` that is not an ASCII digit.
fn skip_digit_run(b: &Vec<char>, from: usize) -> (j: usize)
    requires
        from <= b.len(),
    ensures
        j == skip_digits(b@, from as int),
        from <= j <= b.len(),
        forall|k: int| from <= k < j ==> is_digit(#[trigger] b@[k]),
{
    let mut i = from;
    while i < b.len() && digit(b[i])
        invariant
            from <= i <= b.len(),
            skip_digits(b@, from as int) == skip_digits(b@, i as int),
            forall|k: int| from <= k < i ==> is_digit(#[trigger] b@[k]),
        decreases b.len() - i,
    {
        i = i + 1;
    }
    i
}

/// The first position at or after `from` that cannot continue a name.
fn skip_name_run(b: &Vec<char>, from: usize) -> (j: usize)
    requires
        from <= b.len(),
    ensures
        j == skip_name(b@, from as int),
        from <= j <= b.len(),
{
    let mut i = from;
    while i < b.len() && name_char(b[i])
        invariant
            from <= i <= b.len(),
            skip_name(b@, from as int) == skip_name(b@, i as int),
        decreases b.len() - i,
    {
        i = i + 1;
    }
    i
}

/// The end of `b[..to]` without its trailing whitespace.
fn back_spaces(b: &Vec<char>, to: usize) -> (j: usize)
    requires
        to <= b.len(),
    ensures
        j == back_ws(b@, to as int),
        j <= to,
{
    let mut i = to;
    while i > 0 && space(b[i - 1])
        invariant
            i <= to,
            to <= b.len(),
            back_ws(b@, to as int) == back_ws(b@, i as int),
        decreases i,
    {
        i = i - 1;
    }
    i
}

/// The characters `v[a..e]`.
fn sub_chars(v: &Vec<char>, a: usize, e: usize) -> (r: Vec<char>)
    requires
        a <= e <= v.len(),
    ensures
        r@ == v@.subrange(a as int, e as int),
{
    let mut r: Vec<char> = Vec::new();
    let mut i = a;
    while i < e
        invariant
            a <= i <= e,
            e <= v.len(),
            r@ == v@.subrange(a as int, i as int),
        decreases e - i,
    {
        r.push(v[i]);
        assert(r@ =~= v@.subrange(a as int, i + 1));
        i = i + 1;
    }
    r
}

/// The characters `v[a..e]` as a string.
fn string_of(v: &Vec<char>, a: usize, e: usize) -> (r: String)
    requires
        a <= e <= v.len(),
    ensures
        r@ == v@.subrange(a as int, e as int),
{
    let mut r = String::new();
    let mut i = a;
    while i < e
        invariant
            a <= i <= e,
            e <= v.len(),
            r@ == v@.subrange(a as int, i as int),
        decreases e - i,
    {
        push_char(&mut r, v[i]);
        assert(r@ =~= v@.subrange(a as int, i + 1));
        i = i + 1;
    }
    r
}

/// `v` without leading and trailing whitespace.
fn trimmed(v: &Vec<char>) -> (r: Vec<char>)
    ensures
        r@ == trim(v@),
{
    let a = skip_spaces(v, 0);
    let e = back_spaces(v, v.len());
    if e <= a {
        Vec::new()
    } else {
        sub_chars(v, a, e)
    }
}

pub proof fn lemma_digits_grow(d: Seq<char>, n: int)
    requires
        0 <= n <= d.len(),
        forall|k: int| 0 <= k < d.len() ==> is_digit(#[trigger] d[k]),
    ensures
        digits_value(d.take(n)) <= digits_value(d),
    decreases d.len() - n,
{
    if n < d.len() {
        lemma_digits_grow(d, n + 1);
        assert(d.take(n + 1).drop_last() =~= d.take(n));
    }
    assert(d.take(d.len() as int) =~= d);
}

/// The value of the digits `b[a..e]`, when it fits in `i64`.
fn read_digits(b: &Vec<char>, a: usize, e: usize) -> (r: Option<i64>)
    requires
        a <= e <= b.len(),
        forall|k: int| a <= k < e ==> is_digit(#[trigger] b@[k]),
    ensures
        match r {
            Some(v) => v as int == digits_value(b@.subrange(a as int, e as int)),
            None => digits_value(b@.subrange(a as int, e as int)) > i64::MAX,
        },
{
    let ghost d = b@.subrange(a as int, e as int);
    let mut v: i64 = 0;
    let mut i = a;
    assert(d.take(0) =~= Seq::<char>::empty());
    while i < e
        invariant
            a <= i <= e,
            e <= b.len(),
            d == b@.subrange(a as int, e as int),
            forall|k: int| 0 <= k < d.len() ==> is_digit(#[trigger] d[k]),
            0 <= v,
            v as int == digits_value(d.take(i - a)),
        decreases e - i,
    {
        assert(d.take(i - a + 1).drop_last() =~= d.take(i - a));
        assert(d.take(i - a + 1).last() == b@[i as int]);
        let dv = (b[i] as u32 - 48) as i64;
        let next = match v.checked_mul(10) {
            Some(t) => t.checked_add(dv),
            None => None,
        };
        match next {
            None => {
                proof {
                    lemma_digits_grow(d, i - a + 1);
                }
                return None;
            },
            Some(w) => {
                v = w;
            },
        }
        i = i + 1;
    }
    assert(d.take(e - a) =~= d);
    Some(v)
}


/// One term as read, positions into the text.
enum Scan {
    End,
    Missing(usize),
    BigCoefficient(usize, usize),
    BigInteger(usize, usize),
    NoTerm(usize),
    Constant(i64, usize),
    Variable(usize, usize, i64),
}

spec fn scan_matches(b: Seq<char>, r: Scan, st: Step) -> bool {
    match r {
        Scan::End => st is End,
        Scan::Missing(o) => st == Step::Bad(ParseFail::MissingSign(o as int)),
        Scan::BigCoefficient(a, e) => a <= e <= b.len() && st == Step::Bad(
            ParseFail::Coefficient(b.subrange(a as int, e as int)),
        ),
        Scan::BigInteger(a, e) => a <= e <= b.len() && st == Step::Bad(
            ParseFail::Integer(b.subrange(a as int, e as int)),
        ),
        Scan::NoTerm(o) => st == Step::Bad(ParseFail::NoTerm(o as int)),
        Scan::Constant(v, n) => st == Step::Constant(v as int, n as int),
        Scan::Variable(a, e, c) => a <= e <= b.len() && st == Step::Variable(
            b.subrange(a as int, e as int),
            c as int,
            e as int,
        ),
    }
}

/// Reads a variable name at `i`, with coefficient `c`.
fn scan_name(b: &Vec<char>, i: usize, c: i64) -> (r: Scan)
    requires
        i <= b.len(),
    ensures
        scan_matches(b@, r, name_at(b@, i as int, c as int)),
{
    if i < b.len() && name_start(b[i]) {
        let e = skip_name_run(b, i + 1);
        Scan::Variable(i, e, c)
    } else {
        Scan::NoTerm(i)
    }
}

/// Reads the term that starts at `i0`, as `step` describes.
fn scan(b: &Vec<char>, i0: usize, first: bool) -> (r: Scan)
    requires
        i0 <= b.len(),
    ensures
        scan_matches(b@, r, step(b@, i0 as int, first)),
{
    let i = skip_spaces(b, i0);
    if i >= b.len() {
        return Scan::End;
    }
    let c = b[i];
    let signed = c == '+' || c == '-';
    let neg = c == '-';
    let i1 = if signed {
        skip_spaces(b, i + 1)
    } else {
        i
    };
    if !signed && !first {
        return Scan::Missing(i1);
    }
    let dend = skip_digit_run(b, i1);
    let j = skip_spaces(b, dend);
    if dend > i1 && j < b.len() && b[j] == '*' {
        match read_digits(b, i1, dend) {
            None => Scan::BigCoefficient(i1, dend),
            Some(m) => {
                let i2 = skip_spaces(b, j + 1);
                scan_name(
                    b,
                    i2,
                    if neg {
                        -m
                    } else {
                        m
                    },
                )
            },
        }
    } else if dend > i1 {
        match read_digits(b, i1, dend) {
            None => Scan::BigInteger(i1, dend),
            Some(m) => Scan::Constant(
                if neg {
                    -m
                } else {
                    m
                },
                dend,
            ),
        }
    } else {
        scan_name(
            b,
            i1,
            if neg {
                -1
            } else {
                1
            },
        )
    }
}

/// `unparseable form "<text>"`, the start of most parse errors.
fn form_head(text: &str) -> (r: String)
    ensures
        r@ == "unparseable form "@ + debug_quoted(text@),
{
    let mut m = String::from_str("unparseable form ");
    let q = debug_quote(text);
    m.append(q.as_str());
    m
}

/// Parse `a - 2*b + 3 <= 0`.
///
/// Strict by construction: every character must be consumed by a term, so
/// unparseable text is never coerced into a well-formed form.
pub fn parse_form(text: &str) -> (r: Result<LinearForm, VerifyError>)
    ensures
        match r {
            Ok(f) => parse_text(text@) == Ok::<Form, ParseFail>(f@) && no_zeros(f@.0) && sorted(f@.0),
            Err(e) => parse_text(text@) matches Err(pf) && e@ == fail_fault(text@, pf),
        },
{
    let t = chars_of(text);
    let p = match find_relation(&t, 0) {
        None => {
            let mut m = form_head(text);
            m.append(": expected exactly one '<=' relation");
            return Err(VerifyError::Parse(m));
        },
        Some(p) => p,
    };
    proof {
        lemma_find_le(t@, 0);
    }
    if find_relation(&t, p + 2).is_some() {
        let mut m = form_head(text);
        m.append(": expected exactly one '<=' relation");
        return Err(VerifyError::Parse(m));
    }
    let rhs = trimmed(&sub_chars(&t, p + 2, t.len()));
    if !(rhs.len() == 1 && rhs[0] == '0') {
        proof {
            if rhs@.len() == 1 && rhs@[0] == '0' {
                assert(rhs@ =~= seq!['0']);
            }
        }
        let mut m = form_head(text);
        m.append(": right-hand side must be exactly 0, got ");
        let rs = string_of(&rhs, 0, rhs.len());
        assert(rs@ =~= right_side(text@));
        let q = debug_quote(rs.as_str());
        m.append(q.as_str());
        return Err(VerifyError::Parse(m));
    }
    assert(rhs@ =~= seq!['0']);
    let body = trimmed(&sub_chars(&t, 0, p));
    if body.len() == 0 {
        let mut m = form_head(text);
        m.append(": empty left-hand side");
        return Err(VerifyError::Parse(m));
    }
    let ghost whole = parse_from(body@, 0, true, Seq::empty(), 0);
    let mut form = LinearForm::new();
    let mut i: usize = 0;
    let mut first = true;
    loop
        invariant
            i <= body.len(),
            parse_from(body@, i as int, first, form@.0, form@.1) == whole,
            whole == parse_from(body@, 0, true, Seq::empty(), 0),
            body@ == trim(text@.subrange(0, p as int)),
            find_le(text@, 0) == Some(p as int),
            find_le(text@, p + 2) is None,
            trim(text@.subrange(p + 2, text@.len() as int)) == seq!['0'],
            body@.len() > 0,
        ensures
            whole == Ok::<Form, ParseFail>(form@),
        decreases body.len() - i,
    {
        proof {
            lemma_step_advances(body@, i as int, first);
        }
        match scan(&body, i, first) {
            Scan::End => {
                break;
            },
            Scan::Missing(o) => {
                let mut m = form_head(text);
                m.append(": missing '+' or '-' before offset ");
                push_u64(&mut m, o as u64);
                return Err(VerifyError::Parse(m));
            },
            Scan::NoTerm(o) => {
                let mut m = form_head(text);
                m.append(": cannot read a term at offset ");
                push_u64(&mut m, o as u64);
                return Err(VerifyError::Parse(m));
            },
            Scan::BigCoefficient(a, e) => {
                let mut m = String::from_str("coefficient ");
                let d = string_of(&body, a, e);
                let q = debug_quote(d.as_str());
                m.append(q.as_str());
                m.append(" does not fit in i64");
                return Err(VerifyError::Parse(m));
            },
            Scan::BigInteger(a, e) => {
                let mut m = String::from_str("integer ");
                let d = string_of(&body, a, e);
                let q = debug_quote(d.as_str());
                m.append(q.as_str());
                m.append(" does not fit in i64");
                return Err(VerifyError::Parse(m));
            },
            Scan::Constant(v, next) => {
                match form.constant.checked_add(v) {
                    None => {
                        return Err(VerifyError::Overflow);
                    },
                    Some(k) => {
                        form.constant = k;
                    },
                }
                i = next;
                first = false;
            },
            Scan::Variable(a, e, c) => {
                let name = string_of(&body, a, e);
                let cur = match form.coeffs.get(name.as_str()) {
                    Some(v) => *v,
                    None => 0,
                };
                match cur.checked_add(c) {
                    None => {
                        return Err(VerifyError::Overflow);
                    },
                    Some(s) => {
                        form.coeffs.insert(name, s);
                    },
                }
                i = e;
                first = false;
            },
        }
    }
    proof {
        lemma_drop_zeros(form@.0);
    }
    Ok(form.normalised())
}

} // verus!
