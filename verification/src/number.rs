//! The Spine number grammar and the canonical decimal form of a number.
use vstd::prelude::*;
use crate::text::{is_digit, exec_is_digit};

verus! {

/// A non-empty run of digits with at most one `.`, which is neither first
/// nor last: `digit {digit} ['.' digit {digit}]`.
pub open spec fn unsigned_number(t: Seq<char>) -> bool {
    &&& t.len() > 0
    &&& forall|i: int| 0 <= i < t.len() ==> is_digit(#[trigger] t[i]) || t[i] == '.'
    &&& is_digit(t[0])
    &&& is_digit(t.last())
    &&& forall|i: int, j: int| #![trigger t[i], t[j]] 0 <= i < j < t.len() && t[i] == '.' ==> t[j] != '.'
}

/// The Spine number grammar: `['-'] digit {digit} ['.' digit {digit}]`.
pub open spec fn is_spine_number(s: Seq<char>) -> bool {
    if s.len() > 0 && s[0] == '-' {
        unsigned_number(s.drop_first())
    } else {
        unsigned_number(s)
    }
}

/// Whether `s` matches the Spine number grammar.
pub fn exec_is_spine_number(s: &Vec<char>) -> (r: bool)
    ensures
        r == is_spine_number(s@),
{
    let n = s.len();
    if n == 0 {
        return false;
    }
    let mut i: usize = 0;
    if s[0] == '-' {
        i = 1;
    }
    let start = i;
    let ghost t = s@.subrange(start as int, n as int);
    assert(start == 0 ==> t == s@);
    assert(start == 1 ==> t == s@.drop_first());
    if i >= n || !exec_is_digit(s[i]) {
        return false;
    }
    while i < n && exec_is_digit(s[i])
        invariant
            n == s.len(),
            start <= i <= n,
            start < n,
            forall|j: int| start <= j < i ==> is_digit(#[trigger] s@[j]),
        decreases n - i,
    {
        i = i + 1;
    }
    let int_end = i;
    if i < n && s[i] == '.' {
        i = i + 1;
        if i >= n || !exec_is_digit(s[i]) {
            proof {
                if i >= n {
                    assert(t.last() == '.');
                } else {
                    assert(t[i - start] == s@[i as int]);
                    assert(t[i - 1 - start] == '.');
                    assert(!(is_digit(t[i - start]) || t[i - start] == '.') || t[i - start] == '.');
                }
            }
            return false;
        }
        while i < n && exec_is_digit(s[i])
            invariant
                n == s.len(),
                int_end + 1 <= i <= n,
                int_end < n,
                s@[int_end as int] == '.',
                forall|j: int| start <= j < int_end ==> is_digit(#[trigger] s@[j]),
                forall|j: int| int_end < j < i ==> is_digit(#[trigger] s@[j]),
            decreases n - i,
        {
            i = i + 1;
        }
    }
    let r = i == n;
    proof {
        if r {
            assert forall|a: int, b: int| #![trigger t[a], t[b]] 0 <= a < b < t.len() && t[a] == '.' implies t[b] != '.' by {
                assert(t[a] == s@[a + start]);
                assert(t[b] == s@[b + start]);
            }
            assert forall|a: int| 0 <= a < t.len() implies is_digit(#[trigger] t[a]) || t[a] == '.' by {
                assert(t[a] == s@[a + start]);
            }
            assert(t[0] == s@[start as int]);
            assert(t.last() == s@[n - 1]);
            assert(unsigned_number(t));
        } else {
            assert(i < n);
            assert(t[i - start] == s@[i as int]);
            if int_end < n && s@[int_end as int] == '.' && int_end < i {
                // a second dot or another character after the fraction
                if s@[i as int] == '.' {
                    assert(t[int_end - start] == '.');
                } else {
                    assert(!is_digit(t[i - start]));
                }
            } else {
                assert(!is_digit(t[i - start]) && t[i - start] != '.' || t[i - start] == '.');
                if t[i - start] == '.' {
                    assert(i == int_end);
                } else {
                    assert(!is_digit(t[i - start]));
                }
            }
        }
    }
    r
}

} // verus!

verus! {

/// Leading zeros removed from a digit run, keeping at least one digit.
pub open spec fn strip_leading_zeros(i: Seq<char>) -> Seq<char>
    decreases i.len(),
{
    if i.len() > 1 && i[0] == '0' { strip_leading_zeros(i.drop_first()) } else { i }
}

/// Trailing zeros removed from a digit run.
pub open spec fn strip_trailing_zeros(f: Seq<char>) -> Seq<char>
    decreases f.len(),
{
    if f.len() > 0 && f.last() == '0' { strip_trailing_zeros(f.drop_last()) } else { f }
}

/// The index of the first `.` in `t`, or its length.
pub open spec fn dot_index(t: Seq<char>, i: int) -> int
    decreases t.len() - i,
{
    if i < 0 || i >= t.len() || t[i] == '.' { i } else { dot_index(t, i + 1) }
}

/// The parts of a number literal: whether it is negative, its integer
/// digits without leading zeros, and its fraction digits without
/// trailing zeros.
pub open spec fn number_parts(s: Seq<char>) -> (bool, Seq<char>, Seq<char>) {
    let neg = s.len() > 0 && s[0] == '-';
    let body = if neg { s.drop_first() } else { s };
    let d = dot_index(body, 0);
    let int_digits = body.subrange(0, d);
    let frac = if d < body.len() { body.subrange(d + 1, body.len() as int) } else { seq![] };
    (neg, strip_leading_zeros(int_digits), strip_trailing_zeros(frac))
}

/// The shortest decimal form of a number literal, as a double prints
/// (`8080`, `-42`, `3.14`): sign, integer digits, and the fraction only
/// when it is not zero.
pub open spec fn short_number(s: Seq<char>) -> Seq<char> {
    let p = number_parts(s);
    (if p.0 { seq!['-'] } else { seq![] }) + p.1 + (if p.2.len() > 0 { seq!['.'] + p.2 } else { seq![] })
}

/// The decimal form of a number literal with at least one fraction digit,
/// as a double prints with `{:.1}` when it is whole (`8080.0`, `3.14`).
pub open spec fn fixed_number(s: Seq<char>) -> Seq<char> {
    let p = number_parts(s);
    (if p.0 { seq!['-'] } else { seq![] }) + p.1 + seq!['.'] + (if p.2.len() > 0 { p.2 } else { seq!['0'] })
}

proof fn lemma_strip_leading(i: Seq<char>, k: int)
    requires
        0 <= k < i.len(),
        forall|j: int| 0 <= j < k ==> i[j] == '0',
        k == i.len() - 1 || i[k] != '0',
    ensures
        strip_leading_zeros(i) == i.subrange(k, i.len() as int),
    decreases k,
{
    if k > 0 {
        lemma_strip_leading(i.drop_first(), k - 1);
        assert(i.drop_first().subrange(k - 1, i.len() - 1) =~= i.subrange(k, i.len() as int));
    } else {
        assert(i.subrange(0, i.len() as int) =~= i);
    }
}

proof fn lemma_strip_trailing(f: Seq<char>, k: int)
    requires
        0 <= k <= f.len(),
        forall|j: int| k <= j < f.len() ==> f[j] == '0',
        k == 0 || f[k - 1] != '0',
    ensures
        strip_trailing_zeros(f) == f.subrange(0, k),
    decreases f.len() - k,
{
    if k < f.len() {
        lemma_strip_trailing(f.drop_last(), k);
        assert(f.drop_last().subrange(0, k) =~= f.subrange(0, k));
    } else {
        assert(f.subrange(0, k) =~= f);
    }
}

fn push_range(out: &mut Vec<char>, s: &Vec<char>, from: usize, to: usize)
    requires
        from <= to <= s.len(),
    ensures
        final(out)@ == old(out)@ + s@.subrange(from as int, to as int),
{
    let mut i = from;
    while i < to
        invariant
            from <= i <= to <= s.len(),
            out@ == old(out)@ + s@.subrange(from as int, i as int),
        decreases to - i,
    {
        out.push(s[i]);
        i = i + 1;
        assert(s@.subrange(from as int, i as int) =~= s@.subrange(from as int, i - 1).push(s@[i - 1]));
    }
}

proof fn lemma_dot_index(t: Seq<char>, i: int)
    requires
        0 <= i,
    ensures
        i <= dot_index(t, i),
    decreases t.len() - i,
{
    if i < t.len() && t[i] != '.' {
        lemma_dot_index(t, i + 1);
    }
}

fn find_dot(s: &Vec<char>, start: usize) -> (d: usize)
    requires
        start <= s.len(),
    ensures
        start <= d <= s.len(),
        dot_index(s@.subrange(start as int, s.len() as int), 0) == d - start,
{
    let n = s.len();
    let ghost body = s@.subrange(start as int, n as int);
    let mut d = start;
    while d < n && s[d] != '.'
        invariant
            start <= d <= n,
            n == s.len(),
            body == s@.subrange(start as int, n as int),
            dot_index(body, d - start) == dot_index(body, 0),
        decreases n - d,
    {
        d = d + 1;
    }
    d
}

fn skip_zeros(s: &Vec<char>, start: usize, d: usize) -> (a: usize)
    requires
        start < d <= s.len(),
    ensures
        start <= a < d,
        forall|j: int| start <= j < a ==> s@[j] == '0',
        a == d - 1 || s@[a as int] != '0',
{
    let mut a = start;
    while d - a > 1 && s[a] == '0'
        invariant
            start <= a < d <= s.len(),
            forall|j: int| start <= j < a ==> s@[j] == '0',
        decreases d - a,
    {
        a = a + 1;
    }
    a
}

fn trim_zeros(s: &Vec<char>, d: usize) -> (e: usize)
    requires
        d < s.len(),
    ensures
        d + 1 <= e <= s.len(),
        forall|j: int| e <= j < s.len() ==> s@[j] == '0',
        e == d + 1 || s@[e - 1] != '0',
{
    let n = s.len();
    let mut e = n;
    while e > d + 1 && s[e - 1] == '0'
        invariant
            d + 1 <= e <= n,
            n == s.len(),
            forall|j: int| e <= j < n ==> s@[j] == '0',
        decreases e,
    {
        e = e - 1;
    }
    e
}

proof fn lemma_parts(s: Seq<char>, neg: bool, start: int, d: int, a: int, e: int)
    requires
        neg == (s.len() > 0 && s[0] == '-'),
        start == if neg { 1int } else { 0int },
        start < d <= s.len(),
        dot_index(s.subrange(start, s.len() as int), 0) == d - start,
        start <= a < d,
        forall|j: int| start <= j < a ==> s[j] == '0',
        a == d - 1 || s[a] != '0',
        d < s.len() ==> d + 1 <= e <= s.len(),
        d < s.len() ==> forall|j: int| e <= j < s.len() ==> s[j] == '0',
        d < s.len() ==> (e == d + 1 || s[e - 1] != '0'),
    ensures
        number_parts(s).0 == neg,
        number_parts(s).1 == s.subrange(a, d),
        d < s.len() ==> number_parts(s).2 == s.subrange(d + 1, e),
        d == s.len() ==> number_parts(s).2.len() == 0,
{
    let body = if neg { s.drop_first() } else { s };
    assert(body =~= s.subrange(start, s.len() as int));
    let int_digits = body.subrange(0, d - start);
    lemma_strip_leading(int_digits, a - start);
    assert(int_digits.subrange(a - start, int_digits.len() as int) =~= s.subrange(a, d));
    if d < s.len() {
        let frac = body.subrange(d - start + 1, body.len() as int);
        lemma_strip_trailing(frac, e - d - 1);
        assert(frac.subrange(0, e - d - 1) =~= s.subrange(d + 1, e));
    }
}

/// Appends the canonical form of a spine number literal: the short form
/// (`fixed` false) or the form with a fraction digit (`fixed` true).
pub fn push_number(out: &mut Vec<char>, s: &Vec<char>, fixed: bool)
    requires
        is_spine_number(s@),
    ensures
        final(out)@ == old(out)@ + if fixed { fixed_number(s@) } else { short_number(s@) },
{
    proof {
        if s@[0] == '-' {
            assert(s@.drop_first()[0] == s@[1]);
        }
    }
    push_canonical(out, s, fixed);
}

#[verifier::rlimit(30)]
fn push_canonical(out: &mut Vec<char>, s: &Vec<char>, fixed: bool)
    requires
        s@.len() > 0,
        s@[0] == '-' ==> s@.len() > 1 && is_digit(s@[1]),
        s@[0] != '-' ==> is_digit(s@[0]),
    ensures
        final(out)@ == old(out)@ + if fixed { fixed_number(s@) } else { short_number(s@) },
{
    let n = s.len();
    let neg = s[0] == '-';
    let start: usize = if neg { 1 } else { 0 };
    let d = find_dot(s, start);
    proof {
        let body = if neg { s@.drop_first() } else { s@ };
        assert(body =~= s@.subrange(start as int, n as int));
        if neg {
            assert(body[0] == s@[1]);
        }
        assert(is_digit(body[0]));
        lemma_dot_index(body, 1);
        assert(d > start);
    }
    let a = skip_zeros(s, start, d);
    let e = if d < n { trim_zeros(s, d) } else { n };
    proof { lemma_parts(s@, neg, start as int, d as int, a as int, e as int); }
    let ghost p = number_parts(s@);
    let ghost before = out@;
    let ghost sign: Seq<char> = if p.0 { seq!['-'] } else { seq![] };
    if neg {
        out.push('-');
    }
    assert(out@ =~= before + sign);
    push_range(out, s, a, d);
    assert(out@ =~= before + sign + p.1);
    let ghost mid = out@;
    if d < n && e > d + 1 {
        out.push('.');
        push_range(out, s, d + 1, e);
        assert(out@ =~= mid + (seq!['.'] + p.2));
        assert(p.2.len() > 0);
    } else {
        assert(p.2.len() == 0);
        if fixed {
            out.push('.');
            out.push('0');
            assert(out@ =~= mid + seq!['.', '0']);
        } else {
            assert(out@ =~= mid + Seq::<char>::empty());
        }
    }
    proof {
        if fixed {
            assert(fixed_number(s@) == sign + p.1 + seq!['.'] + (if p.2.len() > 0 { p.2 } else { seq!['0'] }));
            assert(out@ =~= before + fixed_number(s@));
        } else {
            assert(short_number(s@) == sign + p.1 + (if p.2.len() > 0 { seq!['.'] + p.2 } else { seq![] }));
            assert(out@ =~= before + short_number(s@));
        }
    }
}

} // verus!
