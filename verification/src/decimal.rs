//! Decimal amounts, read from the number forms `str::parse::<f64>` accepts and kept exactly.
use vstd::prelude::*;
use vstd::slice::slice_subrange;
use crate::apple::{lemma_seq_lt_trans, lt_chars, seq_lt};
use crate::text::{chars_eq, char_index, char_index_exec, trim_end_char, trim_end_char_exec, trim_start_char, trim_start_char_exec};

verus! {

pub open spec fn is_digit(c: char) -> bool {
    '0' <= c <= '9'
}

pub open spec fn digit_value(c: char) -> nat {
    (c as int - '0' as int) as nat
}

/// The number written by a run of decimal digits.
pub open spec fn digits_value(s: Seq<char>) -> nat
    decreases s.len(),
{
    if s.len() == 0 {
        0
    } else {
        digits_value(s.drop_last()) * 10 + digit_value(s.last())
    }
}

/// The end of the run of digits starting at `i`.
pub open spec fn int_end(s: Seq<char>, i: int) -> int
    decreases s.len() - i,
{
    if 0 <= i < s.len() && is_digit(s[i]) {
        int_end(s, i + 1)
    } else {
        i
    }
}

/// A number as `f64` parsing reads it, `+`? digits (`.` digits)? (`e` sign? digits)?, with at
/// least one mantissa digit: its mantissa digits and the position of the decimal point among
/// them. A `-` sign, `inf` and `nan` are not read (none of them is a positive finite amount).
pub open spec fn parse_number(s: Seq<char>) -> Option<(Seq<char>, int)> {
    let a: int = if s.len() > 0 && s[0] == '+' { 1 } else { 0 };
    let i1 = int_end(s, a);
    let has_point = i1 < s.len() && s[i1] == '.';
    let i2 = if has_point { int_end(s, i1 + 1) } else { i1 };
    let d1 = s.subrange(a, i1);
    let d2 = if has_point { s.subrange(i1 + 1, i2) } else { Seq::empty() };
    if d1.len() + d2.len() == 0 {
        None
    } else if i2 == s.len() {
        Some((d1 + d2, d1.len() as int))
    } else if s[i2] == 'e' || s[i2] == 'E' {
        let j = i2 + 1;
        let neg = j < s.len() && s[j] == '-';
        let j2 = if j < s.len() && (s[j] == '-' || s[j] == '+') { j + 1 } else { j };
        let k = int_end(s, j2);
        let ev = digits_value(s.subrange(j2, k));
        if k == s.len() && k > j2 {
            Some((d1 + d2, d1.len() + (if neg { -(ev as int) } else { ev as int })))
        } else {
            None
        }
    } else {
        None
    }
}

/// `n` zeros.
pub open spec fn zeros(n: nat) -> Seq<char> {
    Seq::new(n, |i: int| '0')
}

/// The digits before the point, with the zeros the exponent adds.
pub open spec fn int_raw(m: Seq<char>, p: int) -> Seq<char> {
    if p <= 0 {
        Seq::empty()
    } else if p >= m.len() {
        m + zeros((p - m.len()) as nat)
    } else {
        m.take(p)
    }
}

/// The digits after the point, with the zeros the exponent adds.
pub open spec fn frac_raw(m: Seq<char>, p: int) -> Seq<char> {
    if p <= 0 {
        zeros((-p) as nat) + m
    } else if p >= m.len() {
        Seq::empty()
    } else {
        m.skip(p)
    }
}

/// The integer digits without leading zeros (`0` when none remain).
pub open spec fn int_part(m: Seq<char>, p: int) -> Seq<char> {
    let t = trim_start_char(int_raw(m, p), '0');
    if t.len() == 0 { seq!['0'] } else { t }
}

/// The fraction digits without trailing zeros.
pub open spec fn frac_part(m: Seq<char>, p: int) -> Seq<char> {
    trim_end_char(frac_raw(m, p), '0')
}

/// The canonical text of a decimal: integer digits, and `.` and fraction digits when there
/// are any.
pub open spec fn decimal_text(i: Seq<char>, f: Seq<char>) -> Seq<char> {
    if f.len() == 0 { i } else { i + seq!['.'] + f }
}

/// 2^-1075, half the smallest positive `f64`, in canonical decimal text: `f64` parsing rounds
/// an amount to zero exactly when it is at most this.
pub open spec fn min_amount() -> Seq<char> {
    seq!['0', '.'] + zeros(323) + seq!['2'] + "4703282292062327208828439643411068618252990130716238221279284125033775363510437593264991818081799618989828234772285886546332835517796989819938739800539093906315035659515570226392290858392449105184435931802849936536152500319370457678249219365623669863658480757001585769269903706311928279558551332927834338409351978015531246597263579574622766465272827220056374006485499977096599470454020828166226237857393450736339007967761930577506740176324673600968951340535537458516661134223766678604162159680461914467291840300530057530849048765391711386591646239524912623653881879636239373280423891018672348497668235089863388587925628302755995657524455507255189313690836254779186948667994968324049705821028513185451396213837722826145437693412532098591327667236328125"@
}

/// 2^1024 - 2^970, halfway between the largest `f64` and 2^1024, in canonical decimal text:
/// `f64` parsing rounds an amount to infinity exactly when it is at least this.
pub open spec fn max_amount() -> Seq<char> {
    seq!['1'] + "79769313486231580793728971405303415079934132710037826936173778980444968292764750946649017977587207096330286416692887910946555547851940402630657488671505820681908902000708383676273854845817711531764475730270069855571366959622842914819860834936475292719074168444365510704342711559699508093042880177904174497792"@
}

/// The canonical digits are within reach of a finite positive `f64`: at most 309 integer
/// digits, and, below 1, a nonzero digit among the first 324 decimals. (Both follow from the
/// comparisons with [`min_amount`] and [`max_amount`].)
pub open spec fn within_reach(i: Seq<char>, f: Seq<char>) -> bool {
    &&& i.len() <= 309
    &&& i != seq!['0'] || exists|j: int| 0 <= j < f.len() && j < 324 && f[j] != '0'
}

/// A positive amount as `f64` parsing reads it, in canonical decimal text: the number's
/// exact value when `f64` parsing turns it into a finite number above zero (strictly between
/// [`min_amount`] and [`max_amount`]), else `None`.
pub open spec fn amount_of(s: Seq<char>) -> Option<Seq<char>> {
    match parse_number(s) {
        None => None,
        Some(mp) => {
            let i = int_part(mp.0, mp.1);
            let f = frac_part(mp.0, mp.1);
            let t = decimal_text(i, f);
            if within_reach(i, f) && dec_lt(min_amount(), t) && dec_lt(t, max_amount()) {
                Some(t)
            } else {
                None
            }
        },
    }
}

/// The integer digits of a canonical decimal.
pub open spec fn int_digits(a: Seq<char>) -> Seq<char> {
    a.take(char_index(a, '.'))
}

/// The fraction digits of a canonical decimal.
pub open spec fn frac_digits(a: Seq<char>) -> Seq<char> {
    if char_index(a, '.') < a.len() { a.skip(char_index(a, '.') + 1) } else { Seq::empty() }
}

/// The numeric order of canonical decimals: fewer integer digits is smaller; then the integer
/// digits, then the fraction digits, compare digit by digit (a fraction that is a prefix of
/// another is smaller, as neither ends in a zero).
pub open spec fn dec_lt(a: Seq<char>, b: Seq<char>) -> bool {
    let ia = int_digits(a);
    let ib = int_digits(b);
    ia.len() < ib.len() || (ia.len() == ib.len() && (seq_lt(ia, ib) || (ia == ib && seq_lt(frac_digits(a), frac_digits(b)))))
}

/// Whether `a` is a smaller amount than `b` (see [`dec_lt`]).
pub fn dec_lt_exec(a: &str, b: &str) -> (r: bool)
    ensures
        r == dec_lt(a@, b@),
{
    let av = crate::text::str_chars(a);
    let bv = crate::text::str_chars(b);
    dec_lt_chars(av.as_slice(), bv.as_slice())
}

/// Whether the amount written by `av` is smaller than that written by `bv` (see [`dec_lt`]).
fn dec_lt_chars(av: &[char], bv: &[char]) -> (r: bool)
    ensures
        r == dec_lt(av@, bv@),
{
    let ka = char_index_exec(av, '.');
    let kb = char_index_exec(bv, '.');
    let ia = slice_subrange(av, 0, ka);
    let ib = slice_subrange(bv, 0, kb);
    proof {
        assert(ia@ =~= int_digits(av@));
        assert(ib@ =~= int_digits(bv@));
    }
    if ka < kb {
        return true;
    }
    if ka > kb {
        return false;
    }
    if lt_chars(ia, ib) {
        return true;
    }
    if !chars_eq(ia, ib) {
        return false;
    }
    let fa = if ka < av.len() { slice_subrange(av, ka + 1, av.len()) } else { slice_subrange(av, 0, 0) };
    let fb = if kb < bv.len() { slice_subrange(bv, kb + 1, bv.len()) } else { slice_subrange(bv, 0, 0) };
    proof {
        assert(fa@ =~= frac_digits(av@));
        assert(fb@ =~= frac_digits(bv@));
    }
    lt_chars(fa, fb)
}

/// No sequence sorts before itself.
pub proof fn lemma_seq_lt_irrefl(a: Seq<char>)
    ensures
        !seq_lt(a, a),
    decreases a.len(),
{
    if a.len() > 0 {
        lemma_seq_lt_irrefl(a.drop_first());
    }
}

/// No amount is smaller than itself.
pub proof fn lemma_dec_lt_irrefl(a: Seq<char>)
    ensures
        !dec_lt(a, a),
{
    lemma_seq_lt_irrefl(int_digits(a));
    lemma_seq_lt_irrefl(frac_digits(a));
}

/// The order of amounts is transitive.
pub proof fn lemma_dec_lt_trans(a: Seq<char>, b: Seq<char>, c: Seq<char>)
    requires
        dec_lt(a, b),
        dec_lt(b, c),
    ensures
        dec_lt(a, c),
{
    let (ia, ib, ic) = (int_digits(a), int_digits(b), int_digits(c));
    if ia.len() == ib.len() && ib.len() == ic.len() {
        if seq_lt(ia, ib) && seq_lt(ib, ic) {
            lemma_seq_lt_trans(ia, ib, ic);
        } else if ia == ib && ib == ic {
            lemma_seq_lt_trans(frac_digits(a), frac_digits(b), frac_digits(c));
        }
    }
}

proof fn lemma_trim_start_all(x: Seq<char>, c: char)
    requires
        forall|i: int| 0 <= i < x.len() ==> #[trigger] x[i] == c,
    ensures
        trim_start_char(x, c).len() == 0,
    decreases x.len(),
{
    if x.len() > 0 {
        lemma_trim_start_all(x.drop_first(), c);
    }
}

proof fn lemma_trim_end_all(x: Seq<char>, c: char)
    requires
        forall|i: int| 0 <= i < x.len() ==> #[trigger] x[i] == c,
    ensures
        trim_end_char(x, c).len() == 0,
    decreases x.len(),
{
    if x.len() > 0 {
        lemma_trim_end_all(x.drop_last(), c);
    }
}

proof fn lemma_trim_start_keeps(x: Seq<char>, c: char, k: int)
    requires
        0 <= k < x.len(),
        x[k] != c,
    ensures
        trim_start_char(x, c).len() >= x.len() - k,
    decreases x.len(),
{
    if x[0] == c {
        lemma_trim_start_keeps(x.drop_first(), c, k - 1);
    }
}

proof fn lemma_trim_end_prefix(x: Seq<char>, c: char)
    ensures
        trim_end_char(x, c).len() <= x.len(),
        forall|i: int| 0 <= i < trim_end_char(x, c).len() ==> #[trigger] trim_end_char(x, c)[i] == x[i],
    decreases x.len(),
{
    if x.len() > 0 && x.last() == c {
        lemma_trim_end_prefix(x.drop_last(), c);
    }
}

/// A mantissa whose point lies more than 400 digits before it or after its end is either
/// zero or out of reach of a finite positive `f64`.
proof fn lemma_out_of_reach(m: Seq<char>, p: int)
    requires
        m.len() > 0,
        p > m.len() + 400 || p < -400,
    ensures
        !within_reach(int_part(m, p), frac_part(m, p)),
{
    let ir = int_raw(m, p);
    let fr = frac_raw(m, p);
    if forall|i: int| 0 <= i < m.len() ==> #[trigger] m[i] == '0' {
        assert forall|i: int| 0 <= i < ir.len() implies #[trigger] ir[i] == '0' by {
            if p > 0 && i < m.len() {
                assert(ir[i] == m[i]);
            }
        }
        assert forall|i: int| 0 <= i < fr.len() implies #[trigger] fr[i] == '0' by {
            if p <= 0 && i >= -p {
                assert(fr[i] == m[i + p]);
            }
        }
        lemma_trim_start_all(ir, '0');
        lemma_trim_end_all(fr, '0');
    } else {
        let k = choose|k: int| 0 <= k < m.len() && m[k] != '0';
        if p > 0 {
            assert(ir[k] == m[k]);
            lemma_trim_start_keeps(ir, '0', k);
        } else {
            let f = frac_part(m, p);
            assert(int_part(m, p) =~= seq!['0']);
            lemma_trim_end_prefix(fr, '0');
            assert forall|j: int| 0 <= j < f.len() && j < 324 implies f[j] == '0' by {
                assert(f[j] == fr[j]);
                assert(fr[j] == zeros((-p) as nat)[j]);
            }
        }
    }
}

pub proof fn lemma_int_end(s: Seq<char>, i: int)
    requires
        0 <= i <= s.len(),
    ensures
        i <= int_end(s, i) <= s.len(),
        forall|j: int| i <= j < int_end(s, i) ==> is_digit(#[trigger] s[j]),
        int_end(s, i) < s.len() ==> !is_digit(s[int_end(s, i)]),
    decreases s.len() - i,
{
    if i < s.len() && is_digit(s[i]) {
        lemma_int_end(s, i + 1);
    }
}

pub proof fn lemma_digits_mono(s: Seq<char>, i: int, j: int)
    requires
        0 <= i <= j <= s.len(),
    ensures
        digits_value(s.take(i)) <= digits_value(s.take(j)),
    decreases j - i,
{
    if i < j {
        lemma_digits_mono(s, i, j - 1);
        assert(s.take(j).drop_last() =~= s.take(j - 1));
    }
}

/// The end of the run of digits starting at `i`.
pub fn digits_end(s: &[char], i: usize) -> (k: usize)
    requires
        i <= s@.len(),
    ensures
        k == int_end(s@, i as int),
{
    let mut k = i;
    while k < s.len() && '0' <= s[k] && s[k] <= '9'
        invariant
            i <= k <= s@.len(),
            int_end(s@, i as int) == int_end(s@, k as int),
        decreases s.len() - k,
    {
        k += 1;
    }
    k
}

/// The value of a run of digits when it is at most `cap`.
fn exponent_value(t: &[char], cap: u128) -> (r: Option<u128>)
    requires
        forall|i: int| 0 <= i < t@.len() ==> is_digit(#[trigger] t@[i]),
        cap < 0x1_0000_0000_0000_0000_0000_0000,
    ensures
        match r {
            Some(v) => v == digits_value(t@) && v <= cap,
            None => digits_value(t@) > cap,
        },
{
    let mut v: u128 = 0;
    let mut i: usize = 0;
    proof {
        assert(t@.take(0) =~= Seq::<char>::empty());
    }
    while i < t.len()
        invariant
            i <= t@.len(),
            forall|j: int| 0 <= j < t@.len() ==> is_digit(#[trigger] t@[j]),
            v == digits_value(t@.take(i as int)),
            v <= cap,
            cap < 0x1_0000_0000_0000_0000_0000_0000,
        decreases t.len() - i,
    {
        proof {
            assert(t@.take(i + 1).drop_last() =~= t@.take(i as int));
            assert(is_digit(t@[i as int]));
        }
        let d: u128 = ((t[i] as u32) - ('0' as u32)) as u128;
        let w = v * 10 + d;
        if w > cap {
            proof {
                lemma_digits_mono(t@, i + 1, t@.len() as int);
                assert(t@.take(t@.len() as int) =~= t@);
            }
            return None;
        }
        v = w;
        i += 1;
    }
    proof {
        assert(t@.take(t@.len() as int) =~= t@);
    }
    Some(v)
}

fn push_slice(v: &mut Vec<char>, s: &[char])
    ensures
        final(v)@ == old(v)@ + s@,
{
    let mut i: usize = 0;
    while i < s.len()
        invariant
            i <= s@.len(),
            v@ == old(v)@ + s@.take(i as int),
        decreases s.len() - i,
    {
        v.push(s[i]);
        i += 1;
        proof {
            assert(v@ =~= old(v)@ + s@.take(i as int));
        }
    }
    proof {
        assert(s@.take(s@.len() as int) =~= s@);
    }
}

fn push_zeros(v: &mut Vec<char>, n: usize)
    ensures
        final(v)@ == old(v)@ + zeros(n as nat),
{
    let mut i: usize = 0;
    while i < n
        invariant
            i <= n,
            v@ == old(v)@ + zeros(i as nat),
        decreases n - i,
    {
        v.push('0');
        i += 1;
        proof {
            assert(v@ =~= old(v)@ + zeros(i as nat));
        }
    }
}

/// Reads a number's mantissa digits and point position (see [`parse_number`]). An exponent
/// too large to matter is not computed: the third item is then `true`, and the point lies
/// more than 400 digits before the mantissa or more than 400 digits after its end.
#[verifier::spinoff_prover]
#[verifier::rlimit(40)]
fn parse_exec(s: &[char]) -> (r: Option<(Vec<char>, i128, bool)>)
    ensures
        match r {
            Some(x) => x.0@.len() > 0 && (!x.2 ==> parse_number(s@) == Some((x.0@, x.1 as int)))
                && (x.2 ==> parse_number(s@) is Some && (parse_number(s@)->0).0 == x.0@
                    && ((parse_number(s@)->0).1 > x.0@.len() + 400 || (parse_number(s@)->0).1 < -400)),
            None => parse_number(s@) is None,
        },
{
    let n = s.len();
    let a: usize = if n > 0 && s[0] == '+' { 1 } else { 0 };
    let i1 = digits_end(s, a);
    let has_point = i1 < n && s[i1] == '.';
    let i2 = if has_point { digits_end(s, i1 + 1) } else { i1 };
    proof {
        lemma_int_end(s@, a as int);
        if has_point {
            lemma_int_end(s@, i1 + 1);
        }
    }
    let mut m: Vec<char> = Vec::new();
    push_slice(&mut m, slice_subrange(s, a, i1));
    if has_point {
        push_slice(&mut m, slice_subrange(s, i1 + 1, i2));
    }
    let ghost d1 = s@.subrange(a as int, i1 as int);
    let ghost d2 = if has_point { s@.subrange(i1 + 1, i2 as int) } else { Seq::<char>::empty() };
    proof {
        assert(m@ =~= d1 + d2);
    }
    if m.len() == 0 {
        return None;
    }
    let d1_len: usize = i1 - a;
    if i2 == n {
        proof {
            assert(parse_number(s@) == Some((m@, d1_len as int)));
        }
        return Some((m, d1_len as i128, false));
    }
    if !(s[i2] == 'e' || s[i2] == 'E') {
        return None;
    }
    let j = i2 + 1;
    let neg = j < n && s[j] == '-';
    let j2 = if j < n && (s[j] == '-' || s[j] == '+') { j + 1 } else { j };
    let k = digits_end(s, j2);
    proof {
        lemma_int_end(s@, j2 as int);
    }
    if !(k == n && k > j2) {
        return None;
    }
    let t = slice_subrange(s, j2, k);
    let cap: u128 = n as u128 + 400;
    match exponent_value(t, cap) {
        None => {
            proof {
                let ev = digits_value(s@.subrange(j2 as int, k as int));
                let q = d1.len() + (if neg { -(ev as int) } else { ev as int });
                assert(t@ =~= s@.subrange(j2 as int, k as int));
                assert(ev > cap);
                assert(m@.len() <= n);
                assert(q > m@.len() + 400 || q < -400);
                assert(parse_number(s@) == Some((m@, q)));
            }
            Some((m, 0, true))
        },
        Some(ev) => {
            let p: i128 = if neg { d1_len as i128 - ev as i128 } else { d1_len as i128 + ev as i128 };
            proof {
                assert(t@ =~= s@.subrange(j2 as int, k as int));
                assert(parse_number(s@) == Some((m@, p as int)));
            }
            Some((m, p, false))
        },
    }
}

/// The characters of [`min_amount`].
fn min_amount_chars() -> (v: Vec<char>)
    ensures
        v@ == min_amount(),
{
    let mut v: Vec<char> = Vec::new();
    v.push('0');
    v.push('.');
    push_zeros(&mut v, 323);
    v.push('2');
    let tail = crate::text::str_chars("4703282292062327208828439643411068618252990130716238221279284125033775363510437593264991818081799618989828234772285886546332835517796989819938739800539093906315035659515570226392290858392449105184435931802849936536152500319370457678249219365623669863658480757001585769269903706311928279558551332927834338409351978015531246597263579574622766465272827220056374006485499977096599470454020828166226237857393450736339007967761930577506740176324673600968951340535537458516661134223766678604162159680461914467291840300530057530849048765391711386591646239524912623653881879636239373280423891018672348497668235089863388587925628302755995657524455507255189313690836254779186948667994968324049705821028513185451396213837722826145437693412532098591327667236328125");
    push_slice(&mut v, tail.as_slice());
    proof {
        assert(v@ =~= min_amount());
    }
    v
}

/// The characters of [`max_amount`].
fn max_amount_chars() -> (v: Vec<char>)
    ensures
        v@ == max_amount(),
{
    let mut v: Vec<char> = Vec::new();
    v.push('1');
    let tail = crate::text::str_chars("79769313486231580793728971405303415079934132710037826936173778980444968292764750946649017977587207096330286416692887910946555547851940402630657488671505820681908902000708383676273854845817711531764475730270069855571366959622842914819860834936475292719074168444365510704342711559699508093042880177904174497792");
    push_slice(&mut v, tail.as_slice());
    proof {
        assert(v@ =~= max_amount());
    }
    v
}

/// Whether canonical digits are within reach of a finite positive `f64` (see [`within_reach`]).
fn within_reach_exec(i: &[char], f: &[char]) -> (r: bool)
    ensures
        r == within_reach(i@, f@),
{
    if i.len() > 309 {
        return false;
    }
    if !(i.len() == 1 && i[0] == '0') {
        proof {
            if i@ == seq!['0'] {
                assert(i@.len() == 1 && i@[0] == '0');
            }
        }
        return true;
    }
    proof {
        assert(i@ =~= seq!['0']);
    }
    let mut j: usize = 0;
    while j < f.len() && j < 324
        invariant
            j <= f@.len(),
            j <= 324,
            i@ == seq!['0'],
            forall|k: int| 0 <= k < j ==> #[trigger] f@[k] == '0',
        decreases f.len() - j,
    {
        if f[j] != '0' {
            proof {
                assert(0 <= j < f@.len() && j < 324 && f@[j as int] != '0');
            }
            return true;
        }
        j += 1;
    }
    proof {
        assert(!exists|k: int| 0 <= k < f@.len() && k < 324 && f@[k] != '0') by {
            if exists|k: int| 0 <= k < f@.len() && k < 324 && f@[k] != '0' {
                let k = choose|k: int| 0 <= k < f@.len() && k < 324 && f@[k] != '0';
                assert(f@[k] == '0');
            }
        }
    }
    false
}

/// Reads a positive amount (see [`amount_of`]).
pub fn amount_exec(s: &[char]) -> (r: Option<Vec<char>>)
    ensures
        match r {
            Some(v) => amount_of(s@) == Some(v@),
            None => amount_of(s@) is None,
        },
{
    let (m, p, vast) = match parse_exec(s) {
        Some(x) => x,
        None => {
            return None;
        },
    };
    let ml = m.len() as i128;
    if vast || p > ml + 400 || p < -400 {
        proof {
            let q = (parse_number(s@)->0).1;
            if !vast {
                assert(parse_number(s@) == Some((m@, p as int)));
            }
            lemma_out_of_reach(m@, q);
        }
        return None;
    }
    let mut ir: Vec<char> = Vec::new();
    let mut fr: Vec<char> = Vec::new();
    if p <= 0 {
        push_zeros(&mut fr, (-p) as usize);
        push_slice(&mut fr, m.as_slice());
    } else if p >= ml {
        push_slice(&mut ir, m.as_slice());
        push_zeros(&mut ir, (p - ml) as usize);
    } else {
        push_slice(&mut ir, slice_subrange(m.as_slice(), 0, p as usize));
        push_slice(&mut fr, slice_subrange(m.as_slice(), p as usize, m.len()));
    }
    proof {
        assert(ir@ =~= int_raw(m@, p as int));
        assert(fr@ =~= frac_raw(m@, p as int));
    }
    let it = trim_start_char_exec(ir.as_slice(), '0');
    let f = trim_end_char_exec(fr.as_slice(), '0');
    let mut i: Vec<char> = it;
    if i.len() == 0 {
        i.push('0');
        proof {
            assert(i@ =~= seq!['0']);
        }
    }
    proof {
        assert(i@ == int_part(m@, p as int));
        assert(f@ == frac_part(m@, p as int));
    }
    if !within_reach_exec(i.as_slice(), f.as_slice()) {
        return None;
    }
    let mut out = i;
    if f.len() > 0 {
        out.push('.');
        push_slice(&mut out, f.as_slice());
    }
    proof {
        assert(out@ =~= decimal_text(int_part(m@, p as int), frac_part(m@, p as int)));
    }
    let lo = min_amount_chars();
    let hi = max_amount_chars();
    if dec_lt_chars(lo.as_slice(), out.as_slice()) && dec_lt_chars(out.as_slice(), hi.as_slice()) {
        Some(out)
    } else {
        None
    }
}

} // verus!
