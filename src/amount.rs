//! Reading amounts typed by a person, and writing amounts for display.
//!
//! Amounts count hundredths (cents): the text `1.23` is the amount 123.
use separator::Separatable;
use vstd::prelude::*;

verus! {

/// Whitespace as `char::is_whitespace` has it: the characters with the
/// Unicode `White_Space` property.
pub open spec fn is_space(c: char) -> bool {
    let n = c as u32;
    ||| 0x09 <= n <= 0x0D
    ||| n == 0x20
    ||| n == 0x85
    ||| n == 0xA0
    ||| n == 0x1680
    ||| 0x2000 <= n <= 0x200A
    ||| n == 0x2028
    ||| n == 0x2029
    ||| n == 0x202F
    ||| n == 0x205F
    ||| n == 0x3000
}

pub open spec fn is_digit(c: char) -> bool {
    '0' <= c <= '9'
}

/// The value of the decimal digit `c`.
pub open spec fn digit_of(c: char) -> int {
    (c as u32) - ('0' as u32)
}

/// `s` without its leading whitespace.
pub open spec fn trim_start(s: Seq<char>) -> Seq<char>
    decreases s.len(),
{
    if s.len() > 0 && is_space(s[0]) {
        trim_start(s.drop_first())
    } else {
        s
    }
}

/// `s` without its trailing whitespace.
pub open spec fn trim_end(s: Seq<char>) -> Seq<char>
    decreases s.len(),
{
    if s.len() > 0 && is_space(s.last()) {
        trim_end(s.drop_last())
    } else {
        s
    }
}

/// `t` without a leading `+`.
pub open spec fn unsigned_part(t: Seq<char>) -> Seq<char> {
    if t.len() > 0 && t[0] == '+' {
        t.drop_first()
    } else {
        t
    }
}

/// The number of decimal digits at the start of `u`.
pub open spec fn digit_run(u: Seq<char>) -> nat
    decreases u.len(),
{
    if u.len() > 0 && is_digit(u[0]) {
        1 + digit_run(u.drop_first())
    } else {
        0
    }
}

pub open spec fn all_digits(u: Seq<char>) -> bool {
    forall|i: int| 0 <= i < u.len() ==> is_digit(#[trigger] u[i])
}

/// The number that the digits `u` denote.
pub open spec fn digits_value(u: Seq<char>) -> int
    decreases u.len(),
{
    if u.len() == 0 {
        0
    } else {
        digits_value(u.drop_last()) * 10 + digit_of(u.last())
    }
}

/// Some digit of `u` is not zero.
pub open spec fn some_nonzero(u: Seq<char>) -> bool {
    exists|i: int| 0 <= i < u.len() && u[i] != '0'
}

/// The exponent that `x` denotes: an optional sign, then at least one digit.
pub open spec fn exponent_of(x: Seq<char>) -> Option<int> {
    let signed = x.len() > 0 && (x[0] == '+' || x[0] == '-');
    let d = if signed {
        x.drop_first()
    } else {
        x
    };
    if d.len() > 0 && all_digits(d) {
        Some(
            if signed && x[0] == '-' {
                -digits_value(d)
            } else {
                digits_value(d)
            },
        )
    } else {
        None
    }
}

/// The exponent that follows a mantissa: zero when nothing follows, else
/// `e` or `E` and an exponent.
pub open spec fn exponent_part(r: Seq<char>) -> Option<int> {
    if r.len() == 0 {
        Some(0)
    } else if r[0] == 'e' || r[0] == 'E' {
        exponent_of(r.drop_first())
    } else {
        None
    }
}

/// The whole digits, fraction digits and exponent of `u`, when `u` is
/// digits, optionally a `.` and more digits, then optionally an exponent.
pub open spec fn decimal_parts(u: Seq<char>) -> Option<(Seq<char>, Seq<char>, int)> {
    let p = digit_run(u) as int;
    let w = u.subrange(0, p);
    let r = u.subrange(p, u.len() as int);
    if r.len() > 0 && r[0] == '.' {
        let t = r.drop_first();
        let k = digit_run(t) as int;
        match exponent_part(t.subrange(k, t.len() as int)) {
            Some(e) => Some((w, t.subrange(0, k), e)),
            None => None,
        }
    } else {
        match exponent_part(r) {
            Some(e) => Some((w, Seq::<char>::empty(), e)),
            None => None,
        }
    }
}

/// The value of digit `i` of `d`, zero outside `d`.
pub open spec fn digit_at(d: Seq<char>, i: int) -> int {
    if 0 <= i < d.len() {
        digit_of(d[i])
    } else {
        0
    }
}

/// The number formed by the first `q` digits of `d`, padded with zeros past
/// its end; zero when `q` is not positive.
pub open spec fn leading_value(d: Seq<char>, q: int) -> int
    decreases q,
{
    if q <= 0 {
        0
    } else {
        leading_value(d, q - 1) * 10 + digit_at(d, q - 1)
    }
}

/// The digits `d` read as a number whose hundredths digit is digit `q - 1`,
/// rounded half up to a whole number of hundredths.
pub open spec fn rounded_at(d: Seq<char>, q: int) -> int {
    leading_value(d, q) + (if digit_at(d, q) >= 5 {
        1int
    } else {
        0int
    })
}

/// The amount in hundredths that `s` denotes, when `s` (whitespace as
/// `char::is_whitespace` has it aside) is a positive decimal number: an
/// optional `+`, digits, optionally a `.` and more digits (at least one
/// digit in all, one of them not zero), then optionally `e` or `E`, a sign
/// and digits. The number `w.f * 10^e` is rounded half up to the hundredth.
pub open spec fn parsed_amount(s: Seq<char>) -> Option<int> {
    match decimal_parts(unsigned_part(trim_end(trim_start(s)))) {
        Some(parts) => {
            if parts.0.len() + parts.1.len() > 0 && (some_nonzero(parts.0) || some_nonzero(
                parts.1,
            )) {
                Some(rounded_at(parts.0 + parts.1, parts.0.len() + 2 + parts.2))
            } else {
                None
            }
        },
        None => None,
    }
}

/// Exponents beyond this size are only told apart by their sign.
pub const EXPONENT_CAP: u128 = 1_000_000_000_000_000_000_000_000;

/// `e`, held within one step beyond `EXPONENT_CAP` either way.
pub open spec fn clamped_exponent(e: int) -> int {
    if e > EXPONENT_CAP {
        EXPONENT_CAP + 1
    } else if e < -EXPONENT_CAP {
        -(EXPONENT_CAP + 1)
    } else {
        e
    }
}

spec fn pow10(m: nat) -> int
    decreases m,
{
    if m == 0 {
        1
    } else {
        10 * pow10((m - 1) as nat)
    }
}

proof fn lemma_leading_nonneg(d: Seq<char>, q: int)
    requires
        all_digits(d),
    ensures
        leading_value(d, q) >= 0,
    decreases q,
{
    if q > 0 {
        lemma_leading_nonneg(d, q - 1);
        if q - 1 < d.len() {
            assert(is_digit(d[q - 1]));
        }
    }
}

proof fn lemma_leading_monotone(d: Seq<char>, q1: int, q2: int)
    requires
        all_digits(d),
        q1 <= q2,
    ensures
        leading_value(d, q1) <= leading_value(d, q2),
    decreases q2 - q1,
{
    if q1 < q2 {
        lemma_leading_monotone(d, q1, q2 - 1);
        lemma_leading_nonneg(d, q2 - 1);
        if 0 <= q2 - 1 < d.len() {
            assert(is_digit(d[q2 - 1]));
        }
    }
}

proof fn lemma_leading_grows(d: Seq<char>, i: int, m: nat)
    requires
        all_digits(d),
        0 <= i < d.len(),
        d[i] != '0',
    ensures
        leading_value(d, i + 1 + m) >= pow10(m),
    decreases m,
{
    if m == 0 {
        lemma_leading_nonneg(d, i);
        assert(is_digit(d[i]));
    } else {
        lemma_leading_grows(d, i, (m - 1) as nat);
        let k = i + 1 + m - 1;
        if 0 <= k < d.len() {
            assert(is_digit(d[k]));
        }
    }
}

/// With a digit that is not zero, the number formed once the point lies 19
/// places past the end is too large for an `i64`.
proof fn lemma_leading_large(d: Seq<char>, q: int)
    requires
        all_digits(d),
        some_nonzero(d),
        q >= d.len() + 19,
    ensures
        leading_value(d, q) > i64::MAX,
        rounded_at(d, q) > i64::MAX,
{
    let i = choose|i: int| 0 <= i < d.len() && d[i] != '0';
    lemma_leading_grows(d, i, 19);
    reveal_with_fuel(pow10, 20);
    lemma_leading_monotone(d, i + 1 + 19, q);
}

proof fn lemma_trim_start(s: Seq<char>, lo: int)
    requires
        0 <= lo <= s.len(),
        forall|i: int| 0 <= i < lo ==> is_space(#[trigger] s[i]),
        lo == s.len() || !is_space(s[lo]),
    ensures
        trim_start(s) == s.subrange(lo, s.len() as int),
    decreases lo,
{
    if lo == 0 {
        assert(s.subrange(0, s.len() as int) =~= s);
    } else {
        let t = s.drop_first();
        assert forall|i: int| 0 <= i < lo - 1 implies is_space(#[trigger] t[i]) by {
            assert(t[i] == s[i + 1]);
        }
        if lo < s.len() {
            assert(t[lo - 1] == s[lo]);
        }
        lemma_trim_start(t, lo - 1);
        assert(t.subrange(lo - 1, t.len() as int) =~= s.subrange(lo, s.len() as int));
    }
}

proof fn lemma_trim_end(t: Seq<char>, h: int)
    requires
        0 <= h <= t.len(),
        forall|i: int| h <= i < t.len() ==> is_space(#[trigger] t[i]),
        h == 0 || !is_space(t[h - 1]),
    ensures
        trim_end(t) == t.subrange(0, h),
    decreases t.len(),
{
    if h == t.len() {
        assert(t.subrange(0, h) =~= t);
        if t.len() > 0 {
            assert(!is_space(t.last()));
        }
    } else {
        let p = t.drop_last();
        assert(is_space(t.last()));
        assert forall|i: int| h <= i < p.len() implies is_space(#[trigger] p[i]) by {
            assert(p[i] == t[i]);
        }
        if h > 0 {
            assert(p[h - 1] == t[h - 1]);
        }
        lemma_trim_end(p, h);
        assert(p.subrange(0, h) =~= t.subrange(0, h));
    }
}

proof fn lemma_digit_run(u: Seq<char>, k: int)
    requires
        0 <= k <= u.len(),
        all_digits(u.take(k)),
        k == u.len() || !is_digit(u[k]),
    ensures
        digit_run(u) == k,
    decreases k,
{
    if k > 0 {
        let t = u.drop_first();
        assert(u.take(k)[0] == u[0]);
        assert forall|i: int| 0 <= i < k - 1 implies is_digit(#[trigger] t.take(k - 1)[i]) by {
            assert(t.take(k - 1)[i] == u.take(k)[i + 1]);
        }
        if k < u.len() {
            assert(t[k - 1] == u[k]);
        }
        lemma_digit_run(t, k - 1);
    } else if u.len() > 0 {
        assert(!is_digit(u[0]));
    }
}

proof fn lemma_digit_run_stops(u: Seq<char>, k: int)
    requires
        0 <= k < u.len(),
        digit_run(u) == k,
    ensures
        !is_digit(u[k]),
    decreases k,
{
    if k > 0 {
        lemma_digit_run_stops(u.drop_first(), k - 1);
        assert(u.drop_first()[k - 1] == u[k]);
    }
}

proof fn lemma_digits_value_prefix(u: Seq<char>, j: int)
    requires
        all_digits(u),
        0 <= j <= u.len(),
    ensures
        0 <= digits_value(u.take(j)) <= digits_value(u),
    decreases u.len(),
{
    if j == u.len() {
        assert(u.take(j) =~= u);
        lemma_digits_value_nonneg(u);
    } else {
        let p = u.drop_last();
        assert forall|i: int| 0 <= i < p.len() implies is_digit(#[trigger] p[i]) by {
            assert(p[i] == u[i]);
        }
        assert(is_digit(u.last()));
        lemma_digits_value_prefix(p, j);
        lemma_digits_value_nonneg(p);
        assert(p.take(j) =~= u.take(j));
    }
}

proof fn lemma_digits_value_nonneg(u: Seq<char>)
    requires
        all_digits(u),
    ensures
        digits_value(u) >= 0,
    decreases u.len(),
{
    if u.len() > 0 {
        let p = u.drop_last();
        assert forall|i: int| 0 <= i < p.len() implies is_digit(#[trigger] p[i]) by {
            assert(p[i] == u[i]);
        }
        assert(is_digit(u.last()));
        lemma_digits_value_nonneg(p);
    }
}

fn is_space_char(c: char) -> (r: bool)
    ensures
        r == is_space(c),
{
    let n = c as u32;
    (0x09 <= n && n <= 0x0D) || n == 0x20 || n == 0x85 || n == 0xA0 || n == 0x1680 || (0x2000 <= n
        && n <= 0x200A) || n == 0x2028 || n == 0x2029 || n == 0x202F || n == 0x205F || n == 0x3000
}

fn is_digit_char(c: char) -> (r: bool)
    ensures
        r == is_digit(c),
{
    '0' <= c && c <= '9'
}

/// The bounds of `value` without its surrounding whitespace.
fn trimmed_bounds(value: &str) -> (r: (usize, usize))
    ensures
        r.0 <= r.1 <= value@.len(),
        trim_end(trim_start(value@)) == value@.subrange(r.0 as int, r.1 as int),
{
    let ghost s = value@;
    let n = value.unicode_len();
    let mut lo: usize = 0;
    while lo < n && is_space_char(value.get_char(lo))
        invariant
            s == value@,
            n == s.len(),
            lo <= n,
            forall|i: int| 0 <= i < lo ==> is_space(#[trigger] s[i]),
        decreases n - lo,
    {
        lo += 1;
    }
    let mut hi: usize = n;
    while hi > lo && is_space_char(value.get_char(hi - 1))
        invariant
            s == value@,
            n == s.len(),
            lo <= hi <= n,
            forall|i: int| hi <= i < n ==> is_space(#[trigger] s[i]),
        decreases hi - lo,
    {
        hi -= 1;
    }
    proof {
        let ts = s.subrange(lo as int, n as int);
        lemma_trim_start(s, lo as int);
        assert forall|i: int| hi - lo <= i < ts.len() implies is_space(#[trigger] ts[i]) by {
            assert(ts[i] == s[i + lo]);
        }
        if hi > lo {
            assert(ts[hi - lo - 1] == s[hi - 1]);
        }
        lemma_trim_end(ts, hi - lo);
        assert(ts.subrange(0, hi - lo) =~= s.subrange(lo as int, hi as int));
    }
    (lo, hi)
}

/// Scans the digits of `value` from `start`, stopping before `hi`: returns
/// where they end and whether one of them is not zero.
fn scan_digits(value: &str, start: usize, hi: usize) -> (r: (usize, bool))
    requires
        start <= hi <= value@.len(),
    ensures
        start <= r.0 <= hi,
        digit_run(value@.subrange(start as int, hi as int)) == r.0 - start,
        all_digits(value@.subrange(start as int, r.0 as int)),
        r.1 == some_nonzero(value@.subrange(start as int, r.0 as int)),
{
    let ghost s = value@;
    let ghost u = s.subrange(start as int, hi as int);
    let mut pos: usize = start;
    let mut nonzero = false;
    while pos < hi && is_digit_char(value.get_char(pos))
        invariant
            s == value@,
            start <= pos <= hi <= s.len(),
            u == s.subrange(start as int, hi as int),
            all_digits(u.take(pos - start)),
            nonzero == some_nonzero(u.take(pos - start)),
        decreases hi - pos,
    {
        let c = value.get_char(pos);
        let ghost k = pos - start;
        proof {
            assert(u[k] == c);
            let g = u.take(k + 1);
            let h = u.take(k);
            assert forall|i: int| 0 <= i < k + 1 implies is_digit(#[trigger] g[i]) by {
                if i < k {
                    assert(g[i] == h[i]);
                }
            }
            if some_nonzero(g) && c == '0' {
                let i = choose|i: int| 0 <= i < g.len() && #[trigger] g[i] != '0';
                assert(h[i] == g[i]);
            }
            if some_nonzero(h) {
                let i = choose|i: int| 0 <= i < h.len() && #[trigger] h[i] != '0';
                assert(g[i] == h[i]);
            }
            assert(g[k] == c);
        }
        nonzero = nonzero || c != '0';
        pos += 1;
    }
    proof {
        if pos < hi {
            assert(u[pos - start] == s[pos as int]);
        }
        lemma_digit_run(u, pos - start);
        assert(u.take(pos - start) =~= s.subrange(start as int, pos as int));
    }
    (pos, nonzero)
}

/// The value of the digits of `value` between `start` and `end`, or `None`
/// when it exceeds `EXPONENT_CAP`.
fn digits_amount(value: &str, start: usize, end: usize) -> (r: Option<u128>)
    requires
        start <= end <= value@.len(),
        all_digits(value@.subrange(start as int, end as int)),
    ensures
        match r {
            Some(v) => v == digits_value(value@.subrange(start as int, end as int)) && v
                <= EXPONENT_CAP,
            None => digits_value(value@.subrange(start as int, end as int)) > EXPONENT_CAP,
        },
{
    let ghost w = value@.subrange(start as int, end as int);
    let mut acc: u128 = 0;
    let mut q: usize = start;
    while q < end
        invariant
            start <= q <= end <= value@.len(),
            w == value@.subrange(start as int, end as int),
            all_digits(w),
            acc == digits_value(w.take(q - start)),
            acc <= EXPONENT_CAP,
        decreases end - q,
    {
        let c = value.get_char(q);
        let ghost k = q - start;
        proof {
            assert(w[k] == c);
            assert(is_digit(c));
            assert(w.take(k + 1).drop_last() =~= w.take(k));
            assert(w.take(k + 1).last() == c);
        }
        let d = (c as u32 - '0' as u32) as u128;
        if acc > (EXPONENT_CAP - d) / 10 {
            proof {
                lemma_digits_value_prefix(w, k + 1);
            }
            return None;
        }
        acc = acc * 10 + d;
        q += 1;
    }
    proof {
        assert(w.take(q - start) =~= w);
    }
    Some(acc)
}

/// Reads the exponent of `value` between `pos` and `hi`: `None` when the
/// text there is no exponent part, else the exponent, clamped.
fn scan_exponent(value: &str, pos: usize, hi: usize) -> (r: Option<i128>)
    requires
        pos <= hi <= value@.len(),
    ensures
        r is Some <==> exponent_part(value@.subrange(pos as int, hi as int)) is Some,
        r is Some ==> r->0 == clamped_exponent(
            exponent_part(value@.subrange(pos as int, hi as int))->0,
        ),
{
    let ghost s = value@;
    let ghost r0 = s.subrange(pos as int, hi as int);
    if pos == hi {
        return Some(0);
    }
    let c = value.get_char(pos);
    proof {
        assert(r0[0] == c);
    }
    if c != 'e' && c != 'E' {
        return None;
    }
    let ghost x = r0.drop_first();
    proof {
        assert(x =~= s.subrange(pos + 1, hi as int));
    }
    let mut xs = pos + 1;
    let mut negative = false;
    if xs < hi {
        let sign = value.get_char(xs);
        proof {
            assert(x[0] == sign);
        }
        if sign == '+' || sign == '-' {
            negative = sign == '-';
            xs += 1;
        }
    }
    let ghost d = s.subrange(xs as int, hi as int);
    proof {
        if xs == pos + 2 {
            assert(d =~= x.drop_first());
        } else {
            assert(d =~= x);
        }
    }
    let (xe, _) = scan_digits(value, xs, hi);
    if xe != hi || xe == xs {
        proof {
            if xe != hi {
                assert(d[xe - xs] == s[xe as int]);
                lemma_digit_run_stops(d, xe - xs);
            }
        }
        return None;
    }
    proof {
        assert(d =~= s.subrange(xs as int, xe as int));
    }
    match digits_amount(value, xs, xe) {
        Some(v) => {
            if negative {
                Some(-(v as i128))
            } else {
                Some(v as i128)
            }
        },
        None => {
            if negative {
                Some(-(EXPONENT_CAP as i128 + 1))
            } else {
                Some(EXPONENT_CAP as i128 + 1)
            }
        },
    }
}

/// The value of digit `i` of the digits `value[start..we]` followed by
/// `value[fs..fe]`, zero past their end.
fn digit_at_index(value: &str, start: usize, we: usize, fs: usize, fe: usize, i: usize) -> (r: u64)
    requires
        start <= we <= fs <= fe <= value@.len(),
        all_digits(value@.subrange(start as int, we as int)),
        all_digits(value@.subrange(fs as int, fe as int)),
    ensures
        r == digit_at(
            value@.subrange(start as int, we as int) + value@.subrange(fs as int, fe as int),
            i as int,
        ),
{
    let ghost w = value@.subrange(start as int, we as int);
    let ghost f = value@.subrange(fs as int, fe as int);
    let wlen = we - start;
    if i < wlen {
        let c = value.get_char(start + i);
        proof {
            assert(w[i as int] == c);
            assert(is_digit(c));
            assert((w + f)[i as int] == c);
        }
        (c as u32 - '0' as u32) as u64
    } else if i - wlen < fe - fs {
        let c = value.get_char(fs + (i - wlen));
        proof {
            assert(f[i - wlen] == c);
            assert(is_digit(c));
            assert((w + f)[i as int] == c);
        }
        (c as u32 - '0' as u32) as u64
    } else {
        0
    }
}

/// The digits `value[start..we]` followed by `value[fs..fe]`, read with the
/// hundredths digit at `q - 1` and rounded half up; `None` when that exceeds
/// `i64::MAX`.
fn rounded_amount(value: &str, start: usize, we: usize, fs: usize, fe: usize, q: i128) -> (r: Option<
    i64,
>)
    requires
        start <= we <= fs <= fe <= value@.len(),
        all_digits(value@.subrange(start as int, we as int)),
        all_digits(value@.subrange(fs as int, fe as int)),
        some_nonzero(value@.subrange(start as int, we as int) + value@.subrange(fs as int, fe as int)),
    ensures
        match r {
            Some(v) => v == rounded_at(
                value@.subrange(start as int, we as int) + value@.subrange(fs as int, fe as int),
                q as int,
            ),
            None => rounded_at(
                value@.subrange(start as int, we as int) + value@.subrange(fs as int, fe as int),
                q as int,
            ) > i64::MAX,
        },
{
    let ghost d = value@.subrange(start as int, we as int) + value@.subrange(fs as int, fe as int);
    proof {
        let w = value@.subrange(start as int, we as int);
        let f = value@.subrange(fs as int, fe as int);
        assert forall|i: int| 0 <= i < d.len() implies is_digit(#[trigger] d[i]) by {
            if i < w.len() {
                assert(d[i] == w[i]);
            } else {
                assert(d[i] == f[i - w.len()]);
            }
        }
    }
    let n: usize = (we - start) + (fe - fs);
    if q > n as i128 + 20 {
        proof {
            lemma_leading_large(d, q as int);
        }
        return None;
    }
    let mut acc: u64 = 0;
    if q > 0 {
        let qn = q as u128;
        let mut i: u128 = 0;
        while i < qn
            invariant
                start <= we <= fs <= fe <= value@.len(),
                all_digits(value@.subrange(start as int, we as int)),
                all_digits(value@.subrange(fs as int, fe as int)),
                d == value@.subrange(start as int, we as int) + value@.subrange(
                    fs as int,
                    fe as int,
                ),
                all_digits(d),
                qn == q,
                n == d.len(),
                i <= qn,
                acc == leading_value(d, i as int),
                acc <= i64::MAX,
            decreases qn - i,
        {
            let digit = if i < n as u128 {
                digit_at_index(value, start, we, fs, fe, i as usize)
            } else {
                0
            };
            proof {
                if i < d.len() {
                    assert(is_digit(d[i as int]));
                }
            }
            if acc > (i64::MAX as u64 - digit) / 10 {
                proof {
                    lemma_leading_monotone(d, i + 1, q as int);
                    lemma_leading_nonneg(d, q as int);
                }
                return None;
            }
            acc = acc * 10 + digit;
            i += 1;
        }
    }
    proof {
        if q <= 0 {
            assert(acc == leading_value(d, q as int));
        }
    }
    let round_up = if 0 <= q && q < n as i128 {
        digit_at_index(value, start, we, fs, fe, q as usize) >= 5
    } else {
        false
    };
    if round_up {
        if acc == i64::MAX as u64 {
            return None;
        }
        Some((acc + 1) as i64)
    } else {
        Some(acc as i64)
    }
}

/// Scans the mantissa of `value` from `start`: returns where the whole
/// digits end, whether one of them is not zero, where the fraction digits
/// start and end (both at the end of the whole digits when there is no
/// point), and whether one of them is not zero.
fn scan_mantissa(value: &str, start: usize, hi: usize) -> (r: (usize, bool, usize, usize, bool))
    requires
        start <= hi <= value@.len(),
    ensures
        start <= r.0 <= r.2 <= r.3 <= hi,
        all_digits(value@.subrange(start as int, r.0 as int)),
        all_digits(value@.subrange(r.2 as int, r.3 as int)),
        r.1 == some_nonzero(value@.subrange(start as int, r.0 as int)),
        r.4 == some_nonzero(value@.subrange(r.2 as int, r.3 as int)),
        decimal_parts(value@.subrange(start as int, hi as int)) == match exponent_part(
            value@.subrange(r.3 as int, hi as int),
        ) {
            Some(e) => Some(
                (
                    value@.subrange(start as int, r.0 as int),
                    value@.subrange(r.2 as int, r.3 as int),
                    e,
                ),
            ),
            None => None,
        },
{
    let ghost s = value@;
    let ghost u = s.subrange(start as int, hi as int);
    let (we, whole_nonzero) = scan_digits(value, start, hi);
    let ghost p = we - start;
    proof {
        assert(u.subrange(0, p) =~= s.subrange(start as int, we as int));
        assert(u.subrange(p, u.len() as int) =~= s.subrange(we as int, hi as int));
    }
    if we < hi && value.get_char(we) == '.' {
        let fs = we + 1;
        let (fe, frac_nonzero) = scan_digits(value, fs, hi);
        proof {
            let r = s.subrange(we as int, hi as int);
            assert(r[0] == '.');
            let rt = r.drop_first();
            assert(rt =~= s.subrange(fs as int, hi as int));
            assert(rt.subrange(0, fe - fs) =~= s.subrange(fs as int, fe as int));
            assert(rt.subrange(fe - fs, rt.len() as int) =~= s.subrange(fe as int, hi as int));
        }
        (we, whole_nonzero, fs, fe, frac_nonzero)
    } else {
        proof {
            let r = s.subrange(we as int, hi as int);
            if we < hi {
                assert(r[0] == s[we as int]);
            }
            assert(s.subrange(we as int, we as int) =~= Seq::<char>::empty());
            assert(!some_nonzero(Seq::<char>::empty()));
        }
        (we, whole_nonzero, we, we, false)
    }
}

/// The amount of the digits `value[start..we]` followed by `value[fs..fe]`
/// under the exponent `exponent`, given clamped as `e`; `None` when it
/// exceeds `i64::MAX`.
fn exponent_amount(
    value: &str,
    start: usize,
    we: usize,
    fs: usize,
    fe: usize,
    e: i128,
    Ghost(exponent): Ghost<int>,
) -> (r: Option<i64>)
    requires
        start <= we <= fs <= fe <= value@.len(),
        all_digits(value@.subrange(start as int, we as int)),
        all_digits(value@.subrange(fs as int, fe as int)),
        some_nonzero(value@.subrange(start as int, we as int)) || some_nonzero(
            value@.subrange(fs as int, fe as int),
        ),
        e == clamped_exponent(exponent),
    ensures
        match r {
            Some(v) => v == rounded_at(
                value@.subrange(start as int, we as int) + value@.subrange(fs as int, fe as int),
                (we - start) + 2 + exponent,
            ),
            None => rounded_at(
                value@.subrange(start as int, we as int) + value@.subrange(fs as int, fe as int),
                (we - start) + 2 + exponent,
            ) > i64::MAX,
        },
{
    let ghost w = value@.subrange(start as int, we as int);
    let ghost f = value@.subrange(fs as int, fe as int);
    let ghost d = w + f;
    proof {
        assert forall|i: int| 0 <= i < d.len() implies is_digit(#[trigger] d[i]) by {
            if i < w.len() {
                assert(d[i] == w[i]);
            } else {
                assert(d[i] == f[i - w.len()]);
            }
        }
        if some_nonzero(w) {
            let i = choose|i: int| 0 <= i < w.len() && w[i] != '0';
            assert(d[i] == w[i]);
        } else {
            let i = choose|i: int| 0 <= i < f.len() && f[i] != '0';
            assert(d[i + w.len()] == f[i]);
        }
    }
    if e > EXPONENT_CAP as i128 {
        proof {
            lemma_leading_large(d, w.len() + 2 + exponent);
        }
        return None;
    }
    if e < -(EXPONENT_CAP as i128) {
        proof {
            assert(w.len() + 2 + exponent < 0);
            assert(rounded_at(d, w.len() + 2 + exponent) == 0);
        }
        return Some(0);
    }
    let q: i128 = (we - start) as i128 + 2 + e;
    rounded_amount(value, start, we, fs, fe, q)
}

/// Reads a positive amount typed as a decimal number, as `f64`'s parser
/// writes one, rounded half up to the hundredth: surrounding whitespace, an
/// optional `+`, digits with an optional point, and an optional exponent
/// (`1e2` is 100.00). The digits are read exactly, so a positive number
/// below half a cent reads as 0.00. Everything else is refused: a negative or
/// zero amount,
/// text that is no number, `inf` and `NaN` (no amount of money), and an
/// amount too large for an `i64`.
pub fn parse_value(value: &str) -> (r: Result<i64, &'static str>)
    ensures
        r is Ok <==> (parsed_amount(value@) is Some && parsed_amount(value@)->0 <= i64::MAX),
        r is Ok ==> r->Ok_0 == parsed_amount(value@)->0,
        r is Err ==> r->Err_0@ == "Input must be a positive number"@,
{
    let ghost s = value@;
    let (lo, hi) = trimmed_bounds(value);
    let mut start: usize = lo;
    if lo < hi && value.get_char(lo) == '+' {
        start = lo + 1;
    }
    proof {
        assert(s.subrange(start as int, hi as int) =~= unsigned_part(s.subrange(lo as int, hi as int)));
    }
    let (we, whole_nonzero, fs, fe, frac_nonzero) = scan_mantissa(value, start, hi);
    let e = match scan_exponent(value, fe, hi) {
        None => {
            return Err("Input must be a positive number");
        },
        Some(e) => e,
    };
    if (we == start && fe == fs) || !(whole_nonzero || frac_nonzero) {
        return Err("Input must be a positive number");
    }
    let ghost ex = exponent_part(s.subrange(fe as int, hi as int))->0;
    match exponent_amount(value, start, we, fs, fe, e, Ghost(ex)) {
        Some(v) => Ok(v),
        None => Err("Input must be a positive number"),
    }
}

/// The character of the decimal digit `d`.
pub open spec fn digit_char(d: nat) -> char {
    seq!['0', '1', '2', '3', '4', '5', '6', '7', '8', '9'][d as int]
}

/// `n` in decimal, without leading zeros.
pub open spec fn decimal(n: nat) -> Seq<char>
    decreases n,
{
    if n < 10 {
        seq![digit_char(n)]
    } else {
        decimal(n / 10).push(digit_char(n % 10))
    }
}

/// `n` in decimal with a comma before each group of three digits counted
/// from the right.
pub open spec fn grouped(n: nat) -> Seq<char>
    decreases n,
{
    if n < 1000 {
        decimal(n)
    } else {
        grouped(n / 1000) + seq![
            ',',
            digit_char((n % 1000) / 100),
            digit_char((n % 100) / 10),
            digit_char(n % 10),
        ]
    }
}

/// How an amount of `v` hundredths is written: a sign when negative, the
/// whole part with thousands separators, a point and two decimals.
pub open spec fn amount_text(v: int) -> Seq<char> {
    let m = if v < 0 {
        -v
    } else {
        v
    };
    (if v < 0 {
        seq!['-']
    } else {
        Seq::<char>::empty()
    }) + grouped((m / 100) as nat) + seq!['.', digit_char(((m / 10) % 10) as nat), digit_char((m % 10) as nat)]
}

/// Relies on `separator::Separatable::separated_string` for `u64`, which
/// writes the number in decimal and puts a comma before every group of three
/// digits counted from the right.
#[verifier::external_body]
fn separated(n: u64) -> (r: String)
    ensures
        r@ == grouped(n as nat),
{
    n.separated_string()
}

/// The one-character string of the digit `d`.
fn digit_str(d: u64) -> (r: &'static str)
    requires
        d < 10,
    ensures
        r@ == seq![digit_char(d as nat)],
{
    proof {
        reveal_strlit("0");
        reveal_strlit("1");
        reveal_strlit("2");
        reveal_strlit("3");
        reveal_strlit("4");
        reveal_strlit("5");
        reveal_strlit("6");
        reveal_strlit("7");
        reveal_strlit("8");
        reveal_strlit("9");
    }
    let r = match d {
        0 => "0",
        1 => "1",
        2 => "2",
        3 => "3",
        4 => "4",
        5 => "5",
        6 => "6",
        7 => "7",
        8 => "8",
        _ => "9",
    };
    proof {
        assert(r@ =~= seq![digit_char(d as nat)]);
    }
    r
}

/// Writes an amount of hundredths for display, such as `-1,234.50`.
pub fn format_amount(hundredths: i64) -> (r: String)
    ensures
        r@ == amount_text(hundredths as int),
{
    proof {
        reveal_strlit("-");
        reveal_strlit(".");
    }
    let m: u64 = if hundredths < 0 {
        (-(hundredths as i128)) as u64
    } else {
        hundredths as u64
    };
    let mut out = String::new();
    if hundredths < 0 {
        out.append("-");
    }
    let whole = separated(m / 100);
    out.append(whole.as_str());
    out.append(".");
    out.append(digit_str((m / 10) % 10));
    out.append(digit_str(m % 10));
    proof {
        assert(out@ =~= amount_text(hundredths as int));
    }
    out
}

} // verus!
