use vstd::prelude::*;
use vstd::arithmetic::div_mod::{lemma_div_is_ordered, lemma_div_multiples_vanish};
use crate::text::chars_of;
pub use crate::text::remove_comments_from_source;

verus! {

/// Fixed-point one: fractions of a whole (such as how far a transition has
/// run) are held as millionths.
pub const FRACTION_ONE: u64 = 1_000_000;

/// Positions, sizes and durations read from decimal text are held as
/// thousandths (of a logical pixel, of a second); this is the largest whole
/// part that such a decimal may have.
pub const DECIMAL_WHOLE_LIMIT: u64 = 1_000_000_000_000_000;

/// The easing curves of a transition.
#[derive(Copy, Clone, Debug, PartialEq, Eq, Structural)]
pub enum EasingFunction {
    CubicEaseIn,
    CubicEaseOut,
    QuadraticEaseIn,
    QuadraticEaseOut,
    Linear,
}

pub open spec fn spec_lerp(a: int, b: int, t: int) -> int {
    ((FRACTION_ONE - t) * a + t * b) / (FRACTION_ONE as int)
}

pub open spec fn spec_quadratic_ease_in(a: int, b: int, t: int) -> int {
    b * t * t / (FRACTION_ONE * FRACTION_ONE) + a
}

pub open spec fn spec_quadratic_ease_out(a: int, b: int, t: int) -> int {
    b * t * (2 * FRACTION_ONE - t) / (FRACTION_ONE * FRACTION_ONE) + a
}

pub open spec fn spec_cubic_ease_in(a: int, b: int, t: int) -> int {
    b * t * t * t / (FRACTION_ONE * FRACTION_ONE * FRACTION_ONE) + a
}

pub open spec fn spec_cubic_ease_out(a: int, b: int, t: int) -> int {
    let s = FRACTION_ONE as int;
    b * (s * s * s - (s - t) * (s - t) * (s - t)) / (s * s * s) + a
}

impl EasingFunction {
    /// The curve at fraction `t` (in millionths), from `a`: the linear curve
    /// runs from `a` to `b`, the others add `b` times the curve to `a`.
    pub open spec fn spec_evaluate(self, a: int, b: int, t: int) -> int {
        match self {
            EasingFunction::CubicEaseIn => spec_cubic_ease_in(a, b, t),
            EasingFunction::CubicEaseOut => spec_cubic_ease_out(a, b, t),
            EasingFunction::QuadraticEaseIn => spec_quadratic_ease_in(a, b, t),
            EasingFunction::QuadraticEaseOut => spec_quadratic_ease_out(a, b, t),
            EasingFunction::Linear => spec_lerp(a, b, t),
        }
    }

    pub fn evaluate(&self, a: u32, b: u32, t: u64) -> (r: u64)
        requires
            t <= FRACTION_ONE,
        ensures
            r as int == self.spec_evaluate(a as int, b as int, t as int),
    {
        match *self {
            EasingFunction::CubicEaseIn => cubic_ease_in(a, b, t),
            EasingFunction::CubicEaseOut => cubic_ease_out(a, b, t),
            EasingFunction::QuadraticEaseIn => quadratic_ease_in(a, b, t),
            EasingFunction::QuadraticEaseOut => quadratic_ease_out(a, b, t),
            EasingFunction::Linear => lerp(a, b, t),
        }
    }
}

proof fn lemma_div_within(x: int, y: int, k: int)
    requires
        0 <= x <= y * k,
        0 < k,
    ensures
        0 <= x / k <= y,
{
    lemma_div_is_ordered(x, y * k, k);
    lemma_div_is_ordered(0, x, k);
    lemma_div_multiples_vanish(y, k);
    assert(k * y == y * k) by (nonlinear_arith);
}

pub fn cubic_ease_in(a: u32, b: u32, t: u64) -> (r: u64)
    requires
        t <= FRACTION_ONE,
    ensures
        r as int == spec_cubic_ease_in(a as int, b as int, t as int),
{
    let s: u128 = FRACTION_ONE as u128;
    let bt = b as u128;
    let tt = t as u128;
    proof {
        assert(bt * tt <= 0xffff_ffffu128 * s && bt * tt * tt <= 0xffff_ffffu128 * s * s && bt * tt * tt * tt <= 0xffff_ffffu128 * s * s * s)
            by (nonlinear_arith)
            requires
                tt <= s,
                bt <= 0xffff_ffffu128,
        ;
        assert(0 <= bt * tt * tt * tt <= bt * (s * s * s)) by (nonlinear_arith)
            requires
                tt <= s,
                0 <= bt,
                0 <= tt,
        ;
        assert(bt * (s * s * s) <= 0xffff_ffffu128 * (s * s * s)) by (nonlinear_arith)
            requires
                bt <= 0xffff_ffffu128,
                s > 0,
        ;
        lemma_div_within(bt * tt * tt * tt, bt as int, s * s * s);
    }
    let q = bt * tt * tt * tt / (s * s * s);
    (q + a as u128) as u64
}

pub fn cubic_ease_out(a: u32, b: u32, t: u64) -> (r: u64)
    requires
        t <= FRACTION_ONE,
    ensures
        r as int == spec_cubic_ease_out(a as int, b as int, t as int),
{
    let s: u128 = FRACTION_ONE as u128;
    let bt = b as u128;
    let u = s - t as u128;
    proof {
        assert(u * u <= s * s) by (nonlinear_arith)
            requires
                0 <= u <= s,
        ;
        assert(0 <= u * u * u <= s * s * s) by (nonlinear_arith)
            requires
                0 <= u <= s,
        ;
        let c = s * s * s - u * u * u;
        assert(0 <= bt * c <= bt * (s * s * s)) by (nonlinear_arith)
            requires
                0 <= c <= s * s * s,
                0 <= bt,
        ;
        assert(bt * (s * s * s) <= 0xffff_ffffu128 * (s * s * s)) by (nonlinear_arith)
            requires
                bt <= 0xffff_ffffu128,
                s > 0,
        ;
        lemma_div_within(bt * c, bt as int, s * s * s);
    }
    let q = bt * (s * s * s - u * u * u) / (s * s * s);
    (q + a as u128) as u64
}

pub fn quadratic_ease_in(a: u32, b: u32, t: u64) -> (r: u64)
    requires
        t <= FRACTION_ONE,
    ensures
        r as int == spec_quadratic_ease_in(a as int, b as int, t as int),
{
    let s: u128 = FRACTION_ONE as u128;
    let bt = b as u128;
    let tt = t as u128;
    proof {
        assert(bt * tt <= 0xffff_ffffu128 * s && bt * tt * tt <= 0xffff_ffffu128 * s * s) by (nonlinear_arith)
            requires
                tt <= s,
                bt <= 0xffff_ffffu128,
        ;
        assert(0 <= bt * tt * tt <= bt * (s * s)) by (nonlinear_arith)
            requires
                tt <= s,
                0 <= bt,
                0 <= tt,
        ;
        assert(bt * (s * s) <= 0xffff_ffffu128 * (s * s)) by (nonlinear_arith)
            requires
                bt <= 0xffff_ffffu128,
                s > 0,
        ;
        lemma_div_within(bt * tt * tt, bt as int, s * s);
    }
    let q = bt * tt * tt / (s * s);
    (q + a as u128) as u64
}

pub fn quadratic_ease_out(a: u32, b: u32, t: u64) -> (r: u64)
    requires
        t <= FRACTION_ONE,
    ensures
        r as int == spec_quadratic_ease_out(a as int, b as int, t as int),
{
    let s: u128 = FRACTION_ONE as u128;
    let bt = b as u128;
    let tt = t as u128;
    proof {
        assert(bt * tt <= 0xffff_ffffu128 * s && bt * tt * (2 * s - tt) <= 0xffff_ffffu128 * s * (2 * s)) by (nonlinear_arith)
            requires
                tt <= s,
                bt <= 0xffff_ffffu128,
        ;
        assert(0 <= tt * (2 * s - tt) <= s * s) by (nonlinear_arith)
            requires
                0 <= tt <= s,
        ;
        assert(0 <= bt * tt * (2 * s - tt) <= bt * (s * s)) by (nonlinear_arith)
            requires
                0 <= tt * (2 * s - tt) <= s * s,
                0 <= bt,
        ;
        assert(bt * (s * s) <= 0xffff_ffffu128 * (s * s)) by (nonlinear_arith)
            requires
                bt <= 0xffff_ffffu128,
                s > 0,
        ;
        lemma_div_within(bt * tt * (2 * s - tt), bt as int, s * s);
    }
    let q = bt * tt * (2 * s - tt) / (s * s);
    (q + a as u128) as u64
}

pub fn lerp(a: u32, b: u32, t: u64) -> (r: u64)
    requires
        t <= FRACTION_ONE,
    ensures
        r as int == spec_lerp(a as int, b as int, t as int),
{
    let s: u128 = FRACTION_ONE as u128;
    let at = a as u128;
    let bt = b as u128;
    let tt = t as u128;
    let m: u128 = if at > bt { at } else { bt };
    proof {
        assert(0 <= (s - tt) * at + tt * bt <= m * s) by (nonlinear_arith)
            requires
                0 <= tt <= s,
                0 <= at <= m,
                0 <= bt <= m,
        ;
        assert(m * s <= 0xffff_ffffu128 * s) by (nonlinear_arith)
            requires
                m <= 0xffff_ffffu128,
                s > 0,
        ;
        lemma_div_within((s - tt) * at + tt * bt, m as int, s as int);
    }
    (((s - tt) * at + tt * bt) / s) as u64
}

/// `input` held within `[min, max]`: `min` below it, else `max` above it.
pub fn clamp(input: i64, min: i64, max: i64) -> (r: i64)
    ensures
        r == (if input < min {
            min
        } else if input > max {
            max
        } else {
            input
        }),
{
    if input < min {
        min
    } else if input > max {
        max
    } else {
        input
    }
}

pub open spec fn is_digit(c: char) -> bool {
    '0' <= c && c <= '9'
}

pub open spec fn all_digits(s: Seq<char>) -> bool {
    forall|i: int| 0 <= i < s.len() ==> is_digit(#[trigger] s[i])
}

/// The number that a string of decimal digits denotes.
pub open spec fn dec_value(s: Seq<char>) -> int
    decreases s.len(),
{
    if s.len() == 0 {
        0
    } else {
        dec_value(s.drop_last()) * 10 + (s.last() as int - '0' as int)
    }
}

proof fn lemma_dec_value_grows(s: Seq<char>, k: int)
    requires
        all_digits(s),
        0 <= k <= s.len(),
    ensures
        0 <= dec_value(s.subrange(0, k)) <= dec_value(s),
    decreases s.len(),
{
    if s.len() > 0 {
        let p = s.drop_last();
        assert(all_digits(p)) by {
            assert forall|i: int| 0 <= i < p.len() implies is_digit(#[trigger] p[i]) by {
                assert(p[i] == s[i]);
            }
        }
        assert(is_digit(s[s.len() - 1]));
        if k < s.len() {
            assert(p.subrange(0, k) == s.subrange(0, k));
            lemma_dec_value_grows(p, k);
        } else {
            assert(s.subrange(0, k) == s);
            lemma_dec_value_grows(p, 0);
        }
    } else {
        assert(s.subrange(0, k) == s);
    }
}

/// The digits `s` as an unsigned number, when it is at most `limit`.
fn digits_value(s: &Vec<char>, from: usize, to: usize, limit: u64) -> (r: Option<u64>)
    requires
        from <= to <= s@.len(),
        limit < DECIMAL_WHOLE_LIMIT * 10,
    ensures
        match r {
            Some(v) => all_digits(s@.subrange(from as int, to as int)) && v as int == dec_value(
                s@.subrange(from as int, to as int),
            ) && v <= limit,
            None => !all_digits(s@.subrange(from as int, to as int)) || dec_value(
                s@.subrange(from as int, to as int),
            ) > limit,
        },
{
    let ghost w = s@.subrange(from as int, to as int);
    let mut v: u64 = 0;
    let mut i = from;
    while i < to
        invariant
            from <= i <= to <= s@.len(),
            w == s@.subrange(from as int, to as int),
            limit < DECIMAL_WHOLE_LIMIT * 10,
            v <= limit,
            all_digits(s@.subrange(from as int, i as int)),
            v as int == dec_value(s@.subrange(from as int, i as int)),
        decreases to - i,
    {
        let c = s[i];
        let ghost pre = s@.subrange(from as int, i as int);
        let ghost next = s@.subrange(from as int, i + 1);
        assert(next.drop_last() == pre);
        assert(w[i - from] == c);
        if !('0' <= c && c <= '9') {
            return None;
        }
        let d = (c as u32 - '0' as u32) as u64;
        assert(all_digits(next)) by {
            assert forall|k: int| 0 <= k < next.len() implies is_digit(#[trigger] next[k]) by {
                if k < pre.len() {
                    assert(next[k] == pre[k]);
                }
            }
        }
        let nv: u128 = v as u128 * 10 + d as u128;
        if nv > limit as u128 {
            proof {
                assert(next.len() == i + 1 - from);
                if all_digits(w) {
                    lemma_dec_value_grows(w, i + 1 - from);
                    assert(w.subrange(0, i + 1 - from) == next);
                }
            }
            return None;
        }
        v = nv as u64;
        i = i + 1;
    }
    Some(v)
}

fn all_digits_in(s: &Vec<char>, from: usize, to: usize) -> (r: bool)
    requires
        from <= to <= s@.len(),
    ensures
        r == all_digits(s@.subrange(from as int, to as int)),
{
    let mut i = from;
    while i < to
        invariant
            from <= i <= to <= s@.len(),
            forall|k: int| from <= k < i ==> is_digit(#[trigger] s@[k]),
        decreases to - i,
    {
        if !('0' <= s[i] && s[i] <= '9') {
            assert(s@.subrange(from as int, to as int)[i - from] == s@[i as int]);
            return false;
        }
        i = i + 1;
    }
    assert forall|k: int| 0 <= k < to - from implies is_digit(#[trigger] s@.subrange(from as int, to as int)[k]) by {
        assert(s@.subrange(from as int, to as int)[k] == s@[from + k]);
    }
    true
}

/// The first index at or after `i` that holds `c`, or the length.
pub open spec fn index_of(s: Seq<char>, c: char, i: int) -> int
    decreases s.len() - i,
{
    if i >= s.len() {
        s.len() as int
    } else if s[i] == c {
        i
    } else {
        index_of(s, c, i + 1)
    }
}

pub proof fn lemma_index_of(s: Seq<char>, c: char, i: int)
    requires
        0 <= i <= s.len(),
    ensures
        i <= index_of(s, c, i) <= s.len(),
        index_of(s, c, i) < s.len() ==> s[index_of(s, c, i)] == c,
    decreases s.len() - i,
{
    if i < s.len() && s[i] != c {
        lemma_index_of(s, c, i + 1);
    }
}

pub(crate) fn find_char(s: &Vec<char>, c: char, from: usize) -> (r: usize)
    requires
        from <= s@.len(),
    ensures
        r == index_of(s@, c, from as int),
{
    let mut k = from;
    while k < s.len() && s[k] != c
        invariant
            from <= k <= s@.len(),
            index_of(s@, c, from as int) == index_of(s@, c, k as int),
        decreases s@.len() - k,
    {
        k = k + 1;
    }
    k
}

/// An unsigned number in decimal, with an optional `+`, when it is at most `limit`.
pub open spec fn unsigned_value(s: Seq<char>, limit: int) -> Option<int> {
    let b = if s.len() > 0 && s[0] == '+' {
        s.subrange(1, s.len() as int)
    } else {
        s
    };
    if b.len() > 0 && all_digits(b) && dec_value(b) <= limit {
        Some(dec_value(b))
    } else {
        None
    }
}

/// Reads an unsigned number no larger than `limit`.
pub fn parse_unsigned(s: &str, limit: u32) -> (r: Option<u32>)
    ensures
        match r {
            Some(v) => unsigned_value(s@, limit as int) == Some(v as int),
            None => unsigned_value(s@, limit as int) is None,
        },
{
    let v = chars_of(s);
    let from: usize = if v.len() > 0 && v[0] == '+' {
        1
    } else {
        0
    };
    assert(v@.subrange(0, v@.len() as int) == v@);
    if from == v.len() {
        return None;
    }
    match digits_value(&v, from, v.len(), limit as u64) {
        Some(x) => Some(x as u32),
        None => None,
    }
}

pub open spec fn sign_len(s: Seq<char>) -> int {
    if s.len() > 0 && (s[0] == '-' || s[0] == '+') {
        1
    } else {
        0
    }
}

/// The value of at most three fraction digits, in thousandths.
pub open spec fn fraction_thousandths(f: Seq<char>) -> int {
    if f.len() == 0 {
        0
    } else if f.len() == 1 {
        dec_value(f) * 100
    } else if f.len() == 2 {
        dec_value(f) * 10
    } else {
        dec_value(f)
    }
}

/// A decimal number (optional sign, digits, optional `.` and digits, at
/// least one digit) in thousandths, fraction digits past the third dropped;
/// `None` for other text or a whole part over `DECIMAL_WHOLE_LIMIT`.
pub open spec fn decimal_thousandths(s: Seq<char>) -> Option<int> {
    let b = s.subrange(sign_len(s), s.len() as int);
    let d = index_of(b, '.', 0);
    let whole = b.subrange(0, d);
    let frac = if d < b.len() {
        b.subrange(d + 1, b.len() as int)
    } else {
        seq![]
    };
    if all_digits(whole) && all_digits(frac) && whole.len() + frac.len() > 0 && dec_value(whole)
        <= DECIMAL_WHOLE_LIMIT {
        let f3 = if frac.len() <= 3 {
            frac
        } else {
            frac.subrange(0, 3)
        };
        let m = dec_value(whole) * 1000 + fraction_thousandths(f3);
        Some(
            if s.len() > 0 && s[0] == '-' {
                -m
            } else {
                m
            },
        )
    } else {
        None
    }
}

/// Reads a decimal number into thousandths.
pub fn parse_thousandths(s: &str) -> (r: Option<i64>)
    ensures
        match r {
            Some(v) => decimal_thousandths(s@) == Some(v as int),
            None => decimal_thousandths(s@) is None,
        },
{
    let v = chars_of(s);
    let n = v.len();
    let start: usize = if n > 0 && (v[0] == '-' || v[0] == '+') {
        1
    } else {
        0
    };
    let ghost b = v@.subrange(start as int, n as int);
    proof {
        lemma_index_of(v@, '.', start as int);
        lemma_index_of(b, '.', 0);
        lemma_index_of_shift(v@, '.', start as int, 0);
    }
    let dot = find_char(&v, '.', start);
    assert(dot - start == index_of(b, '.', 0));
    let frac_from: usize = if dot < n {
        dot + 1
    } else {
        n
    };
    let ghost whole = b.subrange(0, dot - start);
    let ghost frac = if dot < n {
        b.subrange(dot - start + 1, b.len() as int)
    } else {
        seq![]
    };
    assert(whole == v@.subrange(start as int, dot as int));
    assert(frac == v@.subrange(frac_from as int, n as int));
    if dot - start + (n - frac_from) == 0 {
        return None;
    }
    if !all_digits_in(&v, frac_from, n) {
        return None;
    }
    let w = match digits_value(&v, start, dot, DECIMAL_WHOLE_LIMIT) {
        Some(w) => w,
        None => {
            return None;
        },
    };
    let flen = n - frac_from;
    let f_to = if flen <= 3 {
        n
    } else {
        frac_from + 3
    };
    let ghost f3 = v@.subrange(frac_from as int, f_to as int);
    assert(f3 == (if frac.len() <= 3 {
        frac
    } else {
        frac.subrange(0, 3)
    }));
    assert(all_digits(f3)) by {
        assert forall|k: int| 0 <= k < f3.len() implies is_digit(#[trigger] f3[k]) by {
            assert(f3[k] == frac[k]);
        }
    }
    let f = match digits_value(&v, frac_from, f_to, 999) {
        Some(f) => f,
        None => {
            proof {
                lemma_dec_value_bound3(f3);
            }
            return None;
        },
    };
    proof {
        lemma_dec_value_bound3(f3);
    }
    let ft: u64 = if f_to - frac_from == 1 {
        f * 100
    } else if f_to - frac_from == 2 {
        f * 10
    } else {
        f
    };
    let m = (w * 1000 + ft) as i64;
    if n > 0 && v[0] == '-' {
        Some(-m)
    } else {
        Some(m)
    }
}

proof fn lemma_index_of_shift(s: Seq<char>, c: char, start: int, i: int)
    requires
        0 <= start <= s.len(),
        0 <= i <= s.len() - start,
    ensures
        index_of(s, c, start + i) - start == index_of(s.subrange(start, s.len() as int), c, i),
    decreases s.len() - start - i,
{
    if start + i < s.len() {
        assert(s.subrange(start, s.len() as int)[i] == s[start + i]);
        if s[start + i] != c {
            lemma_index_of_shift(s, c, start, i + 1);
        }
    }
}

proof fn lemma_dec_value_bound3(f: Seq<char>)
    requires
        all_digits(f),
        f.len() <= 3,
    ensures
        0 <= dec_value(f),
        f.len() == 1 ==> dec_value(f) <= 9,
        f.len() == 2 ==> dec_value(f) <= 99,
        dec_value(f) <= 999,
    decreases f.len(),
{
    if f.len() > 0 {
        let p = f.drop_last();
        assert(all_digits(p)) by {
            assert forall|i: int| 0 <= i < p.len() implies is_digit(#[trigger] p[i]) by {
                assert(p[i] == f[i]);
            }
        }
        assert(is_digit(f[f.len() - 1]));
        lemma_dec_value_bound3(p);
    }
}

} // verus!
