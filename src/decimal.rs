use vstd::prelude::*;

verus! {

/// The most digits a decimal number may carry; ten to this power still fits in a `u64`.
pub const MAX_DIGITS: u64 = 19;

/// The most digits its exponent may carry.
pub const MAX_EXPONENT_DIGITS: u64 = 9;

/// A decimal number as written: `mantissa * 10^(exponent - scale)`, negated when `negative`
/// holds; `scale` counts the digits after the point.
#[derive(Clone, Copy, Debug, PartialEq, Eq, Structural)]
pub struct Decimal {
    pub negative: bool,
    pub mantissa: u64,
    pub scale: u32,
    pub exponent: i32,
}

pub open spec fn is_exp_mark(c: char) -> bool {
    c == 'e' || c == 'E'
}

/// The index of the first exponent mark in `s`, or its length where there is none.
pub open spec fn first_exp(s: Seq<char>) -> nat
    decreases s.len(),
{
    if s.len() == 0 || is_exp_mark(s[0]) {
        0
    } else {
        1 + first_exp(s.drop_first())
    }
}

/// The exponent that `e` writes: an optional sign, then one to `MAX_EXPONENT_DIGITS` digits.
pub open spec fn exponent_of(e: Seq<char>) -> Option<int> {
    let digits = if e.len() > 0 && (e[0] == '-' || e[0] == '+') {
        e.subrange(1, e.len() as int)
    } else {
        e
    };
    match scan_digits(digits) {
        Some((v, _k, dot, n)) => if !dot && 1 <= n <= MAX_EXPONENT_DIGITS {
            Some(if e.len() > 0 && e[0] == '-' { -v } else { v as int })
        } else {
            None
        },
        None => None,
    }
}

pub open spec fn is_digit(c: char) -> bool {
    '0' <= c && c <= '9'
}

pub open spec fn digit_value(c: char) -> nat {
    (c as nat - '0' as nat) as nat
}

pub open spec fn pow10(n: nat) -> nat
    decreases n,
{
    if n == 0 {
        1
    } else {
        10 * pow10((n - 1) as nat)
    }
}

/// Reading the digits of `s` left to right, with at most one decimal point among them:
/// the value of all digits read, how many came after the point, whether a point was seen,
/// and how many digits were read. `None` when `s` holds anything else.
pub open spec fn scan_digits(s: Seq<char>) -> Option<(nat, nat, bool, nat)>
    decreases s.len(),
{
    if s.len() == 0 {
        Some((0, 0, false, 0))
    } else {
        match scan_digits(s.drop_last()) {
            None => None,
            Some((m, k, dot, n)) => {
                let c = s.last();
                if is_digit(c) {
                    Some((m * 10 + digit_value(c), if dot { k + 1 } else { k }, dot, n + 1))
                } else if c == '.' && !dot {
                    Some((m, k, true, n))
                } else {
                    None
                }
            },
        }
    }
}

/// The number that `s` writes: an optional sign, then digits with at most one decimal
/// point among them, at least one digit and at most `MAX_DIGITS` of them, then optionally
/// an exponent mark (`e` or `E`) and the exponent.
pub open spec fn decimal_of(s: Seq<char>) -> Option<Decimal> {
    let negative = s.len() > 0 && s[0] == '-';
    let body = if s.len() > 0 && (s[0] == '-' || s[0] == '+') {
        s.subrange(1, s.len() as int)
    } else {
        s
    };
    let p = first_exp(body) as int;
    match scan_digits(body.subrange(0, p)) {
        Some((m, k, _dot, n)) => if !(1 <= n <= MAX_DIGITS) {
            None
        } else if p == body.len() {
            Some(Decimal { negative, mantissa: m as u64, scale: k as u32, exponent: 0 })
        } else {
            match exponent_of(body.subrange(p + 1, body.len() as int)) {
                Some(x) => Some(
                    Decimal { negative, mantissa: m as u64, scale: k as u32, exponent: x as i32 },
                ),
                None => None,
            }
        },
        None => None,
    }
}

proof fn lemma_scan_bounds(s: Seq<char>)
    requires
        scan_digits(s) is Some,
    ensures
        ({
            let (m, k, _dot, n) = scan_digits(s).unwrap();
            m < pow10(n) && k <= n
        }),
    decreases s.len(),
{
    if s.len() > 0 {
        lemma_scan_bounds(s.drop_last());
    }
}

proof fn lemma_pow10_monotone(a: nat, b: nat)
    requires
        a <= b,
    ensures
        pow10(a) <= pow10(b),
    decreases b,
{
    if a < b {
        lemma_pow10_monotone(a, (b - 1) as nat);
    }
}

proof fn lemma_first_exp(s: Seq<char>, i: nat)
    requires
        i <= s.len(),
        forall|j: int| 0 <= j < i ==> !is_exp_mark(#[trigger] s[j]),
        i == s.len() || is_exp_mark(s[i as int]),
    ensures
        first_exp(s) == i,
    decreases i,
{
    if i > 0 {
        let t = s.drop_first();
        assert forall|j: int| 0 <= j < i - 1 implies !is_exp_mark(#[trigger] t[j]) by {
            assert(t[j] == s[j + 1]);
        }
        if i < s.len() {
            assert(t[i - 1] == s[i as int]);
        }
        lemma_first_exp(t, (i - 1) as nat);
    }
}

/// Reads the digits and points of `s` from `from` up to `to` as `scan_digits` does, where
/// they hold at most `max` digits.
fn scan_range(s: &Vec<char>, from: usize, to: usize, max: u64) -> (r: Option<
    (u64, u32, bool, u64),
>)
    requires
        from <= to <= s@.len(),
        max <= MAX_DIGITS,
    ensures
        ({
            let sub = s@.subrange(from as int, to as int);
            match r {
                Some((m, k, dot, n)) => scan_digits(sub) == Some(
                    (m as nat, k as nat, dot, n as nat),
                ) && n <= max && m < pow10(n as nat),
                None => scan_digits(sub) is None || scan_digits(sub).unwrap().3 > max,
            }
        }),
{
    let ghost body = s@.subrange(from as int, to as int);
    let mut i = from;
    let mut m: u64 = 0;
    let mut k: u32 = 0;
    let mut dot = false;
    let mut n: u64 = 0;
    assert(body.subrange(0, 0) =~= Seq::<char>::empty());
    while i < to
        invariant
            from <= i <= to <= s@.len(),
            body == s@.subrange(from as int, to as int),
            max <= MAX_DIGITS,
            n <= max,
            m < pow10(n as nat),
            scan_digits(body.subrange(0, i - from)) == Some(
                (m as nat, k as nat, dot, n as nat),
            ),
        decreases to - i,
    {
        let c = s[i];
        let ghost pre = body.subrange(0, i - from);
        let ghost next = body.subrange(0, i + 1 - from);
        assert(next.drop_last() =~= pre);
        assert(next.last() == c);
        proof {
            lemma_scan_bounds(pre);
            lemma_pow10_monotone(n as nat, MAX_DIGITS as nat);
            reveal_with_fuel(pow10, 20);
            assert(pow10(19) == 10000000000000000000nat);
        }
        if '0' <= c && c <= '9' {
            if n == max {
                proof {
                    if scan_digits(body) is Some {
                        lemma_scan_prefix_count(body, (i + 1 - from) as nat);
                    }
                }
                return None;
            }
            let d = (c as u32 - '0' as u32) as u64;
            assert(m * 10 + d < pow10((n + 1) as nat)) by (nonlinear_arith)
                requires
                    m < pow10(n as nat),
                    d <= 9,
                    pow10((n + 1) as nat) == 10 * pow10(n as nat),
            ;
            proof {
                lemma_pow10_monotone((n + 1) as nat, MAX_DIGITS as nat);
            }
            m = m * 10 + d;
            if dot {
                k = k + 1;
            }
            n = n + 1;
        } else if c == '.' && !dot {
            dot = true;
        } else {
            proof {
                lemma_scan_none_extends(body, (i + 1 - from) as nat);
            }
            return None;
        }
        i = i + 1;
    }
    assert(body.subrange(0, to - from) =~= body);
    Some((m, k, dot, n))
}

/// Reads a decimal number from `s`, as `decimal_of` describes.
pub fn parse_decimal(s: &Vec<char>) -> (r: Option<Decimal>)
    ensures
        r == decimal_of(s@),
{
    let len = s.len();
    let mut start: usize = 0;
    let mut negative = false;
    if len > 0 && (s[0] == '-' || s[0] == '+') {
        negative = s[0] == '-';
        start = 1;
    }
    let ghost body = s@.subrange(start as int, len as int);
    assert(body =~= (if len > 0 && (s@[0] == '-' || s@[0] == '+') {
        s@.subrange(1, len as int)
    } else {
        s@
    }));
    let mut p = start;
    while p < len && s[p] != 'e' && s[p] != 'E'
        invariant
            start <= p <= len == s@.len(),
            forall|j: int| start <= j < p ==> !is_exp_mark(#[trigger] s@[j]),
        decreases len - p,
    {
        p = p + 1;
    }
    proof {
        assert forall|j: int| 0 <= j < p - start implies !is_exp_mark(#[trigger] body[j]) by {
            assert(body[j] == s@[start + j]);
        }
        if p < len {
            assert(body[p - start] == s@[p as int]);
        }
        lemma_first_exp(body, (p - start) as nat);
        assert(body.subrange(0, p - start) =~= s@.subrange(start as int, p as int));
        if p < len {
            assert(body.subrange(p - start + 1, body.len() as int) =~= s@.subrange(
                p + 1,
                len as int,
            ));
        }
    }
    let (m, k, _dot, n) = match scan_range(s, start, p, MAX_DIGITS) {
        Some(v) => v,
        None => {
            return None;
        },
    };
    if n == 0 {
        return None;
    }
    if p == len {
        return Some(Decimal { negative, mantissa: m, scale: k, exponent: 0 });
    }
    match parse_exponent(s, p + 1) {
        Some(x) => Some(Decimal { negative, mantissa: m, scale: k, exponent: x }),
        None => None,
    }
}

/// Reads the exponent that `s` writes from `e0` to its end, as `exponent_of` describes.
fn parse_exponent(s: &Vec<char>, e0: usize) -> (r: Option<i32>)
    requires
        e0 <= s@.len(),
    ensures
        match r {
            Some(x) => exponent_of(s@.subrange(e0 as int, s@.len() as int)) == Some(x as int),
            None => exponent_of(s@.subrange(e0 as int, s@.len() as int)) is None,
        },
{
    let len = s.len();
    let mut es = e0;
    let mut eneg = false;
    if es < len && (s[es] == '-' || s[es] == '+') {
        eneg = s[es] == '-';
        es = es + 1;
    }
    let ghost e = s@.subrange(e0 as int, len as int);
    assert(s@.subrange(es as int, len as int) =~= (if e.len() > 0 && (e[0] == '-' || e[0]
        == '+') {
        e.subrange(1, e.len() as int)
    } else {
        e
    }));
    match scan_range(s, es, len, MAX_EXPONENT_DIGITS) {
        None => None,
        Some((v, _k, dot, en)) => {
            if dot || en == 0 {
                return None;
            }
            proof {
                lemma_pow10_monotone(en as nat, MAX_EXPONENT_DIGITS as nat);
                reveal_with_fuel(pow10, 10);
                assert(pow10(9) == 1000000000nat);
            }
            let x: i32 = if eneg {
                -(v as i32)
            } else {
                v as i32
            };
            Some(x)
        },
    }
}

/// Once a prefix of `s` is not a run of digits and points, no longer prefix is either.
proof fn lemma_scan_none_extends(s: Seq<char>, p: nat)
    requires
        p <= s.len(),
        scan_digits(s.subrange(0, p as int)) is None,
    ensures
        scan_digits(s) is None,
    decreases s.len() - p,
{
    if p < s.len() {
        let next = s.subrange(0, p + 1 as int);
        assert(next.drop_last() =~= s.subrange(0, p as int));
        lemma_scan_none_extends(s, p + 1);
    } else {
        assert(s.subrange(0, p as int) =~= s);
    }
}

/// The digit count only grows along the prefixes of `s`.
proof fn lemma_scan_prefix_count(s: Seq<char>, p: nat)
    requires
        p <= s.len(),
        scan_digits(s) is Some,
    ensures
        scan_digits(s.subrange(0, p as int)) is Some,
        scan_digits(s.subrange(0, p as int)).unwrap().3 <= scan_digits(s).unwrap().3,
    decreases s.len() - p,
{
    if p < s.len() {
        lemma_scan_prefix_count(s, p + 1);
        let next = s.subrange(0, p + 1 as int);
        assert(next.drop_last() =~= s.subrange(0, p as int));
    } else {
        assert(s.subrange(0, p as int) =~= s);
    }
}

} // verus!
