//! Fixed-point decimals: a rate or an amount is held as a count of
//! 10^-8 units, read exactly from its decimal text.
use vstd::prelude::*;

verus! {

/// Number of units in one whole: eight fractional digits.
pub const UNIT: u64 = 100_000_000;

/// Largest quantity that the library accepts, so that a signed deal amount
/// and any sum of a side's amounts fit their integer types.
pub const MAX_UNITS: u64 = 0x7fff_ffff_ffff_ffff;

/// Largest exponent magnitude that a decimal text may carry.
pub const EXPONENT_LIMIT: u64 = 32767;

pub open spec fn pow10(n: nat) -> nat
    decreases n,
{
    if n == 0 {
        1
    } else {
        10 * pow10((n - 1) as nat)
    }
}

pub open spec fn is_digit(c: char) -> bool {
    '0' <= c && c <= '9'
}

pub open spec fn digit_value(c: char) -> nat {
    (c as nat - '0' as nat) as nat
}

pub open spec fn all_digits(s: Seq<char>) -> bool {
    forall|i: int| 0 <= i < s.len() ==> is_digit(#[trigger] s[i])
}

/// The number that a run of decimal digits denotes.
pub open spec fn digits_value(s: Seq<char>) -> nat
    decreases s.len(),
{
    if s.len() == 0 {
        0
    } else {
        digits_value(s.drop_last()) * 10 + digit_value(s.last())
    }
}

/// `m / 10^k` when the division is exact.
pub open spec fn exact_shrink(m: nat, k: nat) -> Option<nat>
    decreases k,
{
    if k == 0 {
        Some(m)
    } else if m % 10 == 0 {
        exact_shrink(m / 10, (k - 1) as nat)
    } else {
        None
    }
}

/// The units that `m * 10^e` is, when it is a whole number no larger than
/// `MAX_UNITS`; the one exactness rule for numbers and texts alike.
pub open spec fn units_of_value(m: nat, e: int) -> Option<nat> {
    let v = if e >= 0 {
        Some(m * pow10(e as nat))
    } else {
        exact_shrink(m, (-e) as nat)
    };
    match v {
        Some(x) => if x <= MAX_UNITS {
            Some(x)
        } else {
            None
        },
        None => None,
    }
}

/// The first index from `from` on that does not hold a digit.
pub open spec fn run_end(s: Seq<char>, from: int) -> int
    decreases s.len() - from,
{
    if from < 0 || from >= s.len() || !is_digit(s[from]) {
        if from < 0 { 0 } else { from }
    } else {
        run_end(s, from + 1)
    }
}

/// The units (10^-8) that a decimal text denotes: digits, optionally a dot
/// and more digits (at least one digit in all), optionally `e` or `E`, a
/// sign and the digits of an exponent of at most `EXPONENT_LIMIT`; the
/// value must be a whole number of units no larger than `MAX_UNITS`.
pub open spec fn decimal_units(s: Seq<char>) -> Option<nat> {
    let ia = run_end(s, 0);
    let has_dot = ia < s.len() && s[ia] == '.';
    let ib = if has_dot {
        run_end(s, ia + 1)
    } else {
        ia
    };
    let frac = if has_dot {
        s.subrange(ia + 1, ib)
    } else {
        Seq::empty()
    };
    let digits = s.subrange(0, ia) + frac;
    if digits.len() == 0 {
        None
    } else if ib == s.len() {
        units_of_value(digits_value(digits), 8 - frac.len())
    } else if s[ib] == 'e' || s[ib] == 'E' {
        let signed = ib + 1 < s.len() && (s[ib + 1] == '+' || s[ib + 1] == '-');
        let ic = if signed {
            ib + 2
        } else {
            ib + 1
        };
        let c = s.subrange(ic, s.len() as int);
        if c.len() > 0 && all_digits(c) && digits_value(c) <= EXPONENT_LIMIT {
            let e = if signed && s[ib + 1] == '-' {
                -digits_value(c)
            } else {
                digits_value(c) as int
            };
            units_of_value(digits_value(digits), e - frac.len() + 8)
        } else {
            None
        }
    } else {
        None
    }
}

/// The unsigned integer that a text of digits denotes.
pub open spec fn integer_value(s: Seq<char>) -> Option<nat> {
    if s.len() > 0 && all_digits(s) {
        Some(digits_value(s))
    } else {
        None
    }
}

pub proof fn lemma_pow10_pos(n: nat)
    ensures
        pow10(n) >= 1,
    decreases n,
{
    if n > 0 {
        lemma_pow10_pos((n - 1) as nat);
    }
}

proof fn lemma_digits_value_push(s: Seq<char>, c: char)
    ensures
        digits_value(s.push(c)) == digits_value(s) * 10 + digit_value(c),
{
    assert(s.push(c).drop_last() =~= s);
}

/// A longer run of digits never denotes less.
proof fn lemma_digits_value_prefix(s: Seq<char>, i: int)
    requires
        0 <= i <= s.len(),
    ensures
        digits_value(s.take(i)) <= digits_value(s),
    decreases s.len() - i,
{
    if i < s.len() {
        lemma_digits_value_prefix(s, i + 1);
        assert(s.take(i + 1).drop_last() =~= s.take(i));
    } else {
        assert(s.take(i) =~= s);
    }
}

fn digit_of(c: char) -> (r: u64)
    requires
        is_digit(c),
    ensures
        r == digit_value(c),
{
    (c as u32 - '0' as u32) as u64
}

/// Whether all characters of `s` from `lo` up to `hi` are digits.
fn digits_between(s: &str, lo: usize, hi: usize) -> (r: bool)
    requires
        lo <= hi <= s@.len(),
    ensures
        r == all_digits(s@.subrange(lo as int, hi as int)),
{
    let mut i: usize = lo;
    while i < hi
        invariant
            lo <= i <= hi <= s@.len(),
            all_digits(s@.subrange(lo as int, i as int)),
        decreases hi - i,
    {
        let c = s.get_char(i);
        if !('0' <= c && c <= '9') {
            assert(s@.subrange(lo as int, hi as int)[i - lo] == c);
            return false;
        }
        assert(s@.subrange(lo as int, i as int + 1) =~= s@.subrange(lo as int, i as int).push(c));
        i = i + 1;
    }
    true
}

/// `v * 10^e`, when that is at most `MAX_UNITS`.
fn scale_up(v: u64, e: usize) -> (r: Option<u64>)
    ensures
        r matches Some(w) ==> w == v * pow10(e as nat) && w <= MAX_UNITS,
        r is None ==> v * pow10(e as nat) > MAX_UNITS,
{
    let mut w: u64 = v;
    let mut i: usize = 0;
    assert(pow10(0) == 1);
    while i < e
        invariant
            i <= e,
            w == v * pow10(i as nat),
            w <= MAX_UNITS || (i == 0 && w == v),
        decreases e - i,
    {
        if w > MAX_UNITS / 10 {
            proof {
                lemma_pow10_pos((e - i - 1) as nat);
                lemma_pow10_split(i as nat, (e - i) as nat);
                assert(v * pow10(e as nat) > MAX_UNITS) by (nonlinear_arith)
                    requires
                        w > MAX_UNITS / 10,
                        w == v * pow10(i as nat),
                        pow10(e as nat) == pow10(i as nat) * pow10((e - i) as nat),
                        pow10((e - i) as nat) == 10 * pow10((e - i - 1) as nat),
                        pow10((e - i - 1) as nat) >= 1,
                ;
            }
            return None;
        }
        proof {
            assert(v * pow10((i + 1) as nat) == v * pow10(i as nat) * 10) by (nonlinear_arith)
                requires
                    pow10((i + 1) as nat) == 10 * pow10(i as nat),
            ;
        }
        w = w * 10;
        i = i + 1;
    }
    if w > MAX_UNITS {
        return None;
    }
    Some(w)
}

pub proof fn lemma_pow10_split(a: nat, b: nat)
    ensures
        pow10(a + b) == pow10(a) * pow10(b),
    decreases b,
{
    if b > 0 {
        lemma_pow10_split(a, (b - 1) as nat);
        assert((a + b - 1) as nat == a + (b - 1) as nat);
        assert(pow10(a + b) == 10 * pow10((a + b - 1) as nat));
        assert(pow10(a + b) == pow10(a) * pow10(b)) by (nonlinear_arith)
            requires
                pow10(b) == 10 * pow10((b - 1) as nat),
                pow10(a + b) == 10 * pow10((a + b - 1) as nat),
                pow10((a + b - 1) as nat) == pow10(a) * pow10((b - 1) as nat),
        ;
    } else {
        assert(pow10(0) == 1);
        assert(a + b == a);
    }
}

/// A run of digits as its significant part and its count of trailing
/// zeros: `digits_value(s) == m * 10^z`, with `m` not a multiple of ten.
pub open spec fn strip(s: Seq<char>) -> (nat, nat)
    decreases s.len(),
{
    if s.len() == 0 {
        (0, 0)
    } else {
        let (m, z) = strip(s.drop_last());
        let d = digit_value(s.last());
        if d == 0 {
            if m == 0 {
                (0, 0)
            } else {
                (m, z + 1)
            }
        } else {
            (m * pow10(z + 1) + d, 0)
        }
    }
}

proof fn lemma_strip(s: Seq<char>)
    requires
        all_digits(s),
    ensures
        digits_value(s) == strip(s).0 * pow10(strip(s).1),
        strip(s).0 == 0 ==> strip(s).1 == 0,
        strip(s).0 == 0 || strip(s).0 % 10 != 0,
    decreases s.len(),
{
    if s.len() == 0 {
        assert(pow10(0) == 1);
    } else {
        let x = s.drop_last();
        assert forall|i: int| 0 <= i < x.len() implies is_digit(#[trigger] x[i]) by {
            assert(x[i] == s[i]);
        }
        lemma_strip(x);
        let (m, z) = strip(x);
        let d = digit_value(s.last());
        assert(is_digit(s[s.len() - 1]));
        assert(d <= 9);
        assert(pow10(z + 1) == 10 * pow10(z));
        assert(digits_value(s) == digits_value(x) * 10 + d);
        if d == 0 {
            if m == 0 {
                assert(pow10(0) == 1);
                assert(digits_value(x) == 0) by (nonlinear_arith)
                    requires
                        digits_value(x) == m * pow10(z),
                        m == 0,
                ;
                assert(strip(s) == (0nat, 0nat));
            } else {
                assert(strip(s) == (m, (z + 1) as nat));
                assert(digits_value(s) == m * pow10(z + 1)) by (nonlinear_arith)
                    requires
                        digits_value(s) == digits_value(x) * 10 + d,
                        d == 0,
                        digits_value(x) == m * pow10(z),
                        pow10(z + 1) == 10 * pow10(z),
                ;
            }
        } else {
            assert(pow10(0) == 1);
            let w = m * pow10(z + 1) + d;
            assert(w == digits_value(s)) by (nonlinear_arith)
                requires
                    w == m * pow10(z + 1) + d,
                    digits_value(s) == digits_value(x) * 10 + d,
                    digits_value(x) == m * pow10(z),
                    pow10(z + 1) == 10 * pow10(z),
            ;
            let big = m * pow10(z);
            assert(w == big * 10 + d) by (nonlinear_arith)
                requires
                    w == m * pow10(z + 1) + d,
                    pow10(z + 1) == 10 * pow10(z),
                    big == m * pow10(z),
            ;
            assert((big * 10 + d) % 10 == d) by (nonlinear_arith)
                requires
                    big >= 0,
                    0 < d <= 9,
            ;
            assert(strip(s) == (w, 0nat));
            assert(w * pow10(0) == w);
        }
    }
}

/// Appending digits never makes the significant part smaller.
proof fn lemma_strip_grows(x: Seq<char>, y: Seq<char>)
    ensures
        strip(x + y).0 >= strip(x).0,
    decreases y.len(),
{
    if y.len() == 0 {
        assert(x + y =~= x);
    } else {
        let y0 = y.drop_last();
        lemma_strip_grows(x, y0);
        assert((x + y).drop_last() =~= x + y0);
        let (m, z) = strip(x + y0);
        lemma_pow10_pos(z + 1);
        assert(m * pow10(z + 1) >= m) by (nonlinear_arith)
            requires
                pow10(z + 1) >= 1,
        ;
    }
}

proof fn lemma_shrink_zero(k: nat)
    ensures
        exact_shrink(0, k) == Some(0nat),
    decreases k,
{
    if k > 0 {
        lemma_shrink_zero((k - 1) as nat);
    }
}

proof fn lemma_shrink_scaled(m: nat, z: nat, k: nat)
    ensures
        exact_shrink(m * pow10(z), k) == if k <= z {
            Some((m * pow10((z - k) as nat)) as nat)
        } else {
            exact_shrink(m, (k - z) as nat)
        },
    decreases k,
{
    if k == 0 {
    } else if z == 0 {
        assert(pow10(z) == 1);
        assert(m * pow10(z) == m) by (nonlinear_arith)
            requires
                pow10(z) == 1,
        ;
    } else {
        let x = m * pow10((z - 1) as nat);
        assert(pow10(z) == 10 * pow10((z - 1) as nat));
        assert(m * pow10(z) == x * 10 && (x * 10) % 10 == 0 && (x * 10) / 10 == x) by (nonlinear_arith)
            requires
                x == m * pow10((z - 1) as nat),
                pow10(z) == 10 * pow10((z - 1) as nat),
        ;
        lemma_shrink_scaled(m, (z - 1) as nat, (k - 1) as nat);
        assert(((z - 1) as nat - (k - 1) as nat) == (z - k));
    }
}

/// A value's units do not depend on how it is split into digits and an
/// exponent: `m * 10^z` at exponent `e` reads as `m` at exponent `e + z`.
pub proof fn law_units_of_same_value(m: nat, z: nat, e: int)
    ensures
        units_of_value(m * pow10(z), e) == units_of_value(m, e + z),
{
    if e >= 0 {
        lemma_pow10_split(z, e as nat);
        assert(m * pow10(z) * pow10(e as nat) == m * pow10((e + z) as nat)) by (nonlinear_arith)
            requires
                pow10(z + e as nat) == pow10(z) * pow10(e as nat),
                (e + z) as nat == z + e as nat,
        ;
    } else {
        lemma_shrink_scaled(m, z, (-e) as nat);
        if (-e) as nat <= z {
            assert((z - (-e) as nat) as nat == (e + z) as nat);
        } else {
            assert(((-e) as nat - z) as nat == (-(e + z)) as nat);
        }
    }
}

proof fn lemma_pow10_big(k: nat)
    requires
        k >= 19,
    ensures
        pow10(k) > MAX_UNITS,
{
    reveal_with_fuel(pow10, 20);
    assert(pow10(19) == 10_000_000_000_000_000_000);
    lemma_pow10_split(19, (k - 19) as nat);
    lemma_pow10_pos((k - 19) as nat);
    assert(pow10(19) * pow10((k - 19) as nat) >= pow10(19)) by (nonlinear_arith)
        requires
            pow10((k - 19) as nat) >= 1,
    ;
}

/// The units of a significant part `m` (not a multiple of ten) at exponent `k`.
proof fn lemma_units_significant(m: nat, k: int)
    requires
        m > 0,
        m % 10 != 0,
    ensures
        k < 0 ==> units_of_value(m, k) is None,
        k >= 19 ==> units_of_value(m, k) is None,
        m > MAX_UNITS ==> units_of_value(m, k) is None,
{
    if k >= 0 {
        lemma_pow10_pos(k as nat);
        assert(m * pow10(k as nat) >= m) by (nonlinear_arith)
            requires
                pow10(k as nat) >= 1,
        ;
        if k >= 19 {
            lemma_pow10_big(k as nat);
            assert(m * pow10(k as nat) >= pow10(k as nat)) by (nonlinear_arith)
                requires
                    m >= 1,
            ;
        }
    }
}

/// The first index from `from` on that does not hold a digit.
fn run_exec(s: &str, n: usize, from: usize) -> (r: usize)
    requires
        n == s@.len(),
        from <= n,
    ensures
        r == run_end(s@, from as int),
        from <= r <= n,
        all_digits(s@.subrange(from as int, r as int)),
{
    let mut i = from;
    while i < n && '0' <= s.get_char(i) && s.get_char(i) <= '9'
        invariant
            from <= i <= n,
            n == s@.len(),
            run_end(s@, i as int) == run_end(s@, from as int),
            all_digits(s@.subrange(from as int, i as int)),
        decreases n - i,
    {
        assert(s@.subrange(from as int, i as int + 1) =~= s@.subrange(from as int, i as int).push(
            s@[i as int],
        ));
        i = i + 1;
    }
    i
}

/// Extends `(m, z) == strip(pre)` by the digits of `s` from `lo` up to `hi`;
/// `None` once the significant part passes `MAX_UNITS`.
fn strip_digits(s: &str, lo: usize, hi: usize, m: u64, z: usize, Ghost(pre): Ghost<Seq<char>>) -> (r:
    Option<(u64, usize)>)
    requires
        lo <= hi <= s@.len(),
        all_digits(s@.subrange(lo as int, hi as int)),
        strip(pre) == (m as nat, z as nat),
        m <= MAX_UNITS,
        z <= pre.len() <= lo,
    ensures
        match r {
            Some((m2, z2)) => strip(pre + s@.subrange(lo as int, hi as int)) == (m2 as nat, z2 as nat)
                && m2 <= MAX_UNITS && z2 <= pre.len() + (hi - lo),
            None => strip(pre + s@.subrange(lo as int, hi as int)).0 > MAX_UNITS,
        },
{
    let ghost whole = pre + s@.subrange(lo as int, hi as int);
    let mut i = lo;
    let mut m = m;
    let mut z = z;
    while i < hi
        invariant
            lo <= i <= hi <= s@.len(),
            all_digits(s@.subrange(lo as int, hi as int)),
            whole == pre + s@.subrange(lo as int, hi as int),
            pre.len() <= lo,
            strip(pre + s@.subrange(lo as int, i as int)) == (m as nat, z as nat),
            m <= MAX_UNITS,
            z <= pre.len() + (i - lo),
        decreases hi - i,
    {
        let c = s.get_char(i);
        assert(s@.subrange(lo as int, hi as int)[i - lo] == c);
        let d = digit_of(c);
        let ghost cur = pre + s@.subrange(lo as int, i as int);
        let ghost next = pre + s@.subrange(lo as int, i as int + 1);
        assert(next =~= cur.push(c));
        assert(next.drop_last() =~= cur);
        proof {
            assert(whole =~= next + s@.subrange(i as int + 1, hi as int));
            lemma_strip_grows(next, s@.subrange(i as int + 1, hi as int));
        }
        if d == 0 {
            if m != 0 {
                z = z + 1;
            }
        } else {
            match scale_up(m, z + 1) {
                None => {
                    return None;
                },
                Some(w) => {
                    if w > MAX_UNITS - d {
                        return None;
                    }
                    m = w + d;
                    z = 0;
                },
            }
        }
        i = i + 1;
    }
    Some((m, z))
}

/// Reads a decimal text such as `0.12906425` or `1.5e-3` as a count of
/// 10^-8 units.
#[verifier::rlimit(80)]
pub fn parse_units(s: &str) -> (r: Option<u64>)
    ensures
        r matches Some(v) ==> decimal_units(s@) == Some(v as nat),
        r is None ==> decimal_units(s@) is None,
{
    let n = s.unicode_len();
    let ghost sv = s@;
    let ia = run_exec(s, n, 0);
    let has_dot = ia < n && s.get_char(ia) == '.';
    let ib = if has_dot {
        run_exec(s, n, ia + 1)
    } else {
        ia
    };
    let frac_len: usize = if has_dot {
        ib - ia - 1
    } else {
        0
    };
    let ghost frac = if has_dot {
        sv.subrange(ia + 1, ib as int)
    } else {
        Seq::<char>::empty()
    };
    let ghost digits = sv.subrange(0, ia as int) + frac;
    assert(frac.len() == frac_len);
    if ia + frac_len == 0 {
        return None;
    }
    // the exponent
    let mut e: i128 = 0;
    if ib < n {
        let c0 = s.get_char(ib);
        if c0 != 'e' && c0 != 'E' {
            return None;
        }
        let signed = ib + 1 < n && (s.get_char(ib + 1) == '+' || s.get_char(ib + 1) == '-');
        let ic = if signed {
            ib + 2
        } else {
            ib + 1
        };
        if ic >= n {
            assert(sv.subrange(ic as int, n as int).len() == 0);
            return None;
        }
        let c = s.substring_char(ic, n);
        let ev = match parse_integer(c) {
            Some(v) => v,
            None => {
                return None;
            },
        };
        if ev > EXPONENT_LIMIT {
            return None;
        }
        e = if signed && s.get_char(ib + 1) == '-' {
            -(ev as i128)
        } else {
            ev as i128
        };
    }
    let k0: i128 = e - frac_len as i128 + 8;
    proof {
        assert(all_digits(digits)) by {
            assert forall|i: int| 0 <= i < digits.len() implies is_digit(#[trigger] digits[i]) by {
                if i < ia {
                    assert(digits[i] == sv.subrange(0, ia as int)[i]);
                } else {
                    assert(digits[i] == frac[i - ia]);
                }
            }
        }
        assert(Seq::<char>::empty() + sv.subrange(0, ia as int) =~= sv.subrange(0, ia as int));
        assert(strip(Seq::<char>::empty()) == (0nat, 0nat));
        lemma_strip(digits);
        law_units_of_same_value(strip(digits).0, strip(digits).1, k0 as int);
        if has_dot {
            assert(sv.subrange(0, ia as int) + sv.subrange(ia + 1, ib as int) =~= digits);
        } else {
            assert(sv.subrange(0, ia as int) + Seq::<char>::empty() =~= digits);
        }
    }
    let first = strip_digits(s, 0, ia, 0, 0, Ghost(Seq::empty()));
    let (m, z) = match first {
        None => {
            proof {
                lemma_strip_grows(sv.subrange(0, ia as int), frac);
                lemma_units_significant(strip(digits).0, k0 + strip(digits).1);
            }
            return None;
        },
        Some((m1, z1)) => {
            if has_dot {
                match strip_digits(s, ia + 1, ib, m1, z1, Ghost(sv.subrange(0, ia as int))) {
                    None => {
                        proof {
                            lemma_units_significant(strip(digits).0, k0 + strip(digits).1);
                        }
                        return None;
                    },
                    Some(p) => p,
                }
            } else {
                (m1, z1)
            }
        },
    };
    assert(strip(digits) == (m as nat, z as nat));
    if m == 0 {
        proof {
            assert(digits_value(digits) == 0) by (nonlinear_arith)
                requires
                    digits_value(digits) == strip(digits).0 * pow10(strip(digits).1),
                    strip(digits).0 == 0,
            ;
            lemma_pow10_pos(8);
            if k0 < 0 {
                lemma_shrink_zero((-k0) as nat);
            }
        }
        return Some(0);
    }
    let k: i128 = k0 + z as i128;
    proof {
        lemma_units_significant(m as nat, k as int);
    }
    if k < 0 || k >= 19 {
        return None;
    }
    scale_up(m, k as usize)
}

/// Reads a text of decimal digits as an unsigned integer.
pub fn parse_integer(s: &str) -> (r: Option<u64>)
    ensures
        r matches Some(v) ==> integer_value(s@) == Some(v as nat),
        r is None ==> integer_value(s@) is None || integer_value(s@).unwrap() > u64::MAX,
{
    let n = s.unicode_len();
    if n == 0 || !digits_between(s, 0, n) {
        proof {
            assert(s@.subrange(0, n as int) =~= s@);
        }
        return None;
    }
    let mut v: u64 = 0;
    let mut i: usize = 0;
    proof {
        assert(s@.subrange(0, n as int) =~= s@);
        assert(s@.take(0) =~= Seq::<char>::empty());
    }
    while i < n
        invariant
            i <= n,
            n == s@.len(),
            all_digits(s@),
            v == digits_value(s@.take(i as int)),
        decreases n - i,
    {
        let c = s.get_char(i);
        let d = digit_of(c);
        proof {
            assert(s@.take(i as int + 1) =~= s@.take(i as int).push(c));
            lemma_digits_value_push(s@.take(i as int), c);
        }
        if v > (u64::MAX - d) / 10 {
            proof {
                assert(v * 10 + d > u64::MAX) by (nonlinear_arith)
                    requires
                        v > (u64::MAX - d) / 10,
                        d <= 9,
                ;
                lemma_digits_value_prefix(s@, i as int + 1);
            }
            return None;
        }
        assert(v * 10 + d <= u64::MAX) by (nonlinear_arith)
            requires
                v <= (u64::MAX - d) / 10,
                d <= 9,
        ;
        v = v * 10 + d;
        i = i + 1;
    }
    proof {
        assert(s@.take(n as int) =~= s@);
    }
    Some(v)
}

/// A decimal text denotes at most `MAX_UNITS` units.
pub proof fn lemma_units_bound(s: Seq<char>)
    ensures
        decimal_units(s) matches Some(v) ==> v <= MAX_UNITS,
{
}

} // verus!
