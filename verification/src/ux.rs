//! Conversion of raw metric values into short, human-friendly strings:
//! decimal rendering, kilobyte/duration formatting, and display-width-aware
//! truncation.

use unicode_width::UnicodeWidthChar;
use vstd::prelude::*;
use vstd::string::*;

verus! {

/// Largest value the hundred-rounding still fits for: the greatest
/// multiple of 100 that a `u64` can hold.
pub const ROUND_HUNDRED_MAX: u64 = 18446744073709551600;

/// The decimal digit character for `d` in `0..10`.
pub open spec fn dec_digit(d: int) -> char {
    if d == 0 {
        '0'
    } else if d == 1 {
        '1'
    } else if d == 2 {
        '2'
    } else if d == 3 {
        '3'
    } else if d == 4 {
        '4'
    } else if d == 5 {
        '5'
    } else if d == 6 {
        '6'
    } else if d == 7 {
        '7'
    } else if d == 8 {
        '8'
    } else {
        '9'
    }
}

/// The usual decimal rendering of `n`, most significant digit first,
/// without leading zeros (except for `n == 0` itself).
pub open spec fn spec_dec(n: nat) -> Seq<char>
    decreases n,
{
    if n < 10 {
        seq![dec_digit(n as int)]
    } else {
        spec_dec(n / 10).push(dec_digit((n % 10) as int))
    }
}

fn dec_digit_char(d: u64) -> (c: char)
    requires
        d < 10,
    ensures
        c == dec_digit(d as int),
{
    if d == 0 {
        '0'
    } else if d == 1 {
        '1'
    } else if d == 2 {
        '2'
    } else if d == 3 {
        '3'
    } else if d == 4 {
        '4'
    } else if d == 5 {
        '5'
    } else if d == 6 {
        '6'
    } else if d == 7 {
        '7'
    } else if d == 8 {
        '8'
    } else {
        '9'
    }
}

/// Relies on `String::push` of std: appends one character at the end.
#[verifier::external_body]
pub fn push_char(s: &mut String, c: char)
    ensures
        final(s)@ == old(s)@.push(c),
{
    s.push(c);
}

/// Appends the decimal rendering of `n` to `s`.
pub fn push_dec(s: &mut String, n: u64)
    ensures
        final(s)@ == old(s)@ + spec_dec(n as nat),
{
    let mut digits: Vec<char> = Vec::new();
    let mut m: u64 = n;
    while m >= 10
        invariant
            spec_dec(n as nat) == spec_dec(m as nat) + digits@.reverse(),
        decreases m,
    {
        let ghost pre = digits@;
        digits.push(dec_digit_char(m % 10));
        proof {
            assert(digits@.reverse() =~= seq![dec_digit((m % 10) as int)] + pre.reverse());
            assert(spec_dec(m as nat) + pre.reverse() =~= spec_dec((m as nat) / 10) + (seq![
                dec_digit((m % 10) as int),
            ] + pre.reverse()));
        }
        m = m / 10;
    }
    let ghost pre = digits@;
    digits.push(dec_digit_char(m));
    proof {
        assert(digits@.reverse() =~= seq![dec_digit(m as int)] + pre.reverse());
        assert(digits@.reverse() =~= spec_dec(n as nat));
    }
    let total: usize = digits.len();
    let mut j: usize = 0;
    while j < total
        invariant
            total == digits@.len(),
            j <= total,
            digits@.reverse() == spec_dec(n as nat),
            s@ == old(s)@ + spec_dec(n as nat).subrange(0, j as int),
        decreases total - j,
    {
        push_char(s, digits[total - 1 - j]);
        proof {
            assert(spec_dec(n as nat).subrange(0, j as int + 1) =~= spec_dec(n as nat).subrange(
                0,
                j as int,
            ).push(digits@.reverse()[j as int]));
        }
        j = j + 1;
    }
    proof {
        assert(spec_dec(n as nat).subrange(0, total as int) =~= spec_dec(n as nat));
    }
}

/// The smallest multiple of 100 that is at least `v`.
pub open spec fn spec_round_to_hundred(v: u64) -> int {
    if v % 100 == 0 {
        v as int
    } else {
        (v / 100 + 1) * 100
    }
}

/// Rounds `v` up to the nearest multiple of 100.
pub fn round_to_hundred(v: u64) -> (r: u64)
    requires
        v <= ROUND_HUNDRED_MAX,
    ensures
        r == spec_round_to_hundred(v),
        r % 100 == 0,
        r >= v,
        r < v + 100,
{
    if v % 100 == 0 {
        return v;
    }
    let h = v / 100 + 1;
    h * 100
}

/// `1024` raised to `e`: the scale factors of bucket rounding.
pub open spec fn pow1024(e: nat) -> nat
    decreases e,
{
    if e == 0 {
        1
    } else {
        1024 * pow1024((e - 1) as nat)
    }
}

/// The concrete powers of 1024 that a `u64` scale factor can reach.
pub proof fn lemma_pow1024_vals()
    ensures
        pow1024(0) == 1,
        pow1024(1) == 1024,
        pow1024(2) == 0x100000,
        pow1024(3) == 0x40000000,
        pow1024(4) == 0x10000000000,
        pow1024(5) == 0x4000000000000,
        pow1024(6) == 0x1000000000000000,
        pow1024(7) == 0x400000000000000000,
{
    reveal_with_fuel(pow1024, 8);
}

/// Every power of 1024 is positive.
pub proof fn lemma_pow1024_pos(e: nat)
    ensures
        pow1024(e) >= 1,
    decreases e,
{
    if e > 0 {
        lemma_pow1024_pos((e - 1) as nat);
    }
}

/// Powers of 1024 grow with the exponent, by a factor of 1024 per step.
pub proof fn lemma_pow1024_increases(e1: nat, e2: nat)
    requires
        e1 <= e2,
    ensures
        pow1024(e1) <= pow1024(e2),
        e1 < e2 ==> 1024 * pow1024(e1) <= pow1024(e2),
        pow1024(e1) >= 1,
    decreases e2,
{
    lemma_pow1024_pos(e1);
    if e1 < e2 {
        lemma_pow1024_increases(e1, (e2 - 1) as nat);
    }
}

/// One step of bucket rounding: divide by 1024 and, when rounding up,
/// compensate for a lost remainder.
pub open spec fn short_round_step(v: nat, down: bool) -> nat {
    v / 1024 + if !down && v % 1024 != 0 {
        1nat
    } else {
        0nat
    }
}

/// The repeated division of `v` into a bucket digit below 1024, with the
/// accumulated scale factor.
pub open spec fn spec_short_round_loop(v: nat, coef: nat, down: bool) -> (nat, nat)
    decreases v,
{
    if v < 1024 {
        (v, coef)
    } else {
        spec_short_round_loop(short_round_step(v, down), coef * 1024, down)
    }
}

/// Bucket rounding of `val` as `(digit, scale)` with `digit * scale` the
/// rounded value: values below 1024 stay exact, larger ones are divided by
/// 1024 until the digit drops below 1024, rounding down or up as asked.
pub open spec fn spec_short_round(val: nat, down: bool) -> (nat, nat) {
    if val < 1024 {
        (val, 1)
    } else {
        spec_short_round_loop(short_round_step(val, down), 1024, down)
    }
}

/// Rounds `val` to a short human-readable bucket: the returned pair is the
/// rounded digit and the power-of-1024 scale it applies to. Rounding down
/// yields `digit * scale <= val`; rounding up yields `digit * scale >= val`,
/// and overshoots `val` by less than one scale unit.
pub fn short_round(val: u64, down: bool) -> (r: (u64, u64))
    ensures
        (r.0 as nat, r.1 as nat) == spec_short_round(val as nat, down),
        down ==> r.0 as nat * r.1 as nat <= val as nat,
        !down ==> val as nat <= r.0 as nat * r.1 as nat,
        !down ==> (r.0 as nat * r.1 as nat) < val as nat + r.1 as nat,
        val < 1024 ==> r == (val, 1u64),
        val >= 1024 ==> 1 <= r.0 < 1024 && r.1 >= 1024,
        r.1 <= 0x1000000000000000,
        exists|k: nat| r.1 as nat == pow1024(k),
{
    if val < 1024 {
        proof {
            lemma_pow1024_vals();
        }
        return (val, 1);
    }
    let mut coef: u64 = 1024;
    let delta: u64 = if val % 1024 == 0 {
        0
    } else {
        1
    };
    let mut v: u64 = val / 1024;
    if !down && delta != 0 {
        v = v + 1;
    }
    let ghost mut e: nat = 1;
    proof {
        lemma_pow1024_vals();
        assert(v as nat == short_round_step(val as nat, down));
        assert(v >= 1);
        if down {
            assert(v as nat * 1024 <= val as nat) by (nonlinear_arith)
                requires
                    v as nat == (val as nat) / 1024,
                    val >= 1024,
            ;
        } else {
            assert(val as nat <= v as nat * 1024 && (v as nat * 1024) < val as nat + 1024)
                by (nonlinear_arith)
                requires
                    v as nat == (val as nat) / 1024 + if val as nat % 1024 != 0 {
                        1nat
                    } else {
                        0nat
                    },
                    val >= 1024,
            ;
        }
    }
    while v >= 1024
        invariant
            spec_short_round(val as nat, down) == spec_short_round_loop(
                v as nat,
                coef as nat,
                down,
            ),
            coef as nat == pow1024(e),
            1 <= e,
            1 <= v,
            coef >= 1024,
            down ==> v as nat * coef as nat <= val as nat,
            !down ==> val as nat <= v as nat * coef as nat && (v as nat * coef as nat) < val as nat
                + coef as nat,
        decreases v,
    {
        proof {
            // The loop can only continue while the scale is at most 1024^5,
            // so multiplying it by 1024 stays within u64.
            lemma_pow1024_vals();
            if e >= 7 {
                lemma_pow1024_increases(7, e);
                assert(false);
            }
            if e == 6 {
                assert(v as nat * coef as nat >= 1024 * pow1024(6)) by (nonlinear_arith)
                    requires
                        v >= 1024,
                        coef as nat >= pow1024(6),
                ;
                assert(false);
            }
            lemma_pow1024_increases(e, 5);
        }
        let ghost vpre = v as nat;
        let ghost cpre = coef as nat;
        coef = coef * 1024;
        let d: u64 = if v % 1024 == 0 {
            0
        } else {
            1
        };
        v = v / 1024;
        if !down {
            v = v + d;
        }
        proof {
            e = e + 1;
            assert(v as nat == short_round_step(vpre, down));
            if down {
                assert(v as nat * (cpre * 1024) <= vpre * cpre) by (nonlinear_arith)
                    requires
                        vpre >= 1024,
                        cpre >= 1,
                        v as nat == vpre / 1024,
                ;
            } else {
                let q = vpre / 1024;
                let rem = vpre % 1024;
                vstd::arithmetic::div_mod::lemma_fundamental_div_mod(vpre as int, 1024);
                assert(val as nat <= v as nat * (cpre * 1024) && (v as nat * (cpre * 1024))
                    < val as nat + cpre * 1024) by (nonlinear_arith)
                    requires
                        vpre == 1024 * q + rem,
                        0 <= rem < 1024,
                        cpre >= 1,
                        val as nat <= vpre * cpre,
                        (vpre * cpre) < val as nat + cpre,
                        v as nat == q + if rem != 0 {
                            1nat
                        } else {
                            0nat
                        },
                ;
            }
        }
    }
    proof {
        lemma_pow1024_vals();
        if e >= 7 {
            lemma_pow1024_increases(7, e);
            assert(false);
        }
        lemma_pow1024_increases(e, 6);
        assert(coef as nat == pow1024(e));
    }
    (v, coef)
}

/// The unit letter for scale index `k`: kilobytes at index -1 are written
/// directly, so index 0 is mega, up to peta at index 3.
pub open spec fn unit_char(k: int) -> char {
    if k == 0 {
        'M'
    } else if k == 1 {
        'G'
    } else if k == 2 {
        'T'
    } else {
        'P'
    }
}

fn unit_char_exec(k: usize) -> (c: char)
    requires
        k < 4,
    ensures
        c == unit_char(k as int),
{
    if k == 0 {
        'M'
    } else if k == 1 {
        'G'
    } else if k == 2 {
        'T'
    } else {
        'P'
    }
}

/// The overflow marker shown when a value exceeds every supported unit.
pub open spec fn bang5() -> Seq<char> {
    seq!['!', '!', '!', '!', '!']
}

/// The memory rendering once `k` halvings by 1024 have been applied:
/// the integral number of units when it fits in three digits, else another
/// division, giving up after peta.
pub open spec fn spec_mem_loop(v: nat, k: nat) -> Seq<char>
    decreases 4 - k,
{
    if k >= 4 {
        bang5()
    } else if v < 1024 {
        spec_dec(v).push(unit_char(k as int))
    } else {
        spec_mem_loop(v / 1024, k + 1)
    }
}

/// A kilobyte count as at most four characters: plain kilobytes below 1024,
/// else whole mega/giga/tera/petabytes, else the overflow marker.
pub open spec fn spec_format_mem(val: nat) -> Seq<char> {
    if val < 1024 {
        spec_dec(val).push('K')
    } else {
        spec_mem_loop(val / 1024, 0)
    }
}

/// Formats a kilobyte count for a fixed-width column.
pub fn format_mem(val: u64) -> (r: String)
    ensures
        r@ == spec_format_mem(val as nat),
{
    let mut s = String::new();
    if val < 1024 {
        push_dec(&mut s, val);
        push_char(&mut s, 'K');
        proof {
            assert(s@ =~= spec_dec(val as nat).push('K'));
        }
        return s;
    }
    let mut v: u64 = val / 1024;
    let mut idx: usize = 0;
    while idx < 4
        invariant
            idx <= 4,
            s@ == Seq::<char>::empty(),
            spec_format_mem(val as nat) == spec_mem_loop(v as nat, idx as nat),
        decreases 4 - idx,
    {
        if v < 1024 {
            push_dec(&mut s, v);
            push_char(&mut s, unit_char_exec(idx));
            proof {
                assert(s@ =~= spec_dec(v as nat).push(unit_char(idx as int)));
            }
            return s;
        }
        v = v / 1024;
        idx = idx + 1;
    }
    push_char(&mut s, '!');
    push_char(&mut s, '!');
    push_char(&mut s, '!');
    push_char(&mut s, '!');
    push_char(&mut s, '!');
    proof {
        assert(s@ =~= bang5());
    }
    s
}

/// `num / den` rounded to the nearest integer, ties going to the even
/// neighbour.
pub open spec fn spec_rhe(num: nat, den: nat) -> nat {
    let q = num / den;
    let r2 = 2 * (num % den);
    if r2 > den {
        q + 1
    } else if r2 < den {
        q
    } else if q % 2 == 1 {
        q + 1
    } else {
        q
    }
}

/// `num / den` rounded to the nearest integer, ties going up.
pub open spec fn spec_rhu(num: nat, den: nat) -> nat {
    num / den + if 2 * (num % den) >= den {
        1nat
    } else {
        0nat
    }
}

fn div_round_half_even(num: u128, den: u128) -> (r: u64)
    requires
        1 <= den <= 0x1000000000000000,
        (num as nat) < den as nat * 0x8000000000000000,
    ensures
        r as nat == spec_rhe(num as nat, den as nat),
{
    let q = num / den;
    let rem = num % den;
    proof {
        assert((num as nat / den as nat) < 0x8000000000000000) by (nonlinear_arith)
            requires
                1 <= den,
                (num as nat) < den as nat * 0x8000000000000000,
        ;
    }
    let r2 = 2 * rem;
    if r2 > den {
        (q + 1) as u64
    } else if r2 < den {
        q as u64
    } else if q % 2 == 1 {
        (q + 1) as u64
    } else {
        q as u64
    }
}

fn div_round_half_up(num: u128, den: u128) -> (r: u64)
    requires
        1 <= den <= 0x1000000000000000,
        (num as nat) < den as nat * 0x8000000000000000,
    ensures
        r as nat == spec_rhu(num as nat, den as nat),
{
    let q = num / den;
    let rem = num % den;
    proof {
        assert((num as nat / den as nat) < 0x8000000000000000) by (nonlinear_arith)
            requires
                1 <= den,
                (num as nat) < den as nat * 0x8000000000000000,
        ;
    }
    let r2 = 2 * rem;
    if r2 >= den {
        (q + 1) as u64
    } else {
        q as u64
    }
}

/// A scaled value with two decimal places: `v / sc` as `d.dd`.
pub open spec fn spec_two_dec(v: nat, sc: nat) -> Seq<char> {
    let t = spec_rhe(v * 100, sc);
    spec_dec(t / 100) + seq!['.', dec_digit(((t / 10) % 10) as int), dec_digit((t % 10) as int)]
}

/// A scaled value with one decimal place: `v / sc` as `dd.d`.
pub open spec fn spec_one_dec(v: nat, sc: nat) -> Seq<char> {
    let t = spec_rhe(v * 10, sc);
    spec_dec(t / 10) + seq!['.', dec_digit((t % 10) as int)]
}

/// The byte rendering at scale index `k`: as many decimal places as leave
/// the number within roughly four characters, moving to the next unit when
/// even the bare integer would not fit, giving up after peta.
pub open spec fn spec_bytes_loop(val: nat, k: nat) -> Seq<char>
    decreases 4 - k,
{
    if k >= 4 {
        bang5()
    } else {
        let sc = pow1024(k + 1);
        if val * 10 < 95 * sc {
            spec_two_dec(val, sc).push(unit_char(k as int))
        } else if val * 10 < 995 * sc {
            spec_one_dec(val, sc).push(unit_char(k as int))
        } else if val * 10 < 9995 * sc {
            spec_dec(spec_rhe(val, sc)).push(unit_char(k as int))
        } else {
            spec_bytes_loop(val, k + 1)
        }
    }
}

/// A kilobyte count as at most five characters, keeping as many decimal
/// places of the scaled value as fit.
pub open spec fn spec_format_bytes(val: nat) -> Seq<char> {
    if val < 1000 {
        spec_dec(val).push('K')
    } else {
        spec_bytes_loop(val, 0)
    }
}

/// Formats a kilobyte count with decimal places where they fit.
pub fn format_bytes(val: u64) -> (r: String)
    ensures
        r@ == spec_format_bytes(val as nat),
{
    let mut s = String::new();
    if val < 1000 {
        push_dec(&mut s, val);
        push_char(&mut s, 'K');
        proof {
            assert(s@ =~= spec_dec(val as nat).push('K'));
        }
        return s;
    }
    let v128 = val as u128;
    let mut sc: u64 = 1024;
    let mut idx: usize = 0;
    proof {
        lemma_pow1024_vals();
    }
    while idx < 4
        invariant
            idx <= 4,
            v128 == val as u128,
            val >= 1000,
            s@ == Seq::<char>::empty(),
            idx < 4 ==> sc as nat == pow1024(idx as nat + 1) && sc <= 0x10000000000,
            spec_format_bytes(val as nat) == spec_bytes_loop(val as nat, idx as nat),
        decreases 4 - idx,
    {
        let sc128 = sc as u128;
        if v128 * 10 < 95 * sc128 {
            let t = div_round_half_even(v128 * 100, sc128);
            push_dec(&mut s, t / 100);
            push_char(&mut s, '.');
            push_char(&mut s, dec_digit_char((t / 10) % 10));
            push_char(&mut s, dec_digit_char(t % 10));
            push_char(&mut s, unit_char_exec(idx));
            proof {
                assert(s@ =~= spec_two_dec(val as nat, sc as nat).push(unit_char(idx as int)));
            }
            return s;
        }
        if v128 * 10 < 995 * sc128 {
            let t = div_round_half_even(v128 * 10, sc128);
            push_dec(&mut s, t / 10);
            push_char(&mut s, '.');
            push_char(&mut s, dec_digit_char(t % 10));
            push_char(&mut s, unit_char_exec(idx));
            proof {
                assert(s@ =~= spec_one_dec(val as nat, sc as nat).push(unit_char(idx as int)));
            }
            return s;
        }
        if v128 * 10 < 9995 * sc128 {
            let t = div_round_half_even(v128, sc128);
            push_dec(&mut s, t);
            push_char(&mut s, unit_char_exec(idx));
            proof {
                assert(s@ =~= spec_dec(spec_rhe(val as nat, sc as nat)).push(
                    unit_char(idx as int),
                ));
            }
            return s;
        }
        proof {
            lemma_pow1024_vals();
        }
        idx = idx + 1;
        if idx < 4 {
            sc = sc * 1024;
        }
    }
    push_char(&mut s, '!');
    push_char(&mut s, '!');
    push_char(&mut s, '!');
    push_char(&mut s, '!');
    push_char(&mut s, '!');
    proof {
        assert(s@ =~= bang5());
    }
    s
}

/// The signed-difference rendering at scale index `k`: the scaled value
/// rounded to a whole number of units, giving up after peta.
pub open spec fn spec_diff_loop(a: nat, k: nat) -> Seq<char>
    decreases 4 - k,
{
    if k >= 4 {
        seq!['!', '!', '!', '!']
    } else {
        let sc = pow1024(k + 1);
        if a * 10 < 9995 * sc {
            spec_dec(spec_rhu(a, sc)).push(unit_char(k as int))
        } else {
            spec_diff_loop(a, k + 1)
        }
    }
}

/// A signed kilobyte difference: zero is plain `0K`, anything else carries
/// its sign and a whole number of the largest unit that keeps it short.
pub open spec fn spec_format_diff(val: int) -> Seq<char> {
    if val == 0 {
        seq!['0', 'K']
    } else {
        let sgn = if val < 0 {
            '-'
        } else {
            '+'
        };
        let a = if val < 0 {
            (-val) as nat
        } else {
            val as nat
        };
        if a < 1000 {
            seq![sgn] + spec_dec(a).push('K')
        } else {
            seq![sgn] + spec_diff_loop(a, 0)
        }
    }
}

/// Formats a signed kilobyte difference.
pub fn format_diff(val: i64) -> (r: String)
    requires
        val > i64::MIN,
    ensures
        r@ == spec_format_diff(val as int),
{
    let mut s = String::new();
    if val == 0 {
        push_char(&mut s, '0');
        push_char(&mut s, 'K');
        proof {
            assert(s@ =~= seq!['0', 'K']);
        }
        return s;
    }
    let sgn: char = if val < 0 {
        '-'
    } else {
        '+'
    };
    let a: u64 = if val < 0 {
        (-val) as u64
    } else {
        val as u64
    };
    push_char(&mut s, sgn);
    if a < 1000 {
        push_dec(&mut s, a);
        push_char(&mut s, 'K');
        proof {
            assert(s@ =~= seq![sgn] + spec_dec(a as nat).push('K'));
        }
        return s;
    }
    let a128 = a as u128;
    let mut sc: u64 = 1024;
    let mut idx: usize = 0;
    proof {
        lemma_pow1024_vals();
    }
    while idx < 4
        invariant
            idx <= 4,
            a128 == a as u128,
            a >= 1000,
            a as int == if val < 0 {
                -(val as int)
            } else {
                val as int
            },
            val != 0,
            sgn == (if val < 0 {
                '-'
            } else {
                '+'
            }),
            s@ == seq![sgn],
            idx < 4 ==> sc as nat == pow1024(idx as nat + 1) && sc <= 0x10000000000,
            spec_format_diff(val as int) == seq![sgn] + spec_diff_loop(a as nat, idx as nat),
        decreases 4 - idx,
    {
        let sc128 = sc as u128;
        if a128 * 10 < 9995 * sc128 {
            let t = div_round_half_up(a128, sc128);
            push_dec(&mut s, t);
            push_char(&mut s, unit_char_exec(idx));
            proof {
                assert(s@ =~= seq![sgn] + spec_dec(spec_rhu(a as nat, sc as nat)).push(
                    unit_char(idx as int),
                ));
            }
            return s;
        }
        proof {
            lemma_pow1024_vals();
        }
        idx = idx + 1;
        if idx < 4 {
            sc = sc * 1024;
        }
    }
    push_char(&mut s, '!');
    push_char(&mut s, '!');
    push_char(&mut s, '!');
    push_char(&mut s, '!');
    proof {
        assert(s@ =~= seq![sgn] + seq!['!', '!', '!', '!']);
    }
    s
}

/// A duration in seconds as its two most significant time units:
/// seconds, then minutes+seconds, hours+minutes, days+hours.
pub open spec fn spec_format_duration(sec: nat) -> Seq<char> {
    if sec < 60 {
        spec_dec(sec).push('s')
    } else {
        let m = sec / 60;
        let s = sec % 60;
        if m < 60 {
            if s == 0 {
                spec_dec(m).push('m')
            } else {
                spec_dec(m).push('m') + spec_dec(s).push('s')
            }
        } else {
            let h = m / 60;
            let m2 = m % 60;
            if h < 24 {
                if m2 == 0 {
                    spec_dec(h).push('h')
                } else {
                    spec_dec(h).push('h') + spec_dec(m2).push('m')
                }
            } else {
                let d = h / 24;
                let h2 = h % 24;
                if h2 == 0 {
                    spec_dec(d).push('d')
                } else {
                    spec_dec(d).push('d') + spec_dec(h2).push('h')
                }
            }
        }
    }
}

/// Formats a duration, given in whole seconds, for the status line.
pub fn format_duration(secs: u64) -> (r: String)
    ensures
        r@ == spec_format_duration(secs as nat),
{
    let mut s = String::new();
    if secs < 60 {
        push_dec(&mut s, secs);
        push_char(&mut s, 's');
        proof {
            assert(s@ =~= spec_dec(secs as nat).push('s'));
        }
        return s;
    }
    let m = secs / 60;
    let sec = secs % 60;
    if m < 60 {
        push_dec(&mut s, m);
        push_char(&mut s, 'm');
        proof {
            assert(s@ =~= spec_dec(m as nat).push('m'));
        }
        if sec != 0 {
            push_dec(&mut s, sec);
            push_char(&mut s, 's');
            proof {
                assert(s@ =~= spec_dec(m as nat).push('m') + spec_dec(sec as nat).push('s'));
            }
        }
        return s;
    }
    let h = m / 60;
    let m2 = m % 60;
    if h < 24 {
        push_dec(&mut s, h);
        push_char(&mut s, 'h');
        proof {
            assert(s@ =~= spec_dec(h as nat).push('h'));
        }
        if m2 != 0 {
            push_dec(&mut s, m2);
            push_char(&mut s, 'm');
            proof {
                assert(s@ =~= spec_dec(h as nat).push('h') + spec_dec(m2 as nat).push('m'));
            }
        }
        return s;
    }
    let days = h / 24;
    let h2 = h % 24;
    push_dec(&mut s, days);
    push_char(&mut s, 'd');
    proof {
        assert(s@ =~= spec_dec(days as nat).push('d'));
    }
    if h2 != 0 {
        push_dec(&mut s, h2);
        push_char(&mut s, 'h');
        proof {
            assert(s@ =~= spec_dec(days as nat).push('d') + spec_dec(h2 as nat).push('h'));
        }
    }
    s
}

/// The number of terminal columns one character occupies, as the
/// unicode-width tables of this build define it.
pub uninterp spec fn char_cell_width(c: char) -> nat;

/// Relies on unicode_width's `UnicodeWidthChar::width`: the number of
/// terminal columns one character occupies, which this version's tables cap
/// at 3; a control character (reported as `None`) counts as 0 here.
#[verifier::external_body]
fn char_width(c: char) -> (r: usize)
    ensures
        r as nat == char_cell_width(c),
        r <= 3,
{
    UnicodeWidthChar::width(c).unwrap_or(0)
}

/// The total display width of a string: the sum of its characters' widths.
pub open spec fn str_width(s: Seq<char>) -> nat
    decreases s.len(),
{
    if s.len() == 0 {
        0
    } else {
        char_cell_width(s[0]) + str_width(s.skip(1))
    }
}

/// Splitting one character off the front of a suffix splits its width.
pub proof fn lemma_str_width_skip(s: Seq<char>, i: int)
    requires
        0 <= i < s.len(),
    ensures
        str_width(s.skip(i)) == char_cell_width(s[i]) + str_width(s.skip(i + 1)),
{
    assert(s.skip(i).skip(1) =~= s.skip(i + 1));
    assert(s.skip(i)[0] == s[i]);
}

/// The first position `>= j` whose suffix, prefixed with an ellipsis of
/// width one, fits in `width` columns; the string's length if none does.
pub open spec fn fade_cut(s: Seq<char>, width: nat, j: nat) -> nat
    decreases s.len() - j,
{
    if j >= s.len() {
        s.len()
    } else if 1 + str_width(s.skip(j as int)) <= width {
        j
    } else {
        fade_cut(s, width, j + 1)
    }
}

proof fn lemma_fade_cut_exact(s: Seq<char>, width: nat, i: nat, j: nat)
    requires
        i <= j <= s.len(),
        forall|k: nat| i <= k < j ==> 1 + str_width(s.skip(k as int)) > width,
        j < s.len() ==> 1 + str_width(s.skip(j as int)) <= width,
    ensures
        fade_cut(s, width, i) == j,
    decreases j - i,
{
    if i < j {
        lemma_fade_cut_exact(s, width, i + 1, j);
    }
}

/// Left truncation to `width` display columns: a string that already fits is
/// returned whole; a longer one keeps its longest suffix that, together with
/// a leading ellipsis, fits.
pub open spec fn spec_fade(s: Seq<char>, width: nat) -> Seq<char> {
    if width == 0 {
        Seq::empty()
    } else if str_width(s) <= width {
        s
    } else {
        seq!['\u{2026}'] + s.skip(fade_cut(s, width, 1) as int)
    }
}

/// The display width of a whole string: the sum of its characters' widths.
pub fn display_width(s: &str) -> (r: usize)
    requires
        s@.len() <= usize::MAX / 4,
    ensures
        r == str_width(s@),
{
    let n = s.unicode_len();
    let mut total: usize = 0;
    let mut i: usize = n;
    while i > 0
        invariant
            i <= n,
            n == s@.len(),
            s@.len() <= usize::MAX / 4,
            total == str_width(s@.skip(i as int)),
            total <= 3 * (n - i),
        decreases i,
    {
        i = i - 1;
        let c = s.get_char(i);
        proof {
            lemma_str_width_skip(s@, i as int);
        }
        let w = char_width(c);
        total = total + w;
    }
    proof {
        assert(s@.skip(0) =~= s@);
    }
    total
}

/// Truncates `s` from the left to at most `width` display columns, marking a
/// removed prefix with an ellipsis.
pub fn fade_str_left(s: &str, width: usize) -> (r: String)
    requires
        s@.len() <= usize::MAX / 4,
    ensures
        r@ == spec_fade(s@, width as nat),
{
    if width == 0 {
        let r = String::new();
        proof {
            assert(r@ =~= spec_fade(s@, width as nat));
        }
        return r;
    }
    let n = s.unicode_len();
    let total: usize = display_width(s);
    if total <= width {
        return s.to_owned();
    }
    let c0 = s.get_char(0);
    proof {
        lemma_str_width_skip(s@, 0);
    }
    let w0 = char_width(c0);
    let mut wj: usize = total - w0;
    let mut j: usize = 1;
    while wj >= width && j < n
        invariant
            1 <= j <= n,
            n == s@.len(),
            width >= 1,
            wj == str_width(s@.skip(j as int)),
            forall|k: nat| 1 <= k < j ==> 1 + str_width(s@.skip(k as int)) > width,
        decreases n - j,
    {
        let c = s.get_char(j);
        proof {
            lemma_str_width_skip(s@, j as int);
        }
        let w = char_width(c);
        wj = wj - w;
        j = j + 1;
    }
    proof {
        if j == n {
            assert(s@.skip(n as int) =~= Seq::<char>::empty());
        }
        lemma_fade_cut_exact(s@, width as nat, 1, j as nat);
    }
    let mut r = String::new();
    push_char(&mut r, '\u{2026}');
    let suffix = s.substring_char(j, n);
    r.append(suffix);
    proof {
        assert(s@.subrange(j as int, n as int) =~= s@.skip(j as int));
        assert(r@ =~= seq!['\u{2026}'] + s@.skip(fade_cut(s@, width as nat, 1) as int));
    }
    r
}

} // verus!
