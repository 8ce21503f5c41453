//! Fixed-point parsing of decimal numerals.
//!
//! Station metadata reports power ratings and coordinates as decimal
//! numerals in strings.  This module parses such numerals into fixed-point
//! integers: a numeral with `k` kept fractional digits becomes its value
//! times `10^k`, truncated.  A numeral is digits, optionally followed by a
//! dot and more digits; coordinates may carry a leading minus sign.

use vstd::prelude::*;
use vstd::string::StrSliceExecFns;

verus! {

/// A decimal digit character.
pub open spec fn is_digit_char(c: char) -> bool {
    48 <= c as u32 <= 57
}

/// Numeric value of a digit character.
pub open spec fn digit_val(c: char) -> int {
    c as u32 - 48
}

/// Every character of `s` is a decimal digit.
pub open spec fn all_digits(s: Seq<char>) -> bool {
    forall|i: int| 0 <= i < s.len() ==> is_digit_char(#[trigger] s[i])
}

/// Value of a run of decimal digits, most significant first.
pub open spec fn digits_value(s: Seq<char>) -> int
    decreases s.len(),
{
    if s.len() == 0 {
        0
    } else {
        10 * digits_value(s.drop_last()) + digit_val(s.last())
    }
}

/// Index of the first occurrence of `c` in `s`, or `s.len()` if absent.
pub open spec fn first_index_of(s: Seq<char>, c: char) -> int
    decreases s.len(),
{
    if s.len() == 0 {
        0
    } else if s[0] == c {
        0
    } else {
        1 + first_index_of(s.drop_first(), c)
    }
}

pub open spec fn pow10(k: nat) -> int
    decreases k,
{
    if k == 0 {
        1
    } else {
        10 * pow10((k - 1) as nat)
    }
}

pub proof fn lemma_pow10_monotone(a: nat, b: nat)
    requires
        a <= b,
    ensures
        1 <= pow10(a) <= pow10(b),
    decreases b,
{
    if b == 0 {
    } else if a == b {
        lemma_pow10_monotone((b - 1) as nat, (b - 1) as nat);
    } else {
        lemma_pow10_monotone(a, (b - 1) as nat);
    }
}

pub proof fn lemma_pow10_add(a: nat, b: nat)
    ensures
        pow10(a) * pow10(b) == pow10(a + b),
    decreases a,
{
    if a == 0 {
    } else {
        lemma_pow10_add((a - 1) as nat, b);
        assert(pow10(a) * pow10(b) == 10 * (pow10((a - 1) as nat) * pow10(b)))
            by (nonlinear_arith)
            requires
                pow10(a) == 10 * pow10((a - 1) as nat),
        ;
    }
}

pub proof fn lemma_first_index_properties(s: Seq<char>, c: char)
    ensures
        0 <= first_index_of(s, c) <= s.len(),
        forall|i: int| 0 <= i < first_index_of(s, c) ==> s[i] != c,
        first_index_of(s, c) < s.len() ==> s[first_index_of(s, c)] == c,
    decreases s.len(),
{
    if s.len() != 0 && s[0] != c {
        lemma_first_index_properties(s.drop_first(), c);
        assert forall|i: int| 0 <= i < first_index_of(s, c) implies s[i] != c by {
            if i > 0 {
                assert(s.drop_first()[i - 1] == s[i]);
            }
        }
        if first_index_of(s, c) < s.len() {
            assert(s.drop_first()[first_index_of(s.drop_first(), c)] == s[first_index_of(s, c)]);
        }
    }
}

pub proof fn lemma_digits_value_nonneg(s: Seq<char>)
    requires
        all_digits(s),
    ensures
        digits_value(s) >= 0,
    decreases s.len(),
{
    if s.len() != 0 {
        assert(all_digits(s.drop_last())) by {
            assert(forall|i: int| 0 <= i < s.len() - 1 ==> s.drop_last()[i] == s[i]);
        }
        lemma_digits_value_nonneg(s.drop_last());
    }
}

pub proof fn lemma_digits_value_bound(s: Seq<char>)
    requires
        all_digits(s),
    ensures
        0 <= digits_value(s) < pow10(s.len()),
    decreases s.len(),
{
    if s.len() != 0 {
        assert(all_digits(s.drop_last())) by {
            assert(forall|i: int| 0 <= i < s.len() - 1 ==> s.drop_last()[i] == s[i]);
        }
        lemma_digits_value_bound(s.drop_last());
    }
}

/// Appending a digit multiplies the value by ten and adds the digit.
pub proof fn lemma_digits_value_step(s: Seq<char>, i: int)
    requires
        0 <= i < s.len(),
    ensures
        digits_value(s.take(i + 1)) == 10 * digits_value(s.take(i)) + digit_val(s[i]),
{
    assert(s.take(i + 1).drop_last() =~= s.take(i));
    assert(s.take(i + 1).last() == s[i]);
}

/// The value of a digit run never falls below the value of any of its prefixes.
pub proof fn lemma_digits_value_prefix(s: Seq<char>, i: int)
    requires
        all_digits(s),
        0 <= i <= s.len(),
    ensures
        digits_value(s.take(i)) <= digits_value(s),
    decreases s.len() - i,
{
    if i == s.len() {
        assert(s.take(i) =~= s);
    } else {
        lemma_digits_value_step(s, i);
        assert(all_digits(s.take(i))) by {
            assert(forall|j: int| 0 <= j < i ==> s.take(i)[j] == s[j]);
        }
        lemma_digits_value_nonneg(s.take(i));
        lemma_digits_value_prefix(s, i + 1);
    }
}

/// Index of the first occurrence of `c` in `s`, or the length of `s`.
pub fn find_char(s: &str, c: char) -> (r: usize)
    ensures
        r == first_index_of(s@, c),
{
    proof {
        lemma_first_index_properties(s@, c);
    }
    let n = s.unicode_len();
    let mut i: usize = 0;
    while i < n
        invariant
            0 <= i <= n == s@.len(),
            forall|j: int| 0 <= j < i ==> s@[j] != c,
            first_index_of(s@, c) >= i,
        decreases n - i,
    {
        let ch = s.get_char(i);
        if ch == c {
            proof {
                lemma_first_index_properties(s@, c);
            }
            return i;
        }
        proof {
            lemma_first_index_properties(s@, c);
        }
        i += 1;
    }
    i
}

/// Whether every character of `s@.subrange(from, to)` is a decimal digit.
pub fn check_digits(s: &str, from: usize, to: usize) -> (r: bool)
    requires
        from <= to <= s@.len(),
    ensures
        r == all_digits(s@.subrange(from as int, to as int)),
{
    let ghost sub = s@.subrange(from as int, to as int);
    let mut i: usize = from;
    while i < to
        invariant
            from <= i <= to <= s@.len(),
            sub == s@.subrange(from as int, to as int),
            forall|j: int| from <= j < i ==> is_digit_char(#[trigger] s@[j]),
        decreases to - i,
    {
        let cv = s.get_char(i) as u32;
        if cv < 48 || cv > 57 {
            proof {
                assert(sub[i - from] == s@[i as int]);
            }
            return false;
        }
        i += 1;
    }
    proof {
        assert forall|j: int| 0 <= j < sub.len() implies is_digit_char(#[trigger] sub[j]) by {
            assert(sub[j] == s@[j + from]);
        }
    }
    true
}

/// Parses `s@.subrange(from, to)` as a non-empty run of decimal digits,
/// returning its value if it fits in a `u64`.
pub fn parse_digits(s: &str, from: usize, to: usize) -> (r: Option<u64>)
    requires
        from <= to <= s@.len(),
    ensures
        ({
            let sub = s@.subrange(from as int, to as int);
            match r {
                Some(v) => from < to && all_digits(sub) && v == digits_value(sub),
                None => !(from < to && all_digits(sub)) || digits_value(sub) > u64::MAX,
            }
        }),
{
    let ghost sub = s@.subrange(from as int, to as int);
    if from >= to {
        return None;
    }
    let mut i: usize = from;
    let mut acc: u64 = 0;
    while i < to
        invariant
            from <= i <= to <= s@.len(),
            sub == s@.subrange(from as int, to as int),
            all_digits(s@.subrange(from as int, i as int)),
            acc == digits_value(s@.subrange(from as int, i as int)),
        decreases to - i,
    {
        let ghost pre = s@.subrange(from as int, i as int);
        let cv = s.get_char(i) as u32;
        if cv < 48 || cv > 57 {
            proof {
                assert(sub[i - from] == s@[i as int]);
            }
            return None;
        }
        let d = (cv - 48) as u64;
        let ghost ext = s@.subrange(from as int, i + 1);
        proof {
            assert(ext.drop_last() =~= pre);
            assert(ext.last() == s@[i as int]);
            assert(digits_value(ext) == 10 * acc + d);
            assert(all_digits(ext)) by {
                assert(forall|j: int| 0 <= j < pre.len() ==> ext[j] == pre[j]);
            }
        }
        let m = match acc.checked_mul(10) {
            Some(m) => m,
            None => {
                proof {
                    overflow_exit(s@, from as int, to as int, i as int, 10 * acc as int + d);
                }
                return None;
            },
        };
        let a2 = match m.checked_add(d) {
            Some(a2) => a2,
            None => {
                proof {
                    overflow_exit(s@, from as int, to as int, i as int, 10 * acc as int + d);
                }
                return None;
            },
        };
        acc = a2;
        i += 1;
    }
    proof {
        assert(s@.subrange(from as int, i as int) =~= sub);
    }
    Some(acc)
}

/// On overflow while scanning digit `i`, the whole run's value (if it is a
/// digit run at all) already exceeds `u64::MAX`.
proof fn overflow_exit(s: Seq<char>, from: int, to: int, i: int, partial: int)
    requires
        0 <= from <= i < to <= s.len(),
        all_digits(s.subrange(from, i)),
        is_digit_char(s[i]),
        digits_value(s.subrange(from, i + 1)) == partial,
        partial > u64::MAX,
    ensures
        !all_digits(s.subrange(from, to)) || digits_value(s.subrange(from, to)) > u64::MAX,
{
    let sub = s.subrange(from, to);
    if all_digits(sub) {
        lemma_digits_value_prefix(sub, i + 1 - from);
        assert(sub.take(i + 1 - from) =~= s.subrange(from, i + 1));
    }
}

/// Fixed-point value of a decimal numeral with `k` kept fractional digits:
/// the numeral's value times `10^k`, fractional digits past the `k`-th
/// truncated.  `None` if `s` is not digits, optionally followed by a dot
/// and more digits.
pub open spec fn scaled_value_of(s: Seq<char>, k: nat) -> Option<int> {
    let d = first_index_of(s, '.');
    if d == s.len() {
        if s.len() > 0 && all_digits(s) {
            Some(pow10(k) * digits_value(s))
        } else {
            None
        }
    } else {
        let ip = s.take(d);
        let fp = s.skip(d + 1);
        if ip.len() > 0 && all_digits(ip) && fp.len() > 0 && all_digits(fp) {
            Some(pow10(k) * digits_value(ip) + frac_scaled(fp, k))
        } else {
            None
        }
    }
}

/// Contribution of the fractional digits `fp`, scaled to `k` digits.
pub open spec fn frac_scaled(fp: Seq<char>, k: nat) -> int {
    if fp.len() <= k {
        digits_value(fp) * pow10((k - fp.len()) as nat)
    } else {
        digits_value(fp.take(k as int))
    }
}

pub proof fn lemma_scaled_value_nonneg(s: Seq<char>, k: nat)
    ensures
        match scaled_value_of(s, k) {
            Some(v) => v >= 0,
            None => true,
        },
{
    let d = first_index_of(s, '.');
    lemma_first_index_properties(s, '.');
    lemma_pow10_monotone(0, k);
    if d == s.len() {
        if s.len() > 0 && all_digits(s) {
            lemma_digits_value_nonneg(s);
            assert(pow10(k) * digits_value(s) >= 0) by (nonlinear_arith)
                requires
                    pow10(k) >= 1,
                    digits_value(s) >= 0,
            ;
        }
    } else {
        let ip = s.take(d);
        let fp = s.skip(d + 1);
        if ip.len() > 0 && all_digits(ip) && fp.len() > 0 && all_digits(fp) {
            lemma_digits_value_nonneg(ip);
            lemma_frac_scaled_bounds(fp, k);
            assert(pow10(k) * digits_value(ip) >= 0) by (nonlinear_arith)
                requires
                    pow10(k) >= 1,
                    digits_value(ip) >= 0,
            ;
        }
    }
}

/// The scaled fractional contribution is a non-negative value below `10^k`.
pub proof fn lemma_frac_scaled_bounds(fp: Seq<char>, k: nat)
    requires
        all_digits(fp),
    ensures
        0 <= frac_scaled(fp, k) < pow10(k),
{
    if fp.len() <= k {
        let r = (k - fp.len()) as nat;
        lemma_digits_value_bound(fp);
        lemma_pow10_add(fp.len(), r);
        lemma_pow10_monotone(0, r);
        assert(digits_value(fp) * pow10(r) < pow10(fp.len()) * pow10(r) && digits_value(fp)
            * pow10(r) >= 0) by (nonlinear_arith)
            requires
                0 <= digits_value(fp) < pow10(fp.len()),
                pow10(r) >= 1,
        ;
    } else {
        let pre = fp.take(k as int);
        assert(all_digits(pre)) by {
            assert(forall|j: int| 0 <= j < k ==> pre[j] == fp[j]);
        }
        lemma_digits_value_bound(pre);
    }
}

/// Ten to the power `k`, as a machine integer.
pub fn pow10_u64(k: u32) -> (r: u64)
    requires
        k <= 9,
    ensures
        r == pow10(k as nat),
{
    let mut r: u64 = 1;
    let mut j: u32 = 0;
    while j < k
        invariant
            0 <= j <= k <= 9,
            r == pow10(j as nat),
        decreases k - j,
    {
        proof {
            lemma_pow10_monotone(j as nat, 8);
            reveal_with_fuel(pow10, 10);
            assert(pow10(8) == 100000000);
        }
        r = r * 10;
        j += 1;
    }
    r
}

/// Parses a decimal numeral into a fixed-point value with `k` kept
/// fractional digits, if it is well formed and the result fits in a `u64`.
pub fn parse_scaled(s: &str, k: u32) -> (r: Option<u64>)
    requires
        1 <= k <= 6,
    ensures
        match scaled_value_of(s@, k as nat) {
            Some(v) => if v <= u64::MAX {
                r == Some(v as u64)
            } else {
                r is None
            },
            None => r is None,
        },
{
    let n = s.unicode_len();
    let d = find_char(s, '.');
    proof {
        lemma_first_index_properties(s@, '.');
        lemma_scaled_value_nonneg(s@, k as nat);
        lemma_pow10_monotone(k as nat, 6);
        reveal_with_fuel(pow10, 7);
        assert(pow10(6) == 1000000);
    }
    let p = pow10_u64(k);
    if d == n {
        let ghost whole = s@.subrange(0, n as int);
        proof {
            assert(whole =~= s@);
        }
        let v0 = match parse_digits(s, 0, n) {
            Some(v) => v,
            None => {
                proof {
                    if s@.len() > 0 && all_digits(s@) {
                        // the digit run itself overflows, so the scaled value does too
                        assert(pow10(k as nat) * digits_value(s@) >= digits_value(s@))
                            by (nonlinear_arith)
                            requires
                                pow10(k as nat) >= 1,
                                digits_value(s@) > u64::MAX,
                        ;
                    }
                }
                return None;
            },
        };
        proof {
            assert((v0 as int) * (p as int) <= u64::MAX * 1000000int && (v0 as int) * (p as int)
                >= 0) by (nonlinear_arith)
                requires
                    0 <= v0 as int <= u64::MAX,
                    0 <= p as int <= 1000000,
            ;
        }
        let total: u128 = (v0 as u128) * (p as u128);
        if total <= u64::MAX as u128 {
            Some(total as u64)
        } else {
            None
        }
    } else {
        let ghost ip = s@.take(d as int);
        let ghost fp = s@.skip(d + 1);
        proof {
            assert(ip =~= s@.subrange(0, d as int));
            assert(fp =~= s@.subrange(d + 1, n as int));
        }
        if d + 1 >= n {
            // empty fractional part
            return None;
        }
        if !check_digits(s, d + 1, n) {
            return None;
        }
        let v0 = match parse_digits(s, 0, d) {
            Some(v) => v,
            None => {
                proof {
                    if ip.len() > 0 && all_digits(ip) {
                        lemma_frac_scaled_bounds(fp, k as nat);
                        assert(pow10(k as nat) * digits_value(ip) >= digits_value(ip))
                            by (nonlinear_arith)
                            requires
                                pow10(k as nat) >= 1,
                                digits_value(ip) > u64::MAX,
                        ;
                    }
                }
                return None;
            },
        };
        let flen = n - (d + 1);
        let frac: u64;
        if flen <= k as usize {
            let fv = match parse_digits(s, d + 1, n) {
                Some(v) => v,
                None => {
                    proof {
                        lemma_digits_value_bound(fp);
                        lemma_pow10_monotone(fp.len(), 6);
                        assert(false);
                    }
                    0
                },
            };
            let scale = pow10_u64(k - flen as u32);
            proof {
                let r = (k - flen) as nat;
                lemma_digits_value_bound(fp);
                lemma_pow10_add(fp.len(), r);
                assert(digits_value(fp) * pow10(r) < pow10(fp.len()) * pow10(r))
                    by (nonlinear_arith)
                    requires
                        0 <= digits_value(fp) < pow10(fp.len()),
                        pow10(r) >= 1,
                ;
            }
            frac = fv * scale;
        } else {
            let ghost fpk = fp.take(k as int);
            proof {
                assert(fpk =~= s@.subrange(d + 1, d + 1 + k));
                assert(all_digits(fpk)) by {
                    assert(forall|j: int| 0 <= j < k ==> fpk[j] == fp[j]);
                }
            }
            let fv = match parse_digits(s, d + 1, d + 1 + k as usize) {
                Some(v) => v,
                None => {
                    proof {
                        lemma_digits_value_bound(fpk);
                        lemma_pow10_monotone(fpk.len(), 6);
                        assert(false);
                    }
                    0
                },
            };
            frac = fv;
        }
        proof {
            lemma_frac_scaled_bounds(fp, k as nat);
            assert(frac == frac_scaled(fp, k as nat));
        }
        proof {
            assert((v0 as int) * (p as int) <= u64::MAX * 1000000int && (v0 as int) * (p as int)
                >= 0) by (nonlinear_arith)
                requires
                    0 <= v0 as int <= u64::MAX,
                    0 <= p as int <= 1000000,
            ;
        }
        let total: u128 = (v0 as u128) * (p as u128) + (frac as u128);
        if total <= u64::MAX as u128 {
            Some(total as u64)
        } else {
            None
        }
    }
}

/// Value in milli-units of a facility power rating numeral.
pub open spec fn power_milli_of(s: Seq<char>) -> Option<int> {
    match scaled_value_of(s, 3) {
        Some(v) => if v <= u64::MAX {
            Some(v)
        } else {
            None
        },
        None => None,
    }
}

/// Parses a facility power rating (for example "7" or "22.5") into
/// milli-units: "7" becomes 7000.
pub fn parse_power_milli(s: &str) -> (r: Option<u64>)
    ensures
        match power_milli_of(s@) {
            Some(v) => r == Some(v as u64),
            None => r is None,
        },
{
    parse_scaled(s, 3)
}

/// Value in millionths of a degree of a coordinate numeral, which may
/// carry a leading minus sign.
pub open spec fn coordinate_micro_of(s: Seq<char>) -> Option<int> {
    if s.len() > 0 && s[0] == '-' {
        match scaled_value_of(s.drop_first(), 6) {
            Some(v) => if v <= i64::MAX {
                Some(-v)
            } else {
                None
            },
            None => None,
        }
    } else {
        match scaled_value_of(s, 6) {
            Some(v) => if v <= i64::MAX {
                Some(v)
            } else {
                None
            },
            None => None,
        }
    }
}

/// Parses one coordinate numeral ("46.947" or "-7.5") into millionths
/// of a degree.
pub fn parse_coordinate_micro(s: &str) -> (r: Option<i64>)
    ensures
        match coordinate_micro_of(s@) {
            Some(v) => r == Some(v as i64),
            None => r is None,
        },
{
    let n = s.unicode_len();
    if n > 0 && s.get_char(0) == '-' {
        let rest = s.substring_char(1, n);
        proof {
            assert(rest@ =~= s@.drop_first());
            lemma_scaled_value_nonneg(rest@, 6);
        }
        match parse_scaled(rest, 6) {
            Some(v) => if v <= i64::MAX as u64 {
                Some(-(v as i64))
            } else {
                None
            },
            None => None,
        }
    } else {
        proof {
            lemma_scaled_value_nonneg(s@, 6);
        }
        match parse_scaled(s, 6) {
            Some(v) => if v <= i64::MAX as u64 {
                Some(v as i64)
            } else {
                None
            },
            None => None,
        }
    }
}

/// Fixed-point (latitude, longitude) read from a coordinate string: its
/// first two space-separated tokens, in millionths of a degree.
pub open spec fn coords_of(s: Seq<char>) -> Option<(int, int)> {
    let i = first_index_of(s, ' ');
    if i == s.len() {
        None
    } else {
        let rest = s.skip(i + 1);
        let j = first_index_of(rest, ' ');
        match (coordinate_micro_of(s.take(i)), coordinate_micro_of(rest.take(j))) {
            (Some(a), Some(b)) => Some((a, b)),
            _ => None,
        }
    }
}

/// Parses the first two space-separated tokens of a coordinate string.
pub fn parse_coordinates(s: &str) -> (r: Option<(i64, i64)>)
    ensures
        match coords_of(s@) {
            Some(q) => r == Some((q.0 as i64, q.1 as i64)),
            None => r is None,
        },
{
    let n = s.unicode_len();
    let i = find_char(s, ' ');
    proof {
        lemma_first_index_properties(s@, ' ');
    }
    if i == n {
        return None;
    }
    let tok0 = s.substring_char(0, i);
    let rest = s.substring_char(i + 1, n);
    let j = find_char(rest, ' ');
    proof {
        lemma_first_index_properties(rest@, ' ');
    }
    let tok1 = rest.substring_char(0, j);
    proof {
        assert(tok0@ =~= s@.take(i as int));
        assert(rest@ =~= s@.skip(i + 1));
        assert(tok1@ =~= rest@.take(j as int));
    }
    let a = match parse_coordinate_micro(tok0) {
        Some(a) => a,
        None => {
            return None;
        },
    };
    let b = match parse_coordinate_micro(tok1) {
        Some(b) => b,
        None => {
            return None;
        },
    };
    Some((a, b))
}

} // verus!
