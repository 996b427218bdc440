//! Predicates and sums over the decimal digits and the divisors of a number.

use vstd::arithmetic::div_mod::{lemma_fundamental_div_mod, lemma_fundamental_div_mod_converse};
use vstd::arithmetic::mul::{lemma_mul_inequality, lemma_mul_is_commutative};
use vstd::prelude::*;
use vstd::string::StringSliceAdditionalSpecFns;

verus! {

broadcast use vstd::string::axiom_spec_iter;

/// How often the digit `d` occurs in the decimal notation of `n`. Zero is
/// written with no digit at all.
pub open spec fn digit_count(n: nat, d: nat) -> nat
    decreases n,
{
    if n == 0 {
        0
    } else {
        digit_count(n / 10, d) + (if n % 10 == d {
            1nat
        } else {
            0nat
        })
    }
}

/// Whether `a` and `b` are written with the same digits, each as often.
pub open spec fn same_digits(a: nat, b: nat) -> bool {
    forall|d: nat| d < 10 ==> digit_count(a, d) == digit_count(b, d)
}

/// A number has no more digits of a kind than its value.
pub proof fn lemma_digit_count_bound(n: nat, d: nat)
    ensures
        digit_count(n, d) <= n,
    decreases n,
{
    if n > 0 {
        lemma_digit_count_bound(n / 10, d);
    }
}

/// The occurrences of each digit in `n`.
pub fn count_digits(n: u64) -> (counts: [u64; 10])
    ensures
        forall|d: int| 0 <= d < 10 ==> counts[d] == digit_count(n as nat, d as nat),
{
    let mut counts: [u64; 10] = [0, 0, 0, 0, 0, 0, 0, 0, 0, 0];
    let mut x = n;
    while x > 0
        invariant
            forall|d: int|
                0 <= d < 10 ==> counts[d] + digit_count(x as nat, d as nat) == digit_count(
                    n as nat,
                    d as nat,
                ),
        decreases x,
    {
        let digit = (x % 10) as usize;
        proof {
            lemma_digit_count_bound(n as nat, digit as nat);
        }
        counts[digit] = counts[digit] + 1;
        x = x / 10;
    }
    counts
}

/// Whether the digits of `b` are those of `a` in some order.
pub fn is_perm(a: u64, b: u64) -> (r: bool)
    ensures
        r == same_digits(a as nat, b as nat),
{
    let of_a = count_digits(a);
    let of_b = count_digits(b);
    let mut d: usize = 0;
    while d < 10
        invariant
            d <= 10,
            forall|k: int| 0 <= k < 10 ==> of_a[k] == digit_count(a as nat, k as nat),
            forall|k: int| 0 <= k < 10 ==> of_b[k] == digit_count(b as nat, k as nat),
            forall|k: nat| k < d ==> digit_count(a as nat, k) == digit_count(b as nat, k),
        decreases 10 - d,
    {
        if of_a[d] != of_b[d] {
            assert(digit_count(a as nat, d as nat) != digit_count(b as nat, d as nat));
            return false;
        }
        d += 1;
    }
    true
}

/// Whether the text reads the same from both ends, character by character.
pub fn is_pal_string(s: String) -> (r: bool)
    ensures
        r == (s@ == s@.reverse()),
{
    let text = s.as_str();
    let mut chars: Vec<char> = Vec::new();
    for c in it: text.chars()
        invariant
            it.seq() == text@,
            chars@ == it.seq().take(it.index()),
    {
        chars.push(c);
        assert(chars@ =~= it.seq().take(it.index() + 1));
    }
    assert(chars@ =~= s@);
    let n = chars.len();
    let mut left: usize = 0;
    while left < n / 2
        invariant
            n == chars@.len(),
            chars@ == s@,
            left <= n / 2,
            forall|k: int| 0 <= k < left ==> #[trigger] chars@[k] == chars@[n - 1 - k],
        decreases n / 2 - left,
    {
        if chars[left] != chars[n - 1 - left] {
            assert(s@.reverse()[left as int] != s@[left as int]);
            return false;
        }
        left += 1;
    }
    assert(s@ =~= s@.reverse()) by {
        assert forall|k: int| 0 <= k < n implies #[trigger] s@[k] == s@[n - 1 - k] by {
            if k >= left {
                assert(chars@[n - 1 - k] == chars@[n - 1 - (n - 1 - k)]);
            }
        }
    }
    true
}

/// The number whose digits are those of `n` from last to first, written
/// behind the digits of `acc`.
pub open spec fn reversed(n: nat, acc: nat) -> nat
    decreases n,
{
    if n == 0 {
        acc
    } else {
        reversed(n / 10, acc * 10 + n % 10)
    }
}

/// Whether `n` reads the same from both ends.
pub open spec fn is_palindrome(n: nat) -> bool {
    reversed(n, 0) == n
}

/// Whether the decimal notation of `n` reads the same from both ends.
pub fn is_pal_u64(n: u64) -> (r: bool)
    ensures
        r == is_palindrome(n as nat),
{
    let mut x = n;
    let mut acc: u128 = 0;
    let ghost mut scale: nat = 1;
    while x > 0
        invariant
            reversed(x as nat, acc as nat) == reversed(n as nat, 0),
            acc < scale,
            x * scale <= n,
        decreases x,
    {
        proof {
            assert(scale <= x * scale) by (nonlinear_arith)
                requires
                    x >= 1,
            ;
            assert((x / 10) * (scale * 10) <= x * scale) by (nonlinear_arith);
        }
        acc = acc * 10 + (x % 10) as u128;
        x = x / 10;
        proof {
            scale = scale * 10;
        }
    }
    acc == n as u128
}

/// The digits of a pandigital of size `s`: one to `s` below ten, all ten at
/// ten.
pub open spec fn wanted_digit(d: nat, s: nat) -> bool {
    if s == 10 {
        d <= 9
    } else {
        1 <= d <= s
    }
}

/// Whether the bytes are a pandigital text of size `s`: `s` decimal digits,
/// no two alike, which are the wanted ones. Size zero asks for no text, and
/// there is no size above ten.
pub open spec fn pandigital_text(bytes: Seq<u8>, s: nat) -> bool {
    if s == 0 {
        bytes.len() == 0
    } else {
        &&& s <= 10
        &&& bytes.len() == s
        &&& forall|i: int|
            0 <= i < bytes.len() ==> 48 <= #[trigger] bytes[i] <= 57 && wanted_digit(
                (bytes[i] - 48) as nat,
                s,
            )
        &&& forall|i: int, j: int|
            0 <= i < j < bytes.len() ==> #[trigger] bytes[i] != #[trigger] bytes[j]
        &&& forall|d: nat|
            wanted_digit(d, s) ==> exists|i: int|
                0 <= i < bytes.len() && #[trigger] bytes[i] == 48 + d
    }
}

/// Whether `n` is written with the digits one to `s`, each once; with all
/// ten digits where `s` is ten.
pub fn is_pandigital(n: &str, s: usize) -> (r: bool)
    ensures
        r == pandigital_text(n.spec_bytes(), s as nat),
{
    let bytes = n.as_bytes();
    if s == 0 {
        return bytes.len() == 0;
    }
    if bytes.len() != s {
        return false;
    }
    if s > 10 {
        return false;
    }
    let mut seen: [bool; 10] = [false, false, false, false, false, false, false, false, false, false];
    let mut i: usize = 0;
    while i < bytes.len()
        invariant
            0 < s <= 10,
            bytes@ == n.spec_bytes(),
            bytes@.len() == s,
            i <= bytes@.len(),
            forall|k: int| 0 <= k < i ==> 48 <= #[trigger] bytes@[k] <= 57,
            forall|k: int, j: int| 0 <= k < j < i ==> #[trigger] bytes@[k] != #[trigger] bytes@[j],
            forall|d: int|
                0 <= d < 10 ==> (#[trigger] seen[d] <==> exists|k: int|
                    0 <= k < i && #[trigger] bytes@[k] == 48 + d),
        decreases bytes@.len() - i,
    {
        let byte = bytes[i];
        if byte < 48 || byte > 57 {
            return false;
        }
        let digit = (byte - 48) as usize;
        if seen[digit] {
            return false;
        }
        seen[digit] = true;
        i += 1;
    }
    let mut d: usize = 0;
    while d < 10
        invariant
            0 < s <= 10,
            d <= 10,
            bytes@ == n.spec_bytes(),
            bytes@.len() == s,
            forall|k: int| 0 <= k < bytes@.len() ==> 48 <= #[trigger] bytes@[k] <= 57,
            forall|k: int, j: int|
                0 <= k < j < bytes@.len() ==> #[trigger] bytes@[k] != #[trigger] bytes@[j],
            forall|d: int|
                0 <= d < 10 ==> (#[trigger] seen[d] <==> exists|k: int|
                    0 <= k < bytes@.len() && #[trigger] bytes@[k] == 48 + d),
            forall|k: int| 0 <= k < d ==> (#[trigger] seen[k] <==> wanted_digit(k as nat, s as nat)),
        decreases 10 - d,
    {
        let wanted = if s == 10 {
            true
        } else {
            1 <= d && d <= s
        };
        if seen[d] != wanted {
            proof {
                if seen[d as int] {
                    let k = choose|k: int| 0 <= k < bytes@.len() && #[trigger] bytes@[k] == 48 + d;
                    assert(!wanted_digit((bytes@[k] - 48) as nat, s as nat));
                } else {
                    assert(wanted_digit(d as nat, s as nat));
                }
            }
            return false;
        }
        d += 1;
    }
    proof {
        assert forall|k: int| 0 <= k < bytes@.len() implies wanted_digit(
            (#[trigger] bytes@[k] - 48) as nat,
            s as nat,
        ) by {
            let digit = bytes@[k] - 48;
            assert(seen[digit]);
        }
        assert forall|d: nat| wanted_digit(d, s as nat) implies exists|i: int|
            0 <= i < bytes@.len() && #[trigger] bytes@[i] == 48 + d by {
            assert(seen[d as int]);
        }
    }
    true
}

/// Ten to the power `k`.
pub open spec fn pow10(k: nat) -> nat
    decreases k,
{
    if k == 0 {
        1
    } else {
        10 * pow10((k - 1) as nat)
    }
}

/// Whether `n` is a pandigital number of size `s`: it has `s` digits, and
/// these are the wanted ones, each once.
pub open spec fn pandigital_number(n: nat, s: nat) -> bool {
    &&& 1 <= s <= 10
    &&& pow10((s - 1) as nat) <= n < pow10(s)
    &&& forall|d: nat|
        d < 10 ==> #[trigger] digit_count(n, d) == (if wanted_digit(d, s) {
            1nat
        } else {
            0nat
        })
}

/// Ten to the power `k`, as far as the digits of a `u64` pandigital go.
pub fn power_of_ten(k: usize) -> (p: u64)
    requires
        k <= 10,
    ensures
        p == pow10(k as nat),
{
    proof {
        reveal_with_fuel(pow10, 11);
    }
    match k {
        0 => 1,
        1 => 10,
        2 => 100,
        3 => 1_000,
        4 => 10_000,
        5 => 100_000,
        6 => 1_000_000,
        7 => 10_000_000,
        8 => 100_000_000,
        9 => 1_000_000_000,
        _ => 10_000_000_000,
    }
}

/// Powers of ten grow with the exponent.
pub proof fn lemma_pow10_grows(i: nat, j: nat)
    requires
        i <= j,
    ensures
        pow10(i) <= pow10(j),
        pow10(i) >= 1,
    decreases j,
{
    if i < j {
        lemma_pow10_grows(i, (j - 1) as nat);
    } else if i > 0 {
        lemma_pow10_grows((i - 1) as nat, (i - 1) as nat);
    }
}

/// Whether `n` has `s` digits that are one to `s`, each once; all ten digits
/// where `s` is ten.
pub fn is_pandigital_u64(n: u64, s: usize) -> (r: bool)
    ensures
        r == pandigital_number(n as nat, s as nat),
{
    if s == 0 || s > 10 {
        return false;
    }
    if n < power_of_ten(s - 1) || n >= power_of_ten(s) {
        return false;
    }
    let mut num = n;
    let mut seen: [bool; 10] = [false, false, false, false, false, false, false, false, false, false];
    let mut i: usize = 0;
    while i < s
        invariant
            1 <= s <= 10,
            i <= s,
            pow10((s - 1) as nat) <= n < pow10(s as nat),
            num < pow10((s - i) as nat),
            i < s ==> num >= pow10((s - 1 - i) as nat),
            forall|d: int|
                0 <= d < 10 ==> digit_count(n as nat, d as nat) == (if #[trigger] seen[d] {
                    1nat
                } else {
                    0nat
                }) + digit_count(num as nat, d as nat),
        decreases s - i,
    {
        let digit = (num % 10) as usize;
        proof {
            lemma_pow10_grows(0, (s - 1 - i) as nat);
        }
        assert(digit_count(num as nat, digit as nat) >= 1);
        if s < 10 && digit == 0 {
            // A pandigital below ten has no zero, and this number has one.
            assert(digit_count(n as nat, 0int as nat) == (if seen[0int] {
                1nat
            } else {
                0nat
            }) + digit_count(num as nat, 0int as nat));
            return false;
        }
        if seen[digit] {
            assert(digit_count(n as nat, digit as nat) >= 2);
            return false;
        }
        num = num / 10;
        seen[digit] = true;
        i += 1;
    }
    assert(num == 0);
    let mut d: usize = 0;
    while d < 10
        invariant
            1 <= s <= 10,
            d <= 10,
            pow10((s - 1) as nat) <= n < pow10(s as nat),
            forall|k: int|
                0 <= k < 10 ==> digit_count(n as nat, k as nat) == (if #[trigger] seen[k] {
                    1nat
                } else {
                    0nat
                }),
            forall|k: int| 0 <= k < d ==> (#[trigger] seen[k] <==> wanted_digit(k as nat, s as nat)),
        decreases 10 - d,
    {
        let wanted = if s == 10 {
            true
        } else {
            1 <= d && d <= s
        };
        if seen[d] != wanted {
            assert(digit_count(n as nat, d as nat) != (if wanted_digit(d as nat, s as nat) {
                1nat
            } else {
                0nat
            }));
            return false;
        }
        d += 1;
    }
    assert forall|k: nat| k < 10 implies #[trigger] digit_count(n as nat, k) == (if wanted_digit(
        k,
        s as nat,
    ) {
        1nat
    } else {
        0nat
    }) by {
        assert(seen[k as int] <==> wanted_digit(k, s as nat));
    }
    true
}

/// Whether `n` is written with the digits one to nine, each once.
pub fn is_pandigital_u64_default(n: u64) -> (r: bool)
    ensures
        r == pandigital_number(n as nat, 9),
{
    is_pandigital_u64(n, 9)
}

/// Whether `d` divides `n`.
pub open spec fn divides(d: nat, n: nat) -> bool {
    d > 0 && n % d == 0
}

/// Sum of the divisors of `n` among the numbers `1..=k`.
pub open spec fn divisor_sum_upto(n: nat, k: nat) -> nat
    decreases k,
{
    if k == 0 {
        0
    } else {
        divisor_sum_upto(n, (k - 1) as nat) + (if divides(k, n) {
            k
        } else {
            0
        })
    }
}

/// Sum of all divisors of `n`, `n` itself among them; zero for zero.
pub open spec fn sigma(n: nat) -> nat {
    divisor_sum_upto(n, n)
}

/// What the divisor `i` adds when the divisors are taken in pairs: itself
/// and its partner `n / i`, or itself alone where it is its own partner.
pub open spec fn pair_term(n: nat, i: nat) -> nat {
    if divides(i, n) {
        if i * i == n {
            i
        } else {
            i + n / i
        }
    } else {
        0
    }
}

/// Sum of the pairs of the divisors among `1..=m`.
pub open spec fn paired_sum(n: nat, m: nat) -> nat
    decreases m,
{
    if m == 0 {
        0
    } else {
        paired_sum(n, (m - 1) as nat) + pair_term(n, m)
    }
}

/// Whether the divisor `d` of `n` is met when pairs are taken up to `m`:
/// it or its partner is at most `m`.
pub open spec fn met(n: nat, m: nat, d: nat) -> bool {
    divides(d, n) && (d <= m || n / d <= m)
}

/// Sum of the divisors among `1..=k` that are met up to `m`.
pub open spec fn met_sum(n: nat, m: nat, k: nat) -> nat
    decreases k,
{
    if k == 0 {
        0
    } else {
        met_sum(n, m, (k - 1) as nat) + (if met(n, m, k) {
            k
        } else {
            0
        })
    }
}

/// A product of two positive numbers has both as divisors and as quotients.
pub proof fn lemma_exact(n: nat, a: nat, b: nat)
    requires
        a > 0,
        b > 0,
        a * b == n,
    ensures
        n % a == 0,
        n / a == b,
        n % b == 0,
        n / b == a,
{
    lemma_mul_is_commutative(a as int, b as int);
    lemma_fundamental_div_mod_converse(n as int, a as int, b as int, 0);
    lemma_fundamental_div_mod_converse(n as int, b as int, a as int, 0);
}

/// A divisor times its partner is the number.
pub proof fn lemma_partner(n: nat, d: nat)
    requires
        n > 0,
        divides(d, n),
    ensures
        d * (n / d) == n,
        n / d > 0,
        divides(n / d, n),
        n / (n / d) == d,
        d <= n,
        n / d <= n,
{
    lemma_fundamental_div_mod(n as int, d as int);
    let e = n / d;
    assert(d * e == n);
    if e == 0 {
        assert(d * e == 0) by (nonlinear_arith)
            requires
                e == 0,
        ;
    }
    lemma_exact(n, d, e);
    assert(d <= d * e) by (nonlinear_arith)
        requires
            e >= 1,
            d >= 0,
    ;
    assert(e <= d * e) by (nonlinear_arith)
        requires
            d >= 1,
            e >= 0,
    ;
}

/// Going from `m - 1` to `m` meets the divisor `m` and its partner, and no
/// other.
pub proof fn lemma_met_step(n: nat, m: nat, d: nat)
    requires
        n > 0,
        m > 0,
        m * m <= n,
        d > 0,
    ensures
        met(n, m, d) <==> met(n, (m - 1) as nat, d) || (divides(m, n) && (d == m || d == n / m)),
        !(met(n, (m - 1) as nat, d) && divides(m, n) && (d == m || d == n / m)),
{
    if divides(m, n) {
        lemma_partner(n, m);
        let p = n / m;
        // The partner of `m` is at least `m`.
        if p < m {
            lemma_mul_inequality(p as int, m as int - 1, m as int);
            assert(m * p == p * m) by (nonlinear_arith);
            assert((m - 1) * m < m * m) by (nonlinear_arith)
                requires
                    m > 0,
            ;
        }
        assert(p >= m);
    }
    if divides(d, n) {
        lemma_partner(n, d);
        let e = n / d;
        if e == m {
            lemma_exact(n, d, m);
        }
        if d == m {
        }
        if divides(m, n) && d == n / m {
            assert(e == m);
        }
    } else {
        if divides(m, n) && d == n / m {
            lemma_partner(n, m);
        }
    }
}

/// The sum of the divisors met up to `m` is that up to `m - 1`, and the
/// divisor `m` with its partner.
pub proof fn lemma_met_sum_step(n: nat, m: nat, k: nat)
    requires
        n > 0,
        m > 0,
        m * m <= n,
    ensures
        met_sum(n, m, k) == met_sum(n, (m - 1) as nat, k) + (if divides(m, n) && m <= k {
            m
        } else {
            0
        }) + (if divides(m, n) && n / m != m && n / m <= k {
            n / m
        } else {
            0
        }),
    decreases k,
{
    if k > 0 {
        lemma_met_sum_step(n, m, (k - 1) as nat);
        lemma_met_step(n, m, k);
    }
}

/// Up to zero no divisor is met.
pub proof fn lemma_met_sum_zero(n: nat, k: nat)
    requires
        n > 0,
        k <= n,
    ensures
        met_sum(n, 0, k) == 0,
    decreases k,
{
    if k > 0 {
        lemma_met_sum_zero(n, (k - 1) as nat);
        if divides(k, n) {
            lemma_partner(n, k);
        }
    }
}

/// The pairs up to `m` sum to the divisors met up to `m`.
pub proof fn lemma_paired_is_met(n: nat, m: nat)
    requires
        n > 0,
        m * m <= n,
    ensures
        paired_sum(n, m) == met_sum(n, m, n),
    decreases m,
{
    if m == 0 {
        lemma_met_sum_zero(n, n);
    } else {
        assert((m - 1) * (m - 1) <= m * m) by (nonlinear_arith)
            requires
                m >= 1,
        ;
        lemma_paired_is_met(n, (m - 1) as nat);
        lemma_met_sum_step(n, m, n);
        if divides(m, n) {
            lemma_partner(n, m);
            if n / m == m {
                assert(m * m == n);
            }
            if m * m == n {
                lemma_exact(n, m, m);
            }
        }
    }
}

/// Beyond the square root every divisor is met.
pub proof fn lemma_all_met(n: nat, m: nat, k: nat)
    requires
        n > 0,
        n < (m + 1) * (m + 1),
    ensures
        met_sum(n, m, k) == divisor_sum_upto(n, k),
    decreases k,
{
    if k > 0 {
        lemma_all_met(n, m, (k - 1) as nat);
        if divides(k, n) && !met(n, m, k) {
            lemma_partner(n, k);
            let e = n / k;
            assert((m + 1) * (m + 1) <= k * e) by (nonlinear_arith)
                requires
                    k >= m + 1,
                    e >= m + 1,
            ;
        }
    }
}

/// The pairs of the divisors up to the square root of `n` sum to all
/// divisors of `n`.
pub proof fn lemma_paired_sum_is_sigma(n: nat, m: nat)
    requires
        n > 0,
        m * m <= n < (m + 1) * (m + 1),
    ensures
        paired_sum(n, m) == sigma(n),
{
    lemma_paired_is_met(n, m);
    lemma_all_met(n, m, n);
}

/// A pair adds at most twice the number.
pub proof fn lemma_paired_sum_bound(n: nat, m: nat)
    requires
        n > 0,
    ensures
        paired_sum(n, m) <= m * (2 * n),
    decreases m,
{
    if m > 0 {
        lemma_paired_sum_bound(n, (m - 1) as nat);
        if divides(m, n) {
            lemma_partner(n, m);
        }
        assert(m * (2 * n) == (m - 1) * (2 * n) + 2 * n) by (nonlinear_arith);
    } else {
        assert(0 * (2 * n) == 0);
    }
}

/// Sum of the divisors of `n`, `n` itself among them; zero for zero.
pub fn divisor_sum(n: u64) -> (sum: u64)
    requires
        sigma(n as nat) <= u64::MAX,
    ensures
        sum == sigma(n as nat),
{
    if n == 0 {
        return 0;
    }
    let mut i: u64 = 1;
    let mut sum: u128 = 0;
    loop
        invariant
            n > 0,
            1 <= i <= 0x1_0000_0000,
            (i - 1) * (i - 1) <= n,
            sum == paired_sum(n as nat, (i - 1) as nat),
        ensures
            n > 0,
            i >= 1,
            (i - 1) * (i - 1) <= n < i * i,
            sum == paired_sum(n as nat, (i - 1) as nat),
        decreases 0x1_0000_0000 - i,
    {
        proof {
            lemma_paired_sum_bound(n as nat, (i - 1) as nat);
            assert((i - 1) * (2 * n) <= 0x1_0000_0000 * (2 * 0xffff_ffff_ffff_ffff)) by (nonlinear_arith)
                requires
                    0 <= i - 1 <= 0x1_0000_0000,
                    0 <= n <= 0xffff_ffff_ffff_ffff,
            ;
            assert(i * i <= 0x1_0000_0000 * 0x1_0000_0000) by (nonlinear_arith)
                requires
                    0 <= i <= 0x1_0000_0000,
            ;
            if i >= 0x1_0000_0000 {
                assert(i * i >= 0x1_0000_0000 * 0x1_0000_0000) by (nonlinear_arith)
                    requires
                        i >= 0x1_0000_0000,
                ;
            }
        }
        let square = (i as u128) * (i as u128);
        if square > n as u128 {
            break ;
        }
        if n % i == 0 {
            if square == n as u128 {
                sum = sum + i as u128;
            } else {
                sum = sum + i as u128 + (n / i) as u128;
            }
        }
        i = i + 1;
    }
    proof {
        lemma_paired_sum_is_sigma(n as nat, (i - 1) as nat);
    }
    sum as u64
}

} // verus!
