//! The check-digit rule behind the `codes::` functions: GTIN (EAN-8,
//! UPC-A, EAN-13, GTIN-14).

use vstd::prelude::*;
use crate::textns::{digits, digits_of};
use crate::text::is_digit;

verus! {

/// `Σ weight(t) × d[m − 1 − t]` for `t < k`, the weights 3, 1, 3, 1, … from
/// the right.
pub open spec fn gtin_sum(d: Seq<nat>, m: nat, k: nat) -> nat
    decreases k,
{
    if k == 0 {
        0
    } else {
        gtin_sum(d, m, (k - 1) as nat) + (if (k - 1) % 2 == 0 {
            3nat
        } else {
            1nat
        }) * d[m - 1 - (k - 1)]
    }
}

/// A GTIN: 8, 12, 13 or 14 characters, all digits, the last of which makes
/// the weighted sum of all of them a multiple of ten.
pub open spec fn spec_gtin_valid(code: Seq<char>) -> bool {
    let d = digits_of(code);
    let m = (d.len() - 1) as nat;
    &&& forall|i: int| 0 <= i < code.len() ==> is_digit(#[trigger] code[i])
    &&& (code.len() == 8 || code.len() == 12 || code.len() == 13 || code.len() == 14)
    &&& (10 - gtin_sum(d, m, m) % 10) % 10 == d[m as int]
}

proof fn lemma_digits_of_all_digits(s: Seq<char>)
    requires
        forall|i: int| 0 <= i < s.len() ==> is_digit(#[trigger] s[i]),
    ensures
        digits_of(s).len() == s.len(),
    decreases s.len(),
{
    if s.len() > 0 {
        lemma_digits_of_all_digits(s.drop_last());
    }
}

/// GTIN check digit (mod 10, weights 3/1 from the right).
pub fn gtin_valid(code: &str) -> (r: bool)
    ensures
        r == spec_gtin_valid(code@),
{
    let chars = crate::text::chars_of(code);
    let mut i: usize = 0;
    while i < chars.len()
        invariant
            i <= chars@.len(),
            chars@ == code@,
            forall|j: int| 0 <= j < i ==> is_digit(#[trigger] code@[j]),
        decreases chars@.len() - i,
    {
        if chars[i] < '0' || chars[i] > '9' {
            return false;
        }
        i = i + 1;
    }
    let n = chars.len();
    if !(n == 8 || n == 12 || n == 13 || n == 14) {
        return false;
    }
    let d = digits(&chars);
    proof {
        lemma_digits_of_all_digits(code@);
    }
    let ghost dv = digits_of(code@);
    let m = n - 1;
    let mut sum: u32 = 0;
    let mut k: usize = 0;
    while k < m
        invariant
            k <= m,
            m == n - 1,
            n <= 14,
            d@.len() == n,
            dv == digits_of(code@),
            dv.len() == n,
            forall|j: int| 0 <= j < d@.len() ==> d@[j] == #[trigger] dv[j],
            forall|j: int| 0 <= j < d@.len() ==> #[trigger] d@[j] <= 9,
            sum == gtin_sum(dv, m as nat, k as nat),
            sum <= 27 * k,
        decreases m - k,
    {
        let idx = m - 1 - k;
        let w: u32 = if k % 2 == 0 { 3 } else { 1 };
        assert(d@[idx as int] == dv[idx as int]);
        assert(w * d@[idx as int] <= 27) by (nonlinear_arith)
            requires
                d@[idx as int] <= 9,
                w <= 3,
        ;
        sum = sum + w * d[idx];
        k = k + 1;
    }
    assert(d@[m as int] == dv[m as int]);
    (10 - sum % 10) % 10 == d[m]
}

/// The weighted sum of the digit characters of `s`, weights 1, 3, 1, 3, …
/// from the right (the rightmost, the check digit, weighs 1).
pub open spec fn weighted_from_right(s: Seq<char>) -> int
    decreases s.len(),
{
    if s.len() == 0 {
        0
    } else if s.len() == 1 {
        s[0] as int - '0' as int
    } else {
        (s.last() as int - '0' as int) + 3 * (s[s.len() - 2] as int - '0' as int) + weighted_from_right(
            s.subrange(0, s.len() - 2),
        )
    }
}

proof fn lemma_digits_values(s: Seq<char>)
    requires
        forall|i: int| 0 <= i < s.len() ==> is_digit(#[trigger] s[i]),
    ensures
        digits_of(s).len() == s.len(),
        forall|i: int| 0 <= i < s.len() ==> #[trigger] digits_of(s)[i] == s[i] as int - '0' as int,
    decreases s.len(),
{
    if s.len() > 0 {
        lemma_digits_values(s.drop_last());
        assert forall|i: int| 0 <= i < s.len() implies #[trigger] digits_of(s)[i] == s[i] as int - '0' as int by {
            if i < s.len() - 1 {
                assert(digits_of(s)[i] == digits_of(s.drop_last())[i]);
                assert(s.drop_last()[i] == s[i]);
            }
        }
    }
}

/// `gtin_sum` over the last `k` of the first `m` digits, with the digit at
/// `m` added, is the right-to-left weighted sum of the first `m + 1`
/// characters.
proof fn lemma_gtin_sum_from_right(s: Seq<char>, m: nat)
    requires
        forall|i: int| 0 <= i < s.len() ==> is_digit(#[trigger] s[i]),
        m < s.len(),
    ensures
        weighted_from_right(s.subrange(0, m as int + 1)) == (s[m as int] as int - '0' as int) + gtin_sum(
            digits_of(s),
            m,
            m,
        ),
    decreases m,
{
    lemma_digits_values(s);
    let d = digits_of(s);
    let t = s.subrange(0, m as int + 1);
    if m == 0 {
        assert(t.len() == 1 && t[0] == s[0]);
        assert(gtin_sum(d, 0, 0) == 0);
    } else if m == 1 {
        assert(t.subrange(0, t.len() - 2) =~= Seq::<char>::empty());
        assert(weighted_from_right(Seq::<char>::empty()) == 0);
        assert(t.last() == s[1] && t[0] == s[0]);
        lemma_gtin_sum_step(d, 1, 1);
        assert(gtin_sum(d, 1, 0) == 0);
        assert(d[0] == s[0] as int - '0' as int);
    } else {
        lemma_gtin_sum_from_right(s, (m - 2) as nat);
        assert(t.subrange(0, t.len() - 2) =~= s.subrange(0, m - 2 + 1));
        assert(t.last() == s[m as int] && t[t.len() - 2] == s[m - 1]);
        lemma_gtin_sum_shift(d, m);
        assert(d[m - 1] == s[m - 1] as int - '0' as int);
        assert(d[m - 2] == s[m - 2] as int - '0' as int);
    }
}

/// Two more digits on the right: the sum over the first `m` digits is that
/// over the first `m − 2` plus the two nearest the check position.
proof fn lemma_gtin_sum_shift(d: Seq<nat>, m: nat)
    requires
        m >= 2,
    ensures
        gtin_sum(d, m, m) == 3 * d[m - 1] + d[m - 2] + gtin_sum(d, (m - 2) as nat, (m - 2) as nat),
{
    lemma_gtin_sum_general(d, m, m);
}

proof fn lemma_gtin_sum_step(d: Seq<nat>, m: nat, k: nat)
    requires
        k >= 1,
    ensures
        gtin_sum(d, m, k) == gtin_sum(d, m, (k - 1) as nat) + (if (k - 1) % 2 == 0 {
            3 * d[m - 1 - (k - 1)]
        } else {
            d[m - 1 - (k - 1)]
        }),
{
    if (k - 1) % 2 == 0 {
        assert(3nat * d[m - 1 - (k - 1)] == 3 * d[m - 1 - (k - 1)]);
    } else {
        assert(1nat * d[m - 1 - (k - 1)] == d[m - 1 - (k - 1)]);
    }
}

proof fn lemma_gtin_sum_general(d: Seq<nat>, m: nat, k: nat)
    requires
        2 <= k <= m,
    ensures
        gtin_sum(d, m, k) == 3 * d[m - 1] + d[m - 2] + gtin_sum(d, (m - 2) as nat, (k - 2) as nat),
    decreases k,
{
    if k == 2 {
        lemma_gtin_sum_step(d, m, 1);
        lemma_gtin_sum_step(d, m, 2);
        assert(gtin_sum(d, m, 0) == 0);
        assert(gtin_sum(d, (m - 2) as nat, 0) == 0);
    } else {
        lemma_gtin_sum_general(d, m, (k - 1) as nat);
        lemma_gtin_sum_step(d, m, k);
        lemma_gtin_sum_step(d, (m - 2) as nat, (k - 2) as nat);
        assert((k - 1) % 2 == (k - 3) % 2);
        assert(m - 1 - (k - 1) == (m - 2) - 1 - (k - 3));
    }
}

/// The GTIN rule, stated on the characters: a code made of digits is a
/// valid GTIN exactly when it has 8, 12, 13 or 14 of them and their
/// weighted sum, weights 1, 3, 1, 3, … from the right (the check digit
/// weighing 1), is a multiple of ten.
pub proof fn lemma_gtin_weighted_sum(code: Seq<char>)
    requires
        forall|i: int| 0 <= i < code.len() ==> is_digit(#[trigger] code[i]),
    ensures
        spec_gtin_valid(code) <==> ((code.len() == 8 || code.len() == 12 || code.len() == 13 || code.len() == 14)
            && weighted_from_right(code) % 10 == 0),
{
    if code.len() == 8 || code.len() == 12 || code.len() == 13 || code.len() == 14 {
        let m = (code.len() - 1) as nat;
        lemma_digits_values(code);
        lemma_gtin_sum_from_right(code, m);
        assert(code.subrange(0, m as int + 1) =~= code);
        let d = digits_of(code);
        let g = gtin_sum(d, m, m);
        assert(d[m as int] == code[m as int] as int - '0' as int);
        assert(d[m as int] <= 9);
        assert(((10 - g % 10) % 10 == d[m as int]) <==> ((d[m as int] + g) % 10 == 0)) by (nonlinear_arith)
            requires
                0 <= d[m as int] <= 9,
                g >= 0,
        ;
    }
}

} // verus!
