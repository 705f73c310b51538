//! Decimal text: spec-level meaning of digit runs and verified helpers to
//! read and write unsigned numbers as decimal characters.

use vstd::prelude::*;
use vstd::arithmetic::div_mod::lemma_fundamental_div_mod;
use vstd::arithmetic::mul::lemma_mul_inequality;
use vstd::string::StrSliceExecFns;
use vstd::string::StringExecFns;

verus! {

/// `c` is one of the ten decimal digit characters.
pub open spec fn is_digit(c: char) -> bool {
    '0' <= c && c <= '9'
}

/// Numeric value of a digit character.
pub open spec fn digit_val(c: char) -> int {
    c as int - 48
}

/// The digit character with value `d` (for `0 <= d < 10`).
pub open spec fn char_of_digit(d: int) -> char {
    if d == 0 {
        '0'
    } else if d == 1 {
        '1'
    } else if d == 2 {
        '2'
    } else if d == 3 {
        '3'
    } else if d == 4 {
        '4'
    } else if d == 5 {
        '5'
    } else if d == 6 {
        '6'
    } else if d == 7 {
        '7'
    } else if d == 8 {
        '8'
    } else {
        '9'
    }
}

/// Value of the digit run `s[i..j]`, most significant digit first.
pub open spec fn num_val(s: Seq<char>, i: int, j: int) -> int
    decreases j - i,
{
    if j <= i {
        0
    } else {
        num_val(s, i, j - 1) * 10 + digit_val(s[j - 1])
    }
}

/// First position at or after `i` that does not hold a digit.
pub open spec fn digits_end(s: Seq<char>, i: int) -> int
    decreases s.len() - i,
{
    if i < 0 || i >= s.len() || !is_digit(s[i]) {
        i
    } else {
        digits_end(s, i + 1)
    }
}

/// Decimal form of `n`: at least one digit, no sign, no leading zeros
/// (except for `n == 0` itself).
pub open spec fn enc_nat(n: nat) -> Seq<char>
    decreases n,
{
    if n < 10 {
        seq![char_of_digit(n as int)]
    } else {
        enc_nat(n / 10).push(char_of_digit((n % 10) as int))
    }
}

pub proof fn lemma_char_of_digit_val(d: int)
    requires
        0 <= d < 10,
    ensures
        is_digit(char_of_digit(d)),
        digit_val(char_of_digit(d)) == d,
{
}

/// A run of digits has a nonnegative value.
pub proof fn lemma_num_val_nonneg(s: Seq<char>, i: int, j: int)
    requires
        0 <= i,
        forall|k: int| i <= k < j ==> is_digit(#[trigger] s[k]),
    ensures
        num_val(s, i, j) >= 0,
    decreases j - i,
{
    if j > i {
        lemma_num_val_nonneg(s, i, j - 1);
    }
}

/// Extending a digit run to the right can only grow its value.
pub proof fn lemma_num_val_mono(s: Seq<char>, i: int, j: int, k: int)
    requires
        0 <= i <= j <= k,
        forall|m: int| i <= m < k ==> is_digit(#[trigger] s[m]),
    ensures
        num_val(s, i, j) <= num_val(s, i, k),
    decreases k - j,
{
    if k > j {
        lemma_num_val_mono(s, i, j, k - 1);
        lemma_num_val_nonneg(s, i, k - 1);
    }
}

/// What `digits_end` returns: everything before it is a digit, and it stops
/// at the end of the sequence or at the first non-digit.
pub proof fn lemma_digits_end_shape(s: Seq<char>, i: int)
    requires
        0 <= i <= s.len(),
    ensures
        i <= digits_end(s, i) <= s.len(),
        forall|k: int| i <= k < digits_end(s, i) ==> is_digit(#[trigger] s[k]),
        digits_end(s, i) == s.len() || !is_digit(s[digits_end(s, i)]),
    decreases s.len() - i,
{
    if i < s.len() && is_digit(s[i]) {
        lemma_digits_end_shape(s, i + 1);
    }
}

/// Conversely, a position with those properties is `digits_end`.
pub proof fn lemma_digits_end_is(s: Seq<char>, i: int, j: int)
    requires
        0 <= i <= j <= s.len(),
        forall|k: int| i <= k < j ==> is_digit(#[trigger] s[k]),
        j == s.len() || !is_digit(s[j]),
    ensures
        digits_end(s, i) == j,
    decreases j - i,
{
    if i < j {
        lemma_digits_end_is(s, i + 1, j);
    }
}

/// The decimal form of a number consists of digits.
pub proof fn lemma_enc_nat_shape(n: nat)
    ensures
        enc_nat(n).len() >= 1,
        forall|k: int| 0 <= k < enc_nat(n).len() ==> is_digit(#[trigger] enc_nat(n)[k]),
    decreases n,
{
    if n < 10 {
        lemma_char_of_digit_val(n as int);
    } else {
        lemma_enc_nat_shape(n / 10);
        lemma_char_of_digit_val((n % 10) as int);
    }
}

/// Reading the decimal form of `n` back as a digit run yields `n`.
pub proof fn lemma_enc_nat_val(s: Seq<char>, i: int, j: int, n: nat)
    requires
        0 <= i <= j <= s.len(),
        s.subrange(i, j) == enc_nat(n),
    ensures
        j - i == enc_nat(n).len(),
        num_val(s, i, j) == n,
    decreases n,
{
    assert(j - i == enc_nat(n).len()) by {
        assert(s.subrange(i, j).len() == enc_nat(n).len());
    }
    if n < 10 {
        assert(j == i + 1);
        assert(s[i] == s.subrange(i, j)[0]);
        lemma_char_of_digit_val(n as int);
        assert(num_val(s, i, j) == num_val(s, i, i) * 10 + digit_val(s[i]));
    } else {
        assert(s.subrange(i, j - 1) =~= s.subrange(i, j).drop_last());
        assert(enc_nat(n).drop_last() =~= enc_nat(n / 10));
        lemma_enc_nat_val(s, i, j - 1, n / 10);
        assert(s[j - 1] == s.subrange(i, j)[j - 1 - i]);
        assert(s[j - 1] == char_of_digit((n % 10) as int));
        lemma_char_of_digit_val((n % 10) as int);
        lemma_fundamental_div_mod(n as int, 10);
    }
}

/// Numeric value of a digit character, as an executable step.
pub fn digit_of(c: char) -> (d: u8)
    requires
        is_digit(c),
    ensures
        d == digit_val(c),
        d < 10,
{
    (c as u32 - 48) as u8
}

/// The one-character string for the digit `d`.
pub fn digit_str(d: u8) -> (r: &'static str)
    requires
        d < 10,
    ensures
        r@ == seq![char_of_digit(d as int)],
{
    proof {
        reveal_strlit("0");
        reveal_strlit("1");
        reveal_strlit("2");
        reveal_strlit("3");
        reveal_strlit("4");
        reveal_strlit("5");
        reveal_strlit("6");
        reveal_strlit("7");
        reveal_strlit("8");
        reveal_strlit("9");
    }
    let r = if d == 0 {
        "0"
    } else if d == 1 {
        "1"
    } else if d == 2 {
        "2"
    } else if d == 3 {
        "3"
    } else if d == 4 {
        "4"
    } else if d == 5 {
        "5"
    } else if d == 6 {
        "6"
    } else if d == 7 {
        "7"
    } else if d == 8 {
        "8"
    } else {
        "9"
    };
    proof {
        assert(r@ =~= seq![char_of_digit(d as int)]);
    }
    r
}

/// Scans forward from `i` over digit characters.
pub fn find_digits_end(s: &str, i: usize) -> (e: usize)
    requires
        i <= s@.len(),
    ensures
        e == digits_end(s@, i as int),
        i <= e <= s@.len(),
{
    let len = s.unicode_len();
    let mut j = i;
    while j < len
        invariant
            i <= j <= len,
            len == s@.len(),
            digits_end(s@, i as int) == digits_end(s@, j as int),
        decreases len - j,
    {
        let c = s.get_char(j);
        if !('0' <= c && c <= '9') {
            return j;
        }
        j = j + 1;
    }
    j
}

/// Reads the digit run `s[i..e]` as a `u128`, detecting overflow.
pub fn parse_digits_u128(s: &str, i: usize, e: usize) -> (r: Option<u128>)
    requires
        i <= e <= s@.len(),
        forall|k: int| i <= k < e ==> is_digit(#[trigger] s@[k]),
    ensures
        r matches Some(n) ==> n == num_val(s@, i as int, e as int),
        r is None ==> num_val(s@, i as int, e as int) > u128::MAX,
{
    let mut acc: u128 = 0;
    let mut k = i;
    while k < e
        invariant
            i <= k <= e <= s@.len(),
            forall|m: int| i <= m < e ==> is_digit(#[trigger] s@[m]),
            acc == num_val(s@, i as int, k as int),
        decreases e - k,
    {
        let d = digit_of(s.get_char(k));
        if acc > (u128::MAX - d as u128) / 10 {
            proof {
                let m = u128::MAX as int;
                lemma_fundamental_div_mod(m - d, 10);
                lemma_mul_inequality((m - d) / 10 + 1, acc as int, 10);
                assert(num_val(s@, i as int, k as int + 1) > m);
                lemma_num_val_mono(s@, i as int, k as int + 1, e as int);
            }
            return None;
        }
        proof {
            let m = u128::MAX as int;
            lemma_fundamental_div_mod(m - d, 10);
            lemma_mul_inequality(acc as int, (m - d) / 10, 10);
        }
        acc = acc * 10 + d as u128;
        k = k + 1;
    }
    Some(acc)
}

/// Appends the decimal form of `n` to `out`.
pub fn push_digits(out: &mut String, n: u128)
    ensures
        final(out)@ == old(out)@ + enc_nat(n as nat),
    decreases n,
{
    if n >= 10 {
        push_digits(out, n / 10);
    }
    out.append(digit_str((n % 10) as u8));
    proof {
        if n >= 10 {
            assert(old(out)@ + enc_nat((n / 10) as nat) + seq![char_of_digit((n % 10) as int)]
                =~= old(out)@ + enc_nat(n as nat));
        } else {
            assert(old(out)@ + seq![char_of_digit((n % 10) as int)] =~= old(out)@ + enc_nat(
                n as nat,
            ));
        }
    }
}

} // verus!
