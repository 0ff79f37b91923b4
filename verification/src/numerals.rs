//! Fixed-width decimal numerals: every length and magnitude in the record
//! formats of this crate is rendered as exactly twenty decimal digits, so a
//! reader can take a numeral apart by offset arithmetic alone.

use vstd::prelude::*;
use vstd::arithmetic::div_mod::{
    lemma_basic_div, lemma_div_denominator, lemma_fundamental_div_mod, lemma_small_mod,
};
use crate::digest::hex_digit_char;
use crate::digest::hex_digit_str;

verus! {

/// Ten to the `k`.
pub open spec fn pow10(k: nat) -> nat
    decreases k,
{
    if k == 0 {
        1
    } else {
        10 * pow10((k - 1) as nat)
    }
}

pub proof fn lemma_pow10_pos(k: nat)
    ensures
        pow10(k) >= 1,
    decreases k,
{
    if k > 0 {
        lemma_pow10_pos((k - 1) as nat);
    }
}

/// Twenty digits suffice for every machine-word value.
pub proof fn lemma_usize_below_pow10_20()
    ensures
        usize::MAX < pow10(20),
{
    reveal_with_fuel(pow10, 21);
    assert(pow10(20) == 100_000_000_000_000_000_000);
    assert(usize::MAX <= u64::MAX);
}

/// Twenty digits suffice for every 64-bit value.
pub proof fn lemma_u64_below_pow10_20()
    ensures
        u64::MAX < pow10(20),
{
    reveal_with_fuel(pow10, 21);
    assert(pow10(20) == 100_000_000_000_000_000_000);
}

/// True of the ten decimal digit characters.
pub open spec fn is_dec_digit(c: char) -> bool {
    '0' <= c && c <= '9'
}

/// The value of a decimal digit character; ten marks anything else.
pub open spec fn digit_val(c: char) -> nat {
    match c {
        '0' => 0,
        '1' => 1,
        '2' => 2,
        '3' => 3,
        '4' => 4,
        '5' => 5,
        '6' => 6,
        '7' => 7,
        '8' => 8,
        '9' => 9,
        _ => 10,
    }
}

pub proof fn lemma_digit_char_val(d: u8)
    requires
        d < 10,
    ensures
        is_dec_digit(hex_digit_char(d)),
        digit_val(hex_digit_char(d)) == d,
{
}

/// The twenty-digit decimal rendering of `n`, most significant digit first.
pub open spec fn dec20(n: nat) -> Seq<char> {
    Seq::new(20, |i: int| hex_digit_char(((n / pow10((19 - i) as nat)) % 10) as u8))
}

/// True when the `k` characters of `s` starting at `pos` are decimal digits.
pub open spec fn all_dec_digits(s: Seq<char>, pos: int, k: nat) -> bool {
    forall|j: int| pos <= j < pos + k ==> is_dec_digit(#[trigger] s[j])
}

/// The value of the `k` digit characters of `s` starting at `pos`.
pub open spec fn val_prefix(s: Seq<char>, pos: int, k: nat) -> nat
    decreases k,
{
    if k == 0 {
        0
    } else {
        val_prefix(s, pos, (k - 1) as nat) * 10 + digit_val(s[pos + k - 1])
    }
}

/// The value of the twenty-digit numeral of `s` starting at `pos`.
pub open spec fn val20(s: Seq<char>, pos: int) -> nat {
    val_prefix(s, pos, 20)
}

/// The value of `k` digits is below ten to the `k`.
pub proof fn lemma_val_prefix_bound(s: Seq<char>, pos: int, k: nat)
    requires
        all_dec_digits(s, pos, k),
    ensures
        val_prefix(s, pos, k) < pow10(k),
    decreases k,
{
    if k == 0 {
        assert(pow10(0) == 1);
    } else {
        lemma_val_prefix_bound(s, pos, (k - 1) as nat);
        let v = val_prefix(s, pos, (k - 1) as nat);
        let d = digit_val(s[pos + k - 1]);
        assert(is_dec_digit(s[pos + k - 1]));
        assert(d <= 9);
        assert(v <= pow10((k - 1) as nat) - 1);
        assert(v * 10 <= (pow10((k - 1) as nat) - 1) * 10) by (nonlinear_arith)
            requires
                v <= pow10((k - 1) as nat) - 1,
        ;
        assert(pow10(k) == 10 * pow10((k - 1) as nat));
    }
}

/// The value of `k` digits depends on the characters alone, not on where
/// they stand.
pub proof fn lemma_val_prefix_offset(s: Seq<char>, pos: int, t: Seq<char>, tpos: int, k: nat)
    requires
        forall|j: int| 0 <= j < k ==> #[trigger] s[pos + j] == t[tpos + j],
    ensures
        val_prefix(s, pos, k) == val_prefix(t, tpos, k),
    decreases k,
{
    if k > 0 {
        lemma_val_prefix_offset(s, pos, t, tpos, (k - 1) as nat);
        assert(s[pos + k - 1] == t[tpos + k - 1]);
    }
}

proof fn lemma_dec20_val_prefix(n: nat, k: nat)
    requires
        n < pow10(20),
        k <= 20,
    ensures
        val_prefix(dec20(n), 0, k) == n / pow10((20 - k) as nat),
    decreases k,
{
    if k == 0 {
        lemma_basic_div(n as int, pow10(20) as int);
    } else {
        lemma_dec20_val_prefix(n, (k - 1) as nat);
        let lo = pow10((20 - k) as nat);
        let hi = pow10((21 - k) as nat);
        lemma_pow10_pos((20 - k) as nat);
        assert(hi == 10 * lo);
        // dividing by `hi` is dividing by `lo` and then by ten
        lemma_div_denominator(n as int, lo as int, 10);
        assert(n / hi == (n / lo) / 10);
        let a = n / lo;
        lemma_fundamental_div_mod(a as int, 10);
        assert(a == 10 * (a / 10) + a % 10);
        let d = ((n / pow10((19 - (k - 1)) as nat)) % 10) as u8;
        assert(19 - (k - 1) == 20 - k);
        assert(d == a % 10);
        lemma_digit_char_val(d);
        assert(dec20(n)[k - 1] == hex_digit_char(d));
        assert(val_prefix(dec20(n), 0, k) == (n / hi) * 10 + (a % 10));
    }
}

/// The twenty-digit rendering of a value below ten to the twenty is made of
/// digits and reads back as that value.
pub proof fn lemma_dec20_val(n: nat)
    requires
        n < pow10(20),
    ensures
        dec20(n).len() == 20,
        all_dec_digits(dec20(n), 0, 20),
        val20(dec20(n), 0) == n,
        vstd::utf8::is_ascii_chars(dec20(n)),
{
    assert forall|j: int| 0 <= j < 20 implies is_dec_digit(#[trigger] dec20(n)[j]) by {
        let d = ((n / pow10((19 - j) as nat)) % 10) as u8;
        lemma_pow10_pos((19 - j) as nat);
        assert((n / pow10((19 - j) as nat)) % 10 < 10);
        lemma_digit_char_val(d);
    }
    lemma_dec20_val_prefix(n, 20);
    assert(pow10(0) == 1);
    assert(n / 1 == n);
    assert forall|j: int| 0 <= j < 20 implies '\0' <= #[trigger] dec20(n)[j] <= '\u{7f}' by {
        assert(is_dec_digit(dec20(n)[j]));
    }
}

/// The character a digit value renders as reads back as that value, and a
/// digit character is the rendering of its own value.
pub proof fn lemma_digit_char_of_val(c: char)
    requires
        is_dec_digit(c),
    ensures
        digit_val(c) < 10,
        hex_digit_char(digit_val(c) as u8) == c,
{
}

/// Splitting a digit run: the value of `a + b` digits is the value of the
/// first `a` digits shifted left `b` places plus the value of the rest.
pub proof fn lemma_val_prefix_split(s: Seq<char>, pos: int, a: nat, b: nat)
    ensures
        val_prefix(s, pos, (a + b) as nat) == val_prefix(s, pos, a) * pow10(b) + val_prefix(
            s,
            pos + a,
            b,
        ),
    decreases b,
{
    if b == 0 {
        assert(pow10(0) == 1);
    } else {
        lemma_val_prefix_split(s, pos, a, (b - 1) as nat);
        let va = val_prefix(s, pos, a);
        let vb1 = val_prefix(s, pos + a, (b - 1) as nat);
        let d = digit_val(s[pos + a + b - 1]);
        assert(val_prefix(s, pos, (a + b) as nat) == val_prefix(s, pos, (a + b - 1) as nat) * 10
            + d);
        assert(val_prefix(s, pos + a, b) == vb1 * 10 + d);
        assert(pow10(b) == 10 * pow10((b - 1) as nat));
        assert((va * pow10((b - 1) as nat) + vb1) * 10 + d == va * (10 * pow10((b - 1) as nat)) + (
        vb1 * 10 + d)) by (nonlinear_arith);
    }
}

/// Twenty digit characters are exactly the twenty-digit rendering of their
/// value: the fixed-width numeral is canonical.
pub proof fn lemma_digits_are_dec20(s: Seq<char>, pos: int)
    requires
        all_dec_digits(s, pos, 20),
    ensures
        forall|j: int| 0 <= j < 20 ==> #[trigger] dec20(val20(s, pos))[j] == s[pos + j],
{
    let v = val20(s, pos);
    assert forall|j: int| 0 <= j < 20 implies #[trigger] dec20(v)[j] == s[pos + j] by {
        lemma_val_prefix_split(s, pos, (j + 1) as nat, (19 - j) as nat);
        let hi = val_prefix(s, pos, (j + 1) as nat);
        let rest = val_prefix(s, pos + j + 1, (19 - j) as nat);
        assert forall|t: int| pos + j + 1 <= t < pos + j + 1 + (19 - j) implies is_dec_digit(
            #[trigger] s[t],
        ) by {
            assert(pos <= t < pos + 20);
        }
        lemma_val_prefix_bound(s, pos + j + 1, (19 - j) as nat);
        assert(v == hi * pow10((19 - j) as nat) + rest);
        lemma_pow10_pos((19 - j) as nat);
        vstd::arithmetic::div_mod::lemma_fundamental_div_mod_converse(
            v as int,
            pow10((19 - j) as nat) as int,
            hi as int,
            rest as int,
        );
        assert(v / pow10((19 - j) as nat) == hi);
        let d_j = digit_val(s[pos + j]);
        assert(hi == val_prefix(s, pos, j as nat) * 10 + d_j);
        assert(is_dec_digit(s[pos + j]));
        lemma_digit_char_of_val(s[pos + j]);
        vstd::arithmetic::div_mod::lemma_fundamental_div_mod_converse(
            hi as int,
            10,
            val_prefix(s, pos, j as nat) as int,
            d_j as int,
        );
        assert(hi % 10 == d_j);
        assert(dec20(v)[j] == hex_digit_char(((v / pow10((19 - j) as nat)) % 10) as u8));
    }
}

/// Turns a decimal digit character into its value.
pub(crate) fn char_digit(c: char) -> (r: Option<u8>)
    ensures
        r is Some <==> is_dec_digit(c),
        r matches Some(d) ==> d == digit_val(c),
{
    match c {
        '0' => Some(0),
        '1' => Some(1),
        '2' => Some(2),
        '3' => Some(3),
        '4' => Some(4),
        '5' => Some(5),
        '6' => Some(6),
        '7' => Some(7),
        '8' => Some(8),
        '9' => Some(9),
        _ => None,
    }
}

/// Appends the twenty-digit rendering of `n` to `out`.
pub fn push_dec20(out: &mut String, n: u64)
    ensures
        final(out)@ == old(out)@ + dec20(n as nat),
{
    proof {
        lemma_u64_below_pow10_20();
    }
    let mut digits: Vec<u8> = Vec::new();
    let mut m: u64 = n;
    let mut j: usize = 0;
    proof {
        assert(pow10(0) == 1);
        vstd::arithmetic::div_mod::lemma_div_basics(n as int);
    }
    while j < 20
        invariant
            j <= 20,
            digits@.len() == j,
            m == n as nat / pow10(j as nat),
            forall|t: int| 0 <= t < j ==> digits@[t] == ((n as nat / pow10(t as nat)) % 10) as u8,
        decreases 20 - j,
    {
        proof {
            lemma_pow10_pos(j as nat);
            lemma_div_denominator(n as int, pow10(j as nat) as int, 10);
            assert(pow10((j + 1) as nat) == 10 * pow10(j as nat));
            assert((m as nat) / 10 == n as nat / pow10((j + 1) as nat));
        }
        digits.push((m % 10) as u8);
        m = m / 10;
        j = j + 1;
    }
    let ghost start = out@;
    let mut i: usize = 0;
    while i < 20
        invariant
            i <= 20,
            digits@.len() == 20,
            forall|t: int| 0 <= t < 20 ==> digits@[t] == ((n as nat / pow10(t as nat)) % 10) as u8,
            out@ == start + dec20(n as nat).subrange(0, i as int),
        decreases 20 - i,
    {
        let d = digits[20 - 1 - i];
        assert(d < 10);
        out.append(hex_digit_str(d));
        proof {
            assert(dec20(n as nat)[i as int] == hex_digit_char(d));
            assert(out@ =~= start + dec20(n as nat).subrange(0, i + 1 as int));
        }
        i = i + 1;
    }
    proof {
        assert(out@ =~= start + dec20(n as nat));
    }
}

/// Reads the twenty-digit numeral of `s` starting at character `pos`.
/// Succeeds exactly when twenty decimal digits stand there and their value
/// fits 64 bits.
pub fn read_dec20(s: &str, pos: usize) -> (r: Option<u64>)
    requires
        pos + 20 <= usize::MAX,
    ensures
        r is Some <==> (pos + 20 <= s@.len() && all_dec_digits(s@, pos as int, 20) && val20(
            s@,
            pos as int,
        ) <= u64::MAX),
        r matches Some(v) ==> v == val20(s@, pos as int),
{
    let n = s.unicode_len();
    if pos + 20 > n {
        assert(!(pos + 20 <= s@.len()));
        return None;
    }
    let mut acc: u128 = 0;
    let mut k: usize = 0;
    while k < 20
        invariant
            k <= 20,
            pos + 20 <= usize::MAX,
            pos + 20 <= s@.len(),
            all_dec_digits(s@, pos as int, k as nat),
            acc == val_prefix(s@, pos as int, k as nat),
            acc < pow10(k as nat),
        decreases 20 - k,
    {
        let c = s.get_char(pos + k);
        match char_digit(c) {
            None => {
                assert(!is_dec_digit(s@[pos + k as int]));
                assert(!all_dec_digits(s@, pos as int, 20));
                return None;
            },
            Some(d) => {
                proof {
                    assert(is_dec_digit(s@[pos + k as int]));
                    assert(all_dec_digits(s@, pos as int, (k + 1) as nat));
                    assert(val_prefix(s@, pos as int, (k + 1) as nat) == acc * 10 + d);
                    lemma_val_prefix_bound(s@, pos as int, (k + 1) as nat);
                    lemma_pow10_le(((k + 1) as nat), 20);
                    assert(acc * 10 + d < pow10(20));
                    reveal_with_fuel(pow10, 21);
                    assert(pow10(20) == 100_000_000_000_000_000_000);
                }
                acc = acc * 10 + (d as u128);
                k = k + 1;
            },
        }
    }
    proof {
        lemma_u64_below_pow10_20();
    }
    if acc <= (u64::MAX as u128) {
        Some(acc as u64)
    } else {
        None
    }
}

/// Ten to the `a` divides ten to the `b` when `a <= b`.
pub proof fn lemma_pow10_le(a: nat, b: nat)
    requires
        a <= b,
    ensures
        pow10(a) <= pow10(b),
    decreases b,
{
    if a < b {
        lemma_pow10_le(a, (b - 1) as nat);
        lemma_pow10_pos((b - 1) as nat);
    }
}

} // verus!
