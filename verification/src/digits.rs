//! Decimal digit strings: the canonical base-10 rendering of unsigned
//! integers, its numeric value, and the lemmas that make tile identifiers
//! unambiguous (injectivity, digit-run boundaries, length bounds).

use vstd::prelude::*;
use vstd::string::*;

verus! {

/// The character for one decimal digit value below ten.
pub open spec fn digit_char(d: nat) -> char {
    if d == 0 {
        '0'
    } else if d == 1 {
        '1'
    } else if d == 2 {
        '2'
    } else if d == 3 {
        '3'
    } else if d == 4 {
        '4'
    } else if d == 5 {
        '5'
    } else if d == 6 {
        '6'
    } else if d == 7 {
        '7'
    } else if d == 8 {
        '8'
    } else {
        '9'
    }
}

/// Whether a character is a decimal digit.
pub open spec fn is_digit_char(c: char) -> bool {
    c == '0' || c == '1' || c == '2' || c == '3' || c == '4' || c == '5' || c == '6' || c == '7'
        || c == '8' || c == '9'
}

/// The value of one decimal digit character.
pub open spec fn digit_val(c: char) -> nat {
    if c == '0' {
        0
    } else if c == '1' {
        1
    } else if c == '2' {
        2
    } else if c == '3' {
        3
    } else if c == '4' {
        4
    } else if c == '5' {
        5
    } else if c == '6' {
        6
    } else if c == '7' {
        7
    } else if c == '8' {
        8
    } else {
        9
    }
}

/// The canonical decimal rendering of `n`: non-padded, no leading zeros
/// beyond the value `0` itself.
pub open spec fn dec_digits(n: nat) -> Seq<char>
    decreases n,
{
    if n < 10 {
        seq![digit_char(n)]
    } else {
        dec_digits(n / 10) + seq![digit_char(n % 10)]
    }
}

/// The numeric value of a digit string (most significant digit first).
pub open spec fn digits_value(s: Seq<char>) -> nat
    decreases s.len(),
{
    if s.len() == 0 {
        0
    } else {
        digits_value(s.drop_last()) * 10 + digit_val(s.last())
    }
}

/// Whether every character of `s` is a decimal digit.
pub open spec fn all_digits(s: Seq<char>) -> bool {
    forall|i: int| 0 <= i < s.len() ==> is_digit_char(s[i])
}

/// Whether `s` is the canonical rendering of some value: at least one digit,
/// and no leading zero unless the string is exactly "0".
pub open spec fn canonical_digits(s: Seq<char>) -> bool {
    s.len() >= 1 && all_digits(s) && (s.len() > 1 ==> s[0] != '0')
}

/// Ten to the `k`.
pub open spec fn pow10(k: nat) -> nat
    decreases k,
{
    if k == 0 {
        1
    } else {
        10 * pow10((k - 1) as nat)
    }
}

/// The rendering of any value is canonical: nonempty, all digits, and its
/// first character is zero only for the value zero itself.
pub proof fn lemma_dec_digits_canonical(n: nat)
    ensures
        canonical_digits(dec_digits(n)),
        n >= 1 ==> dec_digits(n)[0] != '0',
        all_digits(dec_digits(n)),
        dec_digits(n).len() >= 1,
    decreases n,
{
    if n < 10 {
        assert(dec_digits(n) == seq![digit_char(n)]);
    } else {
        lemma_dec_digits_canonical(n / 10);
        let pre = dec_digits(n / 10);
        let whole = dec_digits(n);
        assert(whole == pre + seq![digit_char(n % 10)]);
        assert(whole[0] == pre[0]);
        assert forall|i: int| 0 <= i < whole.len() implies is_digit_char(whole[i]) by {
            if i < pre.len() {
                assert(whole[i] == pre[i]);
            } else {
                assert(whole[i] == digit_char(n % 10));
            }
        }
    }
}

/// Rendering then evaluating gives the value back.
pub proof fn lemma_digits_value_dec(n: nat)
    ensures
        digits_value(dec_digits(n)) == n,
    decreases n,
{
    if n < 10 {
        let s = dec_digits(n);
        assert(s == seq![digit_char(n)]);
        assert(s.drop_last() =~= Seq::<char>::empty());
        assert(s.last() == digit_char(n));
        assert(digits_value(s.drop_last()) == 0);
        assert(digit_val(digit_char(n)) == n);
    } else {
        lemma_digits_value_dec(n / 10);
        let s = dec_digits(n);
        let pre = dec_digits(n / 10);
        assert(s == pre + seq![digit_char(n % 10)]);
        assert(s.drop_last() =~= pre);
        assert(s.last() == digit_char(n % 10));
        assert(digits_value(s) == digits_value(pre) * 10 + (n % 10));
        assert((n / 10) * 10 + n % 10 == n) by (nonlinear_arith);
    }
}

/// Two values with the same rendering are equal.
pub proof fn lemma_dec_digits_injective(a: nat, b: nat)
    requires
        dec_digits(a) == dec_digits(b),
    ensures
        a == b,
{
    lemma_digits_value_dec(a);
    lemma_digits_value_dec(b);
}

/// A nonempty all-digit string whose first digit is not zero has a positive value.
pub proof fn lemma_nonzero_head_value(s: Seq<char>)
    requires
        all_digits(s),
        s.len() >= 1,
        s[0] != '0',
    ensures
        digits_value(s) >= 1,
    decreases s.len(),
{
    if s.len() == 1 {
        assert(s.last() == s[0]);
    } else {
        let pre = s.drop_last();
        assert(pre[0] == s[0]);
        assert(all_digits(pre)) by {
            assert(forall|i: int| 0 <= i < pre.len() ==> pre[i] == s[i]);
        }
        lemma_nonzero_head_value(pre);
    }
}

/// Evaluating a canonical digit string and rendering the result gives the
/// string back.
pub proof fn lemma_dec_of_value(s: Seq<char>)
    requires
        canonical_digits(s),
    ensures
        dec_digits(digits_value(s)) == s,
    decreases s.len(),
{
    if s.len() == 1 {
        let c = s[0];
        assert(s.drop_last() =~= Seq::<char>::empty());
        assert(s.last() == c);
        assert(digits_value(Seq::<char>::empty()) == 0);
        assert(digits_value(s) == digit_val(c));
        assert(is_digit_char(c));
        assert(digit_char(digit_val(c)) == c);
        assert(dec_digits(digits_value(s)) =~= s);
    } else {
        let pre = s.drop_last();
        let c = s.last();
        assert(pre[0] == s[0]);
        assert(all_digits(pre)) by {
            assert(forall|i: int| 0 <= i < pre.len() ==> pre[i] == s[i]);
        }
        assert(canonical_digits(pre));
        lemma_dec_of_value(pre);
        lemma_nonzero_head_value(pre);
        let v = digits_value(s);
        assert(v == digits_value(pre) * 10 + digit_val(c));
        assert(digits_value(pre) >= 1);
        assert(v >= 10) by (nonlinear_arith)
            requires
                v == digits_value(pre) * 10 + digit_val(c),
                digits_value(pre) >= 1,
        ;
        assert(v / 10 == digits_value(pre) && v % 10 == digit_val(c)) by (nonlinear_arith)
            requires
                v == digits_value(pre) * 10 + digit_val(c),
                digit_val(c) < 10,
        ;
        assert(is_digit_char(c));
        assert(digit_char(digit_val(c)) == c);
        assert(dec_digits(v) == dec_digits(digits_value(pre)) + seq![digit_char(digit_val(c))]);
        assert(dec_digits(v) =~= s);
    }
}

/// A value below ten to the `k` renders in at most `k` digits.
pub proof fn lemma_dec_len_bound(n: nat, k: nat)
    requires
        k >= 1,
        n < pow10(k),
    ensures
        dec_digits(n).len() <= k,
    decreases k,
{
    if n < 10 {
    } else {
        assert(pow10(k) == 10 * pow10((k - 1) as nat));
        assert(k >= 2) by {
            if k == 1 {
                assert(pow10(1nat) == 10);
            }
        }
        assert(n / 10 < pow10((k - 1) as nat));
        lemma_dec_len_bound(n / 10, (k - 1) as nat);
    }
}

/// A digit string of length `k` evaluates below ten to the `k`.
pub proof fn lemma_value_upper_bound(s: Seq<char>)
    requires
        all_digits(s),
    ensures
        digits_value(s) < pow10(s.len()),
    decreases s.len(),
{
    if s.len() == 0 {
    } else {
        let pre = s.drop_last();
        assert(all_digits(pre)) by {
            assert(forall|i: int| 0 <= i < pre.len() ==> pre[i] == s[i]);
        }
        lemma_value_upper_bound(pre);
        assert(pow10(s.len()) == 10 * pow10(pre.len()));
        assert(digits_value(pre) * 10 + digit_val(s.last()) < 10 * pow10(pre.len()))
            by (nonlinear_arith)
            requires
                digits_value(pre) < pow10(pre.len()),
                digit_val(s.last()) < 10,
        ;
    }
}

/// A canonical digit string with a nonzero head of length `k` evaluates to at
/// least ten to the `k - 1`.
pub proof fn lemma_value_lower_bound(s: Seq<char>)
    requires
        all_digits(s),
        s.len() >= 1,
        s[0] != '0',
    ensures
        digits_value(s) >= pow10((s.len() - 1) as nat),
    decreases s.len(),
{
    if s.len() == 1 {
        assert(s.last() == s[0]);
    } else {
        let pre = s.drop_last();
        assert(pre[0] == s[0]);
        assert(all_digits(pre)) by {
            assert(forall|i: int| 0 <= i < pre.len() ==> pre[i] == s[i]);
        }
        lemma_value_lower_bound(pre);
        assert(pow10((s.len() - 1) as nat) == 10 * pow10((pre.len() - 1) as nat));
        assert(digits_value(pre) * 10 + digit_val(s.last()) >= 10 * pow10((pre.len() - 1) as nat))
            by (nonlinear_arith)
            requires
                digits_value(pre) >= pow10((pre.len() - 1) as nat),
        ;
    }
}

/// The boundary of a digit run against a separator is unambiguous: if two
/// all-digit strings followed by strings opening with a non-digit concatenate
/// to the same sequence, the runs agree and so do the tails.
pub proof fn lemma_digit_run_boundary(d1: Seq<char>, t1: Seq<char>, d2: Seq<char>, t2: Seq<char>)
    requires
        all_digits(d1),
        all_digits(d2),
        t1.len() >= 1,
        t2.len() >= 1,
        !is_digit_char(t1[0]),
        !is_digit_char(t2[0]),
        d1 + t1 == d2 + t2,
    ensures
        d1 == d2,
        t1 == t2,
{
    let s = d1 + t1;
    if d1.len() < d2.len() {
        assert(s[d1.len() as int] == t1[0]);
        assert((d2 + t2)[d1.len() as int] == d2[d1.len() as int]);
        assert(is_digit_char(d2[d1.len() as int]));
        assert(false);
    } else if d1.len() > d2.len() {
        assert(s[d2.len() as int] == d1[d2.len() as int]);
        assert((d2 + t2)[d2.len() as int] == t2[0]);
        assert(is_digit_char(d1[d2.len() as int]));
        assert(false);
    } else {
        assert forall|i: int| 0 <= i < d1.len() implies d1[i] == d2[i] by {
            assert((d1 + t1)[i] == d1[i]);
            assert((d2 + t2)[i] == d2[i]);
        }
        assert(d1 =~= d2);
        assert(t1.len() == t2.len()) by {
            assert((d1 + t1).len() == d1.len() + t1.len());
            assert((d2 + t2).len() == d2.len() + t2.len());
        }
        assert forall|i: int| 0 <= i < t1.len() implies t1[i] == t2[i] by {
            assert((d1 + t1)[d1.len() + i] == t1[i]);
            assert((d2 + t2)[d2.len() + i] == t2[i]);
        }
        assert(t1 =~= t2);
    }
}

/// Ten to a smaller power never exceeds ten to a larger one.
pub proof fn lemma_pow10_mono(a: nat, b: nat)
    requires
        a <= b,
    ensures
        pow10(a) <= pow10(b),
    decreases b,
{
    if a < b {
        lemma_pow10_mono(a, (b - 1) as nat);
        assert(pow10(b) == 10 * pow10((b - 1) as nat));
    }
}

/// Whether a character is a decimal digit.
pub fn char_is_digit(ch: char) -> (b: bool)
    ensures
        b == is_digit_char(ch),
{
    ch == '0' || ch == '1' || ch == '2' || ch == '3' || ch == '4' || ch == '5' || ch == '6'
        || ch == '7' || ch == '8' || ch == '9'
}

/// The value of a decimal digit character.
pub fn char_digit_val(ch: char) -> (v: u32)
    requires
        is_digit_char(ch),
    ensures
        v == digit_val(ch),
{
    if ch == '0' {
        0
    } else if ch == '1' {
        1
    } else if ch == '2' {
        2
    } else if ch == '3' {
        3
    } else if ch == '4' {
        4
    } else if ch == '5' {
        5
    } else if ch == '6' {
        6
    } else if ch == '7' {
        7
    } else if ch == '8' {
        8
    } else {
        9
    }
}

/// Parses the all-digit character range `[from, to)` of `s` as the canonical
/// decimal rendering of a `u32`: `Some(v)` exactly when the range is
/// `dec_digits(v)` for some `v` — so a leading zero in a longer run, or a
/// value past `u32::MAX`, parses to `None`.
#[verifier::loop_isolation(false)]
pub fn parse_dec_range(s: &str, from: usize, to: usize) -> (r: Option<u32>)
    requires
        from < to <= s@.len(),
        forall|j: int| from <= j < to ==> is_digit_char(#[trigger] s@[j]),
    ensures
        match r {
            Some(v) => s@.subrange(from as int, to as int) == dec_digits(v as nat),
            None => forall|v: u32| s@.subrange(from as int, to as int) != dec_digits(v as nat),
        },
{
    let ghost run = s@.subrange(from as int, to as int);
    proof {
        assert(all_digits(run));
        assert(run.len() >= 1);
    }
    if to - from > 1 && s.get_char(from) == '0' {
        proof {
            assert forall|v: u32| run != dec_digits(v as nat) by {
                lemma_dec_digits_canonical(v as nat);
                if run == dec_digits(v as nat) {
                    assert(dec_digits(v as nat)[0] == '0');
                    assert(dec_digits(v as nat).len() > 1);
                }
            }
        }
        return None;
    }
    if to - from > 10 {
        proof {
            assert forall|v: u32| run != dec_digits(v as nat) by {
                if run == dec_digits(v as nat) {
                    assert(run[0] != '0');
                    lemma_value_lower_bound(run);
                    lemma_pow10_mono(10, (run.len() - 1) as nat);
                    reveal_with_fuel(pow10, 11);
                    assert(digits_value(run) >= pow10(10));
                    lemma_digits_value_dec(v as nat);
                }
            }
        }
        return None;
    }
    let mut v: u64 = 0;
    let mut j: usize = from;
    while j < to
        invariant
            from <= j <= to,
            v == digits_value(s@.subrange(from as int, j as int)),
            v < pow10((j - from) as nat),
        decreases to - j,
    {
        let ghost pre = s@.subrange(from as int, j as int);
        let d = char_digit_val(s.get_char(j));
        proof {
            lemma_value_upper_bound(pre);
            lemma_pow10_mono((j + 1 - from) as nat, 10);
            reveal_with_fuel(pow10, 11);
            assert(s@.subrange(from as int, j as int + 1).drop_last() =~= pre);
            assert(s@.subrange(from as int, j as int + 1).last() == s@[j as int]);
        }
        v = v * 10 + d as u64;
        j = j + 1;
        proof {
            lemma_value_upper_bound(s@.subrange(from as int, j as int));
        }
    }
    if v > 0xffff_ffff {
        proof {
            assert forall|v2: u32| run != dec_digits(v2 as nat) by {
                if run == dec_digits(v2 as nat) {
                    lemma_digits_value_dec(v2 as nat);
                }
            }
        }
        None
    } else {
        proof {
            assert(canonical_digits(run));
            lemma_dec_of_value(run);
        }
        Some(v as u32)
    }
}

/// One decimal digit as a string slice.
fn digit_str(d: u32) -> (r: &'static str)
    requires
        d < 10,
    ensures
        r@ =~= seq![digit_char(d as nat)],
{
    proof {
        reveal_strlit("0");
        reveal_strlit("1");
        reveal_strlit("2");
        reveal_strlit("3");
        reveal_strlit("4");
        reveal_strlit("5");
        reveal_strlit("6");
        reveal_strlit("7");
        reveal_strlit("8");
        reveal_strlit("9");
    }
    match d {
        0 => "0",
        1 => "1",
        2 => "2",
        3 => "3",
        4 => "4",
        5 => "5",
        6 => "6",
        7 => "7",
        8 => "8",
        _ => "9",
    }
}

/// Renders `n` in canonical decimal, as tile identifiers embed it.
pub fn u32_to_dec(n: u32) -> (r: String)
    ensures
        r@ == dec_digits(n as nat),
    decreases n,
{
    if n < 10 {
        String::from_str(digit_str(n))
    } else {
        let mut s = u32_to_dec(n / 10);
        s.append(digit_str(n % 10));
        proof {
            assert(s@ =~= dec_digits(n as nat));
        }
        s
    }
}

/// Renders `n` in canonical decimal, as `u32_to_dec` does for a `u32`.
pub fn usize_to_dec(n: usize) -> (r: String)
    ensures
        r@ == dec_digits(n as nat),
    decreases n,
{
    if n < 10 {
        String::from_str(digit_str(n as u32))
    } else {
        let mut s = usize_to_dec(n / 10);
        s.append(digit_str((n % 10) as u32));
        proof {
            assert(s@ =~= dec_digits(n as nat));
        }
        s
    }
}

/// A run of `k` zero characters.
pub open spec fn zeros(k: nat) -> Seq<char> {
    Seq::new(k, |i: int| '0')
}

/// Renders `n` in decimal, left-padded with zeros to at least `width`
/// characters.
#[verifier::loop_isolation(false)]
pub fn zero_pad(n: usize, width: usize) -> (r: String)
    ensures
        r@ == zeros(
            if dec_digits(n as nat).len() < width {
                (width - dec_digits(n as nat).len()) as nat
            } else {
                0
            },
        ) + dec_digits(n as nat),
{
    let d = usize_to_dec(n);
    let len = d.as_str().unicode_len();
    if len >= width {
        proof {
            assert(d@ =~= zeros(0) + d@);
        }
        return d;
    }
    let mut s = String::new();
    let mut k: usize = 0;
    proof {
        reveal_strlit("0");
    }
    while k < width - len
        invariant
            k <= width - len,
            s@ =~= zeros(k as nat),
        decreases width - len - k,
    {
        s.append("0");
        k = k + 1;
        proof {
            assert(s@ =~= zeros(k as nat));
        }
    }
    s.append(d.as_str());
    proof {
        assert(s@ =~= zeros((width - len) as nat) + dec_digits(n as nat));
    }
    s
}

/// How many characters the canonical decimal rendering of `n` has, with zero
/// rendered as the single digit `0`; the padding width that masked dataset
/// identifiers are sized from.
pub fn digits_needed(n: usize) -> (d: usize)
    ensures
        d == dec_digits(if n == 0 { 1nat } else { n as nat }).len(),
{
    let mut x: usize = if n == 0 { 1 } else { n };
    let ghost x0: nat = x as nat;
    let mut d: usize = 0;
    proof {
        reveal_with_fuel(pow10, 21);
        assert(pow10(20) > usize::MAX);
        lemma_dec_len_bound(x0, 20);
    }
    while x > 0
        invariant
            dec_digits(x0).len() <= 20,
            x >= 1 ==> dec_digits(x0).len() == d + dec_digits(x as nat).len(),
            x == 0 ==> dec_digits(x0).len() == d,
        decreases x,
    {
        d = d + 1;
        x = x / 10;
    }
    d
}

} // verus!
