//! Decimal digits: the value of a digit string, parsing and formatting of
//! the six-decimal-digit room names, and the lemmas that make the two
//! directions inverse to each other.

use vstd::prelude::*;
use vstd::arithmetic::div_mod::lemma_fundamental_div_mod_converse;
use vstd::string::StrSliceExecFns;

verus! {

/// A decimal digit character.
pub open spec fn is_dec_digit(c: char) -> bool {
    48 <= c as int <= 57
}

/// The numeric value of a digit character.
pub open spec fn digit_val(c: char) -> int {
    c as int - 48
}

/// Every character of `s` is a decimal digit.
pub open spec fn is_dec_seq(s: Seq<char>) -> bool {
    forall|i: int| 0 <= i < s.len() ==> is_dec_digit(#[trigger] s[i])
}

/// The numeric value of a digit string, most significant digit first.
pub open spec fn dec_value(s: Seq<char>) -> int
    decreases s.len(),
{
    if s.len() == 0 {
        0
    } else {
        dec_value(s.drop_last()) * 10 + digit_val(s.last())
    }
}

/// The digit character for a value below ten.
pub open spec fn digit_char(d: int) -> char {
    if d == 0 { '0' }
    else if d == 1 { '1' }
    else if d == 2 { '2' }
    else if d == 3 { '3' }
    else if d == 4 { '4' }
    else if d == 5 { '5' }
    else if d == 6 { '6' }
    else if d == 7 { '7' }
    else if d == 8 { '8' }
    else { '9' }
}

/// The last `k` decimal digits of `n`, most significant first.
pub open spec fn digits_of(n: int, k: nat) -> Seq<char>
    decreases k,
{
    if k == 0 {
        Seq::empty()
    } else {
        digits_of(n / 10, (k - 1) as nat).push(digit_char(n % 10))
    }
}

/// Ten to the power `k`.
pub open spec fn p10(k: nat) -> int
    decreases k,
{
    if k == 0 {
        1
    } else {
        10 * p10((k - 1) as nat)
    }
}

/// A digit string's value is non-negative and below ten to its length.
pub proof fn lemma_dec_value_bound(s: Seq<char>)
    requires
        is_dec_seq(s),
    ensures
        0 <= dec_value(s) < p10(s.len()),
    decreases s.len(),
{
    if s.len() > 0 {
        assert(is_dec_seq(s.drop_last()));
        lemma_dec_value_bound(s.drop_last());
    }
}

/// Extending a digit string can only grow its value.
pub proof fn lemma_dec_value_prefix(s: Seq<char>, i: int)
    requires
        is_dec_seq(s),
        0 <= i <= s.len(),
    ensures
        dec_value(s.take(i)) <= dec_value(s),
    decreases s.len() - i,
{
    if i < s.len() {
        lemma_dec_value_prefix(s, i + 1);
        let t = s.take(i + 1);
        assert(t.drop_last() =~= s.take(i));
        assert(is_dec_seq(t));
        lemma_dec_value_bound(s.take(i));
        assert(dec_value(t) == dec_value(s.take(i)) * 10 + digit_val(t.last()));
        assert(dec_value(s.take(i)) <= dec_value(t));
    } else {
        assert(s.take(i) =~= s);
    }
}

/// For `n` in range, the digit expansion is a digit string whose value is `n`.
pub proof fn lemma_digits_of_value(n: int, k: nat)
    requires
        0 <= n < p10(k),
    ensures
        is_dec_seq(digits_of(n, k)),
        digits_of(n, k).len() == k,
        dec_value(digits_of(n, k)) == n,
    decreases k,
{
    if k == 0 {
    } else {
        let q = n / 10;
        let r = n % 10;
        assert(0 <= r < 10 && n == 10 * q + r) by {
            vstd::arithmetic::div_mod::lemma_fundamental_div_mod(n, 10);
        }
        assert(q < p10((k - 1) as nat)) by {
            assert(p10(k) == 10 * p10((k - 1) as nat));
        }
        lemma_digits_of_value(q, (k - 1) as nat);
        let s = digits_of(n, k);
        assert(s.drop_last() =~= digits_of(q, (k - 1) as nat));
        assert(s.last() == digit_char(r));
        assert(digit_val(digit_char(r)) == r);
        assert(dec_value(s) == dec_value(s.drop_last()) * 10 + r);
    }
}

/// A digit string is the digit expansion of its own value.
pub proof fn lemma_dec_value_digits(s: Seq<char>)
    requires
        is_dec_seq(s),
    ensures
        digits_of(dec_value(s), s.len()) =~= s,
    decreases s.len(),
{
    if s.len() > 0 {
        let v = dec_value(s);
        let w = dec_value(s.drop_last());
        let d = digit_val(s.last());
        assert(is_dec_seq(s.drop_last()));
        lemma_dec_value_bound(s.drop_last());
        lemma_fundamental_div_mod_converse(v, 10, w, d);
        assert(v / 10 == w && v % 10 == d);
        lemma_dec_value_digits(s.drop_last());
        assert(digit_char(d) == s.last());
    }
}

/// Digit expansions of length `k` are injective below ten to the `k`.
pub proof fn lemma_digits_injective(n: int, m: int, k: nat)
    requires
        0 <= n < p10(k),
        0 <= m < p10(k),
        digits_of(n, k) == digits_of(m, k),
    ensures
        n == m,
{
    lemma_digits_of_value(n, k);
    lemma_digits_of_value(m, k);
}

/// Ten to the power is positive and monotone in the exponent.
pub proof fn lemma_p10_mono(a: nat, b: nat)
    requires
        a <= b,
    ensures
        0 < p10(a) <= p10(b),
    decreases b,
{
    if a < b {
        lemma_p10_mono(a, (b - 1) as nat);
    } else if a == b && a > 0 {
        lemma_p10_mono((a - 1) as nat, (b - 1) as nat);
    }
}

/// Ten to the sixth is one million.
pub proof fn lemma_p10_6()
    ensures
        p10(6) == 1000000,
{
    reveal_with_fuel(p10, 7);
}

/// The six-digit decimal form of `n`, the shape of every room name.
pub open spec fn name_seq(n: int) -> Seq<char> {
    digits_of(n, 6)
}

/// `s` is the six-digit name of some number below one million.
pub open spec fn is_name_seq(s: Seq<char>) -> bool {
    s.len() == 6 && is_dec_seq(s)
}

fn digit_str(d: u64) -> (r: &'static str)
    requires
        d < 10,
    ensures
        r@ =~= seq![digit_char(d as int)],
{
    proof {
        reveal_strlit("0");
        reveal_strlit("1");
        reveal_strlit("2");
        reveal_strlit("3");
        reveal_strlit("4");
        reveal_strlit("5");
        reveal_strlit("6");
        reveal_strlit("7");
        reveal_strlit("8");
        reveal_strlit("9");
    }
    if d == 0 { "0" }
    else if d == 1 { "1" }
    else if d == 2 { "2" }
    else if d == 3 { "3" }
    else if d == 4 { "4" }
    else if d == 5 { "5" }
    else if d == 6 { "6" }
    else if d == 7 { "7" }
    else if d == 8 { "8" }
    else { "9" }
}

fn push_digits(s: &mut String, n: u64, k: u64)
    requires
        k <= 6,
    ensures
        final(s)@ == old(s)@ + digits_of(n as int, k as nat),
    decreases k,
{
    if k == 0 {
        assert(old(s)@ + digits_of(n as int, 0) =~= old(s)@);
    } else {
        push_digits(s, n / 10, k - 1);
        let d = n % 10;
        s.append(digit_str(d));
        assert(final(s)@ =~= old(s)@ + digits_of(n as int, k as nat));
    }
}

/// Format `n` as a six-digit, zero-padded decimal string.
pub fn format_name(n: u64) -> (r: String)
    requires
        n < 1000000,
    ensures
        r@ == name_seq(n as int),
        is_name_seq(r@),
        dec_value(r@) == n,
{
    let mut s = String::new();
    push_digits(&mut s, n, 6);
    proof {
        assert(Seq::<char>::empty() + name_seq(n as int) =~= name_seq(n as int));
        lemma_p10_6();
        lemma_digits_of_value(n as int, 6);
    }
    s
}

/// Parse a six-digit decimal room name. Returns the number exactly when
/// the string is six decimal digits.
pub fn parse_name(s: &str) -> (r: Option<u64>)
    ensures
        match r {
            Some(n) => n < 1000000 && s@ == name_seq(n as int),
            None => !is_name_seq(s@),
        },
{
    let len = s.unicode_len();
    if len != 6 {
        return None;
    }
    let mut n: u64 = 0;
    let mut i: usize = 0;
    while i < 6
        invariant
            0 <= i <= 6,
            s@.len() == 6,
            is_dec_seq(s@.take(i as int)),
            n == dec_value(s@.take(i as int)),
            n < p10(i as nat),
        decreases 6 - i,
    {
        let c = s.get_char(i);
        let u = c as u32;
        if u < 48 || u > 57 {
            assert(!is_dec_digit(s@[i as int]));
            return None;
        }
        let d = (u - 48) as u64;
        proof {
            assert(s@.take(i as int + 1).drop_last() =~= s@.take(i as int));
            assert(p10((i + 1) as nat) == 10 * p10(i as nat));
            lemma_p10_mono((i + 1) as nat, 6);
            lemma_p10_6();
        }
        n = n * 10 + d;
        i = i + 1;
    }
    proof {
        assert(s@.take(6) =~= s@);
        lemma_p10_6();
        lemma_dec_value_digits(s@);
    }
    Some(n)
}

/// Compare two strings by their characters.
pub fn str_eq(a: &str, b: &str) -> (r: bool)
    ensures
        r == (a@ == b@),
{
    let la = a.unicode_len();
    let lb = b.unicode_len();
    if la != lb {
        return false;
    }
    let mut i: usize = 0;
    while i < la
        invariant
            0 <= i <= la,
            la == a@.len(),
            lb == b@.len(),
            la == lb,
            forall|j: int| 0 <= j < i ==> a@[j] == b@[j],
        decreases la - i,
    {
        if a.get_char(i) != b.get_char(i) {
            return false;
        }
        i = i + 1;
    }
    proof {
        assert(a@ =~= b@);
    }
    true
}

/// Parse a non-empty decimal string into a 64-bit unsigned integer.
pub fn stoul(v: String) -> (r: u64)
    requires
        v@.len() >= 1,
        is_dec_seq(v@),
        dec_value(v@) <= u64::MAX,
    ensures
        r == dec_value(v@),
{
    let len = v.as_str().unicode_len();
    let mut n: u64 = 0;
    let mut i: usize = 0;
    while i < len
        invariant
            0 <= i <= len,
            len == v@.len(),
            is_dec_seq(v@),
            dec_value(v@) <= u64::MAX,
            n == dec_value(v@.take(i as int)),
        decreases len - i,
    {
        let c = v.as_str().get_char(i);
        let u = c as u32;
        assert(is_dec_digit(v@[i as int]));
        let d = (u - 48) as u64;
        proof {
            assert(v@.take(i as int + 1).drop_last() =~= v@.take(i as int));
            lemma_dec_value_prefix(v@, i as int + 1);
            lemma_dec_value_bound(v@.take(i as int));
        }
        n = n * 10 + d;
        i = i + 1;
    }
    proof {
        assert(v@.take(len as int) =~= v@);
    }
    n
}

} // verus!
