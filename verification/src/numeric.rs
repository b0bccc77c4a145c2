//! Decimal amounts on the wire.
//!
//! Every price, quantity and balance travels as a fixed-point decimal
//! string and lives in the engine as integer ticks (`u64`), at a
//! declared scale: prices carry `PRICE_DECIMALS` fractional digits,
//! quantities `QUANTITY_DECIMALS`, and balances `AMOUNT_DECIMALS` — the
//! sum of the two, so a fill's quote value (`price * quantity` in
//! ticks) is exact in balance ticks, and a quantity converts to
//! balance ticks by the constant `BASE_FACTOR`.  `parse_scaled` and
//! `format_scaled` are the only bridge between strings and ticks;
//! `scaled_val` / `scaled_str` say exactly what they accept and
//! produce.

use vstd::prelude::*;

verus! {

/// Fractional digits of a price tick.
pub const PRICE_DECIMALS: usize = 2;

/// Fractional digits of a quantity tick.
pub const QUANTITY_DECIMALS: usize = 2;

/// Fractional digits of a balance tick: the sum of the two above.
pub const AMOUNT_DECIMALS: usize = 4;

/// Balance ticks per quantity tick: ten to the price decimals.
pub const BASE_FACTOR: u64 = 100;

/// `c` is one of the ten ASCII digits.
pub open spec fn is_digit(c: char) -> bool {
    48 <= c as int && c as int <= 57
}

/// Numeric value of a digit character.
pub open spec fn digit_val(c: char) -> int {
    c as int - 48
}

/// Every character of `s` is a digit.
pub open spec fn all_digits(s: Seq<char>) -> bool {
    forall|i: int| 0 <= i < s.len() ==> is_digit(#[trigger] s[i])
}

/// Value of a digit string, most significant digit first.
pub open spec fn dec_val(s: Seq<char>) -> int
    decreases s.len(),
{
    if s.len() == 0 {
        0
    } else {
        dec_val(s.drop_last()) * 10 + digit_val(s.last())
    }
}

/// The digit character for `d` in `0..=9`.
pub open spec fn digit_char(d: int) -> char {
    if d == 0 { '0' }
    else if d == 1 { '1' }
    else if d == 2 { '2' }
    else if d == 3 { '3' }
    else if d == 4 { '4' }
    else if d == 5 { '5' }
    else if d == 6 { '6' }
    else if d == 7 { '7' }
    else if d == 8 { '8' }
    else { '9' }
}

/// Canonical decimal rendering of a non-negative number: no sign, no
/// leading zero except for zero itself.
pub open spec fn dec_str(n: int) -> Seq<char>
    recommends n >= 0,
    decreases n,
{
    if n <= 9 {
        seq![digit_char(n)]
    } else {
        dec_str(n / 10) + seq![digit_char(n % 10)]
    }
}

/// A valid amount string: non-empty, all digits, value fits in ticks.
pub open spec fn valid_amount(s: Seq<char>) -> bool {
    s.len() > 0 && all_digits(s) && dec_val(s) <= u64::MAX
}

/// The value of a digit string is non-negative.
pub proof fn lemma_dec_val_nonneg(s: Seq<char>)
    requires
        all_digits(s),
    ensures
        dec_val(s) >= 0,
    decreases s.len(),
{
    if s.len() > 0 {
        assert(all_digits(s.drop_last()));
        lemma_dec_val_nonneg(s.drop_last());
    }
}

/// Extending a digit string never decreases its value.
pub proof fn lemma_dec_val_prefix(s: Seq<char>, j: int)
    requires
        all_digits(s),
        0 <= j <= s.len(),
    ensures
        dec_val(s.subrange(0, j)) <= dec_val(s),
    decreases s.len() - j,
{
    if j == s.len() {
        assert(s.subrange(0, j) =~= s);
    } else {
        let t = s.subrange(0, j + 1);
        assert(t.drop_last() =~= s.subrange(0, j));
        assert(all_digits(s.subrange(0, j)));
        lemma_dec_val_nonneg(s.subrange(0, j));
        assert(dec_val(t) == dec_val(s.subrange(0, j)) * 10 + digit_val(t.last()));
        lemma_dec_val_prefix(s, j + 1);
    }
}

/// Reads a non-negative amount from a decimal string.  Returns the tick
/// value exactly when the string is non-empty, all digits, and the value
/// fits; anything else is rejected.
pub fn parse_amount(s: &str) -> (r: Option<u64>)
    ensures
        r is Some <==> valid_amount(s@),
        r is Some ==> r->Some_0 == dec_val(s@),
{
    let n = s.unicode_len();
    if n == 0 {
        return None;
    }
    let mut acc: u64 = 0;
    let mut i: usize = 0;
    while i < n
        invariant
            0 <= i <= n,
            n == s@.len(),
            all_digits(s@.subrange(0, i as int)),
            acc == dec_val(s@.subrange(0, i as int)),
        decreases n - i,
    {
        let c = s.get_char(i);
        let v = c as u32;
        if v < 48 || v > 57 {
            return None;
        }
        let d = (v - 48) as u64;
        proof {
            lemma_dec_val_nonneg(s@.subrange(0, i as int));
        }
        if acc > (u64::MAX - d) / 10 {
            // The prefix already exceeds the tick range; the full string
            // can only be larger.
            proof {
                let p = s@.subrange(0, i as int + 1);
                assert(p.drop_last() =~= s@.subrange(0, i as int));
                assert(dec_val(p) > u64::MAX);
                if valid_amount(s@) {
                    lemma_dec_val_prefix(s@, i as int + 1);
                }
            }
            return None;
        }
        acc = acc * 10 + d;
        proof {
            let p = s@.subrange(0, i as int + 1);
            assert(p.drop_last() =~= s@.subrange(0, i as int));
        }
        i = i + 1;
    }
    proof {
        assert(s@.subrange(0, n as int) =~= s@);
    }
    Some(acc)
}

/// One-character string for a digit.
fn digit_str(d: u64) -> (r: &'static str)
    requires
        d <= 9,
    ensures
        r@ =~= seq![digit_char(d as int)],
{
    proof {
        reveal_strlit("0");
        reveal_strlit("1");
        reveal_strlit("2");
        reveal_strlit("3");
        reveal_strlit("4");
        reveal_strlit("5");
        reveal_strlit("6");
        reveal_strlit("7");
        reveal_strlit("8");
        reveal_strlit("9");
    }
    if d == 0 { "0" }
    else if d == 1 { "1" }
    else if d == 2 { "2" }
    else if d == 3 { "3" }
    else if d == 4 { "4" }
    else if d == 5 { "5" }
    else if d == 6 { "6" }
    else if d == 7 { "7" }
    else if d == 8 { "8" }
    else { "9" }
}

/// Renders a tick amount as its canonical decimal string.
pub fn format_amount(n: u64) -> (r: String)
    ensures
        r@ == dec_str(n as int),
    decreases n,
{
    if n <= 9 {
        let r = String::from_str(digit_str(n));
        assert(r@ =~= dec_str(n as int));
        r
    } else {
        let mut r = format_amount(n / 10);
        r.append(digit_str(n % 10));
        assert(r@ =~= dec_str(n as int));
        r
    }
}

/// Renders a wide tick amount (an aggregated sum) as its canonical
/// decimal string.
pub fn format_amount_u128(n: u128) -> (r: String)
    ensures
        r@ == dec_str(n as int),
    decreases n,
{
    if n <= 9 {
        let r = String::from_str(digit_str(n as u64));
        assert(r@ =~= dec_str(n as int));
        r
    } else {
        let mut r = format_amount_u128(n / 10);
        r.append(digit_str((n % 10) as u64));
        assert(r@ =~= dec_str(n as int));
        r
    }
}

/// First index at or after `from` whose character is `c`, or -1.
pub open spec fn find_char(s: Seq<char>, c: char, from: int) -> int
    decreases s.len() - from,
{
    if from < 0 || from >= s.len() {
        -1
    } else if s[from] == c {
        from
    } else {
        find_char(s, c, from + 1)
    }
}

/// Executable search for a character.
pub fn find_char_exec(s: &str, c: char, from: usize) -> (r: Option<usize>)
    requires
        from <= s@.len(),
    ensures
        r matches Some(i) ==> from <= i < s@.len() && find_char(s@, c, from as int) == i,
        r is None ==> find_char(s@, c, from as int) == -1,
    decreases s@.len() - from,
{
    if from == s.unicode_len() {
        return None;
    }
    if s.get_char(from) == c {
        Some(from)
    } else {
        find_char_exec(s, c, from + 1)
    }
}

/// Ten to the `k`th, one for non-positive `k`.
pub open spec fn pow10(k: int) -> int
    decreases k,
{
    if k <= 0 {
        1
    } else {
        10 * pow10(k - 1)
    }
}

/// Small powers of ten stay small.
pub proof fn lemma_pow10_bounds(k: int)
    requires
        0 <= k <= 9,
    ensures
        1 <= pow10(k) <= 1000000000,
{
    lemma_pow10_le(k, 9);
    assert(pow10(0) == 1);
    assert(pow10(1) == 10);
    assert(pow10(2) == 100);
    assert(pow10(3) == 1000);
    assert(pow10(4) == 10000);
    assert(pow10(5) == 100000);
    assert(pow10(6) == 1000000);
    assert(pow10(7) == 10000000);
    assert(pow10(8) == 100000000);
    assert(pow10(9) == 1000000000);
}

/// `pow10` grows with its exponent.
pub proof fn lemma_pow10_le(a: int, b: int)
    requires
        0 <= a <= b,
    ensures
        pow10(a) <= pow10(b),
        pow10(a) >= 1,
    decreases b,
{
    if a < b {
        lemma_pow10_le(a, b - 1);
    } else if a > 0 {
        lemma_pow10_le(a - 1, a - 1);
    }
}

/// Executable small power of ten.
pub fn pow10_exec(k: usize) -> (r: u64)
    requires
        k <= 9,
    ensures
        r as int == pow10(k as int),
        1 <= r <= 1000000000,
    decreases k,
{
    proof {
        lemma_pow10_bounds(k as int);
    }
    if k == 0 {
        1
    } else {
        proof {
            lemma_pow10_bounds(k as int - 1);
        }
        10 * pow10_exec(k - 1)
    }
}

/// A valid fractional part at scale `d`: one to `d` digits.
pub open spec fn frac_ok(s: Seq<char>, d: int) -> bool {
    1 <= s.len() <= d && all_digits(s)
}

/// Tick value of a fixed-point decimal string at scale `d`: the
/// integer part scaled up, plus the fractional digits padded out to
/// `d` places.
pub open spec fn scaled_val(s: Seq<char>, d: int) -> int {
    let dot = find_char(s, '.', 0);
    if dot < 0 {
        dec_val(s) * pow10(d)
    } else {
        let ip = s.subrange(0, dot);
        let fp = s.subrange(dot + 1, s.len() as int);
        dec_val(ip) * pow10(d) + dec_val(fp) * pow10(d - fp.len())
    }
}

/// A valid amount string at scale `d`: a non-empty run of digits,
/// optionally followed by a point and one to `d` fractional digits,
/// whose tick value fits.
pub open spec fn valid_scaled(s: Seq<char>, d: int) -> bool {
    let dot = find_char(s, '.', 0);
    if dot < 0 {
        s.len() > 0 && all_digits(s) && scaled_val(s, d) <= u64::MAX
    } else {
        let ip = s.subrange(0, dot);
        let fp = s.subrange(dot + 1, s.len() as int);
        &&& ip.len() > 0
        &&& all_digits(ip)
        &&& frac_ok(fp, d)
        &&& scaled_val(s, d) <= u64::MAX
    }
}

/// Nonnegative factors only grow under multiplication by at least one.
proof fn lemma_scale_up(a: int, b: int)
    requires
        0 <= a,
        1 <= b,
    ensures
        a <= a * b,
{
    vstd::arithmetic::mul::lemma_mul_inequality(1, b, a);
    vstd::arithmetic::mul::lemma_mul_is_commutative(b, a);
}

/// Reads the digits of `s` in `[from, to)` as a number.
fn parse_digits_range(s: &str, from: usize, to: usize) -> (r: Option<u64>)
    requires
        from <= to <= s@.len(),
    ensures
        r is Some <==> (to > from && all_digits(s@.subrange(from as int, to as int)) && dec_val(
            s@.subrange(from as int, to as int),
        ) <= u64::MAX),
        r matches Some(v) ==> v == dec_val(s@.subrange(from as int, to as int)),
{
    let ghost whole = s@.subrange(from as int, to as int);
    if from == to {
        return None;
    }
    let mut acc: u64 = 0;
    let mut i: usize = from;
    while i < to
        invariant
            from <= i <= to <= s@.len(),
            whole == s@.subrange(from as int, to as int),
            all_digits(whole.subrange(0, i - from)),
            acc == dec_val(whole.subrange(0, i - from)),
        decreases to - i,
    {
        let c = s.get_char(i);
        let v = c as u32;
        proof {
            assert(whole[i - from] == s@[i as int]);
        }
        if v < 48 || v > 57 {
            return None;
        }
        let digit = (v - 48) as u64;
        proof {
            lemma_dec_val_nonneg(whole.subrange(0, i - from));
        }
        if acc > (u64::MAX - digit) / 10 {
            proof {
                let p = whole.subrange(0, i - from + 1);
                assert(p.drop_last() =~= whole.subrange(0, i - from));
                assert(dec_val(p) > u64::MAX);
                if to > from && all_digits(whole) && dec_val(whole) <= u64::MAX {
                    lemma_dec_val_prefix(whole, i - from + 1);
                }
            }
            return None;
        }
        acc = acc * 10 + digit;
        proof {
            let p = whole.subrange(0, i - from + 1);
            assert(p.drop_last() =~= whole.subrange(0, i - from));
        }
        i = i + 1;
    }
    proof {
        assert(whole.subrange(0, to - from) =~= whole);
    }
    Some(acc)
}

/// Reads a fixed-point decimal amount at scale `d` into ticks.
/// Accepts exactly the strings `valid_scaled` admits.
pub fn parse_scaled(s: &str, d: usize) -> (r: Option<u64>)
    requires
        d <= 9,
    ensures
        r is Some <==> valid_scaled(s@, d as int),
        r matches Some(v) ==> v == scaled_val(s@, d as int),
{
    let n = s.unicode_len();
    let p10 = pow10_exec(d);
    match find_char_exec(s, '.', 0) {
        None => {
            proof {
                assert(s@.subrange(0, n as int) =~= s@);
            }
            let v = match parse_digits_range(s, 0, n) {
                Some(v) => v,
                None => {
                    proof {
                        if valid_scaled(s@, d as int) {
                            lemma_dec_val_nonneg(s@);
                            lemma_scale_up(dec_val(s@), pow10(d as int));
                        }
                    }
                    return None;
                },
            };
            proof {
                vstd::arithmetic::mul::lemma_mul_inequality(v as int, u64::MAX as int,
                    p10 as int);
                assert((u64::MAX as int) * 1000000000 < u128::MAX) by (nonlinear_arith);
                vstd::arithmetic::mul::lemma_mul_inequality(p10 as int, 1000000000,
                    u64::MAX as int);
                vstd::arithmetic::mul::lemma_mul_is_commutative(u64::MAX as int, p10 as int);
                lemma_dec_val_nonneg(s@);
                vstd::arithmetic::mul::lemma_mul_nonnegative(dec_val(s@), pow10(d as int));
            }
            let wide = (v as u128) * (p10 as u128);
            if wide > u64::MAX as u128 {
                return None;
            }
            Some(wide as u64)
        },
        Some(dot) => {
            if dot == 0 {
                return None;
            }
            let fl = n - dot - 1;
            if fl == 0 || fl > d {
                return None;
            }
            let ghost ip = s@.subrange(0, dot as int);
            let ghost fp = s@.subrange(dot as int + 1, n as int);
            let iv = match parse_digits_range(s, 0, dot) {
                Some(v) => v,
                None => {
                    proof {
                        if valid_scaled(s@, d as int) {
                            lemma_dec_val_nonneg(ip);
                            lemma_dec_val_nonneg(fp);
                            lemma_pow10_le(0, d as int - fp.len() as int);
                            vstd::arithmetic::mul::lemma_mul_nonnegative(dec_val(fp),
                                pow10(d as int - fp.len() as int));
                            lemma_scale_up(dec_val(ip), pow10(d as int));
                        }
                    }
                    return None;
                },
            };
            let fv = match parse_digits_range(s, dot + 1, n) {
                Some(v) => v,
                None => {
                    proof {
                        if valid_scaled(s@, d as int) {
                            lemma_dec_val_nonneg(ip);
                            lemma_dec_val_nonneg(fp);
                            lemma_pow10_le(0, d as int);
                            lemma_pow10_le(0, d as int - fp.len() as int);
                            vstd::arithmetic::mul::lemma_mul_nonnegative(dec_val(ip),
                                pow10(d as int));
                            lemma_scale_up(dec_val(fp), pow10(d as int - fp.len() as int));
                        }
                    }
                    return None;
                },
            };
            let pf = pow10_exec(d - fl);
            proof {
                lemma_dec_val_nonneg(ip);
                lemma_dec_val_nonneg(fp);
                vstd::arithmetic::mul::lemma_mul_inequality(iv as int, u64::MAX as int,
                    p10 as int);
                vstd::arithmetic::mul::lemma_mul_inequality(fv as int, u64::MAX as int,
                    pf as int);
                assert((u64::MAX as int) * 1000000000 < u128::MAX) by (nonlinear_arith);
                vstd::arithmetic::mul::lemma_mul_inequality(p10 as int, 1000000000,
                    u64::MAX as int);
                vstd::arithmetic::mul::lemma_mul_inequality(pf as int, 1000000000,
                    u64::MAX as int);
                vstd::arithmetic::mul::lemma_mul_is_commutative(u64::MAX as int, p10 as int);
                vstd::arithmetic::mul::lemma_mul_is_commutative(u64::MAX as int, pf as int);
            }
            let wide = (iv as u128) * (p10 as u128) + (fv as u128) * (pf as u128);
            if wide > u64::MAX as u128 {
                return None;
            }
            Some(wide as u64)
        },
    }
}

/// The `d` trailing decimal digits of `f`, zero padded.
pub open spec fn padded_digits(f: int, d: int) -> Seq<char>
    decreases d,
{
    if d <= 0 {
        Seq::empty()
    } else {
        padded_digits(f / 10, d - 1).push(digit_char(f % 10))
    }
}

/// The fractional digits of `f` at scale `d`, trailing zeros trimmed.
pub open spec fn trimmed_frac(f: int, d: int) -> Seq<char>
    decreases d,
{
    if d <= 0 {
        Seq::empty()
    } else if f % 10 == 0 {
        trimmed_frac(f / 10, d - 1)
    } else {
        padded_digits(f, d)
    }
}

/// Canonical fixed-point rendering of `n` ticks at scale `d`: the whole
/// part, and the non-zero fractional part after a point.
pub open spec fn scaled_str(n: int, d: int) -> Seq<char> {
    if n % pow10(d) == 0 {
        dec_str(n / pow10(d))
    } else {
        dec_str(n / pow10(d)) + seq!['.'] + trimmed_frac(n % pow10(d), d)
    }
}

/// Renders the zero-padded `d` trailing digits of `f`.
fn format_padded(f: u64, d: usize) -> (r: String)
    requires
        d <= 9,
    ensures
        r@ == padded_digits(f as int, d as int),
    decreases d,
{
    if d == 0 {
        let r = String::new();
        proof {
            assert(r@ =~= padded_digits(f as int, 0));
        }
        r
    } else {
        let mut r = format_padded(f / 10, d - 1);
        r.append(digit_str(f % 10));
        proof {
            assert(r@ =~= padded_digits(f as int, d as int));
        }
        r
    }
}

/// Renders the fractional digits of `f` at scale `d`, trimmed.
fn format_trimmed_frac(f: u64, d: usize) -> (r: String)
    requires
        d <= 9,
    ensures
        r@ == trimmed_frac(f as int, d as int),
    decreases d,
{
    if d == 0 {
        let r = String::new();
        proof {
            assert(r@ =~= trimmed_frac(f as int, 0));
        }
        r
    } else if f % 10 == 0 {
        format_trimmed_frac(f / 10, d - 1)
    } else {
        format_padded(f, d)
    }
}

/// Renders a tick amount as its canonical fixed-point decimal string
/// at scale `d`.
pub fn format_scaled(n: u64, d: usize) -> (r: String)
    requires
        d <= 9,
    ensures
        r@ == scaled_str(n as int, d as int),
{
    let p10 = pow10_exec(d);
    let whole = n / p10;
    let frac = n % p10;
    if frac == 0 {
        format_amount(whole)
    } else {
        let mut r = format_amount(whole);
        proof {
            reveal_strlit(".");
        }
        r.append(".");
        let tf = format_trimmed_frac(frac, d);
        r.append(tf.as_str());
        proof {
            assert(r@ =~= scaled_str(n as int, d as int));
        }
        r
    }
}

/// Renders a wide tick amount (an aggregated sum) at scale `d`.
pub fn format_scaled_u128(n: u128, d: usize) -> (r: String)
    requires
        d <= 9,
    ensures
        r@ == scaled_str(n as int, d as int),
{
    let p10 = pow10_exec(d);
    let whole = n / (p10 as u128);
    let frac = n % (p10 as u128);
    if frac == 0 {
        format_amount_u128(whole)
    } else {
        let mut r = format_amount_u128(whole);
        proof {
            reveal_strlit(".");
        }
        r.append(".");
        let tf = format_trimmed_frac(frac as u64, d);
        r.append(tf.as_str());
        proof {
            assert(r@ =~= scaled_str(n as int, d as int));
        }
        r
    }
}

/// String equality by characters.
pub fn str_eq(a: &str, b: &str) -> (r: bool)
    ensures
        r == (a@ == b@),
{
    let na = a.unicode_len();
    let nb = b.unicode_len();
    if na != nb {
        return false;
    }
    let mut i: usize = 0;
    while i < na
        invariant
            0 <= i <= na,
            na == a@.len(),
            na == b@.len(),
            forall|j: int| 0 <= j < i ==> a@[j] == b@[j],
        decreases na - i,
    {
        if a.get_char(i) != b.get_char(i) {
            return false;
        }
        i = i + 1;
    }
    proof {
        assert(a@ =~= b@);
    }
    true
}

} // verus!
