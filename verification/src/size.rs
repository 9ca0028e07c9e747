//! Byte sizes: reading `--max-size` values and writing human-readable sizes.
use vstd::prelude::*;
use crate::text::{trim, is_unicode_whitespace, ascii_lower, debug_quoted, quote, chars_of, trim_chars,
    ascii_lower_chars, chars_eq_str, string_from_chars, debug_quote};

verus! {

pub open spec fn is_digit(c: char) -> bool {
    '0' <= c && c <= '9'
}

pub open spec fn digit_value(c: char) -> nat {
    ((c as u32) - ('0' as u32)) as nat
}

/// Number of leading ASCII digits.
pub open spec fn digit_prefix_len(s: Seq<char>) -> nat
    decreases s.len(),
{
    if s.len() > 0 && is_digit(s[0]) {
        1 + digit_prefix_len(s.drop_first())
    } else {
        0
    }
}

/// The decimal value of a run of digits.
pub open spec fn digits_value(s: Seq<char>) -> nat
    decreases s.len(),
{
    if s.len() == 0 {
        0
    } else {
        digits_value(s.drop_last()) * 10 + digit_value(s.last())
    }
}

/// The multiplier that a (trimmed, lower-cased) size suffix stands for.
pub open spec fn size_multiplier(suffix: Seq<char>) -> Option<u64> {
    if suffix == ""@ || suffix == "b"@ {
        Some(1)
    } else if suffix == "k"@ || suffix == "kb"@ || suffix == "ki"@ || suffix == "kib"@ {
        Some(1024)
    } else if suffix == "m"@ || suffix == "mb"@ || suffix == "mi"@ || suffix == "mib"@ {
        Some(1048576)
    } else if suffix == "g"@ || suffix == "gb"@ || suffix == "gi"@ || suffix == "gib"@ {
        Some(1073741824)
    } else if suffix == "t"@ || suffix == "tb"@ || suffix == "ti"@ || suffix == "tib"@ {
        Some(1099511627776)
    } else {
        None
    }
}

/// What `--max-size` makes of a value: the size in bytes, or the error message.
pub open spec fn parse_size_spec(raw: Seq<char>) -> Result<u64, Seq<char>> {
    let s = trim(raw);
    let k = digit_prefix_len(s) as int;
    if s.len() == 0 {
        Err("size cannot be empty"@)
    } else if k == 0 {
        Err("size must start with digits"@)
    } else if digits_value(s.take(k)) > u64::MAX {
        Err("invalid size number "@ + quote(s.take(k)) + ": number too large to fit in target type"@)
    } else {
        let suffix = ascii_lower(trim(s.skip(k)));
        match size_multiplier(suffix) {
            None => Err("unsupported size suffix "@ + debug_quoted(suffix) + "; use B, K, M, G, or T"@),
            Some(m) => if digits_value(s.take(k)) * m > u64::MAX {
                Err("size "@ + debug_quoted(raw) + " is too large"@)
            } else {
                Ok((digits_value(s.take(k)) * m) as u64)
            },
        }
    }
}

proof fn lemma_digit_prefix(s: Seq<char>)
    ensures
        digit_prefix_len(s) <= s.len(),
        forall|i: int| 0 <= i < digit_prefix_len(s) ==> is_digit(#[trigger] s[i]),
        digit_prefix_len(s) < s.len() ==> !is_digit(s[digit_prefix_len(s) as int]),
    decreases s.len(),
{
    if s.len() > 0 && is_digit(s[0]) {
        lemma_digit_prefix(s.drop_first());
        assert forall|i: int| 0 <= i < digit_prefix_len(s) implies is_digit(#[trigger] s[i]) by {
            if i > 0 {
                assert(s[i] == s.drop_first()[i - 1]);
            }
        }
    }
}

proof fn lemma_digit_prefix_exact(s: Seq<char>, k: int)
    requires
        0 <= k <= s.len(),
        forall|i: int| 0 <= i < k ==> is_digit(#[trigger] s[i]),
        k == s.len() || !is_digit(s[k]),
    ensures
        digit_prefix_len(s) == k,
    decreases s.len(),
{
    if k > 0 {
        assert forall|i: int| 0 <= i < k - 1 implies is_digit(#[trigger] s.drop_first()[i]) by {
            assert(s.drop_first()[i] == s[i + 1]);
        }
        if k - 1 < s.drop_first().len() {
            assert(s.drop_first()[k - 1] == s[k]);
        }
        lemma_digit_prefix_exact(s.drop_first(), k - 1);
    }
}

proof fn lemma_digits_value_grows(s: Seq<char>, j: int)
    requires
        0 <= j <= s.len(),
    ensures
        digits_value(s.take(j)) <= digits_value(s),
    decreases s.len() - j,
{
    if j < s.len() {
        lemma_digits_value_grows(s.drop_last(), j);
        assert(s.drop_last().take(j) =~= s.take(j));
    } else {
        assert(s.take(j) =~= s);
    }
}

fn multiplier_of(suffix: &[char]) -> (r: Option<u64>)
    ensures
        r == size_multiplier(suffix@),
{
    if chars_eq_str(suffix, "") || chars_eq_str(suffix, "b") {
        Some(1)
    } else if chars_eq_str(suffix, "k") || chars_eq_str(suffix, "kb") || chars_eq_str(suffix, "ki")
        || chars_eq_str(suffix, "kib") {
        Some(1024)
    } else if chars_eq_str(suffix, "m") || chars_eq_str(suffix, "mb") || chars_eq_str(suffix, "mi")
        || chars_eq_str(suffix, "mib") {
        Some(1048576)
    } else if chars_eq_str(suffix, "g") || chars_eq_str(suffix, "gb") || chars_eq_str(suffix, "gi")
        || chars_eq_str(suffix, "gib") {
        Some(1073741824)
    } else if chars_eq_str(suffix, "t") || chars_eq_str(suffix, "tb") || chars_eq_str(suffix, "ti")
        || chars_eq_str(suffix, "tib") {
        Some(1099511627776)
    } else {
        None
    }
}

fn range_of(s: &[char], from: usize, to: usize) -> (r: Vec<char>)
    requires
        from <= to <= s@.len(),
    ensures
        r@ == s@.subrange(from as int, to as int),
{
    let mut out: Vec<char> = Vec::new();
    let mut i = from;
    while i < to
        invariant
            from <= i <= to <= s@.len(),
            out@ == s@.subrange(from as int, i as int),
        decreases to - i,
    {
        out.push(s[i]);
        assert(s@.subrange(from as int, i + 1) =~= s@.subrange(from as int, i as int).push(
            s@[i as int],
        ));
        i = i + 1;
    }
    out
}

/// Reads a `--max-size` value: digits, then an optional unit suffix (`B`,
/// `K`, `M`, `G`, `T`, each also as `KB`, `Ki`, `KiB` and so on, in any case),
/// with surrounding whitespace ignored. Units are powers of 1024.
pub fn parse_size_arg(raw: &str) -> (r: Result<u64, String>)
    ensures
        match parse_size_spec(raw@) {
            Ok(n) => r matches Ok(m) && m == n,
            Err(e) => r matches Err(msg) && msg@ == e,
        },
{
    let raw_chars = chars_of(raw);
    let s = trim_chars(raw_chars.as_slice());
    if s.len() == 0 {
        return Err(String::from_str("size cannot be empty"));
    }
    let mut k: usize = 0;
    while k < s.len() && '0' <= s[k] && s[k] <= '9'
        invariant
            k <= s@.len(),
            forall|i: int| 0 <= i < k ==> is_digit(#[trigger] s@[i]),
        decreases s@.len() - k,
    {
        k = k + 1;
    }
    proof {
        lemma_digit_prefix_exact(s@, k as int);
    }
    if k == 0 {
        return Err(String::from_str("size must start with digits"));
    }
    let mut value: u64 = 0;
    let mut i: usize = 0;
    while i < k
        invariant
            i <= k <= s@.len(),
            s@ == trim(raw@),
            k > 0,
            k as nat == digit_prefix_len(s@),
            forall|j: int| 0 <= j < k ==> is_digit(#[trigger] s@[j]),
            value as nat == digits_value(s@.take(i as int)),
        decreases k - i,
    {
        let d = (s[i] as u32 - '0' as u32) as u64;
        assert(s@.take(i + 1).drop_last() =~= s@.take(i as int));
        assert(s@.take(i + 1).last() == s@[i as int]);
        assert(is_digit(s@[i as int]));
        if value > (u64::MAX - d) / 10 {
            proof {
                assert(digits_value(s@.take(i + 1)) > u64::MAX);
                lemma_digits_value_grows(s@.take(k as int), i + 1);
                assert(s@.take(k as int).take(i + 1) =~= s@.take(i + 1));
            }
            let digits = range_of(s.as_slice(), 0, k);
            assert(digits@ =~= s@.take(k as int));
            let mut msg = String::from_str("invalid size number \"");
            let dstr = string_from_chars(digits.as_slice());
            msg.append(dstr.as_str());
            msg.append("\": number too large to fit in target type");
            proof {
                assert(msg@ =~= "invalid size number "@ + quote(s@.take(k as int))
                    + ": number too large to fit in target type"@) by {
                    reveal_strlit("invalid size number \"");
                    reveal_strlit("invalid size number ");
                    reveal_strlit("\": number too large to fit in target type");
                    reveal_strlit(": number too large to fit in target type");
                }
            }
            return Err(msg);
        }
        value = value * 10 + d;
        i = i + 1;
    }
    let rest = range_of(s.as_slice(), k, s.len());
    assert(rest@ =~= s@.skip(k as int));
    let rest_trimmed = trim_chars(rest.as_slice());
    let suffix = ascii_lower_chars(rest_trimmed.as_slice());
    match multiplier_of(suffix.as_slice()) {
        None => {
            let mut msg = String::from_str("unsupported size suffix ");
            let sstr = string_from_chars(suffix.as_slice());
            let q = debug_quote(sstr.as_str());
            msg.append(q.as_str());
            msg.append("; use B, K, M, G, or T");
            Err(msg)
        },
        Some(m) => match value.checked_mul(m) {
            Some(n) => Ok(n),
            None => {
                let mut msg = String::from_str("size ");
                let q = debug_quote(raw);
                msg.append(q.as_str());
                msg.append(" is too large");
                Err(msg)
            },
        },
    }
}

// ---------------------------------------------------------------------------
// Human-readable sizes.

pub open spec fn p2(e: nat) -> nat
    decreases e,
{
    if e == 0 {
        1
    } else {
        2 * p2((e - 1) as nat)
    }
}

pub open spec fn p1024(k: nat) -> nat
    decreases k,
{
    if k == 0 {
        1
    } else {
        1024 * p1024((k - 1) as nat)
    }
}

/// The smallest shift `e >= from` (at most 64) with `n < 2^(53 + e)`.
pub open spec fn f64_shift_from(n: nat, e: nat) -> nat
    decreases 64 - e,
{
    if e >= 64 || n < p2(53 + e) {
        e
    } else {
        f64_shift_from(n, e + 1)
    }
}

/// Integer rounding of `a / d` with ties to even.
pub open spec fn div_round_even(a: nat, d: nat) -> nat {
    let q = a / d;
    let r = a % d;
    if 2 * r > d || (2 * r == d && q % 2 == 1) {
        q + 1
    } else {
        q
    }
}

/// The value of `n as f64`: `n` rounded to 53 significant bits, ties to even.
pub open spec fn f64_value(n: nat) -> nat {
    if n < p2(53) {
        n
    } else {
        let e = f64_shift_from(n, 1);
        div_round_even(n, p2(e)) * p2(e)
    }
}

/// How many times a value of `f` bytes is divided by 1024 (at most 4).
pub open spec fn unit_index_from(f: nat, i: nat) -> nat
    decreases 4 - i,
{
    if i < 4 && f >= p1024(i + 1) {
        unit_index_from(f, i + 1)
    } else {
        i
    }
}

pub open spec fn unit_name(i: nat) -> Seq<char> {
    if i == 0 {
        "B"@
    } else if i == 1 {
        "KB"@
    } else if i == 2 {
        "MB"@
    } else if i == 3 {
        "GB"@
    } else {
        "TB"@
    }
}

pub open spec fn digit_char(d: nat) -> char {
    (('0' as u32) + d) as char
}

/// The decimal digits of `n`.
pub open spec fn decimal(n: nat) -> Seq<char>
    decreases n,
{
    if n < 10 {
        seq![digit_char(n)]
    } else {
        decimal(n / 10).push(digit_char(n % 10))
    }
}

/// `format_size`: below 1024 the exact count of bytes; otherwise the value
/// in the largest unit (up to TB) that keeps it at least 1, with one
/// decimal, as `{:.1}` prints the `f64` quotient.
pub open spec fn format_size_spec(bytes: nat) -> Seq<char> {
    if bytes < 1024 {
        decimal(bytes) + " B"@
    } else {
        let f = f64_value(bytes);
        let i = unit_index_from(f, 0);
        let tenths = div_round_even(10 * f, p1024(i));
        decimal(tenths / 10) + seq!['.', digit_char(tenths % 10), ' '] + unit_name(i)
    }
}

fn digit_to_char(d: u128) -> (c: char)
    requires
        d < 10,
    ensures
        c == digit_char(d as nat),
{
    let b = (48 + d) as u8;
    b as char
}

/// The decimal digits of a number.
pub fn decimal_chars(n: u128) -> (r: Vec<char>)
    ensures
        r@ == decimal(n as nat),
    decreases n,
{
    if n < 10 {
        let mut v = Vec::new();
        v.push(digit_to_char(n));
        v
    } else {
        let mut v = decimal_chars(n / 10);
        v.push(digit_to_char(n % 10));
        v
    }
}

fn div_round_even_exec(a: u128, d: u128) -> (r: u128)
    requires
        d > 0,
        a / d < u128::MAX,
    ensures
        r as nat == div_round_even(a as nat, d as nat),
{
    let q = a / d;
    let r = a % d;
    if r > d - r || (r == d - r && q % 2 == 1) {
        q + 1
    } else {
        q
    }
}

proof fn lemma_p2_mono(a: nat, b: nat)
    requires
        a <= b,
    ensures
        1 <= p2(a) <= p2(b),
    decreases b,
{
    if b > 0 && a < b {
        lemma_p2_mono(a, (b - 1) as nat);
    } else if b > 0 {
        lemma_p2_mono(0, (b - 1) as nat);
    }
}

proof fn lemma_p2_values()
    ensures
        p2(1) == 2,
        p2(10) == 1024,
        p2(11) == 2048,
        p2(53) == 0x20_0000_0000_0000,
{
    reveal_with_fuel(p2, 54);
}

proof fn lemma_p2_add(a: nat, b: nat)
    ensures
        p2(a + b) == p2(a) * p2(b),
    decreases a,
{
    if a > 0 {
        lemma_p2_add((a - 1) as nat, b);
        assert(p2(a) == 2 * p2((a - 1) as nat));
        assert(p2(a + b) == 2 * p2((a - 1 + b) as nat));
        assert(2 * (p2((a - 1) as nat) * p2(b)) == (2 * p2((a - 1) as nat)) * p2(b)) by (nonlinear_arith);
    } else {
        assert(p2(0) == 1);
        assert(a + b == b);
    }
}

fn f64_value_exec(n: u64) -> (r: u128)
    ensures
        r as nat == f64_value(n as nat),
        r <= 0x1_0000_0000_0000_0800u128,
        (n as nat) >= 1024 ==> r >= 1024,
{
    proof {
        lemma_p2_values();
    }
    if n < 0x20_0000_0000_0000 {
        return n as u128;
    }
    let mut e: u64 = 1;
    let mut p: u128 = 2;
    let mut bound: u128 = 0x40_0000_0000_0000;
    proof {
        lemma_p2_add(53, 1);
    }
    while (n as u128) >= bound
        invariant
            1 <= e <= 11,
            p as nat == p2(e as nat),
            1 <= p <= 2048,
            bound == p * 0x20_0000_0000_0000,
            bound as nat == p2(53 + e as nat),
            n as nat >= p2(53),
            f64_shift_from(n as nat, e as nat) == f64_shift_from(n as nat, 1),
        decreases 64 - e,
    {
        proof {
            lemma_p2_values();
            if e >= 11 {
                lemma_p2_mono(11, e as nat);
                assert(false);
            }
            lemma_p2_mono(e as nat, 10);
            assert(p2(53 + (e + 1) as nat) == 2 * p2(53 + e as nat));
            assert(p2((e + 1) as nat) == 2 * p2(e as nat));
        }
        e = e + 1;
        p = p * 2;
        bound = bound * 2;
    }
    assert(f64_shift_from(n as nat, e as nat) == e);
    let q = (n as u128) / p;
    assert(q * p <= n as u128) by (nonlinear_arith)
        requires
            q == (n as u128) / p,
            p >= 1,
    ;
    assert(q < 0x1_0000_0000_0000_0000u128) by (nonlinear_arith)
        requires
            q * p <= n as u128,
            p >= 1,
            n < 0x1_0000_0000_0000_0000u128,
    ;
    let rounded = div_round_even_exec(n as u128, p);
    assert(rounded <= q + 1);
    assert(rounded * p <= 0x1_0000_0000_0000_0800u128) by (nonlinear_arith)
        requires
            rounded <= q + 1,
            q * p <= n as u128,
            p >= 1,
            p <= 2048,
            n < 0x1_0000_0000_0000_0000u128,
    ;
    assert(q * p + p > n as u128) by (nonlinear_arith)
        requires
            q == (n as u128) / p,
            p >= 1,
    ;
    let r = rounded * p;
    assert(r >= 1024) by (nonlinear_arith)
        requires
            rounded >= q,
            q * p + p > n as u128,
            n >= 0x20_0000_0000_0000,
            1 <= p <= 2048,
            r == rounded * p,
    ;
    r
}

proof fn lemma_p1024_values()
    ensures
        p1024(0) == 1,
        p1024(1) == 1024,
        p1024(4) == 0x100_0000_0000,
{
    reveal_with_fuel(p1024, 5);
}

fn push_all(out: &mut Vec<char>, s: &str)
    ensures
        final(out)@ == old(out)@ + s@,
{
    let cs = chars_of(s);
    let mut i: usize = 0;
    while i < cs.len()
        invariant
            i <= cs@.len(),
            cs@ == s@,
            out@ == old(out)@ + cs@.take(i as int),
        decreases cs@.len() - i,
    {
        out.push(cs[i]);
        assert(cs@.take(i + 1) =~= cs@.take(i as int).push(cs@[i as int]));
        assert(out@ =~= old(out)@ + cs@.take(i + 1));
        i = i + 1;
    }
    assert(cs@.take(cs@.len() as int) =~= cs@);
}

/// A byte count in human-readable form: `7 B`, `24.1 KB`, `1.0 MB`. Units
/// are powers of 1024 up to TB; above 1023 bytes one decimal is shown,
/// rounded half to even as `{:.1}` rounds the `f64` quotient.
pub fn format_size(bytes: u64) -> (r: String)
    ensures
        r@ == format_size_spec(bytes as nat),
{
    if bytes < 1024 {
        let mut v = decimal_chars(bytes as u128);
        push_all(&mut v, " B");
        return string_from_chars(v.as_slice());
    }
    let f = f64_value_exec(bytes);
    let mut i: usize = 0;
    let mut d: u128 = 1;
    proof {
        lemma_p1024_values();
    }
    while i < 4 && f >= d * 1024
        invariant
            i <= 4,
            d as nat == p1024(i as nat),
            1 <= d <= 0x100_0000_0000,
            i < 4 ==> d <= 0x4000_0000,
            f as nat == f64_value(bytes as nat),
            unit_index_from(f as nat, i as nat) == unit_index_from(f as nat, 0),
        decreases 4 - i,
    {
        assert(p1024((i + 1) as nat) == 1024 * p1024(i as nat));
        proof {
            lemma_p1024_values();
            if i + 1 < 4 {
                lemma_p1024_bound((i + 1) as nat);
            }
        }
        d = d * 1024;
        i = i + 1;
    }
    assert(unit_index_from(f as nat, i as nat) == i);
    let tf: u128 = 10 * f;
    assert(tf / d <= tf) by (nonlinear_arith)
        requires
            d >= 1,
    ;
    let tenths = div_round_even_exec(tf, d);
    let mut v = decimal_chars(tenths / 10);
    v.push('.');
    v.push(digit_to_char(tenths % 10));
    v.push(' ');
    let unit = if i == 0 {
        "B"
    } else if i == 1 {
        "KB"
    } else if i == 2 {
        "MB"
    } else if i == 3 {
        "GB"
    } else {
        "TB"
    };
    push_all(&mut v, unit);
    string_from_chars(v.as_slice())
}

proof fn lemma_p1024_bound(k: nat)
    requires
        k <= 3,
    ensures
        1 <= p1024(k) <= 0x4000_0000,
{
    reveal_with_fuel(p1024, 4);
}


pub open spec fn is_ascii_letter(c: char) -> bool {
    ('a' <= c && c <= 'z') || ('A' <= c && c <= 'Z')
}

proof fn lemma_decimal_digits(n: nat)
    ensures
        decimal(n).len() >= 1,
        forall|i: int| 0 <= i < decimal(n).len() ==> is_digit(#[trigger] decimal(n)[i]),
        digits_value(decimal(n)) == n,
    decreases n,
{
    if n >= 10 {
        lemma_decimal_digits(n / 10);
        let d = decimal(n / 10);
        let e = decimal(n);
        assert(e == d.push(digit_char(n % 10)));
        assert forall|i: int| 0 <= i < e.len() implies is_digit(#[trigger] e[i]) by {
            if i < d.len() {
                assert(e[i] == d[i]);
            }
        }
        assert(e.drop_last() =~= d);
        assert(e.last() == digit_char(n % 10));
        assert(digit_value(digit_char(n % 10)) == n % 10);
        assert(digits_value(e) == digits_value(d) * 10 + digit_value(e.last()));
        assert((n / 10) * 10 + n % 10 == n);
    } else {
        let e = decimal(n);
        assert(e == seq![digit_char(n)]);
        assert(e.drop_last() =~= Seq::<char>::empty());
        assert(e.last() == digit_char(n));
        assert(digit_value(digit_char(n)) == n);
        assert(digits_value(e) == digits_value(e.drop_last()) * 10 + digit_value(e.last()));
    }
}

proof fn lemma_trim_plain(s: Seq<char>)
    requires
        s.len() > 0,
        !is_unicode_whitespace(s[0]),
        !is_unicode_whitespace(s.last()),
    ensures
        trim(s) == s,
{
}

/// Law: digits followed by a unit suffix (letters, in any case) read as the
/// number times the unit, when that fits in 64 bits.
pub proof fn law_size_with_unit(n: nat, unit: Seq<char>, m: u64)
    requires
        size_multiplier(ascii_lower(unit)) == Some(m),
        forall|i: int| 0 <= i < unit.len() ==> is_ascii_letter(#[trigger] unit[i]),
        n * m <= u64::MAX,
    ensures
        parse_size_spec(decimal(n) + unit) == Ok::<u64, Seq<char>>((n * m) as u64),
{
    lemma_decimal_digits(n);
    let d = decimal(n);
    let s = d + unit;
    assert(s[0] == d[0]);
    assert(!is_unicode_whitespace(s[0]));
    if unit.len() > 0 {
        assert(s.last() == unit[unit.len() - 1]);
    } else {
        assert(s.last() == d[d.len() - 1]);
    }
    lemma_trim_plain(s);
    assert forall|i: int| 0 <= i < d.len() implies is_digit(#[trigger] s[i]) by {
        assert(s[i] == d[i]);
    }
    if unit.len() > 0 {
        assert(s[d.len() as int] == unit[0]);
    }
    lemma_digit_prefix_exact(s, d.len() as int);
    assert(s.take(d.len() as int) =~= d);
    assert(s.skip(d.len() as int) =~= unit);
    if unit.len() > 0 {
        assert(!is_unicode_whitespace(unit[0]));
        assert(!is_unicode_whitespace(unit.last()));
        lemma_trim_plain(unit);
    }
    if m == 0 {
    } else {
        assert(n <= n * m) by (nonlinear_arith)
            requires
                m >= 1,
        ;
    }
}

/// Law: sizes below 1024 bytes are written as the exact count followed by ` B`.
pub proof fn law_small_sizes_exact(n: nat)
    requires
        n < 1024,
    ensures
        format_size_spec(n) == decimal(n) + " B"@,
{
}


/// Law: a number followed by a unit is the number times the unit's power of
/// 1024: `B` (or nothing) is 1024^0, `K` 1024^1, `M` 1024^2, `G` 1024^3 and
/// `T` 1024^4, each also written with `B`, `i` or `iB` after the letter, in
/// any case, when the product fits in 64 bits.
pub proof fn law_size_units_are_powers_of_1024(n: nat, unit: Seq<char>, i: nat)
    requires
        (i == 0 && (ascii_lower(unit) == ""@ || ascii_lower(unit) == "b"@)) || (i == 1 && (ascii_lower(unit) == "k"@ || ascii_lower(unit) == "kb"@ || ascii_lower(unit) == "ki"@ || ascii_lower(unit) == "kib"@)) || (i == 2 && (ascii_lower(unit) == "m"@ || ascii_lower(unit) == "mb"@ || ascii_lower(unit) == "mi"@ || ascii_lower(unit) == "mib"@)) || (i == 3 && (ascii_lower(unit) == "g"@ || ascii_lower(unit) == "gb"@ || ascii_lower(unit) == "gi"@ || ascii_lower(unit) == "gib"@)) || (i == 4 && (ascii_lower(unit) == "t"@ || ascii_lower(unit) == "tb"@ || ascii_lower(unit) == "ti"@ || ascii_lower(unit) == "tib"@)),
        forall|k: int| 0 <= k < unit.len() ==> is_ascii_letter(#[trigger] unit[k]),
        n * vstd::arithmetic::power::pow(1024, i) <= u64::MAX,
    ensures
        parse_size_spec(decimal(n) + unit) == Ok::<u64, Seq<char>>(
            (n * vstd::arithmetic::power::pow(1024, i)) as u64,
        ),
{
    reveal_strlit("");
    reveal_strlit("b");
    reveal_strlit("k");
    reveal_strlit("kb");
    reveal_strlit("ki");
    reveal_strlit("kib");
    reveal_strlit("m");
    reveal_strlit("mb");
    reveal_strlit("mi");
    reveal_strlit("mib");
    reveal_strlit("g");
    reveal_strlit("gb");
    reveal_strlit("gi");
    reveal_strlit("gib");
    reveal_strlit("t");
    reveal_strlit("tb");
    reveal_strlit("ti");
    reveal_strlit("tib");
    assert(""@.len() == 0);
    assert("b"@.len() == 1 && "b"@[0] == 'b');
    assert("k"@.len() == 1 && "k"@[0] == 'k');
    assert("kb"@.len() == 2 && "kb"@[0] == 'k' && "kb"@[1] == 'b');
    assert("ki"@.len() == 2 && "ki"@[0] == 'k' && "ki"@[1] == 'i');
    assert("kib"@.len() == 3 && "kib"@[0] == 'k' && "kib"@[1] == 'i' && "kib"@[2] == 'b');
    assert("m"@.len() == 1 && "m"@[0] == 'm');
    assert("mb"@.len() == 2 && "mb"@[0] == 'm' && "mb"@[1] == 'b');
    assert("mi"@.len() == 2 && "mi"@[0] == 'm' && "mi"@[1] == 'i');
    assert("mib"@.len() == 3 && "mib"@[0] == 'm' && "mib"@[1] == 'i' && "mib"@[2] == 'b');
    assert("g"@.len() == 1 && "g"@[0] == 'g');
    assert("gb"@.len() == 2 && "gb"@[0] == 'g' && "gb"@[1] == 'b');
    assert("gi"@.len() == 2 && "gi"@[0] == 'g' && "gi"@[1] == 'i');
    assert("gib"@.len() == 3 && "gib"@[0] == 'g' && "gib"@[1] == 'i' && "gib"@[2] == 'b');
    assert("t"@.len() == 1 && "t"@[0] == 't');
    assert("tb"@.len() == 2 && "tb"@[0] == 't' && "tb"@[1] == 'b');
    assert("ti"@.len() == 2 && "ti"@[0] == 't' && "ti"@[1] == 'i');
    assert("tib"@.len() == 3 && "tib"@[0] == 't' && "tib"@[1] == 'i' && "tib"@[2] == 'b');
    let u = ascii_lower(unit);
    assert(u.len() == 0 || (u[0] == u[0] && (u.len() < 2 || (u[1] == u[1] && (u.len() < 3 || u[2] == u[2])))));
    reveal_with_fuel(vstd::arithmetic::power::pow, 5);
    assert(vstd::arithmetic::power::pow(1024, 0) == 1);
    assert(vstd::arithmetic::power::pow(1024, 1) == 1024);
    assert(vstd::arithmetic::power::pow(1024, 2) == 1048576);
    assert(vstd::arithmetic::power::pow(1024, 3) == 1073741824);
    assert(vstd::arithmetic::power::pow(1024, 4) == 1099511627776);
    let m: u64 = if i == 0 {
        1
    } else if i == 1 {
        1024
    } else if i == 2 {
        1048576
    } else if i == 3 {
        1073741824
    } else {
        1099511627776
    };
    assert(size_multiplier(ascii_lower(unit)) == Some(m));
    law_size_with_unit(n, unit, m);
}

} // verus!
