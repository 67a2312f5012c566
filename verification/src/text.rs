//! Text helpers: building strings from characters and decimal numbers.
use vstd::prelude::*;
use vstd::string::StringSliceAdditionalSpecFns;
use vstd::utf8::{encode_utf8, decode_utf8, is_char_boundary, valid_utf8, encode_utf8_valid_utf8,
    encode_utf8_decode_utf8, is_char_boundary_iff_not_is_continuation_byte,
    is_char_boundary_start_end_of_seq, valid_utf8_split, is_ascii_chars, is_ascii_chars_encode_utf8,
    encode_scalar};

verus! {

/// `String::push` appends one character to the end of the string.
pub assume_specification[ std::string::String::push ](s: &mut std::string::String, ch: char)
    ensures
        final(s)@ == old(s)@.push(ch),
;

/// The character of a decimal digit `d` (`0 <= d < 10`).
pub open spec fn digit_char(d: nat) -> char {
    if d == 0 { '0' }
    else if d == 1 { '1' }
    else if d == 2 { '2' }
    else if d == 3 { '3' }
    else if d == 4 { '4' }
    else if d == 5 { '5' }
    else if d == 6 { '6' }
    else if d == 7 { '7' }
    else if d == 8 { '8' }
    else { '9' }
}

/// The decimal notation of `n`, most significant digit first, with no
/// leading zeros (zero is written `0`).
pub open spec fn decimal(n: nat) -> Seq<char>
    decreases n,
{
    if n < 10 {
        seq![digit_char(n)]
    } else {
        decimal(n / 10).push(digit_char(n % 10))
    }
}

fn digit_to_char(d: u64) -> (c: char)
    requires
        d < 10,
    ensures
        c == digit_char(d as nat),
{
    if d == 0 { '0' }
    else if d == 1 { '1' }
    else if d == 2 { '2' }
    else if d == 3 { '3' }
    else if d == 4 { '4' }
    else if d == 5 { '5' }
    else if d == 6 { '6' }
    else if d == 7 { '7' }
    else if d == 8 { '8' }
    else { '9' }
}

/// Appends the decimal notation of `n` to `s`.
pub fn push_decimal(s: &mut String, n: u64)
    ensures
        final(s)@ == old(s)@ + decimal(n as nat),
    decreases n,
{
    if n >= 10 {
        push_decimal(s, n / 10);
    }
    let c = digit_to_char(n % 10);
    s.push(c);
    proof {
        if n >= 10 {
            assert(old(s)@ + decimal(n as nat) =~= old(s)@ + decimal((n / 10) as nat) + seq![c]);
        } else {
            assert(old(s)@ + decimal(n as nat) =~= old(s)@.push(c));
        }
    }
}

/// Whether `c` is a decimal digit.
pub open spec fn is_decimal_digit(c: char) -> bool {
    '0' <= c && c <= '9'
}

/// Whether every character of `d` is a decimal digit.
pub open spec fn all_digits(d: Seq<char>) -> bool {
    forall|i: int| 0 <= i < d.len() ==> is_decimal_digit(#[trigger] d[i])
}

/// The number that the decimal digits `d` spell (0 for no digits).
pub open spec fn digits_value(d: Seq<char>) -> int
    decreases d.len(),
{
    if d.len() == 0 {
        0
    } else {
        digits_value(d.drop_last()) * 10 + (d.last() as int - '0' as int)
    }
}

/// What `str::parse::<i64>` gives for the text `t`: an optional `+` or `-`,
/// then one or more decimal digits, whose value must fit in `i64`.
pub open spec fn parse_i64(t: Seq<char>) -> Option<i64> {
    let signed = t.len() > 0 && (t[0] == '+' || t[0] == '-');
    let negative = t.len() > 0 && t[0] == '-';
    let d = if signed { t.drop_first() } else { t };
    if d.len() == 0 || !all_digits(d) {
        None
    } else {
        let v = if negative { -digits_value(d) } else { digits_value(d) };
        if i64::MIN <= v <= i64::MAX { Some(v as i64) } else { None }
    }
}

/// The end of the run of decimal digits in `t` that starts at `i`.
pub open spec fn digits_end(t: Seq<char>, i: int) -> int
    decreases t.len() - i,
{
    if 0 <= i < t.len() && is_decimal_digit(t[i]) {
        digits_end(t, i + 1)
    } else {
        i
    }
}

pub open spec fn is_sign(c: char) -> bool {
    c == '+' || c == '-'
}

/// Whether `t` from `s` on is the word `lower`, each letter in lower case or
/// in the upper case `upper` gives.
pub open spec fn word_at(t: Seq<char>, s: int, lower: Seq<char>, upper: Seq<char>) -> bool {
    &&& t.len() - s == lower.len()
    &&& forall|i: int| 0 <= i < lower.len() ==> t[s + i] == lower[i] || t[s + i] == upper[i]
}

/// Whether `t` from `s` on is `inf`, `infinity` or `nan`, in any case.
pub open spec fn special_float_at(t: Seq<char>, s: int) -> bool {
    ||| word_at(t, s, seq!['i', 'n', 'f'], seq!['I', 'N', 'F'])
    ||| word_at(t, s, seq!['i', 'n', 'f', 'i', 'n', 'i', 't', 'y'], seq!['I', 'N', 'F', 'I', 'N', 'I', 'T', 'Y'])
    ||| word_at(t, s, seq!['n', 'a', 'n'], seq!['N', 'A', 'N'])
}

/// Whether `t` from `j` on is the rest of an exponent after its `e`: an
/// optional sign, then one or more digits.
pub open spec fn exponent_at(t: Seq<char>, j: int) -> bool {
    let k = if j < t.len() && is_sign(t[j]) { j + 1 } else { j };
    k < t.len() && digits_end(t, k) == t.len()
}

/// Whether `t` from `s` on is a decimal number: digits, optionally a `.`
/// and more digits, with at least one digit in all, then optionally an
/// exponent (`e` or `E`, an optional sign, one or more digits).
pub open spec fn float_number_at(t: Seq<char>, s: int) -> bool {
    let a = digits_end(t, s);
    let has_dot = a < t.len() && t[a] == '.';
    let b = if has_dot { digits_end(t, a + 1) } else { a };
    let digits = (a - s) + if has_dot { b - (a + 1) } else { 0 };
    &&& digits >= 1
    &&& (b == t.len() || ((t[b] == 'e' || t[b] == 'E') && exponent_at(t, b + 1)))
}

/// Whether `str::parse::<f64>` accepts `t`, as its documentation gives the
/// grammar: an optional `+` or `-`, then `inf`, `infinity` or `nan` in any
/// case, or a decimal number with an optional exponent.
pub open spec fn parses_as_f64(t: Seq<char>) -> bool {
    let s = if t.len() > 0 && is_sign(t[0]) { 1int } else { 0int };
    special_float_at(t, s) || float_number_at(t, s)
}

proof fn lemma_digit_char(d: nat)
    requires
        d < 10,
    ensures
        digit_char(d) as int - '0' as int == d,
        is_decimal_digit(digit_char(d)),
{
}

proof fn lemma_decimal_digits(n: nat)
    ensures
        decimal(n).len() >= 1,
        all_digits(decimal(n)),
        digits_value(decimal(n)) == n,
    decreases n,
{
    lemma_digit_char(n % 10);
    if n < 10 {
        let d = decimal(n);
        assert(d.drop_last() =~= Seq::<char>::empty());
        assert(n % 10 == n);
        assert(d.last() == digit_char(n));
        assert(digits_value(d) == digits_value(d.drop_last()) * 10 + (d.last() as int - '0' as int));
    } else {
        assert(n == (n / 10) * 10 + n % 10);
        lemma_decimal_digits(n / 10);
        let d = decimal(n);
        assert(d.drop_last() =~= decimal(n / 10));
        assert(d.last() == digit_char(n % 10));
        assert(digits_value(d) == digits_value(d.drop_last()) * 10 + (d.last() as int - '0' as int));
        assert forall|i: int| 0 <= i < d.len() implies is_decimal_digit(#[trigger] d[i]) by {
            if i < d.len() - 1 {
                assert(d[i] == decimal(n / 10)[i]);
            }
        }
    }
}

/// The decimal notation of a number that fits in `i64` parses back to it.
pub proof fn lemma_decimal_parses(n: u64)
    requires
        n <= i64::MAX,
    ensures
        parse_i64(decimal(n as nat)) == Some(n as i64),
{
    lemma_decimal_digits(n as nat);
    let d = decimal(n as nat);
    assert(is_decimal_digit(d[0]));
}

/// `str::parse::<i64>` on decimal notation: the digits of `n`, alone or
/// after a `+`, give `n` where it fits in `i64` and nothing otherwise; after
/// a `-` they give `-n` where that fits, and nothing otherwise; and a
/// character that is no digit after them makes the text no number.
pub proof fn lemma_signed_decimal_parses(n: nat, c: char)
    ensures
        parse_i64(decimal(n)) == if n <= i64::MAX { Some(n as i64) } else { None },
        parse_i64(seq!['+'] + decimal(n)) == if n <= i64::MAX { Some(n as i64) } else { None },
        parse_i64(seq!['-'] + decimal(n)) == if n <= 0x8000_0000_0000_0000 { Some((-n) as i64) } else { None },
        !('0' <= c <= '9') ==> parse_i64(decimal(n).push(c)) is None,
{
    lemma_decimal_digits(n);
    let d = decimal(n);
    assert(is_decimal_digit(d[0]));
    assert((seq!['+'] + d).drop_first() =~= d);
    assert((seq!['-'] + d).drop_first() =~= d);
    let e = d.push(c);
    assert(e[0] == d[0]);
    if !('0' <= c <= '9') {
        assert(!is_decimal_digit(e[e.len() - 1]));
    }
}

proof fn lemma_digits_value_nonneg(d: Seq<char>)
    requires
        all_digits(d),
    ensures
        digits_value(d) >= 0,
    decreases d.len(),
{
    if d.len() > 0 {
        assert(all_digits(d.drop_last()));
        lemma_digits_value_nonneg(d.drop_last());
        assert(is_decimal_digit(d[d.len() - 1]));
    }
}

/// Adding digits at the end never makes the value smaller.
proof fn lemma_digits_value_prefix(d: Seq<char>, k: int)
    requires
        all_digits(d),
        0 <= k <= d.len(),
    ensures
        digits_value(d.take(k)) <= digits_value(d),
    decreases d.len(),
{
    if k < d.len() {
        assert(all_digits(d.drop_last()));
        lemma_digits_value_prefix(d.drop_last(), k);
        assert(d.drop_last().take(k) =~= d.take(k));
        lemma_digits_value_nonneg(d.drop_last());
        assert(is_decimal_digit(d[d.len() - 1]));
    } else {
        assert(d.take(k) =~= d);
    }
}

/// Parses the text `t` as `str::parse::<i64>` does.
pub fn parse_i64_of(t: &Vec<char>) -> (r: Option<i64>)
    ensures
        r == parse_i64(t@),
{
    let n = t.len();
    if n == 0 {
        return None;
    }
    let signed = t[0] == '+' || t[0] == '-';
    let negative = t[0] == '-';
    let first: usize = if signed { 1 } else { 0 };
    let ghost d = if signed { t@.drop_first() } else { t@ };
    assert(d =~= t@.subrange(first as int, n as int));
    if first == n {
        return None;
    }
    let limit: u128 = 0x8000_0000_0000_0000;
    let mut acc: u128 = 0;
    let mut i = first;
    while i < n
        invariant
            first <= i <= n == t@.len(),
            d =~= t@.subrange(first as int, n as int),
            all_digits(d.take(i - first)),
            acc as int == digits_value(d.take(i - first)),
            acc <= limit,
            limit == 0x8000_0000_0000_0000u128,
            signed == (t@[0] == '+' || t@[0] == '-'),
            d == (if signed { t@.drop_first() } else { t@ }),
        decreases n - i,
    {
        let c = t[i];
        if !('0' <= c && c <= '9') {
            proof {
                assert(d[i - first] == c);
                assert(!is_decimal_digit(d[i - first]));
                assert(!all_digits(d));
            }
            return None;
        }
        let v: u128 = if c == '0' { 0 } else if c == '1' { 1 } else if c == '2' { 2 } else if c == '3' { 3 }
            else if c == '4' { 4 } else if c == '5' { 5 } else if c == '6' { 6 } else if c == '7' { 7 }
            else if c == '8' { 8 } else { 9 };
        proof {
            let k = i - first;
            assert(d.take(k + 1).drop_last() =~= d.take(k));
            assert(d.take(k + 1).last() == c);
            assert(all_digits(d.take(k + 1))) by {
                assert forall|j: int| 0 <= j < k + 1 implies is_decimal_digit(#[trigger] d.take(k + 1)[j]) by {
                    if j < k {
                        assert(d.take(k + 1)[j] == d.take(k)[j]);
                    }
                }
            }
        }
        acc = acc * 10 + v;
        i += 1;
        if acc > limit {
            proof {
                let k = i - first;
                if all_digits(d) {
                    lemma_digits_value_prefix(d, k);
                }
            }
            return None;
        }
    }
    assert(d.take(n - first) =~= d);
    if negative {
        Some((0i128 - acc as i128) as i64)
    } else if acc == limit {
        None
    } else {
        Some(acc as i64)
    }
}

/// The end of the run of digits in `t` that starts at `i`.
fn digits_end_of(t: &Vec<char>, i: usize) -> (r: usize)
    requires
        i <= t@.len(),
    ensures
        r as int == digits_end(t@, i as int),
        i <= r <= t@.len(),
{
    let mut j = i;
    while j < t.len() && '0' <= t[j] && t[j] <= '9'
        invariant
            i <= j <= t@.len(),
            digits_end(t@, j as int) == digits_end(t@, i as int),
        decreases t@.len() - j,
    {
        j += 1;
    }
    j
}

/// Whether `t` from `s` on is the word `lower`, in any case.
fn word_at_of(t: &Vec<char>, s: usize, lower: &Vec<char>, upper: &Vec<char>) -> (r: bool)
    requires
        s <= t@.len(),
        lower@.len() == upper@.len(),
    ensures
        r == word_at(t@, s as int, lower@, upper@),
{
    if t.len() - s != lower.len() {
        return false;
    }
    let mut i: usize = 0;
    while i < lower.len()
        invariant
            s <= t@.len(),
            lower@.len() == upper@.len(),
            t@.len() - s == lower@.len(),
            s + lower@.len() == t.len(),
            i <= lower@.len(),
            forall|k: int| 0 <= k < i ==> t@[s + k] == lower@[k] || t@[s + k] == upper@[k],
        decreases lower@.len() - i,
    {
        if t[s + i] != lower[i] && t[s + i] != upper[i] {
            return false;
        }
        i += 1;
    }
    true
}

/// Whether `str::parse::<f64>` accepts the characters `t`.
pub fn parses_as_f64_of(t: &Vec<char>) -> (r: bool)
    ensures
        r == parses_as_f64(t@),
{
    let n = t.len();
    let s: usize = if n > 0 && (t[0] == '+' || t[0] == '-') { 1 } else { 0 };
    let inf_lower = vec!['i', 'n', 'f'];
    let inf_upper = vec!['I', 'N', 'F'];
    let infinity_lower = vec!['i', 'n', 'f', 'i', 'n', 'i', 't', 'y'];
    let infinity_upper = vec!['I', 'N', 'F', 'I', 'N', 'I', 'T', 'Y'];
    let nan_lower = vec!['n', 'a', 'n'];
    let nan_upper = vec!['N', 'A', 'N'];
    if word_at_of(t, s, &inf_lower, &inf_upper) || word_at_of(t, s, &infinity_lower, &infinity_upper)
        || word_at_of(t, s, &nan_lower, &nan_upper) {
        return true;
    }
    assert(!special_float_at(t@, s as int));
    let a = digits_end_of(t, s);
    let has_dot = a < n && t[a] == '.';
    let b = if has_dot { digits_end_of(t, a + 1) } else { a };
    let digits = (a - s) + if has_dot { b - (a + 1) } else { 0 };
    if digits < 1 {
        return false;
    }
    if b == n {
        return true;
    }
    if t[b] != 'e' && t[b] != 'E' {
        return false;
    }
    let j = b + 1;
    let k = if j < n && (t[j] == '+' || t[j] == '-') { j + 1 } else { j };
    if k >= n {
        return false;
    }
    digits_end_of(t, k) == n
}

/// The characters of `s`.
pub fn chars_of(s: &str) -> (v: Vec<char>)
    ensures
        v@ == s@,
{
    let n = s.unicode_len();
    let mut v: Vec<char> = Vec::new();
    let mut i: usize = 0;
    while i < n
        invariant
            n == s@.len(),
            i <= n,
            v@ == s@.subrange(0, i as int),
        decreases n - i,
    {
        v.push(s.get_char(i));
        i += 1;
        assert(v@ =~= s@.subrange(0, i as int));
    }
    assert(v@ =~= s@);
    v
}

// ---------------------------------------------------------------------------
// Text between two byte offsets of a string

/// Whether the byte offsets `from` and `to` both fall on character
/// boundaries of the UTF-8 encoding of `s`.
pub open spec fn byte_slice_ok(s: Seq<char>, from: int, to: int) -> bool {
    is_char_boundary(encode_utf8(s), from) && is_char_boundary(encode_utf8(s), to)
}

/// The characters that the bytes from offset `from` to offset `to` of the
/// UTF-8 encoding of `s` encode.
pub open spec fn byte_slice(s: Seq<char>, from: int, to: int) -> Seq<char> {
    decode_utf8(encode_utf8(s).subrange(from, to))
}

/// The first of `from` and `to` that is not a character boundary.
pub open spec fn first_bad_offset(s: Seq<char>, from: int, to: int) -> int {
    if !is_char_boundary(encode_utf8(s), from) { from } else { to }
}

proof fn lemma_encode_utf8_len(s: Seq<char>)
    ensures
        encode_utf8(s).len() >= s.len(),
    decreases s.len(),
{
    if s.len() > 0 {
        lemma_encode_utf8_len(s.drop_first());
        assert(encode_scalar(s[0] as u32).len() >= 1);
    }
}

proof fn lemma_prefix_boundary(b: Seq<u8>, from: int, to: int)
    requires
        valid_utf8(b),
        is_char_boundary(b, from),
        is_char_boundary(b, to),
        0 <= from <= to,
    ensures
        to <= b.len(),
        valid_utf8(b.subrange(0, to)),
        is_char_boundary(b.subrange(0, to), from),
{
    valid_utf8_split(b, to);
    let p = b.subrange(0, to);
    is_char_boundary_start_end_of_seq(p);
    if from < to {
        is_char_boundary_iff_not_is_continuation_byte(b, from);
        is_char_boundary_iff_not_is_continuation_byte(p, from);
        assert(p[from] == b[from]);
    }
}

/// On ASCII text every byte offset is a character boundary, and the text
/// between two offsets is the characters between the same indices.
pub proof fn lemma_ascii_byte_slice(s: Seq<char>, from: int, to: int)
    requires
        is_ascii_chars(s),
        0 <= from <= to <= s.len(),
    ensures
        byte_slice_ok(s, from, to),
        byte_slice(s, from, to) == s.subrange(from, to),
{
    let b = encode_utf8(s);
    is_ascii_chars_encode_utf8(s);
    encode_utf8_valid_utf8(s);
    is_char_boundary_start_end_of_seq(b);
    assert forall|i: int| 0 <= i < b.len() implies is_char_boundary(b, i) by {
        is_char_boundary_iff_not_is_continuation_byte(b, i);
        let c = s[i];
        assert('\0' <= c <= '\u{7f}');
        assert(b[i] == c as u8);
    }
    let t = s.subrange(from, to);
    assert(is_ascii_chars(t));
    is_ascii_chars_encode_utf8(t);
    assert(encode_utf8(t) =~= b.subrange(from, to));
    encode_utf8_decode_utf8(t);
}

/// The text between the byte offsets `from` and `to` of `input`, or the
/// first offset that is not a character boundary.
pub fn slice_by_bytes(input: &str, from: usize, to: usize) -> (r: Result<String, usize>)
    requires
        from <= to <= input@.len(),
    ensures
        match r {
            Ok(t) => byte_slice_ok(input@, from as int, to as int) && t@ == byte_slice(input@, from as int, to as int),
            Err(i) => !byte_slice_ok(input@, from as int, to as int) && i == first_bad_offset(input@, from as int, to as int),
        },
{
    proof {
        lemma_encode_utf8_len(input@);
        encode_utf8_valid_utf8(input@);
    }
    if !input.is_char_boundary(from) {
        return Err(from);
    }
    if !input.is_char_boundary(to) {
        return Err(to);
    }
    let ghost b = encode_utf8(input@);
    proof {
        lemma_prefix_boundary(b, from as int, to as int);
    }
    let (head, _) = input.split_at(to);
    let (_, mid) = head.split_at(from);
    proof {
        assert(mid.spec_bytes() =~= b.subrange(from as int, to as int));
        encode_utf8_decode_utf8(mid@);
    }
    Ok(String::from_str(mid))
}

/// A new string holding the characters of `s`.
pub fn string_of_str(s: &str) -> (r: String)
    ensures
        r@ == s@,
{
    String::from_str(s)
}

} // verus!
