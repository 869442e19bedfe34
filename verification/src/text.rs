//! Character-level string utilities: equality, lexicographic order, the
//! textual forms of booleans and 64-bit integers, and the grammar of
//! floating-point literals.

use vstd::prelude::*;

verus! {

/// Distinct characters have distinct code points.
pub proof fn lemma_char_codes_distinct(c1: char, c2: char)
    requires
        c1 != c2,
    ensures
        (c1 as u32) != (c2 as u32),
{
    vstd::utf8::char_u32_cast(c1, c1 as u32);
    vstd::utf8::char_u32_cast(c2, c2 as u32);
}

/// Exact character-wise equality of two string slices.
pub fn str_eq(a: &str, b: &str) -> (r: bool)
    ensures
        r == (a@ == b@),
{
    let alen = a.unicode_len();
    let blen = b.unicode_len();
    if alen != blen {
        proof {
            assert(a@ != b@) by {
                assert(a@.len() != b@.len());
            }
        }
        return false;
    }
    let mut i: usize = 0;
    while i < alen
        invariant
            i <= alen,
            alen == a@.len(),
            alen == b@.len(),
            forall|j: int| 0 <= j < i ==> a@[j] == b@[j],
        decreases alen - i,
    {
        if a.get_char(i) != b.get_char(i) {
            return false;
        }
        i += 1;
    }
    proof {
        assert(a@ =~= b@);
    }
    true
}

/// Lexicographic order on character sequences, by code point.
pub open spec fn lex_le(a: Seq<char>, b: Seq<char>) -> bool
    decreases a.len(),
{
    if a.len() == 0 {
        true
    } else if b.len() == 0 {
        false
    } else if a[0] == b[0] {
        lex_le(a.skip(1), b.skip(1))
    } else {
        (a[0] as u32) < (b[0] as u32)
    }
}

/// Any two character sequences are ordered one way or the other.
pub proof fn lemma_lex_le_total(a: Seq<char>, b: Seq<char>)
    ensures
        lex_le(a, b) || lex_le(b, a),
    decreases a.len(),
{
    if a.len() == 0 || b.len() == 0 {
    } else if a[0] == b[0] {
        lemma_lex_le_total(a.skip(1), b.skip(1));
    } else {
        lemma_char_codes_distinct(a[0], b[0]);
    }
}

/// The order is transitive.
pub proof fn lemma_lex_le_transitive(a: Seq<char>, b: Seq<char>, c: Seq<char>)
    requires
        lex_le(a, b),
        lex_le(b, c),
    ensures
        lex_le(a, c),
    decreases a.len(),
{
    if a.len() == 0 {
    } else {
        assert(b.len() > 0);
        assert(c.len() > 0);
        if a[0] == b[0] {
            if b[0] == c[0] {
                lemma_lex_le_transitive(a.skip(1), b.skip(1), c.skip(1));
            }
        } else {
            lemma_char_codes_distinct(a[0], b[0]);
            if b[0] == c[0] {
            } else {
                lemma_char_codes_distinct(b[0], c[0]);
            }
        }
    }
}

/// Exact character-wise lexicographic comparison of two string slices.
pub fn str_le(a: &str, b: &str) -> (r: bool)
    ensures
        r == lex_le(a@, b@),
{
    let alen = a.unicode_len();
    let blen = b.unicode_len();
    let mut i: usize = 0;
    proof {
        assert(a@.skip(0) =~= a@);
        assert(b@.skip(0) =~= b@);
    }
    loop
        invariant
            i <= alen,
            i <= blen,
            alen == a@.len(),
            blen == b@.len(),
            forall|j: int| 0 <= j < i ==> a@[j] == b@[j],
            lex_le(a@, b@) == lex_le(a@.skip(i as int), b@.skip(i as int)),
        decreases alen - i,
    {
        if i == alen {
            proof {
                assert(a@.skip(i as int).len() == 0);
            }
            return true;
        }
        if i == blen {
            proof {
                assert(b@.skip(i as int).len() == 0);
                assert(a@.skip(i as int).len() > 0);
            }
            return false;
        }
        let ca = a.get_char(i);
        let cb = b.get_char(i);
        if ca != cb {
            proof {
                assert(a@.skip(i as int)[0] == a@[i as int]);
                assert(b@.skip(i as int)[0] == b@[i as int]);
            }
            return (ca as u32) < (cb as u32);
        }
        proof {
            assert(a@.skip(i as int)[0] == a@[i as int]);
            assert(b@.skip(i as int)[0] == b@[i as int]);
            assert(a@.skip(i as int).skip(1) =~= a@.skip(i + 1));
            assert(b@.skip(i as int).skip(1) =~= b@.skip(i + 1));
        }
        i += 1;
    }
}

/// The decimal digit characters, by value.
pub open spec fn digit_char(d: int) -> char {
    if d == 0 {
        '0'
    } else if d == 1 {
        '1'
    } else if d == 2 {
        '2'
    } else if d == 3 {
        '3'
    } else if d == 4 {
        '4'
    } else if d == 5 {
        '5'
    } else if d == 6 {
        '6'
    } else if d == 7 {
        '7'
    } else if d == 8 {
        '8'
    } else {
        '9'
    }
}

pub open spec fn is_digit(c: char) -> bool {
    48 <= (c as u32) <= 57
}

pub open spec fn digit_val(c: char) -> int {
    (c as u32) - 48
}

pub open spec fn all_digits(s: Seq<char>) -> bool {
    forall|i: int| 0 <= i < s.len() ==> is_digit(#[trigger] s[i])
}

/// The decimal digit string of a natural number, most significant first.
pub open spec fn dec_digits(n: nat) -> Seq<char>
    decreases n,
{
    if n < 10 {
        seq![digit_char(n as int)]
    } else {
        dec_digits(n / 10).push(digit_char((n % 10) as int))
    }
}

/// The decimal form of an integer: a minus sign for negatives, no sign
/// otherwise, then the digits without leading zeros.
pub open spec fn int_str(i: int) -> Seq<char> {
    if i < 0 {
        seq!['-'] + dec_digits((-i) as nat)
    } else {
        dec_digits(i as nat)
    }
}

/// The canonical textual forms of the booleans.
pub open spec fn bool_str(b: bool) -> Seq<char> {
    if b {
        seq!['t', 'r', 'u', 'e']
    } else {
        seq!['f', 'a', 'l', 's', 'e']
    }
}

/// The value of a string of decimal digits, read most significant first.
pub open spec fn dec_val(s: Seq<char>) -> int
    decreases s.len(),
{
    if s.len() == 0 {
        0
    } else {
        dec_val(s.drop_last()) * 10 + digit_val(s.last())
    }
}

/// What an optionally signed base-10 integer literal denotes: `None` when
/// the characters are not such a literal or the value needs more than 64
/// signed bits.
pub open spec fn parse_int_str(s: Seq<char>) -> Option<int> {
    let signed = s.len() > 0 && (s[0] == '+' || s[0] == '-');
    let body = if signed {
        s.skip(1)
    } else {
        s
    };
    let neg = s.len() > 0 && s[0] == '-';
    if body.len() == 0 || !all_digits(body) {
        None
    } else {
        let v = if neg {
            -dec_val(body)
        } else {
            dec_val(body)
        };
        if -0x8000000000000000 <= v <= 0x7fffffffffffffff {
            Some(v)
        } else {
            None
        }
    }
}

pub open spec fn spec_parse_i64(s: Seq<char>) -> Option<i64> {
    match parse_int_str(s) {
        Option::None => Option::None,
        Option::Some(v) => Option::Some(v as i64),
    }
}

pub open spec fn spec_parse_bool(s: Seq<char>) -> Option<bool> {
    if s == bool_str(true) {
        Option::Some(true)
    } else if s == bool_str(false) {
        Option::Some(false)
    } else {
        Option::None
    }
}

pub proof fn lemma_dec_val_nonneg(s: Seq<char>)
    requires
        all_digits(s),
    ensures
        dec_val(s) >= 0,
    decreases s.len(),
{
    if s.len() > 0 {
        assert(all_digits(s.drop_last())) by {
            assert(forall|i: int|
                0 <= i < s.drop_last().len() ==> s.drop_last()[i] == #[trigger] s[i]);
        }
        lemma_dec_val_nonneg(s.drop_last());
        assert(is_digit(s.last()));
    }
}

/// A digit string is worth at least any of its prefixes.
pub proof fn lemma_dec_val_prefix(s: Seq<char>, i: int)
    requires
        all_digits(s),
        0 <= i <= s.len(),
    ensures
        dec_val(s.take(i)) <= dec_val(s),
    decreases s.len() - i,
{
    if i < s.len() {
        lemma_dec_val_prefix(s, i + 1);
        let t = s.take(i + 1);
        assert(t.drop_last() =~= s.take(i));
        assert(t.last() == s[i]);
        assert(all_digits(s.take(i))) by {
            assert(forall|j: int| 0 <= j < i ==> s.take(i)[j] == #[trigger] s[j]);
        }
        lemma_dec_val_nonneg(s.take(i));
        assert(is_digit(s[i]));
        assert(dec_val(t) == dec_val(s.take(i)) * 10 + digit_val(s[i]));
        assert(dec_val(s.take(i)) <= dec_val(t));
    } else {
        assert(s.take(i) =~= s);
    }
}

pub proof fn lemma_dec_digits_are_digits(n: nat)
    ensures
        all_digits(dec_digits(n)),
        dec_digits(n).len() >= 1,
        is_digit(dec_digits(n)[0]),
    decreases n,
{
    if n < 10 {
        assert(is_digit(digit_char(n as int)));
    } else {
        lemma_dec_digits_are_digits(n / 10);
        let prev = dec_digits(n / 10);
        let whole = prev.push(digit_char((n % 10) as int));
        assert(is_digit(digit_char((n % 10) as int)));
        assert(forall|i: int| 0 <= i < prev.len() ==> whole[i] == #[trigger] prev[i]);
        assert(whole[whole.len() - 1] == digit_char((n % 10) as int));
    }
}

pub proof fn lemma_dec_val_of_digits(n: nat)
    ensures
        dec_val(dec_digits(n)) == n,
    decreases n,
{
    if n < 10 {
        let s = seq![digit_char(n as int)];
        assert(s.drop_last() =~= Seq::<char>::empty());
        assert(s.last() == digit_char(n as int));
        assert(digit_val(digit_char(n as int)) == n);
        assert(dec_val(Seq::<char>::empty()) == 0);
        assert(dec_val(s) == 0 * 10 + digit_val(digit_char(n as int)));
    } else {
        lemma_dec_val_of_digits(n / 10);
        let prev = dec_digits(n / 10);
        let whole = prev.push(digit_char((n % 10) as int));
        assert(whole.drop_last() =~= prev);
        assert(whole.last() == digit_char((n % 10) as int));
        assert(digit_val(digit_char((n % 10) as int)) == n % 10);
        vstd::arithmetic::div_mod::lemma_fundamental_div_mod(n as int, 10);
        assert(dec_val(whole) == (n / 10) * 10 + (n % 10));
    }
}

/// Rendering an integer and reading the text back yields the integer.
pub proof fn lemma_int_round_trip(n: i64)
    ensures
        spec_parse_i64(int_str(n as int)) == Some(n),
{
    if n >= 0 {
        let s = dec_digits(n as nat);
        lemma_dec_digits_are_digits(n as nat);
        lemma_dec_val_of_digits(n as nat);
        assert(s[0] != '+' && s[0] != '-') by {
            assert(is_digit(s[0]));
        }
        assert(parse_int_str(s) == Some(n as int));
    } else {
        let m = (-(n as int)) as nat;
        let digits = dec_digits(m);
        let s = seq!['-'] + digits;
        lemma_dec_digits_are_digits(m);
        lemma_dec_val_of_digits(m);
        assert(s[0] == '-');
        assert(s.skip(1) =~= digits);
        assert(parse_int_str(s) == Some(n as int));
    }
}

/// Rendering a boolean and reading the text back yields the boolean.
pub proof fn lemma_bool_round_trip(b: bool)
    ensures
        spec_parse_bool(bool_str(b)) == Some(b),
{
    assert(bool_str(true).len() == 4);
    assert(bool_str(false).len() == 5);
}

/// Converts an optionally signed base-10 literal, exactly as
/// [`parse_int_str`] describes.
pub fn parse_i64(s: &str) -> (r: Option<i64>)
    ensures
        r == spec_parse_i64(s@),
{
    let len = s.unicode_len();
    if len == 0 {
        return None;
    }
    let c0 = s.get_char(0);
    let neg = c0 == '-';
    let signed = neg || c0 == '+';
    let start: usize = if signed {
        1
    } else {
        0
    };
    let ghost body = if signed {
        s@.skip(1)
    } else {
        s@
    };
    proof {
        if !signed {
            assert(body =~= s@.skip(0));
        }
    }
    if start == len {
        return None;
    }
    let limit: u64 = if neg {
        9223372036854775808
    } else {
        9223372036854775807
    };
    let mut acc: u64 = 0;
    let mut i: usize = start;
    proof {
        assert(body.take(0) =~= Seq::<char>::empty());
    }
    while i < len
        invariant
            start <= i <= len,
            start <= 1,
            len == s@.len(),
            len > 0,
            (start == 1) == (s@.len() > 0 && (s@[0] == '+' || s@[0] == '-')),
            neg == (s@.len() > 0 && s@[0] == '-'),
            body == if start == 1 {
                s@.skip(1)
            } else {
                s@
            },
            body.len() == len - start,
            forall|j: int| 0 <= j < body.len() ==> body[j] == s@[j + start],
            all_digits(body.take(i - start)),
            acc == dec_val(body.take(i - start)),
            acc <= limit,
            limit == if neg {
                9223372036854775808u64
            } else {
                9223372036854775807u64
            },
        decreases len - i,
    {
        let c = s.get_char(i);
        let cu = c as u32;
        if cu < 48 || cu > 57 {
            proof {
                assert(body[i - start] == s@[i as int]);
                assert(!is_digit(body[i - start]));
            }
            return None;
        }
        let d: u64 = (cu - 48) as u64;
        proof {
            let t = body.take(i - start + 1);
            assert(t.drop_last() =~= body.take(i - start));
            assert(t.last() == body[i - start]);
            assert(body[i - start] == s@[i as int]);
            assert(digit_val(s@[i as int]) == d);
            assert(dec_val(t) == acc * 10 + d);
        }
        let next: u128 = (acc as u128) * 10 + (d as u128);
        if next > limit as u128 {
            proof {
                if all_digits(body) {
                    lemma_dec_val_prefix(body, i - start + 1);
                    assert(dec_val(body) > limit);
                }
            }
            return None;
        }
        acc = next as u64;
        i += 1;
    }
    proof {
        assert(body.take(i - start) =~= body);
    }
    if neg {
        if acc == 9223372036854775808 {
            Some(i64::MIN)
        } else {
            Some(-(acc as i64))
        }
    } else {
        Some(acc as i64)
    }
}

/// Accepts exactly `"true"` and `"false"`.
pub fn parse_bool(s: &str) -> (r: Option<bool>)
    ensures
        r == spec_parse_bool(s@),
{
    proof {
        reveal_strlit("true");
        reveal_strlit("false");
        assert("true"@ =~= bool_str(true));
        assert("false"@ =~= bool_str(false));
    }
    if str_eq(s, "true") {
        Some(true)
    } else if str_eq(s, "false") {
        Some(false)
    } else {
        None
    }
}

fn digit_str(d: u64) -> (r: &'static str)
    requires
        d < 10,
    ensures
        r@ == seq![digit_char(d as int)],
{
    proof {
        reveal_strlit("0");
        reveal_strlit("1");
        reveal_strlit("2");
        reveal_strlit("3");
        reveal_strlit("4");
        reveal_strlit("5");
        reveal_strlit("6");
        reveal_strlit("7");
        reveal_strlit("8");
        reveal_strlit("9");
    }
    let r: &'static str = match d {
        0 => "0",
        1 => "1",
        2 => "2",
        3 => "3",
        4 => "4",
        5 => "5",
        6 => "6",
        7 => "7",
        8 => "8",
        _ => "9",
    };
    proof {
        assert(r@ =~= seq![digit_char(d as int)]);
    }
    r
}

fn render_u64(n: u64) -> (r: String)
    ensures
        r@ == dec_digits(n as nat),
    decreases n,
{
    if n < 10 {
        digit_str(n).to_owned()
    } else {
        let mut prefix = render_u64(n / 10);
        prefix.append(digit_str(n % 10));
        proof {
            assert(prefix@ =~= dec_digits(n as nat));
        }
        prefix
    }
}

/// Renders an integer in decimal, exactly as [`int_str`] describes.
pub fn render_i64(n: i64) -> (r: String)
    ensures
        r@ == int_str(n as int),
{
    if n >= 0 {
        render_u64(n as u64)
    } else {
        let m: u64 = if n == i64::MIN {
            9223372036854775808
        } else {
            (-n) as u64
        };
        proof {
            assert(m as nat == -(n as int));
        }
        let mut out = "-".to_owned();
        let digits = render_u64(m);
        out.append(digits.as_str());
        proof {
            reveal_strlit("-");
            assert(out@ =~= int_str(n as int));
        }
        out
    }
}

/// Renders a boolean as `"true"` or `"false"`.
pub fn render_bool(b: bool) -> (r: &'static str)
    ensures
        r@ == bool_str(b),
{
    proof {
        reveal_strlit("true");
        reveal_strlit("false");
        assert("true"@ =~= bool_str(true));
        assert("false"@ =~= bool_str(false));
    }
    if b {
        "true"
    } else {
        "false"
    }
}

// ------------------------------------------------------------------------
// The grammar of floating-point literals, as the standard library's
// float-from-string conversion documents it:
//
//     Float  ::= Sign? ( 'inf' | 'infinity' | 'nan' | Number )
//     Number ::= Count '.'? Count? Exp?
//             |  '.' Count Exp?
//     Exp    ::= ('e' | 'E') Sign? Count
//     Count  ::= Digit+
//
// with the keywords matched case-insensitively. A float parameter carries
// its literal text, and this grammar decides whether a string is accepted
// for one.
/// Whether `c` is `l` or its ASCII uppercase form; `l` is a lowercase
/// ASCII letter.
pub open spec fn matches_ci(c: char, l: char) -> bool {
    c == l || (c as u32) + 32 == (l as u32)
}

/// Case-insensitive match of `s` against a lowercase keyword.
pub open spec fn matches_keyword(s: Seq<char>, kw: Seq<char>) -> bool {
    s.len() == kw.len() && forall|i: int| 0 <= i < s.len() ==> matches_ci(#[trigger] s[i], kw[i])
}

pub open spec fn strip_sign(s: Seq<char>) -> Seq<char> {
    if s.len() > 0 && (s[0] == '+' || s[0] == '-') {
        s.skip(1)
    } else {
        s
    }
}

/// Digits with at most one decimal point, and at least one digit.
pub open spec fn is_mantissa(s: Seq<char>) -> bool {
    &&& forall|i: int| 0 <= i < s.len() ==> is_digit(#[trigger] s[i]) || s[i] == '.'
    &&& exists|i: int| 0 <= i < s.len() && is_digit(#[trigger] s[i])
    &&& forall|i: int, j: int|
        0 <= i < j < s.len() ==> !(#[trigger] s[i] == '.' && #[trigger] s[j] == '.')
}

/// An optionally signed nonempty digit string.
pub open spec fn is_exp_body(s: Seq<char>) -> bool {
    strip_sign(s).len() > 0 && all_digits(strip_sign(s))
}

pub open spec fn is_exp_marker(c: char) -> bool {
    c == 'e' || c == 'E'
}

/// The index of the first exponent marker, or -1 when there is none.
pub open spec fn first_exp_pos(s: Seq<char>) -> int
    decreases s.len(),
{
    if s.len() == 0 {
        -1
    } else if is_exp_marker(s[0]) {
        0
    } else if first_exp_pos(s.skip(1)) < 0 {
        -1
    } else {
        first_exp_pos(s.skip(1)) + 1
    }
}

pub open spec fn is_number(s: Seq<char>) -> bool {
    let p = first_exp_pos(s);
    if p < 0 {
        is_mantissa(s)
    } else {
        is_mantissa(s.take(p)) && is_exp_body(s.skip(p + 1))
    }
}

/// Whether the characters form a floating-point literal.
pub open spec fn is_float_literal(s: Seq<char>) -> bool {
    let b = strip_sign(s);
    ||| matches_keyword(b, seq!['i', 'n', 'f'])
    ||| matches_keyword(b, seq!['i', 'n', 'f', 'i', 'n', 'i', 't', 'y'])
    ||| matches_keyword(b, seq!['n', 'a', 'n'])
    ||| is_number(b)
}

/// Case-insensitive comparison against a lowercase keyword.
fn matches_kw(s: &str, kw: &str) -> (r: bool)
    ensures
        r == matches_keyword(s@, kw@),
{
    let slen = s.unicode_len();
    let klen = kw.unicode_len();
    if slen != klen {
        return false;
    }
    let mut i: usize = 0;
    while i < slen
        invariant
            i <= slen,
            slen == s@.len(),
            slen == kw@.len(),
            forall|j: int| 0 <= j < i ==> matches_ci(#[trigger] s@[j], kw@[j]),
        decreases slen - i,
    {
        let cu = s.get_char(i) as u32;
        let lu = kw.get_char(i) as u32;
        if !(cu == lu || (lu >= 32 && cu == lu - 32)) {
            return false;
        }
        i += 1;
    }
    true
}

/// Checks the whole slice against [`is_mantissa`].
fn is_mantissa_text(s: &str) -> (r: bool)
    ensures
        r == is_mantissa(s@),
{
    let len = s.unicode_len();
    let mut saw_digit = false;
    let mut saw_dot = false;
    let ghost mut digit_at: int = 0;
    let ghost mut dot_at: int = 0;
    let mut i: usize = 0;
    while i < len
        invariant
            i <= len,
            len == s@.len(),
            forall|j: int| 0 <= j < i ==> is_digit(#[trigger] s@[j]) || s@[j] == '.',
            saw_digit == exists|j: int| 0 <= j < i && is_digit(#[trigger] s@[j]),
            saw_dot ==> 0 <= dot_at < i && s@[dot_at] == '.',
            !saw_dot ==> forall|j: int| 0 <= j < i ==> #[trigger] s@[j] != '.',
            saw_dot ==> forall|j: int| 0 <= j < i && j != dot_at ==> #[trigger] s@[j] != '.',
        decreases len - i,
    {
        let c = s.get_char(i);
        let cu = c as u32;
        if c == '.' {
            if saw_dot {
                proof {
                    assert(!(s@[dot_at] == '.' && s@[i as int] == '.') ==> false);
                }
                return false;
            }
            saw_dot = true;
            proof {
                dot_at = i as int;
            }
        } else if 48 <= cu && cu <= 57 {
            if !saw_digit {
                proof {
                    digit_at = i as int;
                }
            }
            saw_digit = true;
        } else {
            proof {
                assert(!(is_digit(s@[i as int]) || s@[i as int] == '.'));
            }
            return false;
        }
        i += 1;
    }
    saw_digit
}

/// Checks the whole slice against [`is_exp_body`].
fn is_exp_body_text(s: &str) -> (r: bool)
    ensures
        r == is_exp_body(s@),
{
    let len = s.unicode_len();
    let mut start: usize = 0;
    if len > 0 {
        let c0 = s.get_char(0);
        if c0 == '+' || c0 == '-' {
            start = 1;
        }
    }
    let ghost b = strip_sign(s@);
    proof {
        if start == 0 {
            assert(b =~= s@);
        }
        assert(b.len() == len - start);
        assert(forall|j: int| 0 <= j < b.len() ==> b[j] == s@[j + start]);
    }
    if start == len {
        return false;
    }
    let mut i: usize = start;
    while i < len
        invariant
            start <= i <= len,
            len == s@.len(),
            b == strip_sign(s@),
            b.len() == len - start,
            forall|j: int| 0 <= j < b.len() ==> b[j] == s@[j + start],
            forall|j: int| 0 <= j < i - start ==> is_digit(#[trigger] b[j]),
        decreases len - i,
    {
        let cu = s.get_char(i) as u32;
        if cu < 48 || cu > 57 {
            proof {
                assert(!is_digit(b[i - start]));
            }
            return false;
        }
        i += 1;
    }
    true
}

/// Checks the whole slice against [`is_number`].
fn is_number_text(s: &str) -> (r: bool)
    ensures
        r == is_number(s@),
{
    let len = s.unicode_len();
    let mut found = false;
    let mut pos: usize = 0;
    let mut i: usize = 0;
    while i < len
        invariant_except_break
            !found,
        invariant
            i <= len,
            len == s@.len(),
            !found ==> forall|j: int| 0 <= j < i ==> !is_exp_marker(#[trigger] s@[j]),
            found ==> pos < len && is_exp_marker(s@[pos as int]) && forall|j: int|
                0 <= j < pos ==> !is_exp_marker(#[trigger] s@[j]),
        ensures
            found ==> pos < len && is_exp_marker(s@[pos as int]) && forall|j: int|
                0 <= j < pos ==> !is_exp_marker(#[trigger] s@[j]),
            !found ==> forall|j: int| 0 <= j < len ==> !is_exp_marker(#[trigger] s@[j]),
        decreases len - i,
    {
        let c = s.get_char(i);
        if c == 'e' || c == 'E' {
            found = true;
            pos = i;
            break ;
        }
        i += 1;
    }
    proof {
        lemma_first_exp_pos(s@);
        if found {
            let p = first_exp_pos(s@);
            assert(p >= 0) by {
                if p < 0 {
                    assert(!is_exp_marker(s@[pos as int]));
                }
            }
            assert(p == pos) by {
                if p < pos {
                    assert(!is_exp_marker(s@[p]));
                } else if p > pos {
                    assert(!is_exp_marker(s@[pos as int]));
                }
            }
        } else {
            assert(first_exp_pos(s@) < 0) by {
                if first_exp_pos(s@) >= 0 {
                    assert(!is_exp_marker(s@[first_exp_pos(s@)]));
                }
            }
        }
    }
    if !found {
        is_mantissa_text(s)
    } else {
        let m = s.substring_char(0, pos);
        let e = s.substring_char(pos + 1, len);
        proof {
            assert(m@ =~= s@.take(pos as int));
            assert(e@ =~= s@.skip(pos + 1));
        }
        let rm = is_mantissa_text(m);
        let re = is_exp_body_text(e);
        rm && re
    }
}

/// Decides whether a string is a floating-point literal, exactly as
/// [`is_float_literal`] describes.
pub fn is_float_text(s: &str) -> (r: bool)
    ensures
        r == is_float_literal(s@),
{
    let len = s.unicode_len();
    let mut start: usize = 0;
    if len > 0 {
        let c0 = s.get_char(0);
        if c0 == '+' || c0 == '-' {
            start = 1;
        }
    }
    let b = s.substring_char(start, len);
    proof {
        assert(b@ =~= strip_sign(s@));
        reveal_strlit("inf");
        reveal_strlit("infinity");
        reveal_strlit("nan");
        assert("inf"@ =~= seq!['i', 'n', 'f']);
        assert("infinity"@ =~= seq!['i', 'n', 'f', 'i', 'n', 'i', 't', 'y']);
        assert("nan"@ =~= seq!['n', 'a', 'n']);
    }
    if matches_kw(b, "inf") || matches_kw(b, "infinity") || matches_kw(b, "nan") {
        return true;
    }
    is_number_text(b)
}

pub proof fn lemma_first_exp_pos(s: Seq<char>)
    ensures
        first_exp_pos(s) >= 0 ==> {
            &&& first_exp_pos(s) < s.len()
            &&& is_exp_marker(s[first_exp_pos(s)])
            &&& forall|j: int| 0 <= j < first_exp_pos(s) ==> !is_exp_marker(#[trigger] s[j])
        },
        first_exp_pos(s) < 0 ==> forall|j: int| 0 <= j < s.len() ==> !is_exp_marker(
            #[trigger] s[j],
        ),
    decreases s.len(),
{
    if s.len() == 0 {
    } else if is_exp_marker(s[0]) {
    } else {
        lemma_first_exp_pos(s.skip(1));
        let ps = first_exp_pos(s.skip(1));
        if ps >= 0 {
            assert(s[ps + 1] == s.skip(1)[ps]);
            assert forall|j: int| 0 <= j < ps + 1 implies !is_exp_marker(#[trigger] s[j]) by {
                if j > 0 {
                    assert(s[j] == s.skip(1)[j - 1]);
                }
            }
        } else {
            assert forall|j: int| 0 <= j < s.len() implies !is_exp_marker(#[trigger] s[j]) by {
                if j > 0 {
                    assert(s[j] == s.skip(1)[j - 1]);
                }
            }
        }
    }
}

} // verus!
