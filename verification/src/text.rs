//! Text helpers: decimal rendering and parsing of integers, and string building.
use vstd::prelude::*;
use vstd::string::*;

verus! {

/// The character of the decimal digit `d` (`0 <= d < 10`).
pub open spec fn digit_char(d: nat) -> char {
    ((48 + d) as u8) as char
}

/// Decimal digits of `n`, most significant first, without leading zeros.
pub open spec fn dec_digits(n: nat) -> Seq<char>
    decreases n,
{
    if n < 10 {
        seq![digit_char(n)]
    } else {
        dec_digits(n / 10).push(digit_char(n % 10))
    }
}

/// How an integer is written: an optional minus sign, then its decimal digits.
pub open spec fn int_text(i: int) -> Seq<char> {
    if i < 0 {
        seq!['-'] + dec_digits((-i) as nat)
    } else {
        dec_digits(i as nat)
    }
}

/// The text of a boolean.
pub open spec fn bool_text(b: bool) -> Seq<char> {
    if b {
        "true"@
    } else {
        "false"@
    }
}

/// Appends the character `c` to `s` (`String::push`).
#[verifier::external_body]
pub(crate) fn push_char(s: &mut String, c: char)
    ensures
        final(s)@ == old(s)@.push(c),
{
    s.push(c)
}

/// Appends the text of `t` to `s`.
pub fn push_str(s: &mut String, t: &str)
    ensures
        final(s)@ == old(s)@ + t@,
{
    s.append(t)
}

fn digit_of(d: u64) -> (c: char)
    requires
        d < 10,
    ensures
        c == digit_char(d as nat),
{
    let b: u8 = 48u8 + (d as u8);
    b as char
}

/// Appends the decimal digits of `n` to `s`.
pub fn push_digits(s: &mut String, n: u64)
    ensures
        final(s)@ == old(s)@ + dec_digits(n as nat),
    decreases n,
{
    if n >= 10 {
        push_digits(s, n / 10);
    }
    push_char(s, digit_of(n % 10));
    proof {
        if n >= 10 {
            assert(dec_digits(n as nat) == dec_digits((n / 10) as nat).push(
                digit_char((n % 10) as nat),
            ));
        }
    }
}

/// Appends the decimal text of `i` to `s`.
pub fn push_int(s: &mut String, i: i64)
    ensures
        final(s)@ == old(s)@ + int_text(i as int),
{
    if i < 0 {
        push_char(s, '-');
        let mag: u64 = (0i128 - (i as i128)) as u64;
        push_digits(s, mag);
        assert(final(s)@ =~= old(s)@ + int_text(i as int));
    } else {
        push_digits(s, i as u64);
    }
}

/// The decimal text of `i`.
pub fn int_to_string(i: i64) -> (r: String)
    ensures
        r@ == int_text(i as int),
{
    let mut s = String::new();
    push_int(&mut s, i);
    assert(s@ =~= int_text(i as int));
    s
}

/// The text of `b`: `true` or `false`.
pub fn bool_to_string(b: bool) -> (r: String)
    ensures
        r@ == bool_text(b),
{
    if b {
        String::from_str("true")
    } else {
        String::from_str("false")
    }
}

/// Whether `c` is an ASCII decimal digit.
pub open spec fn is_digit_char(c: char) -> bool {
    '0' <= c <= '9'
}

/// The value of a string of decimal digits.
pub open spec fn digits_value(s: Seq<char>) -> int
    decreases s.len(),
{
    if s.len() == 0 {
        0
    } else {
        digits_value(s.drop_last()) * 10 + (s.last() as int - '0' as int)
    }
}

/// The length of the sign that starts `s`: 1 for a leading `+` or `-`, else 0.
pub open spec fn sign_len(s: Seq<char>) -> int {
    if s.len() > 0 && (s[0] == '-' || s[0] == '+') {
        1
    } else {
        0
    }
}

/// The integer that `s` denotes as a decimal `i64`: an optional `+` or `-`,
/// then at least one decimal digit and nothing else; `None` when `s` has
/// another shape or its value does not fit in an `i64`.
pub open spec fn parse_i64_spec(s: Seq<char>) -> Option<i64> {
    let neg = s.len() > 0 && s[0] == '-';
    let body = s.skip(sign_len(s));
    if body.len() == 0 || !(forall|i: int| 0 <= i < body.len() ==> is_digit_char(#[trigger] body[i])) {
        None
    } else {
        let v = if neg {
            -digits_value(body)
        } else {
            digits_value(body)
        };
        if i64::MIN <= v <= i64::MAX {
            Some(v as i64)
        } else {
            None
        }
    }
}

proof fn lemma_digits_value_nonneg(s: Seq<char>)
    requires
        forall|i: int| 0 <= i < s.len() ==> is_digit_char(#[trigger] s[i]),
    ensures
        digits_value(s) >= 0,
    decreases s.len(),
{
    if s.len() > 0 {
        lemma_digits_value_nonneg(s.drop_last());
    }
}

proof fn lemma_digits_value_prefix(s: Seq<char>, k: int)
    requires
        0 <= k <= s.len(),
        forall|i: int| 0 <= i < s.len() ==> is_digit_char(#[trigger] s[i]),
    ensures
        digits_value(s) >= digits_value(s.take(k)),
    decreases s.len(),
{
    if k < s.len() {
        lemma_digits_value_prefix(s.drop_last(), k);
        lemma_digits_value_nonneg(s.drop_last());
        assert(s.drop_last().take(k) =~= s.take(k));
    } else {
        assert(s.take(k) =~= s);
    }
}

proof fn lemma_dec_digits(m: nat)
    ensures
        dec_digits(m).len() > 0,
        forall|i: int| 0 <= i < dec_digits(m).len() ==> is_digit_char(#[trigger] dec_digits(m)[i]),
        digits_value(dec_digits(m)) == m,
    decreases m,
{
    if m < 10 {
        let c = digit_char(m);
        assert(c as int == 48 + m);
        assert(dec_digits(m).drop_last() =~= Seq::<char>::empty());
        assert(digits_value(dec_digits(m).drop_last()) == 0);
        assert(dec_digits(m).last() == c);
        assert(digits_value(dec_digits(m)) == 0 * 10 + (c as int - '0' as int));
    } else {
        lemma_dec_digits(m / 10);
        let d = dec_digits(m / 10);
        let c = digit_char(m % 10);
        assert(c as int == 48 + m % 10);
        assert(dec_digits(m).drop_last() =~= d);
        assert(forall|i: int| 0 <= i < d.len() ==> dec_digits(m)[i] == d[i]);
        assert((m / 10) * 10 + m % 10 == m);
        assert(dec_digits(m).last() == c);
        assert(digits_value(dec_digits(m)) == digits_value(d) * 10 + (c as int - '0' as int));
    }
}

/// Integers are written so that they read back: parsing the text of any
/// `i64` gives that number.
pub proof fn lemma_int_text_parses_back(n: i64)
    ensures
        parse_i64_spec(int_text(n as int)) == Some(n),
{
    let t = int_text(n as int);
    if n < 0 {
        let m = (-(n as int)) as nat;
        lemma_dec_digits(m);
        assert(t.skip(1) =~= dec_digits(m));
        assert(t[0] == '-');
    } else {
        lemma_dec_digits(n as nat);
        let d = dec_digits(n as nat);
        assert(is_digit_char(d[0]));
        assert(t.skip(0) =~= t);
    }
}

/// Parses `s` as a decimal `i64`, as `str::parse::<i64>` does.
pub fn parse_i64(s: &str) -> (r: Option<i64>)
    ensures
        r == parse_i64_spec(s@),
{
    let n = s.unicode_len();
    let mut start: usize = 0;
    let mut neg = false;
    if n > 0 {
        let c0 = s.get_char(0);
        if c0 == '-' {
            neg = true;
            start = 1;
        } else if c0 == '+' {
            start = 1;
        }
    }
    let ghost body = s@.subrange(start as int, n as int);
    assert(body =~= s@.skip(sign_len(s@)));
    if start >= n {
        return None;
    }
    let mut acc: u64 = 0;
    let mut i: usize = start;
    while i < n
        invariant
            start <= i <= n,
            n == s@.len(),
            start == sign_len(s@),
            neg == (s@.len() > 0 && s@[0] == '-'),
            body == s@.subrange(start as int, n as int),
            body == s@.skip(sign_len(s@)),
            forall|j: int| 0 <= j < i - start ==> is_digit_char(#[trigger] body[j]),
            acc == digits_value(body.take(i - start)),
        decreases n - i,
    {
        let c = s.get_char(i);
        if !('0' <= c && c <= '9') {
            assert(!is_digit_char(body[i - start]));
            return None;
        }
        let d: u64 = ((c as u32) - 48) as u64;
        assert(body.take(i - start + 1).drop_last() =~= body.take(i - start));
        match acc.checked_mul(10) {
            Some(m) => match m.checked_add(d) {
                Some(v) => {
                    acc = v;
                },
                None => {
                    return parse_rest_overflow(s, i + 1, n, start, Ghost(body));
                },
            },
            None => {
                return parse_rest_overflow(s, i + 1, n, start, Ghost(body));
            },
        }
        i = i + 1;
    }
    assert(body.take(n - start) =~= body);
    if neg {
        if acc <= 9223372036854775808u64 {
            Some((0i128 - (acc as i128)) as i64)
        } else {
            None
        }
    } else {
        if acc <= 9223372036854775807u64 {
            Some(acc as i64)
        } else {
            None
        }
    }
}

/// Finishes a parse whose value has already left the `u64` range: the result
/// is `None` whether or not the rest are digits.
fn parse_rest_overflow(s: &str, from: usize, n: usize, start: usize, body: Ghost<Seq<char>>) -> (r: Option<i64>)
    requires
        start < from <= n,
        n == s@.len(),
        body@ == s@.subrange(start as int, n as int),
        start == sign_len(s@),
        body@ == s@.skip(sign_len(s@)),
        forall|j: int| 0 <= j < from - start ==> is_digit_char(#[trigger] body@[j]),
        digits_value(body@.take(from - start)) > u64::MAX,
    ensures
        r == parse_i64_spec(s@),
        r is None,
{
    let mut i: usize = from;
    while i < n
        invariant
            start < from <= i <= n,
            n == s@.len(),
            start == sign_len(s@),
            body@ == s@.subrange(start as int, n as int),
            body@ == s@.skip(sign_len(s@)),
            digits_value(body@.take(from - start)) > u64::MAX,
            forall|j: int| 0 <= j < i - start ==> is_digit_char(#[trigger] body@[j]),
        decreases n - i,
    {
        let c = s.get_char(i);
        if !('0' <= c && c <= '9') {
            assert(!is_digit_char(body@[i - start]));
            return None;
        }
        i = i + 1;
    }
    proof {
        assert(body@.take(n - start) =~= body@);
        lemma_digits_value_prefix(body@, from - start);
    }
    None
}

} // verus!
