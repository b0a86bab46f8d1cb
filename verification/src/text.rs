//! Character and string helpers shared by the naming, path and matching code.
//!
//! Everything here works on `char` sequences (the view of a `str`/`String`), with the
//! ASCII-only case folding that the library uses throughout.

use vstd::prelude::*;

verus! {

/// Appends one character to `s`.
///
/// Trusted: calls `String::push`, which appends the character's UTF-8 encoding, so the
/// character sequence grows by exactly that character.
#[verifier::external_body]
pub(crate) fn push_char(s: &mut String, c: char)
    ensures
        final(s)@ == old(s)@.push(c),
{
    s.push(c);
}

/// An empty string.
pub fn empty_string() -> (s: String)
    ensures
        s@ == Seq::<char>::empty(),
{
    String::new()
}

/// A string holding the single character `c`.
pub fn single_char_string(c: char) -> (s: String)
    ensures
        s@ == seq![c],
{
    let mut s = empty_string();
    push_char(&mut s, c);
    assert(s@ =~= seq![c]);
    s
}

/// Appends the characters of `t` to `s`.
pub fn append_str(s: &mut String, t: &str)
    ensures
        final(s)@ == old(s)@ + t@,
{
    s.append(t);
}

/// An owned copy of `t`.
pub fn to_owned_string(t: &str) -> (s: String)
    ensures
        s@ == t@,
{
    t.to_owned()
}

/// `char::is_ascii_digit`.
pub open spec fn is_ascii_digit(c: char) -> bool {
    '0' <= c && c <= '9'
}

/// `char::is_ascii_uppercase`.
pub open spec fn is_ascii_upper(c: char) -> bool {
    'A' <= c && c <= 'Z'
}

/// `char::is_ascii_lowercase`.
pub open spec fn is_ascii_lower(c: char) -> bool {
    'a' <= c && c <= 'z'
}

/// `char::is_ascii_alphanumeric`.
pub open spec fn is_ascii_alnum(c: char) -> bool {
    is_ascii_digit(c) || is_ascii_upper(c) || is_ascii_lower(c)
}

/// `char::to_ascii_lowercase`: `A..=Z` map to `a..=z`, everything else is unchanged.
pub open spec fn ascii_lower(c: char) -> char {
    if is_ascii_upper(c) {
        ((c as int) + 32) as char
    } else {
        c
    }
}

/// Character-wise ASCII lowercase of a sequence.
pub open spec fn lower_seq(s: Seq<char>) -> Seq<char> {
    Seq::new(s.len(), |i: int| ascii_lower(s[i]))
}

/// `str::eq_ignore_ascii_case`: equal lengths and equal characters after ASCII
/// lowercasing.
pub open spec fn eq_ignore_case(a: Seq<char>, b: Seq<char>) -> bool {
    a.len() == b.len() && forall|i: int| 0 <= i < a.len() ==> ascii_lower(a[i]) == ascii_lower(b[i])
}

/// `a` starts with `p`.
pub open spec fn has_prefix(a: Seq<char>, p: Seq<char>) -> bool {
    p.len() <= a.len() && a.take(p.len() as int) == p
}

/// The digit character for `d` (`0 <= d < 10`).
pub open spec fn digit_char(d: int) -> char {
    (('0' as int) + d) as char
}

/// The value of a digit character.
pub open spec fn digit_value(c: char) -> int {
    (c as int) - ('0' as int)
}

/// Decimal text of `n`, without leading zeros (`0` is `"0"`).
pub open spec fn decimal(n: nat) -> Seq<char>
    decreases n,
{
    if n < 10 {
        seq![digit_char(n as int)]
    } else {
        decimal(n / 10).push(digit_char((n % 10) as int))
    }
}

/// `s` left-padded with `'0'` to at least `width` characters.
pub open spec fn zero_pad(s: Seq<char>, width: nat) -> Seq<char> {
    if s.len() >= width {
        s
    } else {
        Seq::new((width - s.len()) as nat, |i: int| '0') + s
    }
}

/// All characters are ASCII digits.
pub open spec fn all_digits(s: Seq<char>) -> bool {
    forall|i: int| 0 <= i < s.len() ==> is_ascii_digit(#[trigger] s[i])
}

/// The value of a string of decimal digits (leading zeros allowed; empty is 0).
pub open spec fn digits_value(s: Seq<char>) -> int
    decreases s.len(),
{
    if s.len() == 0 {
        0
    } else {
        digits_value(s.drop_last()) * 10 + digit_value(s.last())
    }
}

/// A digit character and its value.
pub proof fn lemma_digit_char(d: int)
    requires
        0 <= d < 10,
    ensures
        digit_value(digit_char(d)) == d,
        is_ascii_digit(digit_char(d)),
{
}

/// `char::is_ascii_alphanumeric`.
pub fn is_ascii_alnum_char(c: char) -> (r: bool)
    ensures
        r == is_ascii_alnum(c),
{
    ('0' <= c && c <= '9') || ('A' <= c && c <= 'Z') || ('a' <= c && c <= 'z')
}

/// `char::to_ascii_lowercase`.
pub fn ascii_lower_char(c: char) -> (r: char)
    ensures
        r == ascii_lower(c),
{
    if 'A' <= c && c <= 'Z' {
        let b: u8 = (c as u8) + 32;
        b as char
    } else {
        c
    }
}

/// The digit character for `d`.
pub fn digit_to_char(d: u64) -> (c: char)
    requires
        d < 10,
    ensures
        c == digit_char(d as int),
        is_ascii_digit(c),
{
    let b: u8 = (d as u8) + 48;
    b as char
}

/// Decimal text of `n`.
pub fn decimal_string(n: u64) -> (s: String)
    ensures
        s@ == decimal(n as nat),
{
    // Collect digits least-significant first, then emit them in reverse.
    let mut digits: Vec<char> = Vec::new();
    let mut m: u64 = n;
    loop
        invariant_except_break
            decimal(n as nat) == decimal(m as nat) + digits@.reverse(),
        ensures
            decimal(n as nat) == digits@.reverse(),
        decreases m,
    {
        let d = m % 10;
        assert(decimal(m as nat) == if m < 10 { seq![digit_char(m as int)] } else {
            decimal((m / 10) as nat).push(digit_char((m % 10) as int))
        });
        if m < 10 {
            let ghost old_digits = digits@;
            digits.push(digit_to_char(d));
            assert(digits@.reverse() =~= seq![digit_char(m as int)] + old_digits.reverse());
            assert(decimal(n as nat) =~= digits@.reverse());
            break;
        }
        let ghost old_digits = digits@;
        digits.push(digit_to_char(d));
        assert(digits@.reverse() =~= seq![digit_char(d as int)] + old_digits.reverse());
        m = m / 10;
        assert(decimal(n as nat) =~= decimal(m as nat) + digits@.reverse());
    }
    let mut s = empty_string();
    let mut i = digits.len();
    while i > 0
        invariant
            i <= digits@.len(),
            s@ == digits@.reverse().take((digits@.len() - i) as int),
        decreases i,
    {
        i = i - 1;
        push_char(&mut s, digits[i]);
        assert(s@ =~= digits@.reverse().take((digits@.len() - i) as int));
    }
    assert(s@ =~= digits@.reverse());
    s
}

/// `str::to_ascii_lowercase`.
pub fn lowercase_ascii(s: &str) -> (r: String)
    ensures
        r@ == lower_seq(s@),
{
    let mut out = empty_string();
    for ch in it: s.chars()
        invariant
            it.seq() == s@,
            out@ == lower_seq(s@.take(it.index())),
    {
        push_char(&mut out, ascii_lower_char(ch));
        assert(out@ =~= lower_seq(s@.take(it.index() + 1)));
    }
    assert(s@.take(s@.len() as int) =~= s@);
    out
}

/// `char::is_whitespace`: the Unicode `White_Space` property.
pub open spec fn is_whitespace(c: char) -> bool {
    ||| '\u{9}' <= c <= '\u{d}'
    ||| c == ' '
    ||| c == '\u{85}'
    ||| c == '\u{a0}'
    ||| c == '\u{1680}'
    ||| '\u{2000}' <= c <= '\u{200a}'
    ||| c == '\u{2028}'
    ||| c == '\u{2029}'
    ||| c == '\u{202f}'
    ||| c == '\u{205f}'
    ||| c == '\u{3000}'
}

/// `char::is_whitespace`.
pub fn is_whitespace_char(c: char) -> (r: bool)
    ensures
        r == is_whitespace(c),
{
    ('\u{9}' <= c && c <= '\u{d}') || c == ' ' || c == '\u{85}' || c == '\u{a0}' || c == '\u{1680}'
        || ('\u{2000}' <= c && c <= '\u{200a}') || c == '\u{2028}' || c == '\u{2029}' || c == '\u{202f}'
        || c == '\u{205f}' || c == '\u{3000}'
}

/// `s` without leading whitespace.
pub open spec fn trim_start_ws(s: Seq<char>) -> Seq<char>
    decreases s.len(),
{
    if s.len() > 0 && is_whitespace(s[0]) { trim_start_ws(s.drop_first()) } else { s }
}

/// `s` without trailing whitespace.
pub open spec fn trim_end_ws(s: Seq<char>) -> Seq<char>
    decreases s.len(),
{
    if s.len() > 0 && is_whitespace(s.last()) { trim_end_ws(s.drop_last()) } else { s }
}

/// `str::trim`.
pub open spec fn trim_ws(s: Seq<char>) -> Seq<char> {
    trim_end_ws(trim_start_ws(s))
}

/// `str::trim`.
pub fn trim(s: &str) -> (r: String)
    ensures
        r@ == trim_ws(s@),
{
    let len = char_len(s);
    let mut a: usize = 0;
    assert(s@.skip(0) =~= s@);
    while a < len && is_whitespace_char(s.get_char(a))
        invariant
            len == s@.len(),
            a <= len,
            trim_start_ws(s@) == trim_start_ws(s@.skip(a as int)),
        decreases len - a,
    {
        assert(s@.skip(a as int).drop_first() =~= s@.skip(a + 1));
        a = a + 1;
    }
    let ghost t = s@.skip(a as int);
    assert(trim_start_ws(s@) == t);
    assert(t.take(t.len() as int) =~= t);
    let mut b: usize = len;
    while b > a && is_whitespace_char(s.get_char(b - 1))
        invariant
            len == s@.len(),
            a <= b <= len,
            t == s@.skip(a as int),
            trim_end_ws(t) == trim_end_ws(t.take(b - a)),
        decreases b,
    {
        assert(t.take(b - a).drop_last() =~= t.take(b - a - 1));
        b = b - 1;
    }
    let out = s.substring_char(a, b);
    assert(out@ =~= t.take(b - a));
    to_owned_string(out)
}

/// Number of characters in `s`.
pub fn char_len(s: &str) -> (n: usize)
    ensures
        n == s@.len(),
{
    s.unicode_len()
}

/// Decimal text of `n`, left-padded with zeros to at least `width` characters.
pub fn zero_padded(n: u64, width: usize) -> (s: String)
    ensures
        s@ == zero_pad(decimal(n as nat), width as nat),
{
    let d = decimal_string(n);
    let len = char_len(d.as_str());
    if len >= width {
        return d;
    }
    let mut s = empty_string();
    let mut k: usize = 0;
    while k < width - len
        invariant
            len < width,
            k <= width - len,
            s@ == Seq::new(k as nat, |i: int| '0'),
        decreases width - len - k,
    {
        push_char(&mut s, '0');
        k = k + 1;
        assert(s@ =~= Seq::new(k as nat, |i: int| '0'));
    }
    append_str(&mut s, d.as_str());
    s
}

/// Decimal text never contains anything but digits, and is at least one character.
pub proof fn lemma_decimal_digits(n: nat)
    ensures
        all_digits(decimal(n)),
        decimal(n).len() >= 1,
        digits_value(decimal(n)) == n,
    decreases n,
{
    if n >= 10 {
        lemma_decimal_digits(n / 10);
        let t = decimal(n / 10);
        lemma_digit_char((n % 10) as int);
        assert(decimal(n) == t.push(digit_char((n % 10) as int)));
        assert(decimal(n).drop_last() =~= t);
        assert(digits_value(decimal(n)) == digits_value(t) * 10 + (n % 10));
    } else {
        lemma_digit_char(n as int);
        assert(decimal(n).drop_last() =~= Seq::<char>::empty());
        assert(digits_value(Seq::<char>::empty()) == 0);
    }
}

/// Prepending zeros to a digit string leaves its value unchanged.
pub proof fn lemma_leading_zeros(k: nat, t: Seq<char>)
    ensures
        digits_value(Seq::new(k, |i: int| '0') + t) == digits_value(t),
    decreases t.len(), k,
{
    let z = Seq::new(k, |i: int| '0');
    if t.len() == 0 {
        assert(z + t =~= z);
        lemma_zeros_value(k);
    } else {
        lemma_leading_zeros(k, t.drop_last());
        assert((z + t).drop_last() =~= z + t.drop_last());
        assert((z + t).last() == t.last());
    }
}

proof fn lemma_zeros_value(k: nat)
    ensures
        digits_value(Seq::new(k, |i: int| '0')) == 0,
    decreases k,
{
    if k > 0 {
        lemma_zeros_value((k - 1) as nat);
        assert(Seq::new(k, |i: int| '0').drop_last() =~= Seq::new((k - 1) as nat, |i: int| '0'));
    }
}

/// A zero-padded decimal is all digits and still has the value `n`.
pub proof fn lemma_zero_pad_value(n: nat, width: nat)
    ensures
        all_digits(zero_pad(decimal(n), width)),
        zero_pad(decimal(n), width).len() >= 1,
        digits_value(zero_pad(decimal(n), width)) == n,
{
    lemma_decimal_digits(n);
    let d = decimal(n);
    if d.len() < width {
        lemma_leading_zeros((width - d.len()) as nat, d);
        let z = Seq::new((width - d.len()) as nat, |i: int| '0');
        assert forall|i: int| 0 <= i < (z + d).len() implies is_ascii_digit(#[trigger] (z + d)[i]) by {
            if i >= z.len() {
                assert((z + d)[i] == d[i - z.len()]);
            }
        }
    }
}

/// `a` sorts strictly before `b` in lexicographic (code point) order, the order of
/// `String`'s `Ord`.
pub open spec fn lex_lt(a: Seq<char>, b: Seq<char>) -> bool {
    exists|k: int|
        0 <= k <= a.len() && k <= b.len() && #[trigger] a.take(k) == b.take(k) && ((k < a.len()
            && k < b.len() && a[k] < b[k]) || (k == a.len() && k < b.len()))
}

/// Index of the first occurrence of `c` in `s`, if any.
pub open spec fn first_index_of(s: Seq<char>, c: char) -> Option<int> {
    if exists|i: int| 0 <= i < s.len() && s[i] == c {
        Some(choose|i: int| 0 <= i < s.len() && s[i] == c && forall|j: int| 0 <= j < i ==> s[j] != c)
    } else {
        None
    }
}

/// Finds the first `c` in `s` (`str::find` on a single character, counted in characters).
pub fn find_char(s: &str, c: char) -> (r: Option<usize>)
    ensures
        r matches Some(i) ==> first_index_of(s@, c) == Some(i as int) && i < s@.len() && s@[i as int] == c,
        r is None ==> first_index_of(s@, c) is None,
{
    let len = char_len(s);
    let mut i: usize = 0;
    for ch in it: s.chars()
        invariant
            it.seq() == s@,
            len == s@.len(),
            i == it.index(),
            i <= len,
            forall|j: int| 0 <= j < i ==> s@[j] != c,
    {
        assert(it.index() < it.seq().len());
        if ch == c {
            assert(s@[i as int] == c);
            let ghost w = choose|k: int| 0 <= k < s@.len() && s@[k] == c && forall|j: int| 0 <= j < k ==> s@[j] != c;
            proof {
                assert(0 <= i < s@.len() && s@[i as int] == c && forall|j: int| 0 <= j < i ==> s@[j] != c);
                if w < i {
                    assert(s@[w] != c);
                } else if w > i {
                    assert(s@[i as int] != c);
                }
            }
            return Some(i);
        }
        i = i + 1;
    }
    None
}

/// `str::parse` for a decimal integer: an optional `+` (or, when `signed`, `-`) followed by
/// one or more ASCII digits and nothing else; the value must lie in `lo..=hi`.
pub open spec fn spec_parse_int(s: Seq<char>, signed: bool, lo: int, hi: int) -> Option<int> {
    let neg = signed && s.len() > 0 && s[0] == '-';
    let digits = if s.len() > 0 && (s[0] == '+' || neg) { s.skip(1) } else { s };
    if digits.len() == 0 || !all_digits(digits) {
        None
    } else {
        let v = if neg { -(digits_value(digits) as int) } else { digits_value(digits) as int };
        if lo <= v && v <= hi { Some(v) } else { None }
    }
}

proof fn lemma_digits_value_push(s: Seq<char>, c: char)
    ensures
        digits_value(s.push(c)) == digits_value(s) * 10 + digit_value(c),
{
    assert(s.push(c).drop_last() =~= s);
}

/// Value of the ASCII digit string `s`, capped at `2^32 + 1`; `None` when `s` is empty or
/// holds a non-digit.
fn digits_capped(s: &str) -> (r: Option<u64>)
    ensures
        match r {
            None => s@.len() == 0 || !all_digits(s@),
            Some(m) => {
                &&& s@.len() > 0 && all_digits(s@)
                &&& m <= 0x1_0000_0001
                &&& (m < 0x1_0000_0001 ==> m == digits_value(s@))
                &&& (m == 0x1_0000_0001 ==> digits_value(s@) >= 0x1_0000_0001)
            }
        },
{
    if char_len(s) == 0 {
        return None;
    }
    let mut m: u64 = 0;
    for ch in it: s.chars()
        invariant
            it.seq() == s@,
            m <= 0x1_0000_0001,
            all_digits(s@.take(it.index())),
            m < 0x1_0000_0001 ==> m == digits_value(s@.take(it.index())),
            m == 0x1_0000_0001 ==> digits_value(s@.take(it.index())) >= 0x1_0000_0001,
    {
        let ghost pre = s@.take(it.index());
        proof {
            assert(s@.take(it.index() + 1) =~= pre.push(ch));
            lemma_digits_value_push(pre, ch);
        }
        if '0' <= ch && ch <= '9' {
            let d: u64 = (ch as u64) - 48;
            if m < 0x1_0000_0001 {
                let next = m * 10 + d;
                if next >= 0x1_0000_0001 {
                    m = 0x1_0000_0001;
                } else {
                    m = next;
                }
            }
        } else {
            assert(!all_digits(s@)) by {
                assert(s@[it.index()] == ch);
            }
            return None;
        }
    }
    assert(s@.take(s@.len() as int) =~= s@);
    Some(m)
}

/// Parses the optional sign and the digits of `s`; the magnitude is capped at `2^32 + 1`.
fn parse_magnitude(s: &str, signed: bool) -> (r: Option<(bool, u64)>)
    ensures
        ({
            let neg = signed && s@.len() > 0 && s@[0] == '-';
            let digits = if s@.len() > 0 && (s@[0] == '+' || neg) { s@.skip(1) } else { s@ };
            match r {
                None => digits.len() == 0 || !all_digits(digits),
                Some((n, m)) => {
                    &&& n == neg
                    &&& digits.len() > 0 && all_digits(digits)
                    &&& m <= 0x1_0000_0001
                    &&& (m < 0x1_0000_0001 ==> m == digits_value(digits))
                    &&& (m == 0x1_0000_0001 ==> digits_value(digits) >= 0x1_0000_0001)
                }
            }
        }),
{
    let len = char_len(s);
    if len == 0 {
        return None;
    }
    let first = s.get_char(0);
    let negative = signed && first == '-';
    let start: usize = if first == '+' || negative { 1 } else { 0 };
    let digits = s.substring_char(start, len);
    assert(digits@ =~= s@.skip(start as int));
    assert(first == s@[0]);
    assert(negative == (signed && s@[0] == '-'));
    assert(start == 1 <==> (s@[0] == '+' || negative));
    let r = digits_capped(digits);
    let ghost neg = signed && s@.len() > 0 && s@[0] == '-';
    let ghost sd = if s@.len() > 0 && (s@[0] == '+' || neg) { s@.skip(1) } else { s@ };
    assert(sd == digits@);
    match r {
        None => None,
        Some(m) => Some((negative, m)),
    }
}

/// `str::parse::<i32>`.
pub fn parse_i32(s: &str) -> (r: Option<i32>)
    ensures
        match spec_parse_int(s@, true, i32::MIN as int, i32::MAX as int) {
            Some(v) => r == Some(v as i32),
            None => r is None,
        },
{
    match parse_magnitude(s, true) {
        None => None,
        Some((neg, m)) => {
            if neg {
                if m <= 0x8000_0000 {
                    Some((0i64 - (m as i64)) as i32)
                } else {
                    None
                }
            } else if m <= 0x7fff_ffff {
                Some(m as i32)
            } else {
                None
            }
        },
    }
}

/// `str::parse::<u32>`.
pub fn parse_u32(s: &str) -> (r: Option<u32>)
    ensures
        match spec_parse_int(s@, false, 0, u32::MAX as int) {
            Some(v) => r == Some(v as u32),
            None => r is None,
        },
{
    match parse_magnitude(s, false) {
        None => None,
        Some((_, m)) => {
            if m <= 0xffff_ffff {
                Some(m as u32)
            } else {
                None
            }
        },
    }
}

} // verus!
