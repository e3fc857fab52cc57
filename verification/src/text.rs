//! Text: whitespace, substrings, decimal numerals and clock readings.

use vstd::prelude::*;
use vstd::string::*;

verus! {

/// The lower case of a letter A to Z; any other character as it is.
pub open spec fn ascii_lower(c: char) -> char {
    if 'A' <= c <= 'Z' {
        (c as int + 32) as char
    } else {
        c
    }
}

/// A text with its letters A to Z in lower case.
pub open spec fn ascii_folded(s: Seq<char>) -> Seq<char> {
    s.map_values(|c: char| ascii_lower(c))
}

/// Every character of `s` is an ASCII character.
pub open spec fn all_ascii(s: Seq<char>) -> bool {
    forall|i: int| 0 <= i < s.len() ==> #[trigger] s[i] <= '\u{7f}'
}

/// What `str::to_lowercase` returns for a text: its Unicode lowercase form.
pub uninterp spec fn unicode_lowercase(s: Seq<char>) -> Seq<char>;

/// The lowercase form of a text. Its letters A to Z are put into lower case first, so that their
/// case never matters.
pub open spec fn lowercase(s: Seq<char>) -> Seq<char> {
    unicode_lowercase(ascii_folded(s))
}

/// Calls `str::to_lowercase`.
///
/// Believed of it: the result depends on the characters of the argument alone, and of ASCII text it
/// is the text with its letters A to Z in lower case. The Unicode case tables are not spelled out.
#[verifier::external_body]
fn fold_unicode(s: &str) -> (r: String)
    ensures
        r@ == unicode_lowercase(s@),
        all_ascii(s@) ==> r@ == ascii_folded(s@),
{
    s.to_lowercase()
}

/// Calls `str::to_ascii_lowercase`.
///
/// Believed of it: the letters A to Z become a to z, and every other character stays.
#[verifier::external_body]
fn fold_ascii(s: &str) -> (r: String)
    ensures
        r@ == ascii_folded(s@),
{
    s.to_ascii_lowercase()
}

/// The lowercase form of a text.
pub fn to_lowercase(s: &str) -> (r: String)
    ensures
        r@ == lowercase(s@),
        all_ascii(s@) ==> r@ == ascii_folded(s@),
{
    let folded: String = fold_ascii(s);
    proof {
        law_folded_once(s@);
        if all_ascii(s@) {
            assert forall|i: int| 0 <= i < folded@.len() implies #[trigger] folded@[i]
                <= '\u{7f}' by {
                assert(s@[i] <= '\u{7f}');
                lemma_ascii_lower(s@[i]);
            }
        }
    }
    fold_unicode(folded.as_str())
}

proof fn lemma_ascii_lower(c: char)
    ensures
        'A' <= c <= 'Z' ==> 'a' <= ascii_lower(c) <= 'z' && ascii_lower(c) as int == c as int + 32,
        ascii_lower(ascii_lower(c)) == ascii_lower(c),
{
}

/// Putting the letters A to Z into lower case a second time changes nothing.
pub proof fn law_folded_once(s: Seq<char>)
    ensures
        ascii_folded(ascii_folded(s)) == ascii_folded(s),
{
    assert forall|i: int| 0 <= i < s.len() implies #[trigger] ascii_folded(ascii_folded(s))[i]
        == ascii_folded(s)[i] by {
        lemma_ascii_lower(s[i]);
    }
    assert(ascii_folded(ascii_folded(s)) =~= ascii_folded(s));
}

/// The characters with the Unicode property White_Space.
pub open spec fn is_white_space(c: char) -> bool {
    ||| '\u{9}' <= c <= '\u{d}'
    ||| c == ' '
    ||| c == '\u{85}'
    ||| c == '\u{a0}'
    ||| c == '\u{1680}'
    ||| '\u{2000}' <= c <= '\u{200a}'
    ||| c == '\u{2028}'
    ||| c == '\u{2029}'
    ||| c == '\u{202f}'
    ||| c == '\u{205f}'
    ||| c == '\u{3000}'
}

/// Tells whether `c` has the Unicode property White_Space.
pub fn white_space(c: char) -> (b: bool)
    ensures
        b == is_white_space(c),
{
    ('\u{9}' <= c && c <= '\u{d}') || c == ' ' || c == '\u{85}' || c == '\u{a0}' || c == '\u{1680}'
        || ('\u{2000}' <= c && c <= '\u{200a}') || c == '\u{2028}' || c == '\u{2029}' || c
        == '\u{202f}' || c == '\u{205f}' || c == '\u{3000}'
}

/// The characters of a text, one by one.
pub fn chars_of(s: &str) -> (v: Vec<char>)
    ensures
        v@ == s@,
{
    let mut v: Vec<char> = Vec::new();
    for c in it: s.chars()
        invariant
            v@ == s@.take(it.index()),
            it.seq() == s@,
    {
        v.push(c);
    }
    v
}

/// `s` without the white space at its start.
pub open spec fn trimmed_start(s: Seq<char>) -> Seq<char>
    decreases s.len(),
{
    if s.len() > 0 && is_white_space(s[0]) {
        trimmed_start(s.drop_first())
    } else {
        s
    }
}

/// `s` without the white space at its end.
pub open spec fn trimmed_end(s: Seq<char>) -> Seq<char>
    decreases s.len(),
{
    if s.len() > 0 && is_white_space(s.last()) {
        trimmed_end(s.drop_last())
    } else {
        s
    }
}

/// `s` without the white space at its two ends.
pub open spec fn trimmed(s: Seq<char>) -> Seq<char> {
    trimmed_end(trimmed_start(s))
}

/// Removes the white space at the two ends of a text.
pub fn trim(s: &str) -> (r: String)
    ensures
        r@ == trimmed(s@),
{
    let chars: Vec<char> = chars_of(s);
    let mut from: usize = 0;
    assert(chars@.skip(0) == chars@);
    while from < chars.len() && white_space(chars[from])
        invariant
            from <= chars.len(),
            trimmed_start(chars@.skip(from as int)) == trimmed_start(chars@),
        ensures
            from <= chars.len(),
            trimmed_start(chars@) == chars@.skip(from as int),
        decreases chars.len() - from,
    {
        assert(chars@.skip(from as int).drop_first() == chars@.skip(from + 1));
        from = from + 1;
    }
    let mut to: usize = chars.len();
    while from < to && white_space(chars[to - 1])
        invariant
            from <= to <= chars.len(),
            trimmed_end(chars@.subrange(from as int, to as int)) == trimmed_end(
                chars@.skip(from as int),
            ),
        ensures
            from <= to <= chars.len(),
            trimmed_end(chars@.skip(from as int)) == chars@.subrange(from as int, to as int),
        decreases to,
    {
        assert(chars@.subrange(from as int, to as int).drop_last() == chars@.subrange(
            from as int,
            to - 1,
        ));
        to = to - 1;
    }
    s.substring_char(from, to).to_owned()
}

proof fn lemma_trimmed_start(s: Seq<char>)
    ensures
        trimmed_start(s).len() <= s.len(),
        trimmed_start(s) == s.skip(s.len() - trimmed_start(s).len()),
        trimmed_start(s).len() > 0 ==> !is_white_space(trimmed_start(s)[0]),
    decreases s.len(),
{
    if s.len() > 0 && is_white_space(s[0]) {
        let rest = s.drop_first();
        lemma_trimmed_start(rest);
        assert(rest.skip(rest.len() - trimmed_start(rest).len()) =~= s.skip(
            s.len() - trimmed_start(s).len(),
        ));
    } else {
        assert(s.skip(0) =~= s);
    }
}

proof fn lemma_trimmed_end(s: Seq<char>)
    ensures
        trimmed_end(s).len() <= s.len(),
        trimmed_end(s) == s.take(trimmed_end(s).len() as int),
        trimmed_end(s).len() > 0 ==> !is_white_space(trimmed_end(s).last()),
    decreases s.len(),
{
    if s.len() > 0 && is_white_space(s.last()) {
        let rest = s.drop_last();
        lemma_trimmed_end(rest);
        assert(rest.take(trimmed_end(rest).len() as int) =~= s.take(
            trimmed_end(s).len() as int,
        ));
    } else {
        assert(s.take(s.len() as int) =~= s);
    }
}

/// A trimmed text neither starts nor ends with white space, and trimming it again changes nothing.
pub proof fn law_trimmed_once(s: Seq<char>)
    ensures
        trimmed(s).len() > 0 ==> !is_white_space(trimmed(s)[0]) && !is_white_space(
            trimmed(s).last(),
        ),
        trimmed(trimmed(s)) == trimmed(s),
{
    lemma_trimmed_start(s);
    lemma_trimmed_end(trimmed_start(s));
}

/// Trimming looks at white space alone, which has no letter case.
pub proof fn law_trimmed_folded(s: Seq<char>)
    ensures
        trimmed(ascii_folded(s)) == ascii_folded(trimmed(s)),
{
    lemma_start_folded(s);
    lemma_end_folded(trimmed_start(s));
}

proof fn lemma_start_folded(s: Seq<char>)
    ensures
        trimmed_start(ascii_folded(s)) == ascii_folded(trimmed_start(s)),
    decreases s.len(),
{
    if s.len() > 0 {
        lemma_ascii_lower(s[0]);
        assert(ascii_folded(s)[0] == ascii_lower(s[0]));
        assert(ascii_folded(s).drop_first() =~= ascii_folded(s.drop_first()));
        lemma_start_folded(s.drop_first());
    }
}

proof fn lemma_end_folded(s: Seq<char>)
    ensures
        trimmed_end(ascii_folded(s)) == ascii_folded(trimmed_end(s)),
    decreases s.len(),
{
    if s.len() > 0 {
        lemma_ascii_lower(s.last());
        assert(ascii_folded(s).last() == ascii_lower(s.last()));
        assert(ascii_folded(s).drop_last() =~= ascii_folded(s.drop_last()));
        lemma_end_folded(s.drop_last());
    }
}

/// `part` stands in `s` at the position `at`.
pub open spec fn occurs_at(s: Seq<char>, part: Seq<char>, at: int) -> bool {
    &&& 0 <= at
    &&& at + part.len() <= s.len()
    &&& s.subrange(at, at + part.len()) == part
}

/// `part` stands somewhere in `s`.
pub open spec fn has_substring(s: Seq<char>, part: Seq<char>) -> bool {
    exists|at: int| #[trigger] occurs_at(s, part, at)
}

fn matches_at(s: &Vec<char>, part: &Vec<char>, at: usize) -> (b: bool)
    requires
        at + part@.len() <= s@.len(),
    ensures
        b == occurs_at(s@, part@, at as int),
{
    let mut i: usize = 0;
    while i < part.len()
        invariant
            i <= part@.len(),
            at + part@.len() <= s.len(),
            forall|j: int| 0 <= j < i ==> s@[at + j] == part@[j],
        decreases part@.len() - i,
    {
        if s[at + i] != part[i] {
            assert(s@.subrange(at as int, at + part@.len())[i as int] != part@[i as int]);
            return false;
        }
        i = i + 1;
    }
    assert(s@.subrange(at as int, at + part@.len()) == part@);
    true
}

/// Tells whether `part` stands somewhere in `s`.
pub fn contains_chars(s: &Vec<char>, part: &Vec<char>) -> (b: bool)
    ensures
        b == has_substring(s@, part@),
{
    if part.len() > s.len() {
        return false;
    }
    let last: usize = s.len() - part.len();
    let mut at: usize = 0;
    loop
        invariant
            at <= last,
            last == s@.len() - part@.len(),
            forall|k: int| 0 <= k < at ==> !#[trigger] occurs_at(s@, part@, k),
        decreases last - at,
    {
        if matches_at(s, part, at) {
            return true;
        }
        if at == last {
            return false;
        }
        at = at + 1;
    }
}

/// Tells whether `part` stands somewhere in `s`.
pub fn contains(s: &str, part: &str) -> (b: bool)
    ensures
        b == has_substring(s@, part@),
{
    contains_chars(&chars_of(s), &chars_of(part))
}

/// The character of the decimal digit `d`.
pub open spec fn digit_char(d: int) -> char
    recommends
        0 <= d <= 9,
{
    ('0' as int + d) as char
}

/// The decimal numeral of `n`, without leading zeros.
pub open spec fn decimal(n: nat) -> Seq<char>
    decreases n,
{
    if n < 10 {
        seq![digit_char(n as int)]
    } else {
        decimal(n / 10).push(digit_char((n % 10) as int))
    }
}

/// The decimal numeral of `n`, with a minus sign where `n` is negative.
pub open spec fn signed_decimal(n: int) -> Seq<char> {
    if n < 0 {
        seq!['-'] + decimal((-n) as nat)
    } else {
        decimal(n as nat)
    }
}

/// The decimal numeral of `n`, filled up with a zero to two digits.
pub open spec fn two_digits(n: nat) -> Seq<char> {
    if n < 10 {
        seq!['0'] + decimal(n)
    } else {
        decimal(n)
    }
}

fn push_digit(s: &mut String, d: u128)
    requires
        d <= 9,
    ensures
        final(s)@ == old(s)@.push(digit_char(d as int)),
{
    proof {
        reveal_strlit("0");
        reveal_strlit("1");
        reveal_strlit("2");
        reveal_strlit("3");
        reveal_strlit("4");
        reveal_strlit("5");
        reveal_strlit("6");
        reveal_strlit("7");
        reveal_strlit("8");
        reveal_strlit("9");
    }
    let digit: &str = match d {
        0 => "0",
        1 => "1",
        2 => "2",
        3 => "3",
        4 => "4",
        5 => "5",
        6 => "6",
        7 => "7",
        8 => "8",
        _ => "9",
    };
    assert(digit@ == seq![digit_char(d as int)]);
    s.append(digit);
    assert(s@ == old(s)@.push(digit_char(d as int)));
}

/// Appends the decimal numeral of `n`.
pub fn push_decimal(s: &mut String, n: u128)
    ensures
        final(s)@ == old(s)@ + decimal(n as nat),
    decreases n,
{
    if n >= 10 {
        push_decimal(s, n / 10);
    }
    push_digit(s, n % 10);
    assert(s@ == old(s)@ + decimal(n as nat));
}

/// Appends the decimal numeral of `n`, filled up with a zero to two digits.
pub fn push_two_digits(s: &mut String, n: u128)
    ensures
        final(s)@ == old(s)@ + two_digits(n as nat),
{
    if n < 10 {
        push_digit(s, 0);
    }
    let ghost before = s@;
    push_decimal(s, n);
    assert(s@ == old(s)@ + two_digits(n as nat));
}

/// The decimal numeral of a signed number.
pub fn signed_to_string(n: i32) -> (r: String)
    ensures
        r@ == signed_decimal(n as int),
{
    let mut r: String = String::new();
    if n < 0 {
        proof {
            reveal_strlit("-");
        }
        r.append("-");
        push_decimal(&mut r, (-(n as i64)) as u128);
        assert(r@ == signed_decimal(n as int));
    } else {
        push_decimal(&mut r, n as u128);
        assert(r@ == signed_decimal(n as int));
    }
    r
}

/// A time span as minutes and seconds: `m:ss`.
pub open spec fn clock(secs: nat) -> Seq<char> {
    decimal(secs / 60) + seq![':'] + two_digits(secs % 60)
}

/// Writes a time span in whole seconds as `m:ss`.
pub fn format_time(secs: u64) -> (r: String)
    ensures
        r@ == clock(secs as nat),
{
    let mut r: String = String::new();
    push_clock(&mut r, secs as u128);
    assert(r@ == clock(secs as nat));
    r
}

/// Appends a time span in whole seconds as `m:ss`.
pub fn push_clock(s: &mut String, secs: u128)
    ensures
        final(s)@ == old(s)@ + clock(secs as nat),
{
    push_decimal(s, secs / 60);
    proof {
        reveal_strlit(":");
    }
    s.append(":");
    push_two_digits(s, secs % 60);
    assert(s@ == old(s)@ + clock(secs as nat));
}

/// `c` is one of the ten decimal digits.
pub open spec fn is_digit(c: char) -> bool {
    '0' <= c <= '9'
}

/// Every character of `s` is a decimal digit.
pub open spec fn all_digits(s: Seq<char>) -> bool {
    forall|i: int| 0 <= i < s.len() ==> is_digit(#[trigger] s[i])
}

/// The number that a run of decimal digits writes.
pub open spec fn numeral_value(s: Seq<char>) -> int
    decreases s.len(),
{
    if s.len() == 0 {
        0
    } else {
        numeral_value(s.drop_last()) * 10 + (s.last() as int - '0' as int)
    }
}

/// The 32-bit number that a text writes: an optional sign, then decimal digits and nothing else.
pub open spec fn parsed_i32(s: Seq<char>) -> Option<int> {
    let signed = s.len() > 0 && (s[0] == '-' || s[0] == '+');
    let digits = if signed {
        s.drop_first()
    } else {
        s
    };
    let value = if signed && s[0] == '-' {
        -numeral_value(digits)
    } else {
        numeral_value(digits)
    };
    if digits.len() > 0 && all_digits(digits) && i32::MIN <= value <= i32::MAX {
        Some(value)
    } else {
        None
    }
}

/// A longer run of digits never writes a smaller number.
proof fn lemma_value_grows(s: Seq<char>, n: int)
    requires
        0 <= n <= s.len(),
        all_digits(s),
    ensures
        0 <= numeral_value(s.take(n)) <= numeral_value(s),
    decreases s.len(),
{
    if n == s.len() {
        assert(s.take(n) == s);
        if n > 0 {
            assert forall|i: int| 0 <= i < n - 1 implies is_digit(#[trigger] s.drop_last()[i]) by {
                assert(is_digit(s[i]));
            }
            lemma_value_grows(s.drop_last(), n - 1);
            assert(is_digit(s[n - 1]));
        }
    } else {
        assert forall|i: int| 0 <= i < s.len() - 1 implies is_digit(#[trigger] s.drop_last()[i]) by {
            assert(is_digit(s[i]));
        }
        lemma_value_grows(s.drop_last(), n);
        assert(s.drop_last().take(n) == s.take(n));
        assert(is_digit(s[s.len() - 1]));
    }
}

/// Reads a 32-bit number: an optional sign, then decimal digits and nothing else.
pub fn parse_i32(s: &str) -> (r: Option<i32>)
    ensures
        match r {
            Some(n) => parsed_i32(s@) == Some(n as int),
            None => parsed_i32(s@) is None,
        },
{
    let chars: Vec<char> = chars_of(s);
    let signed: bool = chars.len() > 0 && (chars[0] == '-' || chars[0] == '+');
    let negative: bool = signed && chars[0] == '-';
    let from: usize = if signed { 1 } else { 0 };
    let ghost digits = if signed {
        s@.drop_first()
    } else {
        s@
    };
    if chars.len() == from {
        return None;
    }
    let mut value: i64 = 0;
    let mut i: usize = from;
    assert(digits.take(0) == Seq::<char>::empty());
    while i < chars.len()
        invariant
            from <= i <= chars.len(),
            chars@ == s@,
            signed == (s@.len() > 0 && (s@[0] == '-' || s@[0] == '+')),
            negative == (signed && s@[0] == '-'),
            from == (if signed { 1int } else { 0int }),
            digits == (if signed { s@.drop_first() } else { s@ }),
            0 <= value <= 0x8000_0000,
            value == numeral_value(digits.take(i - from)),
            forall|k: int| 0 <= k < i - from ==> is_digit(#[trigger] digits[k]),
        decreases chars.len() - i,
    {
        let c: char = chars[i];
        assert(c == digits[i - from]);
        if !('0' <= c && c <= '9') {
            assert(!is_digit(digits[i - from]));
            assert(!all_digits(digits));
            return None;
        }
        value = value * 10 + (c as i64 - '0' as i64);
        i = i + 1;
        assert(digits.take(i - from).drop_last() == digits.take(i - from - 1));
        if value > 0x8000_0000 {
            proof {
                if all_digits(digits) {
                    lemma_value_grows(digits, i - from);
                }
            }
            return None;
        }
    }
    assert(digits.take(i - from) == digits);
    if negative {
        Some((-value) as i32)
    } else if value <= 0x7fff_ffff {
        Some(value as i32)
    } else {
        None
    }
}

/// The decimal numeral of a number is a run of digits that writes the number.
pub proof fn lemma_decimal_value(n: nat)
    ensures
        decimal(n).len() > 0,
        all_digits(decimal(n)),
        numeral_value(decimal(n)) == n,
    decreases n,
{
    reveal_with_fuel(numeral_value, 2);
    if n < 10 {
        assert(decimal(n).drop_last() == Seq::<char>::empty());
    } else {
        lemma_decimal_value(n / 10);
        let d = decimal(n / 10);
        assert(decimal(n).drop_last() == d);
        assert forall|i: int| 0 <= i < decimal(n).len() implies is_digit(#[trigger] decimal(n)[i]) by {
            if i < d.len() {
                assert(decimal(n)[i] == d[i]);
            }
        }
    }
}

/// Reading back the decimal numeral of a 32-bit number gives that number.
pub proof fn law_parse_reads_back(n: int)
    requires
        i32::MIN <= n <= i32::MAX,
    ensures
        parsed_i32(signed_decimal(n)) == Some(n),
{
    let m = if n < 0 {
        (-n) as nat
    } else {
        n as nat
    };
    lemma_decimal_value(m);
    if n < 0 {
        assert(signed_decimal(n).drop_first() == decimal(m));
    } else {
        assert(is_digit(decimal(m)[0]));
    }
}

} // verus!
