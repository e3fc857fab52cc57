//! What holds of trimmed, folded and searched texts, and of written numbers and times.

use vstd::prelude::*;

use crate::text::all_digits;
use crate::text::ascii_folded;
use crate::text::clock;
use crate::text::decimal;
use crate::text::has_substring;
use crate::text::is_digit;
use crate::text::is_white_space;
use crate::text::law_folded_once;
use crate::text::lemma_decimal_value;
use crate::text::lowercase;
use crate::text::numeral_value;
use crate::text::occurs_at;
use crate::text::parsed_i32;
use crate::text::signed_decimal;
use crate::text::trimmed;
use crate::text::trimmed_end;
use crate::text::trimmed_start;
use crate::text::two_digits;
use crate::text::unicode_lowercase;

verus! {

/// Folding puts each letter A to Z, at every place, into its lower case, and leaves every other
/// character as it is.
pub proof fn law_folding(s: Seq<char>)
    ensures
        ascii_folded(s).len() == s.len(),
        forall|i: int|
            0 <= i < s.len() ==> {
                &&& 'A' <= #[trigger] s[i] <= 'Z' ==> ascii_folded(s)[i] as int == s[i] as int + 32
                &&& !('A' <= s[i] <= 'Z') ==> ascii_folded(s)[i] == s[i]
            },
{
}

/// The lowercase form of a text does not depend on the case of its letters A to Z, and of a text
/// without them it is the Unicode lowercase form.
pub proof fn law_lowercase(s: Seq<char>)
    ensures
        lowercase(ascii_folded(s)) == lowercase(s),
        (forall|i: int| 0 <= i < s.len() ==> !('A' <= #[trigger] s[i] <= 'Z')) ==> lowercase(s)
            == unicode_lowercase(s),
{
    law_folded_once(s);
    if forall|i: int| 0 <= i < s.len() ==> !('A' <= #[trigger] s[i] <= 'Z') {
        assert(ascii_folded(s) =~= s);
    }
}

proof fn lemma_start_is_white(s: Seq<char>) -> (from: int)
    ensures
        0 <= from <= s.len(),
        trimmed_start(s) == s.skip(from),
        forall|i: int| 0 <= i < from ==> is_white_space(#[trigger] s[i]),
        from < s.len() ==> !is_white_space(s[from]),
    decreases s.len(),
{
    if s.len() > 0 && is_white_space(s[0]) {
        let rest = s.drop_first();
        let from = lemma_start_is_white(rest);
        assert(rest.skip(from) =~= s.skip(from + 1));
        assert forall|i: int| 0 <= i < from + 1 implies is_white_space(#[trigger] s[i]) by {
            if i > 0 {
                assert(rest[i - 1] == s[i]);
            }
        }
        from + 1
    } else {
        assert(s.skip(0) =~= s);
        0
    }
}

proof fn lemma_end_is_white(s: Seq<char>) -> (to: int)
    ensures
        0 <= to <= s.len(),
        trimmed_end(s) == s.take(to),
        forall|i: int| to <= i < s.len() ==> is_white_space(#[trigger] s[i]),
        to > 0 ==> !is_white_space(s[to - 1]),
    decreases s.len(),
{
    if s.len() > 0 && is_white_space(s.last()) {
        let rest = s.drop_last();
        let to = lemma_end_is_white(rest);
        assert(rest.take(to) =~= s.take(to));
        assert forall|i: int| to <= i < s.len() implies is_white_space(#[trigger] s[i]) by {
            if i < rest.len() {
                assert(rest[i] == s[i]);
            }
        }
        to
    } else {
        assert(s.take(s.len() as int) =~= s);
        s.len() as int
    }
}

/// Trimming takes away white space alone, at the two ends and nowhere else, and all of it: what is
/// left is one piece of the text that neither starts nor ends with white space.
pub proof fn law_trimming_takes_white_space(s: Seq<char>)
    ensures
        exists|from: int, to: int|
            {
                &&& 0 <= from <= to <= s.len()
                &&& trimmed(s) == #[trigger] s.subrange(from, to)
                &&& forall|i: int|
                    0 <= i < from || to <= i < s.len() ==> is_white_space(#[trigger] s[i])
                &&& from < to ==> !is_white_space(s[from]) && !is_white_space(s[to - 1])
            },
{
    let from = lemma_start_is_white(s);
    let rest = s.skip(from);
    let n = lemma_end_is_white(rest);
    let to = from + n;
    assert(rest.take(n) =~= s.subrange(from, to));
    assert forall|i: int| 0 <= i < from || to <= i < s.len() implies is_white_space(
        #[trigger] s[i],
    ) by {
        if i >= to {
            assert(rest[i - from] == s[i]);
        }
    }
    if n > 0 {
        assert(rest[n - 1] == s[to - 1]);
    }
}

/// A text stands in another where a piece of the other is that text.
pub proof fn law_substring_is_a_piece(s: Seq<char>, part: Seq<char>)
    ensures
        has_substring(s, part) <==> exists|from: int, to: int|
            0 <= from <= to <= s.len() && #[trigger] s.subrange(from, to) == part,
{
    if has_substring(s, part) {
        let at = choose|at: int| occurs_at(s, part, at);
        assert(s.subrange(at, at + part.len()) == part);
    }
    if exists|from: int, to: int|
        0 <= from <= to <= s.len() && #[trigger] s.subrange(from, to) == part {
        let (from, to) = choose|from: int, to: int|
            0 <= from <= to <= s.len() && #[trigger] s.subrange(from, to) == part;
        assert(occurs_at(s, part, from));
    }
}

/// A run of digits writes ten times what it writes without its last digit, and that digit.
pub proof fn law_digits_add_up(s: Seq<char>, c: char)
    ensures
        numeral_value(Seq::empty()) == 0,
        numeral_value(s.push(c)) == numeral_value(s) * 10 + (c as int - 48),
{
    assert(s.push(c).drop_last() =~= s);
}

/// A numeral is written in digits alone, without a zero in front, and writes its number.
pub proof fn law_numeral(n: nat)
    ensures
        decimal(n).len() > 0,
        forall|i: int| 0 <= i < decimal(n).len() ==> '0' <= #[trigger] decimal(n)[i] <= '9',
        decimal(n)[0] == '0' <==> n == 0,
        n == 0 ==> decimal(n).len() == 1,
        numeral_value(decimal(n)) == n,
    decreases n,
{
    lemma_decimal_value(n);
    assert forall|i: int| 0 <= i < decimal(n).len() implies '0' <= #[trigger] decimal(n)[i]
        <= '9' by {
        assert(is_digit(decimal(n)[i]));
    }
    if n >= 10 {
        law_numeral(n / 10);
        assert(decimal(n)[0] == decimal(n / 10)[0]);
    }
}

/// A number below zero is written with a minus sign in front of its numeral, any other without.
pub proof fn law_signed_numeral(n: int)
    ensures
        n >= 0 ==> signed_decimal(n) == decimal(n as nat),
        n < 0 ==> {
            &&& signed_decimal(n).len() > 0
            &&& signed_decimal(n)[0] == '-'
            &&& signed_decimal(n).drop_first() == decimal((-n) as nat)
        },
{
    if n < 0 {
        assert(signed_decimal(n).drop_first() =~= decimal((-n) as nat));
    }
}

proof fn lemma_two_digits(n: nat)
    requires
        n < 60,
    ensures
        two_digits(n).len() == 2,
        numeral_value(two_digits(n)) == n,
        '0' <= two_digits(n)[0] <= '9',
        '0' <= two_digits(n)[1] <= '9',
{
    reveal_with_fuel(numeral_value, 3);
    law_numeral(n);
    if n < 10 {
        assert(two_digits(n) =~= seq!['0'].push(decimal(n)[0]));
        assert(seq!['0'].push(decimal(n)[0]).drop_last() =~= seq!['0']);
        assert(seq!['0'].drop_last() =~= Seq::<char>::empty());
    } else {
        law_numeral(n / 10);
        assert(n / 10 < 10);
        assert(decimal(n / 10).len() == 1);
    }
}

/// A time is written as its minutes without a zero in front, a colon, and its seconds in two
/// digits, of which there are less than sixty.
pub proof fn law_clock_reads_back(secs: nat)
    ensures
        ({
            let n = clock(secs).len() as int;
            let minutes = clock(secs).take(n - 3);
            let rest = clock(secs).skip(n - 2);
            &&& n >= 4
            &&& clock(secs)[n - 3] == ':'
            &&& numeral_value(minutes) * 60 + numeral_value(rest) == secs
            &&& 0 <= numeral_value(rest) < 60
            &&& forall|i: int|
                0 <= i < n && i != n - 3 ==> '0' <= #[trigger] clock(secs)[i] <= '9'
            &&& clock(secs)[0] == '0' ==> n == 4
        }),
{
    let m = decimal(secs / 60);
    let r = two_digits(secs % 60);
    law_numeral(secs / 60);
    lemma_two_digits(secs % 60);
    let n = clock(secs).len() as int;
    assert(clock(secs).take(n - 3) =~= m);
    assert(clock(secs).skip(n - 2) =~= r);
    assert forall|i: int| 0 <= i < n && i != n - 3 implies '0' <= #[trigger] clock(secs)[i]
        <= '9' by {
        if i < n - 3 {
            assert(clock(secs)[i] == m[i]);
        } else {
            assert(clock(secs)[i] == r[i - (n - 2)]);
        }
    }
    assert(clock(secs)[0] == m[0]);
}

/// A text is read as a number exactly where it is digits, with one sign in front or none, and the
/// number has 32 bits. The minus sign turns the number round.
pub proof fn law_numbers_are_read(s: Seq<char>, digits: Seq<char>)
    ensures
        digits.len() > 0 && (forall|i: int|
            0 <= i < digits.len() ==> '0' <= #[trigger] digits[i] <= '9') ==> {
            let n = numeral_value(digits);
            &&& n <= 2147483647 ==> parsed_i32(digits) == Some(n) && parsed_i32(
                seq!['+'] + digits,
            ) == Some(n)
            &&& n <= 2147483648 ==> parsed_i32(seq!['-'] + digits) == Some(-n)
            &&& n > 2147483647 ==> parsed_i32(digits) is None && parsed_i32(
                seq!['+'] + digits,
            ) is None
            &&& n > 2147483648 ==> parsed_i32(seq!['-'] + digits) is None
        },
        (exists|i: int| 0 < i < s.len() && !('0' <= #[trigger] s[i] <= '9')) ==> parsed_i32(
            s,
        ) is None,
        s.len() > 0 && !('0' <= s[0] <= '9') && s[0] != '-' && s[0] != '+' ==> parsed_i32(
            s,
        ) is None,
        s.len() == 1 && !('0' <= s[0] <= '9') ==> parsed_i32(s) is None,
        s.len() == 0 ==> parsed_i32(s) is None,
{
    if digits.len() > 0 && (forall|i: int|
        0 <= i < digits.len() ==> '0' <= #[trigger] digits[i] <= '9') {
        assert((seq!['+'] + digits).drop_first() =~= digits);
        assert((seq!['-'] + digits).drop_first() =~= digits);
        assert(all_digits(digits));
        assert('0' <= digits[0] <= '9');
        lemma_value_not_negative(digits);
    }
    if exists|i: int| 0 < i < s.len() && !('0' <= #[trigger] s[i] <= '9') {
        let i = choose|i: int| 0 < i < s.len() && !('0' <= #[trigger] s[i] <= '9');
        assert(!is_digit(s[i]));
        assert(!is_digit(s.drop_first()[i - 1]));
    }
    if s.len() > 0 && !('0' <= s[0] <= '9') {
        assert(!is_digit(s[0]));
    }
}

proof fn lemma_value_not_negative(s: Seq<char>)
    requires
        all_digits(s),
    ensures
        numeral_value(s) >= 0,
    decreases s.len(),
{
    if s.len() > 0 {
        let shorter = s.drop_last();
        assert forall|i: int| 0 <= i < shorter.len() implies is_digit(
            #[trigger] shorter[i],
        ) by {
            assert(is_digit(s[i]));
        }
        lemma_value_not_negative(shorter);
        assert(is_digit(s[s.len() - 1]));
    }
}

} // verus!
