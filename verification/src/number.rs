//! Reading a small signed number from an argument.

use vstd::prelude::*;
use crate::text::{begins_with, chars_of};

verus! {

/// Whether `c` is a decimal digit.
pub open spec fn is_digit(c: char) -> bool {
    '0' <= c && c <= '9'
}

/// The value of the decimal digit `c`.
pub open spec fn digit_value(c: char) -> int {
    c as int - '0' as int
}

/// Whether `s` holds decimal digits only.
pub open spec fn all_digits(s: Seq<char>) -> bool {
    forall|i: int| 0 <= i < s.len() ==> is_digit(#[trigger] s[i])
}

/// The number that the decimal digits of `s` write.
pub open spec fn decimal(s: Seq<char>) -> int
    decreases s.len(),
{
    if s.len() == 0 {
        0
    } else {
        decimal(s.drop_last()) * 10 + digit_value(s.last())
    }
}

/// The digits of `s`: what follows its sign, if it has one.
pub open spec fn unsigned_part(s: Seq<char>) -> Seq<char> {
    if begins_with(s, '-') || begins_with(s, '+') {
        s.skip(1)
    } else {
        s
    }
}

/// The number that `s` writes: an optional sign, then one decimal digit or
/// more, and nothing else.
pub open spec fn signed_number(s: Seq<char>) -> Option<int> {
    let digits = unsigned_part(s);
    if digits.len() > 0 && all_digits(digits) {
        Some(
            if begins_with(s, '-') {
                -decimal(digits)
            } else {
                decimal(digits)
            },
        )
    } else {
        None
    }
}

/// The number that `s` writes, where it fits into eight bits with a sign.
pub open spec fn small_number(s: Seq<char>) -> Option<i8> {
    match signed_number(s) {
        Some(n) => if -128 <= n <= 127 {
            Some(n as i8)
        } else {
            None
        },
        None => None,
    }
}

/// Digits never write a negative number, and more digits never write a
/// smaller one.
pub proof fn lemma_decimal_grows(s: Seq<char>, n: int)
    requires
        all_digits(s),
        0 <= n <= s.len(),
    ensures
        0 <= decimal(s.take(n)) <= decimal(s),
    decreases s.len() - n,
{
    lemma_decimal_nonnegative(s.take(n));
    if n < s.len() {
        lemma_decimal_grows(s, n + 1);
        let longer = s.take(n + 1);
        assert(longer.drop_last() =~= s.take(n));
        assert(is_digit(s[n]));
        assert(longer.last() == s[n]);
    } else {
        assert(s.take(n) =~= s);
    }
}

/// Digits never write a negative number.
pub proof fn lemma_decimal_nonnegative(s: Seq<char>)
    requires
        all_digits(s),
    ensures
        0 <= decimal(s),
    decreases s.len(),
{
    if s.len() > 0 {
        assert(is_digit(s.last()));
        assert forall|i: int| 0 <= i < s.drop_last().len() implies is_digit(
            #[trigger] s.drop_last()[i],
        ) by {
            assert(s.drop_last()[i] == s[i]);
        }
        lemma_decimal_nonnegative(s.drop_last());
    }
}

/// The value of a decimal digit, or nothing for any other character.
pub fn digit(c: char) -> (value: Option<u8>)
    ensures
        match value {
            Some(d) => is_digit(c) && d == digit_value(c),
            None => !is_digit(c),
        },
{
    if '0' <= c && c <= '9' {
        Some((c as u32 - '0' as u32) as u8)
    } else {
        None
    }
}

/// Reads `text` as a number between -128 and 127: an optional sign, then
/// decimal digits. Anything else is not a number.
#[verifier::loop_isolation(false)]
pub fn parse_small(text: &str) -> (number: Option<i8>)
    ensures
        number == small_number(text@),
{
    let chars = chars_of(text);
    let n: usize = chars.len();
    if n == 0 {
        return None;
    }
    let first = chars[0];
    let negative = first == '-';
    let start: usize = if first == '-' || first == '+' {
        1
    } else {
        0
    };
    let ghost digits = unsigned_part(text@);
    proof {
        if start == 0 {
            assert(digits =~= text@);
        }
        assert(digits.len() == n - start);
    }
    if start == n {
        return None;
    }
    let mut value: i32 = 0;
    let mut i: usize = start;
    while i < n
        invariant
            start <= i <= n,
            forall|j: int| 0 <= j < i - start ==> is_digit(#[trigger] digits[j]),
            value == decimal(digits.take(i - start)),
            0 <= value <= 128,
        decreases n - i,
    {
        let c = chars[i];
        proof {
            assert(digits[i - start] == c);
        }
        match digit(c) {
            None => {
                return None;
            },
            Some(d) => {
                let ghost longer = digits.take(i - start + 1);
                proof {
                    assert(longer.drop_last() =~= digits.take(i - start));
                    assert(longer.last() == c);
                }
                let next: i32 = value * 10 + d as i32;
                if next > 128 {
                    // Too large already; what follows decides only whether
                    // the text is a number at all.
                    let mut k: usize = i + 1;
                    while k < n
                        invariant
                            i < k <= n,
                            forall|j: int| 0 <= j < k - start ==> is_digit(#[trigger] digits[j]),
                        decreases n - k,
                    {
                        let c = chars[k];
                        proof {
                            assert(digits[k - start] == c);
                        }
                        if digit(c).is_none() {
                            return None;
                        }
                        k = k + 1;
                    }
                    proof {
                        assert(all_digits(digits));
                        lemma_decimal_grows(digits, i - start + 1);
                    }
                    return None;
                }
                value = next;
            },
        }
        i = i + 1;
    }
    proof {
        assert(digits.take(n - start) =~= digits);
        assert(all_digits(digits));
    }
    if negative {
        Some((0 - value) as i8)
    } else if value <= 127 {
        Some(value as i8)
    } else {
        None
    }
}

/// The digit that writes `d`, a number below ten.
pub open spec fn digit_char(d: int) -> char {
    if d == 0 {
        '0'
    } else if d == 1 {
        '1'
    } else if d == 2 {
        '2'
    } else if d == 3 {
        '3'
    } else if d == 4 {
        '4'
    } else if d == 5 {
        '5'
    } else if d == 6 {
        '6'
    } else if d == 7 {
        '7'
    } else if d == 8 {
        '8'
    } else {
        '9'
    }
}

/// The decimal digits that write `n`, without zeros in front.
pub open spec fn digits_of(n: nat) -> Seq<char>
    decreases n,
{
    if n < 10 {
        seq![digit_char(n as int)]
    } else {
        digits_of(n / 10).push(digit_char((n % 10) as int))
    }
}

/// Digits that write a number in the shortest way: a single digit, or
/// several of which the first is not zero.
pub open spec fn canonical(s: Seq<char>) -> bool {
    s.len() == 1 || (s.len() > 1 && s[0] != '0')
}

/// How many digits stand at the beginning of `s`.
pub open spec fn digit_run(s: Seq<char>) -> int
    decreases s.len(),
{
    if s.len() > 0 && is_digit(s[0]) {
        1 + digit_run(s.skip(1))
    } else {
        0
    }
}

/// The number written at the beginning of `s`, and how many characters
/// write it: the digits there, which must be the shortest way to write a
/// number below two to the power of sixty-four.
pub open spec fn number_of(s: Seq<char>) -> Option<(nat, int)> {
    let k = digit_run(s);
    let digits = s.take(k);
    if k >= 1 && canonical(digits) && decimal(digits) <= u64::MAX {
        Some((decimal(digits) as nat, k))
    } else {
        None
    }
}

/// The digits of a number are digits, write the number, and do so in the
/// shortest way.
pub proof fn lemma_digits(n: nat)
    ensures
        all_digits(digits_of(n)),
        digits_of(n).len() >= 1,
        canonical(digits_of(n)),
        decimal(digits_of(n)) == n,
        n > 0 ==> digits_of(n)[0] != '0',
    decreases n,
{
    let d = digits_of(n);
    if n < 10 {
        assert(d.drop_last() =~= Seq::<char>::empty());
        assert(decimal(d.drop_last()) == 0);
        assert(d.last() == digit_char(n as int));
    } else {
        lemma_digits(n / 10);
        let front = digits_of(n / 10);
        assert(d.drop_last() =~= front);
        assert(d.last() == digit_char((n % 10) as int));
        assert(d[0] == front[0]);
        assert forall|i: int| 0 <= i < d.len() implies is_digit(#[trigger] d[i]) by {
            if i < front.len() {
                assert(d[i] == front[i]);
            }
        }
    }
}

/// Digits that write a number in the shortest way are the digits of that
/// number.
pub proof fn lemma_digits_back(s: Seq<char>)
    requires
        s.len() >= 1,
        all_digits(s),
        canonical(s),
    ensures
        decimal(s) >= 0,
        digits_of(decimal(s) as nat) == s,
        s.len() > 1 ==> decimal(s) >= 10,
    decreases s.len(),
{
    let front = s.drop_last();
    assert(is_digit(s.last()));
    lemma_decimal_nonnegative(s);
    if s.len() == 1 {
        assert(front =~= Seq::<char>::empty());
        assert(decimal(front) == 0);
        assert(digits_of(decimal(s) as nat) =~= s);
    } else {
        assert forall|i: int| 0 <= i < front.len() implies is_digit(#[trigger] front[i]) by {
            assert(front[i] == s[i]);
        }
        assert(front[0] == s[0]);
        lemma_digits_back(front);
        assert(is_digit(front[0]));
        if front.len() == 1 {
            assert(front.drop_last() =~= Seq::<char>::empty());
            assert(decimal(front.drop_last()) == 0);
            assert(decimal(front) >= 1);
        }
        let n = decimal(s);
        assert(n == decimal(front) * 10 + digit_value(s.last()));
        assert(n / 10 == decimal(front));
        assert(n % 10 == digit_value(s.last()));
        assert(digit_char(digit_value(s.last())) == s.last());
        assert(digits_of(n as nat) =~= s);
    }
}

/// Where digits are followed by something else, the digits at the
/// beginning are these.
pub proof fn lemma_digit_run(s: Seq<char>, k: int)
    requires
        0 <= k <= s.len(),
        forall|i: int| 0 <= i < k ==> is_digit(#[trigger] s[i]),
        k == s.len() || !is_digit(s[k]),
    ensures
        digit_run(s) == k,
    decreases k,
{
    if k > 0 {
        let t = s.skip(1);
        assert forall|i: int| 0 <= i < k - 1 implies is_digit(#[trigger] t[i]) by {
            assert(t[i] == s[i + 1]);
        }
        if k < s.len() {
            assert(t[k - 1] == s[k]);
        }
        lemma_digit_run(t, k - 1);
    }
}

/// The digits at the beginning are digits and lie within the text, and
/// there are at least as many of them as there are digits in front.
pub proof fn lemma_digit_run_bounds(s: Seq<char>, k: int)
    requires
        0 <= k <= s.len(),
        forall|i: int| 0 <= i < k ==> is_digit(#[trigger] s[i]),
    ensures
        k <= digit_run(s) <= s.len(),
        all_digits(s.take(digit_run(s))),
    decreases s.len(),
{
    if s.len() > 0 && is_digit(s[0]) {
        let t = s.skip(1);
        let m = if k > 0 {
            k - 1
        } else {
            0
        };
        assert forall|i: int| 0 <= i < m implies is_digit(#[trigger] t[i]) by {
            assert(t[i] == s[i + 1]);
        }
        lemma_digit_run_bounds(t, m);
        let run = s.take(digit_run(s));
        assert forall|i: int| 0 <= i < run.len() implies is_digit(#[trigger] run[i]) by {
            if i > 0 {
                assert(run[i] == t.take(digit_run(t))[i - 1]);
            }
        }
    } else {
        assert(k == 0) by {
            if k > 0 {
                assert(is_digit(s[0]));
            }
        }
    }
}

/// The digits of a number, followed by something that is no digit, are
/// read as that number.
pub proof fn lemma_number_of(n: nat, rest: Seq<char>)
    requires
        n <= u64::MAX,
        rest.len() == 0 || !is_digit(rest[0]),
    ensures
        number_of(digits_of(n) + rest) == Some((n, digits_of(n).len() as int)),
{
    let d = digits_of(n);
    let s = d + rest;
    lemma_digits(n);
    assert forall|i: int| 0 <= i < d.len() implies is_digit(#[trigger] s[i]) by {
        assert(s[i] == d[i]);
    }
    if d.len() < s.len() {
        assert(s[d.len() as int] == rest[0]);
    }
    lemma_digit_run(s, d.len() as int);
    assert(s.take(d.len() as int) =~= d);
}

/// Reads the number written in `chars` from the index `at` on: see
/// [`number_of`]. Hands back the number and the index behind it. Behind
/// the end of `chars` there is nothing to read.
pub fn read_number(chars: &Vec<char>, at: usize) -> (found: Option<(u64, usize)>)
    ensures
        at > chars.len() ==> found.is_none(),
        at <= chars.len() ==> match number_of(chars@.skip(at as int)) {
            Some((n, k)) => found matches Some((read, end)) && read == n && end == at + k && at
                < end <= chars.len(),
            None => found.is_none(),
        },
{
    if at > chars.len() {
        return None;
    }
    let ghost tail = chars@.skip(at as int);
    let n: usize = chars.len();
    let mut value: u64 = 0;
    let mut i: usize = at;
    proof {
        assert(tail.take(0) =~= Seq::<char>::empty());
    }
    while i < n && digit(chars[i]).is_some()
        invariant
            at <= i <= n,
            n == chars.len(),
            tail == chars@.skip(at as int),
            forall|j: int| 0 <= j < i - at ==> is_digit(#[trigger] tail[j]),
            value == decimal(tail.take(i - at)),
        decreases n - i,
    {
        let d = match digit(chars[i]) {
            Some(d) => d,
            None => 0,
        };
        proof {
            assert(tail[i - at] == chars[i as int]);
            let longer = tail.take(i - at + 1);
            assert(longer.drop_last() =~= tail.take(i - at));
            assert(longer.last() == chars[i as int]);
        }
        if value > (u64::MAX - d as u64) / 10 {
            proof {
                lemma_digit_run_bounds(tail, i - at + 1);
                let run = tail.take(digit_run(tail));
                lemma_decimal_grows(run, i - at + 1);
                assert(run.take(i - at + 1) =~= tail.take(i - at + 1));
            }
            return None;
        }
        value = value * 10 + d as u64;
        i = i + 1;
    }
    proof {
        if i < n {
            assert(tail[i - at] == chars[i as int]);
        }
        lemma_digit_run(tail, i - at);
    }
    if i == at {
        return None;
    }
    if i - at > 1 && chars[at] == '0' {
        proof {
            assert(tail[0] == chars[at as int]);
            assert(tail.take(i - at)[0] == tail[0]);
        }
        return None;
    }
    proof {
        assert(tail.take(i - at)[0] == tail[0]);
        assert(tail[0] == chars[at as int]);
    }
    Some((value, i))
}

/// Writes the digits of `n` at the end of `text`.
pub fn write_number(text: &mut String, n: u64)
    ensures
        final(text)@ == old(text)@ + digits_of(n as nat),
    decreases n,
{
    if n >= 10 {
        write_number(text, n / 10);
    }
    let d = n % 10;
    let digit = if d == 0 {
        "0"
    } else if d == 1 {
        "1"
    } else if d == 2 {
        "2"
    } else if d == 3 {
        "3"
    } else if d == 4 {
        "4"
    } else if d == 5 {
        "5"
    } else if d == 6 {
        "6"
    } else if d == 7 {
        "7"
    } else if d == 8 {
        "8"
    } else {
        "9"
    };
    proof {
        reveal_strlit("0");
        reveal_strlit("1");
        reveal_strlit("2");
        reveal_strlit("3");
        reveal_strlit("4");
        reveal_strlit("5");
        reveal_strlit("6");
        reveal_strlit("7");
        reveal_strlit("8");
        reveal_strlit("9");
        assert(digit@ =~= seq![digit_char(d as int)]);
    }
    text.append(digit);
    proof {
        if n >= 10 {
            assert(final(text)@ =~= old(text)@ + digits_of((n / 10) as nat).push(
                digit_char(d as int),
            ));
        } else {
            assert(final(text)@ =~= old(text)@ + seq![digit_char(d as int)]);
        }
    }
}

/// Where a number is read, its digits stand there and nothing else.
pub proof fn lemma_number_read(s: Seq<char>)
    requires
        number_of(s) is Some,
    ensures
        ({
            let (n, k) = number_of(s).unwrap();
            &&& 0 < k <= s.len()
            &&& n <= u64::MAX
            &&& s.take(k) == digits_of(n)
        }),
{
    let k = digit_run(s);
    lemma_digit_run_bounds(s, 0);
    lemma_digits_back(s.take(k));
}

} // verus!
