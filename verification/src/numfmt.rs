//! Decimal rendering of integers, used to build the wire shape of rooms
//! and messages.

use vstd::prelude::*;

verus! {

/// The character for one decimal digit.
pub open spec fn digit_char(d: int) -> char
    recommends
        0 <= d < 10,
{
    if d == 0 {
        '0'
    } else if d == 1 {
        '1'
    } else if d == 2 {
        '2'
    } else if d == 3 {
        '3'
    } else if d == 4 {
        '4'
    } else if d == 5 {
        '5'
    } else if d == 6 {
        '6'
    } else if d == 7 {
        '7'
    } else if d == 8 {
        '8'
    } else {
        '9'
    }
}

/// The decimal digits of `n`, most significant first; empty for zero.
pub open spec fn digits_of(n: nat) -> Seq<char>
    decreases n,
{
    if n == 0 {
        Seq::empty()
    } else {
        digits_of(n / 10).push(digit_char((n % 10) as int))
    }
}

/// The decimal representation of an unsigned value.
pub open spec fn dec_str(n: nat) -> Seq<char> {
    if n == 0 {
        seq!['0']
    } else {
        digits_of(n)
    }
}

/// The decimal representation of a signed value, `-` first when negative.
pub open spec fn int_str(n: int) -> Seq<char> {
    if n < 0 {
        seq!['-'] + dec_str((-n) as nat)
    } else {
        dec_str(n as nat)
    }
}

/// The digits collected least significant first, read back most
/// significant first as characters.
spec fn chars_rev(s: Seq<u64>) -> Seq<char>
    decreases s.len(),
{
    if s.len() == 0 {
        Seq::empty()
    } else {
        seq![digit_char(s.last() as int)] + chars_rev(s.drop_last())
    }
}

proof fn lemma_chars_rev_index(s: Seq<u64>, j: int)
    requires
        0 <= j < s.len(),
    ensures
        chars_rev(s).len() == s.len(),
        chars_rev(s)[j] == digit_char(s[s.len() - 1 - j] as int),
    decreases s.len(),
{
    lemma_chars_rev_len(s);
    if j > 0 {
        lemma_chars_rev_index(s.drop_last(), j - 1);
    }
}

proof fn lemma_chars_rev_len(s: Seq<u64>)
    ensures
        chars_rev(s).len() == s.len(),
    decreases s.len(),
{
    if s.len() > 0 {
        lemma_chars_rev_len(s.drop_last());
    }
}

/// One decimal digit as a string slice.
fn digit_str(d: u64) -> (r: &'static str)
    requires
        d < 10,
    ensures
        r@ == seq![digit_char(d as int)],
{
    proof {
        reveal_strlit("0");
        reveal_strlit("1");
        reveal_strlit("2");
        reveal_strlit("3");
        reveal_strlit("4");
        reveal_strlit("5");
        reveal_strlit("6");
        reveal_strlit("7");
        reveal_strlit("8");
        reveal_strlit("9");
    }
    let r: &'static str = if d == 0 {
        "0"
    } else if d == 1 {
        "1"
    } else if d == 2 {
        "2"
    } else if d == 3 {
        "3"
    } else if d == 4 {
        "4"
    } else if d == 5 {
        "5"
    } else if d == 6 {
        "6"
    } else if d == 7 {
        "7"
    } else if d == 8 {
        "8"
    } else {
        "9"
    };
    proof {
        assert(r@ =~= seq![digit_char(d as int)]);
    }
    r
}

/// Renders an unsigned value in decimal.
pub fn u64_to_string(n: u64) -> (r: String)
    ensures
        r@ == dec_str(n as nat),
{
    if n == 0 {
        let r = String::from_str("0");
        proof {
            reveal_strlit("0");
            assert(r@ =~= dec_str(0));
        }
        return r;
    }
    let mut rev: Vec<u64> = Vec::new();
    let mut m: u64 = n;
    while m > 0
        invariant
            digits_of(n as nat) =~= digits_of(m as nat) + chars_rev(rev@),
            m == 0 ==> rev@.len() > 0,
            forall|j: int| 0 <= j < rev@.len() ==> rev@[j] < 10,
        decreases m,
    {
        let d: u64 = m % 10;
        let ghost old_rev = rev@;
        rev.push(d);
        m = m / 10;
        proof {
            assert(rev@.drop_last() =~= old_rev);
            assert(chars_rev(rev@) =~= seq![digit_char(d as int)] + chars_rev(old_rev));
            assert(digits_of((m * 10 + d) as nat) =~= digits_of(m as nat).push(
                digit_char(d as int),
            ));
            assert(digits_of(m as nat) + chars_rev(rev@) =~= digits_of(m as nat).push(
                digit_char(d as int),
            ) + chars_rev(old_rev));
        }
    }
    let mut out = String::new();
    let mut i: usize = rev.len();
    proof {
        lemma_chars_rev_len(rev@);
    }
    while i > 0
        invariant
            i <= rev@.len(),
            chars_rev(rev@).len() == rev@.len(),
            forall|j: int| 0 <= j < rev@.len() ==> rev@[j] < 10,
            out@.len() == rev@.len() - i,
            forall|j: int| 0 <= j < out@.len() ==> out@[j] == chars_rev(rev@)[j],
        decreases i,
    {
        i = i - 1;
        let d: u64 = rev[i];
        out.append(digit_str(d));
        proof {
            lemma_chars_rev_index(rev@, rev@.len() - 1 - i);
        }
    }
    proof {
        assert(out@ =~= chars_rev(rev@));
        assert(out@ =~= dec_str(n as nat));
    }
    out
}

/// Renders a signed value in decimal.
pub fn i64_to_string(n: i64) -> (r: String)
    ensures
        r@ == int_str(n as int),
{
    if n >= 0 {
        let r = u64_to_string(n as u64);
        return r;
    }
    let mag: u64 = if n == i64::MIN {
        9223372036854775808u64
    } else {
        (-n) as u64
    };
    let mut out = String::from_str("-");
    proof {
        reveal_strlit("-");
        assert(out@ =~= seq!['-']);
    }
    let digits = u64_to_string(mag);
    out.append(digits.as_str());
    proof {
        assert(out@ =~= int_str(n as int));
    }
    out
}

/// True of an ascii decimal digit character.
pub open spec fn is_ascii_digit(c: char) -> bool {
    48 <= c as int <= 57
}

/// The numeric value of one digit character.
pub open spec fn digit_value(c: char) -> int {
    c as int - 48
}

/// Every character of the string is a digit.
pub open spec fn all_digits(s: Seq<char>) -> bool {
    forall|i: int| 0 <= i < s.len() ==> is_ascii_digit(#[trigger] s[i])
}

/// The nonnegative value a digit string denotes.
pub open spec fn digits_value(s: Seq<char>) -> int
    decreases s.len(),
{
    if s.len() == 0 {
        0
    } else {
        digits_value(s.drop_last()) * 10 + digit_value(s.last())
    }
}

/// What the standard signed 64-bit parse accepts and returns: an
/// optional sign, then at least one digit and nothing else, denoting a
/// value the type can hold.
pub open spec fn spec_parse_i64(s: Seq<char>) -> Option<i64> {
    let negative = s.len() > 0 && s[0] == '-';
    let digits = if s.len() > 0 && (s[0] == '-' || s[0] == '+') {
        s.skip(1)
    } else {
        s
    };
    if digits.len() == 0 || !all_digits(digits) {
        None
    } else {
        let v = if negative {
            -digits_value(digits)
        } else {
            digits_value(digits)
        };
        if i64::MIN <= v <= i64::MAX {
            Some(v as i64)
        } else {
            None
        }
    }
}

proof fn lemma_digits_value_nonneg(s: Seq<char>)
    requires
        all_digits(s),
    ensures
        digits_value(s) >= 0,
    decreases s.len(),
{
    if s.len() > 0 {
        assert(all_digits(s.drop_last())) by {
            assert(forall|i: int|
                0 <= i < s.drop_last().len() ==> (#[trigger] s.drop_last()[i]) == s[i]);
        }
        lemma_digits_value_nonneg(s.drop_last());
        assert(is_ascii_digit(s[s.len() - 1]));
    }
}

/// Parses a signed 64-bit value exactly as the standard library does.
pub fn parse_i64(s: &str) -> (r: Option<i64>)
    ensures
        r == spec_parse_i64(s@),
{
    let len = s.unicode_len();
    if len == 0 {
        return None;
    }
    let first = s.get_char(0);
    let has_sign = first == '-' || first == '+';
    let negative = first == '-';
    let start: usize = if has_sign {
        1
    } else {
        0
    };
    let ghost digits = if has_sign {
        s@.skip(1)
    } else {
        s@
    };
    proof {
        assert(digits.len() == len - start);
        assert(forall|j: int| 0 <= j < digits.len() ==> (#[trigger] digits[j]) == s@[j + start]);
    }
    if len == start {
        return None;
    }
    let mut i: usize = start;
    let mut mag: u64 = 0;
    let mut overflow = false;
    while i < len
        invariant
            start <= i <= len,
            len == s@.len(),
            has_sign == (s@.len() > 0 && (s@[0] == '-' || s@[0] == '+')),
            negative == (s@.len() > 0 && s@[0] == '-'),
            start == (if has_sign {
                1int
            } else {
                0int
            }),
            digits == (if has_sign {
                s@.skip(1)
            } else {
                s@
            }),
            digits.len() == len - start,
            forall|j: int| 0 <= j < digits.len() ==> (#[trigger] digits[j]) == s@[j + start],
            forall|j: int| 0 <= j < i - start ==> is_ascii_digit(#[trigger] digits[j]),
            !overflow ==> mag == digits_value(digits.take(i - start)) && mag
                <= 9223372036854775808u64,
            overflow ==> digits_value(digits.take(i - start)) > 9223372036854775808int,
        decreases len - i,
    {
        let c = s.get_char(i);
        let code: u32 = c as u32;
        if code < 48 || code > 57 {
            proof {
                assert(digits[i - start] == c);
                assert(!is_ascii_digit(c));
                assert(!all_digits(digits));
            }
            return None;
        }
        let d: u64 = (code - 48) as u64;
        let ghost prefix = digits.take(i - start);
        let ghost prefix_next = digits.take(i + 1 - start);
        proof {
            assert(prefix_next.drop_last() =~= prefix);
            assert(prefix_next.last() == digits[i - start]);
            assert(digits[i - start] == c);
            assert(digits_value(prefix_next) == digits_value(prefix) * 10 + d);
        }
        if !overflow {
            if mag > 922337203685477580u64 || (mag == 922337203685477580u64 && d > 8) {
                overflow = true;
                proof {
                    assert(digits_value(prefix_next) > 9223372036854775808int);
                }
            } else {
                mag = mag * 10 + d;
            }
        } else {
            proof {
                assert(forall|j: int| 0 <= j < prefix.len() ==> (#[trigger] prefix[j]) == digits[j]);
                assert(all_digits(prefix));
                lemma_digits_value_nonneg(prefix);
                assert(digits_value(prefix_next) >= digits_value(prefix));
            }
        }
        i = i + 1;
    }
    proof {
        assert(digits.take(len - start) =~= digits);
        assert(all_digits(digits));
    }
    if overflow {
        return None;
    }
    if negative {
        if mag == 9223372036854775808u64 {
            Some(i64::MIN)
        } else {
            Some(-(mag as i64))
        }
    } else {
        if mag > 9223372036854775807u64 {
            return None;
        }
        Some(mag as i64)
    }
}

proof fn lemma_digit_char_value(d: int)
    requires
        0 <= d < 10,
    ensures
        is_ascii_digit(digit_char(d)),
        digit_value(digit_char(d)) == d,
        digit_char(d) != '-',
        digit_char(d) != '+',
{
}

proof fn lemma_digits_of_shape(n: nat)
    ensures
        n > 0 ==> digits_of(n).len() >= 1,
        all_digits(digits_of(n)),
        digits_value(digits_of(n)) == n,
    decreases n,
{
    if n > 0 {
        lemma_digits_of_shape(n / 10);
        let whole = digits_of(n);
        assert(whole.drop_last() =~= digits_of(n / 10));
        lemma_digit_char_value((n % 10) as int);
        assert forall|i: int| 0 <= i < whole.len() implies is_ascii_digit(
            #[trigger] whole[i],
        ) by {
            if i < whole.len() - 1 {
                assert(whole[i] == digits_of(n / 10)[i]);
            } else {
                assert(whole[i] == digit_char((n % 10) as int));
            }
        }
        assert(digits_value(whole) == digits_value(digits_of(n / 10)) * 10 + (n % 10));
    }
}

proof fn lemma_dec_str_shape(n: nat)
    ensures
        dec_str(n).len() >= 1,
        all_digits(dec_str(n)),
        digits_value(dec_str(n)) == n,
        !(dec_str(n)[0] == '-' || dec_str(n)[0] == '+'),
{
    if n == 0 {
        reveal_with_fuel(digits_value, 2);
        assert(dec_str(0) =~= seq!['0']);
        assert(dec_str(0).last() == '0');
        assert(dec_str(0).drop_last() =~= Seq::<char>::empty());
        assert(dec_str(0).drop_last().len() == 0);
        assert(digits_value(dec_str(0)) == 0);
        assert(is_ascii_digit('0'));
    } else {
        lemma_digits_of_shape(n);
        assert(is_ascii_digit(dec_str(n)[0]));
    }
}

/// Rendering then reading a value back is the identity: the decimal text
/// of any representable value parses to exactly that value.
pub proof fn lemma_print_parse_round_trip(n: int)
    requires
        i64::MIN <= n <= i64::MAX,
    ensures
        spec_parse_i64(int_str(n)) == Some(n as i64),
{
    if n >= 0 {
        lemma_dec_str_shape(n as nat);
        let s = int_str(n);
        assert(s == dec_str(n as nat));
        assert(spec_parse_i64(s) == Some(n as i64));
    } else {
        lemma_dec_str_shape((-n) as nat);
        let s = int_str(n);
        assert(s == seq!['-'] + dec_str((-n) as nat));
        assert(s[0] == '-');
        assert(s.len() > 0);
        let digits = s.skip(1);
        assert(digits =~= dec_str((-n) as nat));
        assert(digits_value(digits) == -n);
        assert(spec_parse_i64(s) == Some(n as i64));
    }
}

} // verus!
