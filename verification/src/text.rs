//! Character sequences: decimal numerals, searching and copying.
//!
//! Every string the library reads or writes is handled as its sequence of
//! `char`s, the view that `vstd` gives to `str` and `String`.

use vstd::prelude::*;

verus! {

/// Appending one character to a `String`: `String::push` of the standard
/// library. Trusted: the string afterwards is the string before, followed by
/// `c`.
pub assume_specification[ String::push ](s: &mut String, c: char)
    ensures
        final(s)@ == old(s)@.push(c),
;

/// Whether `c` is one of the ten ASCII decimal digits.
pub open spec fn is_digit(c: char) -> bool {
    '0' <= c && c <= '9'
}

/// The number a decimal digit stands for; zero for any other character.
pub open spec fn digit_value(c: char) -> nat {
    if is_digit(c) {
        (c as u32 - '0' as u32) as nat
    } else {
        0
    }
}

/// The digit that stands for `d`, for `d` below ten.
pub open spec fn digit_char(d: nat) -> char {
    (('0' as u32 + d) as u8) as char
}

/// Whether `s` consists of decimal digits only.
pub open spec fn all_digits(s: Seq<char>) -> bool {
    forall|i: int| 0 <= i < s.len() ==> is_digit(#[trigger] s[i])
}

/// The number that the digits of `s` denote in base ten, most significant
/// digit first. The empty sequence denotes zero.
pub open spec fn decimal_value(s: Seq<char>) -> nat
    decreases s.len(),
{
    if s.len() == 0 {
        0
    } else {
        10 * decimal_value(s.drop_last()) + digit_value(s.last())
    }
}

/// The shortest decimal numeral of `n`: no sign, no leading zero, `"0"` for
/// zero.
pub open spec fn decimal(n: nat) -> Seq<char>
    decreases n,
{
    if n < 10 {
        seq![digit_char(n)]
    } else {
        decimal(n / 10).push(digit_char(n % 10))
    }
}

/// A numeral is never empty, holds digits only, and denotes the number it was
/// made from.
pub proof fn lemma_decimal_round_trip(n: nat)
    ensures
        decimal(n).len() > 0,
        all_digits(decimal(n)),
        decimal_value(decimal(n)) == n,
    decreases n,
{
    if n < 10 {
        assert(decimal(n).drop_last() =~= Seq::<char>::empty());
        assert(decimal_value(decimal(n).drop_last()) == 0);
    } else {
        lemma_decimal_round_trip(n / 10);
        assert(decimal(n).drop_last() =~= decimal(n / 10));
    }
}

/// Reading more digits never makes the number smaller.
pub proof fn lemma_decimal_value_grows(s: Seq<char>, k: int)
    requires
        0 <= k <= s.len(),
    ensures
        decimal_value(s.take(k)) <= decimal_value(s),
    decreases s.len() - k,
{
    if k == s.len() {
        assert(s.take(k) =~= s);
    } else {
        lemma_decimal_value_grows(s, k + 1);
        assert(s.take(k + 1).drop_last() =~= s.take(k));
    }
}

/// The value of a decimal digit character, or `None` for any other character.
pub fn digit_of(c: char) -> (d: Option<u8>)
    ensures
        d is Some <==> is_digit(c),
        d is Some ==> d->0 == digit_value(c),
{
    if '0' <= c && c <= '9' {
        Some((c as u32 - '0' as u32) as u8)
    } else {
        None
    }
}

/// Appends the decimal numeral of `n` to `out`.
pub fn push_decimal(out: &mut String, n: usize)
    ensures
        final(out)@ == old(out)@ + decimal(n as nat),
    decreases n,
{
    if n >= 10 {
        push_decimal(out, n / 10);
    }
    let d: u8 = (n % 10) as u8;
    out.push((48u8 + d) as char);
    proof {
        let low = digit_char((n % 10) as nat);
        if n >= 10 {
            assert(old(out)@ + decimal(n as nat) =~= (old(out)@ + decimal((n / 10) as nat)).push(
                low,
            ));
        } else {
            assert(old(out)@ + decimal(n as nat) =~= old(out)@.push(low));
        }
    }
}

/// Reads `s[from..to]` as an unsigned decimal number: `Some` of its value if
/// the range is made of digits only and the value fits in `usize`, else
/// `None`. An empty range reads as zero.
pub fn parse_digits(s: &Vec<char>, from: usize, to: usize) -> (value: Option<usize>)
    requires
        from <= to <= s.len(),
    ensures
        value is Some <==> all_digits(s@.subrange(from as int, to as int)) && decimal_value(
            s@.subrange(from as int, to as int),
        ) <= usize::MAX,
        value is Some ==> value->0 == decimal_value(s@.subrange(from as int, to as int)),
{
    let ghost digits = s@.subrange(from as int, to as int);
    let mut value: usize = 0;
    let mut i: usize = from;
    while i < to
        invariant
            from <= i <= to <= s.len(),
            digits == s@.subrange(from as int, to as int),
            all_digits(digits.take(i - from)),
            value == decimal_value(digits.take(i - from)),
        decreases to - i,
    {
        let ghost read = digits.take(i - from);
        let ghost next = digits.take(i - from + 1);
        proof {
            assert(next.drop_last() =~= read);
            assert(next.last() == s@[i as int]);
            lemma_decimal_value_grows(digits, i - from + 1);
        }
        let d = match digit_of(s[i]) {
            Some(d) => d,
            None => {
                assert(!is_digit(digits[i - from]));
                return None;
            },
        };
        let shifted = match value.checked_mul(10) {
            Some(v) => v,
            None => {
                return None;
            },
        };
        value = match shifted.checked_add(d as usize) {
            Some(v) => v,
            None => {
                return None;
            },
        };
        i += 1;
        proof {
            assert forall|j: int| 0 <= j < next.len() implies is_digit(#[trigger] next[j]) by {
                if j < read.len() {
                    assert(next[j] == read[j]);
                }
            }
        }
    }
    proof {
        assert(digits.take(to - from) =~= digits);
    }
    Some(value)
}

/// The index of the first occurrence of `x` in `s`, or `s.len()` if `s` does
/// not hold `x`.
pub open spec fn position<T>(s: Seq<T>, x: T) -> int
    decreases s.len(),
{
    if s.len() == 0 || s[0] == x {
        0
    } else {
        1 + position(s.skip(1), x)
    }
}

/// What it is for `k` to be the place of the first `x` in `s`: nothing before
/// `k` equals `x`, and `k` is either the end of `s` or an occurrence of `x`.
pub open spec fn is_first_index<T>(s: Seq<T>, x: T, k: int) -> bool {
    &&& 0 <= k <= s.len()
    &&& forall|j: int| 0 <= j < k ==> s[j] != x
    &&& k < s.len() ==> s[k] == x
}

/// `position` is the first index, and no other number is.
pub proof fn lemma_position<T>(s: Seq<T>, x: T)
    ensures
        is_first_index(s, x, position(s, x)),
        forall|k: int| is_first_index(s, x, k) ==> k == position(s, x),
    decreases s.len(),
{
    if s.len() == 0 || s[0] == x {
    } else {
        let rest = s.skip(1);
        lemma_position(rest, x);
        let p = position(rest, x);
        assert forall|j: int| 0 <= j < p + 1 implies s[j] != x by {
            if j > 0 {
                assert(rest[j - 1] == s[j]);
            }
        }
        if p < rest.len() {
            assert(rest[p] == s[p + 1]);
        }
    }
    let found = position(s, x);
    assert forall|k: int| is_first_index(s, x, k) implies k == found by {
        if k < found {
            assert(s[k] == x);
        } else if found < k {
            assert(s[found] == x);
        }
    }
}

/// `s` cut at every `sep`: the pieces between the separators, in order. There
/// is always at least one piece, and no piece holds `sep`.
pub open spec fn split(s: Seq<char>, sep: char) -> Seq<Seq<char>>
    decreases s.len(),
{
    let k = position(s, sep);
    if 0 <= k < s.len() {
        seq![s.take(k)] + split(s.skip(k + 1), sep)
    } else {
        seq![s]
    }
}

/// `s` without one carriage return at its end, if it has one there.
pub open spec fn strip_cr(s: Seq<char>) -> Seq<char> {
    if s.len() > 0 && s.last() == '\r' {
        s.drop_last()
    } else {
        s
    }
}

/// The lines of `s`. A line ends at a line feed, or at the end of `s` if
/// characters are left there; a carriage return just before the line feed
/// belongs to the line ending. Neither is part of the line.
pub open spec fn lines(s: Seq<char>) -> Seq<Seq<char>>
    decreases s.len(),
{
    if s.len() == 0 {
        Seq::empty()
    } else {
        let k = position(s, '\n');
        if 0 <= k < s.len() {
            seq![strip_cr(s.take(k))] + lines(s.skip(k + 1))
        } else {
            seq![s]
        }
    }
}

/// The test that a character differs from `c`.
pub open spec fn is_not(c: char) -> spec_fn(char) -> bool {
    |x: char| x != c
}

/// `s` with every occurrence of `c` left out.
pub open spec fn without(s: Seq<char>, c: char) -> Seq<char> {
    s.filter(is_not(c))
}

/// Leaving out `skip` from a sequence that ends in `x`.
pub proof fn lemma_without_push(s: Seq<char>, x: char, skip: char)
    ensures
        without(s.push(x), skip) == if x != skip {
            without(s, skip).push(x)
        } else {
            without(s, skip)
        },
{
    s.lemma_filter_push(x, is_not(skip));
}

/// The characters of `s`.
pub fn chars_of(s: &str) -> (chars: Vec<char>)
    ensures
        chars@ == s@,
{
    let mut chars: Vec<char> = Vec::new();
    for c in it: s.chars()
        invariant
            it.seq() == s@,
            chars@ == it.seq().take(it.index() as int),
    {
        chars.push(c);
    }
    chars
}

/// The place of the first `c` in `s[from..to]`, or `to` if there is none.
pub fn find(s: &Vec<char>, from: usize, to: usize, c: char) -> (k: usize)
    requires
        from <= to <= s.len(),
    ensures
        from <= k <= to,
        k - from == position(s@.subrange(from as int, to as int), c),
{
    let ghost range = s@.subrange(from as int, to as int);
    let mut k: usize = from;
    while k < to && s[k] != c
        invariant
            from <= k <= to <= s.len(),
            range == s@.subrange(from as int, to as int),
            forall|j: int| 0 <= j < k - from ==> range[j] != c,
        decreases to - k,
    {
        k += 1;
    }
    proof {
        lemma_position(range, c);
        assert(is_first_index(range, c, k - from));
    }
    k
}

/// Appends `s[from..to]` to `out`, leaving out every `skip`.
pub fn push_without(out: &mut String, s: &Vec<char>, from: usize, to: usize, skip: char)
    requires
        from <= to <= s.len(),
    ensures
        final(out)@ == old(out)@ + without(s@.subrange(from as int, to as int), skip),
{
    let ghost range = s@.subrange(from as int, to as int);
    let mut i: usize = from;
    while i < to
        invariant
            from <= i <= to <= s.len(),
            range == s@.subrange(from as int, to as int),
            out@ == old(out)@ + without(range.take(i - from), skip),
        decreases to - i,
    {
        let ghost done = range.take(i - from);
        proof {
            assert(range.take(i - from + 1) =~= done.push(s@[i as int]));
            lemma_without_push(done, s@[i as int], skip);
        }
        if s[i] != skip {
            out.push(s[i]);
            assert(out@ =~= old(out)@ + without(done, skip).push(s@[i as int]));
        }
        i += 1;
    }
    proof {
        assert(range.take(to - from) =~= range);
    }
}

} // verus!
