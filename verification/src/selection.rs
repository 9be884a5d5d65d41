//! Picking a port from a numbered list by a line that the operator typed.
//!
//! The line is trimmed of white space and must then be a decimal numeral,
//! with or without a leading `+`, that names a position in the list.

use std::str::Chars;
use vstd::prelude::*;
use vstd::std_specs::iter::IteratorSpec;

verus! {

/// Why a typed line selects no port.
#[derive(Clone, Copy, Debug, PartialEq, Eq, Structural)]
pub enum InvalidSelection {
    /// The line is no decimal numeral.
    NotANumber,
    /// The numeral names no position in the list.
    OutOfRange,
}

/// The characters with Unicode's White_Space property.
pub open spec fn is_space(c: char) -> bool {
    let u = c as u32;
    ||| 0x09 <= u <= 0x0D
    ||| u == 0x20
    ||| u == 0x85
    ||| u == 0xA0
    ||| u == 0x1680
    ||| 0x2000 <= u <= 0x200A
    ||| u == 0x2028
    ||| u == 0x2029
    ||| u == 0x202F
    ||| u == 0x205F
    ||| u == 0x3000
}

/// The decimal digits.
pub open spec fn is_digit(c: char) -> bool {
    '0' <= c <= '9'
}

/// `s` without the white space at its start.
pub open spec fn trim_start(s: Seq<char>) -> Seq<char>
    decreases s.len(),
{
    if s.len() > 0 && is_space(s.first()) {
        trim_start(s.drop_first())
    } else {
        s
    }
}

/// `s` without the white space at its end.
pub open spec fn trim_end(s: Seq<char>) -> Seq<char>
    decreases s.len(),
{
    if s.len() > 0 && is_space(s.last()) {
        trim_end(s.drop_last())
    } else {
        s
    }
}

/// `s` without the white space at either end.
pub open spec fn trimmed(s: Seq<char>) -> Seq<char> {
    trim_end(trim_start(s))
}

/// The number that a sequence of decimal digits writes.
pub open spec fn decimal_value(digits: Seq<char>) -> nat
    decreases digits.len(),
{
    if digits.len() == 0 {
        0
    } else {
        decimal_value(digits.drop_last()) * 10 + (digits.last() as nat - '0' as nat) as nat
    }
}

/// The digits of a numeral: what follows its `+`, if it has one.
pub open spec fn digits_of(s: Seq<char>) -> Seq<char> {
    if s.len() > 0 && s.first() == '+' {
        s.drop_first()
    } else {
        s
    }
}

/// The number that `s` writes, if `s` is a numeral: an optional `+`, then
/// one decimal digit or more.
pub open spec fn numeral(s: Seq<char>) -> Option<nat> {
    let digits = digits_of(s);
    if digits.len() > 0 && (forall|i: int| 0 <= i < digits.len() ==> is_digit(#[trigger] digits[i])) {
        Some(decimal_value(digits))
    } else {
        None
    }
}

/// The position that the line `input` selects in a list of `count` ports.
pub open spec fn selection(input: Seq<char>, count: nat) -> Result<nat, InvalidSelection> {
    match numeral(trimmed(input)) {
        None => Err(InvalidSelection::NotANumber),
        Some(index) => if index < count {
            Ok(index)
        } else {
            Err(InvalidSelection::OutOfRange)
        },
    }
}

/// Skipping `from` leading spaces and then trimming the start is trimming the start.
proof fn lemma_trim_start(s: Seq<char>, from: int)
    requires
        0 <= from <= s.len(),
        forall|j: int| 0 <= j < from ==> is_space(#[trigger] s[j]),
    ensures
        trim_start(s) == trim_start(s.skip(from)),
    decreases from,
{
    if from == 0 {
        assert(s.skip(0) =~= s);
    } else {
        assert(is_space(s[0]));
        let rest = s.drop_first();
        assert forall|j: int| 0 <= j < from - 1 implies is_space(#[trigger] rest[j]) by {
            assert(rest[j] == s[j + 1]);
        }
        lemma_trim_start(rest, from - 1);
        assert(rest.skip(from - 1) =~= s.skip(from));
    }
}

/// Cutting off trailing spaces down to `to` and then trimming the end is trimming the end.
proof fn lemma_trim_end(s: Seq<char>, to: int)
    requires
        0 <= to <= s.len(),
        forall|j: int| to <= j < s.len() ==> is_space(#[trigger] s[j]),
    ensures
        trim_end(s) == trim_end(s.take(to)),
    decreases s.len() - to,
{
    if to == s.len() {
        assert(s.take(to) =~= s);
    } else {
        assert(is_space(s[s.len() - 1]));
        let rest = s.drop_last();
        assert forall|j: int| to <= j < rest.len() implies is_space(#[trigger] rest[j]) by {
            assert(rest[j] == s[j]);
        }
        lemma_trim_end(rest, to);
        assert(rest.take(to) =~= s.take(to));
    }
}

/// Appending a digit multiplies the number by ten and adds the digit, so the
/// number never shrinks.
proof fn lemma_decimal_grows(digits: Seq<char>)
    requires
        digits.len() > 0,
        is_digit(digits.last()),
    ensures
        decimal_value(digits) >= decimal_value(digits.drop_last()),
        decimal_value(digits) == decimal_value(digits.drop_last()) * 10 + (digits.last() as nat
            - '0' as nat),
{
}

/// Exec form of `is_space`.
fn is_space_char(c: char) -> (b: bool)
    ensures
        b == is_space(c),
{
    let u: u32 = c as u32;
    (0x09 <= u && u <= 0x0D) || u == 0x20 || u == 0x85 || u == 0xA0 || u == 0x1680 || (0x2000 <= u
        && u <= 0x200A) || u == 0x2028 || u == 0x2029 || u == 0x202F || u == 0x205F || u == 0x3000
}

/// The characters of `s`, in order.
fn chars_of(s: &str) -> (v: Vec<char>)
    ensures
        v@ == s@,
{
    broadcast use vstd::string::group_string_axioms;

    let mut it: Chars<'_> = s.chars();
    let mut v: Vec<char> = Vec::new();
    loop
        invariant
            v@ + it.remaining() == s@,
            it.obeys_prophetic_iter_laws(),
        ensures
            v@ == s@,
        decreases s@.len() - v@.len(),
    {
        let ghost before = it.remaining();
        match it.next() {
            Some(c) => {
                v.push(c);
                assert(v@ + it.remaining() =~= s@) by {
                    assert(before.len() > 0);
                    assert(v@ =~= v@.drop_last().push(before[0]));
                    assert(v@.drop_last() + before == s@);
                    assert(before =~= seq![before[0]] + before.drop_first());
                }
            },
            None => {
                assert(before.len() == 0);
                assert(v@ + before =~= v@);
                break ;
            },
        }
    }
    v
}

/// The position that the typed line `input` selects in a list of `count`
/// ports.
pub fn select_index(input: &str, count: usize) -> (r: Result<usize, InvalidSelection>)
    ensures
        match r {
            Ok(index) => selection(input@, count as nat) == Ok::<nat, InvalidSelection>(
                index as nat,
            ),
            Err(e) => selection(input@, count as nat) == Err::<nat, InvalidSelection>(e),
        },
{
    let text = chars_of(input);
    let n = text.len();
    let mut from: usize = 0;
    while from < n && is_space_char(text[from])
        invariant
            from <= n == text@.len(),
            forall|j: int| 0 <= j < from ==> is_space(#[trigger] text@[j]),
        decreases n - from,
    {
        from += 1;
    }
    let mut to: usize = n;
    while to > from && is_space_char(text[to - 1])
        invariant
            from <= to <= n == text@.len(),
            forall|j: int| to <= j < n ==> is_space(#[trigger] text@[j]),
        decreases to,
    {
        to -= 1;
    }
    let ghost body = text@.subrange(from as int, to as int);
    proof {
        let tail = text@.skip(from as int);
        lemma_trim_start(text@, from as int);
        if from < n {
            assert(tail.first() == text@[from as int]);
        }
        assert(trim_start(text@) == tail);
        assert forall|j: int| to - from <= j < tail.len() implies is_space(#[trigger] tail[j]) by {
            assert(tail[j] == text@[j + from]);
        }
        lemma_trim_end(tail, to - from);
        assert(tail.take(to - from) =~= body);
        if to > from {
            assert(body.last() == text@[to - 1]);
        }
        assert(trimmed(input@) == body);
    }
    let mut at: usize = from;
    if at < to && text[at] == '+' {
        at += 1;
    }
    let ghost digits = text@.subrange(at as int, to as int);
    proof {
        if from < to {
            assert(body.first() == text@[from as int]);
        }
        assert(digits_of(body) =~= digits);
    }
    if at == to {
        return Err(InvalidSelection::NotANumber);
    }
    let first = at;
    let mut value: usize = 0;
    let mut beyond = false;
    while at < to
        invariant
            first <= at <= to <= n == text@.len(),
            digits == text@.subrange(first as int, to as int),
            digits == digits_of(trimmed(input@)),
            forall|j: int| first <= j < at ==> is_digit(#[trigger] text@[j]),
            beyond ==> decimal_value(text@.subrange(first as int, at as int)) >= count,
            !beyond ==> value == decimal_value(text@.subrange(first as int, at as int)),
            !beyond ==> value < count || at == first,
        decreases to - at,
    {
        let c = text[at];
        if !(c >= '0' && c <= '9') {
            proof {
                assert(digits[at - first] == c);
            }
            return Err(InvalidSelection::NotANumber);
        }
        let ghost seen = text@.subrange(first as int, at as int);
        let ghost next = text@.subrange(first as int, at + 1);
        proof {
            assert(next.drop_last() =~= seen);
            assert(next.last() == c);
            lemma_decimal_grows(next);
        }
        if !beyond {
            let digit: u128 = (c as u32 - '0' as u32) as u128;
            let wide: u128 = value as u128 * 10 + digit;
            if wide >= count as u128 {
                beyond = true;
            } else {
                value = wide as usize;
            }
        }
        at += 1;
    }
    proof {
        assert(text@.subrange(first as int, to as int) == digits);
        assert forall|i: int| 0 <= i < digits.len() implies is_digit(#[trigger] digits[i]) by {
            assert(digits[i] == text@[i + first]);
        }
    }
    if beyond {
        Err(InvalidSelection::OutOfRange)
    } else {
        Ok(value)
    }
}

/// The port that the typed line `input` selects among `ports`.
pub fn select_port<'a, P>(ports: &'a [P], input: &str) -> (r: Result<&'a P, InvalidSelection>)
    ensures
        match r {
            Ok(port) => selection(input@, ports@.len()) is Ok && *port == ports@[selection(
                input@,
                ports@.len(),
            ).unwrap() as int],
            Err(e) => selection(input@, ports@.len()) == Err::<nat, InvalidSelection>(e),
        },
{
    match select_index(input, ports.len()) {
        Ok(index) => Ok(&ports[index]),
        Err(e) => Err(e),
    }
}

} // verus!
