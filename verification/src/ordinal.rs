//! The ordinal model: dotted identifiers such as `3.1.4`, read as paths of
//! integers, and the relations between them that follow from the text alone.

use vstd::prelude::*;
use crate::error::StoreError;
use crate::text::{chars_of, text_of};

verus! {

/// Whether `c` is one of the ten decimal digits.
pub open spec fn is_digit(c: char) -> bool {
    '0' <= c <= '9'
}

/// The number that the digit `c` stands for.
pub open spec fn digit_value(c: char) -> int {
    c as int - '0' as int
}

/// The number that the digits of `s` write in base ten, most significant
/// digit first; zero for the empty sequence.
pub open spec fn decimal_value(s: Seq<char>) -> int
    decreases s.len(),
{
    if s.len() == 0 {
        0
    } else {
        decimal_value(s.drop_last()) * 10 + digit_value(s.last())
    }
}

/// Whether every character of `s` is a decimal digit.
pub open spec fn all_digits(s: Seq<char>) -> bool {
    forall|i: int| 0 <= i < s.len() ==> is_digit(#[trigger] s[i])
}

/// A segment without the single `+` that may lead it.
pub open spec fn unsigned_part(s: Seq<char>) -> Seq<char> {
    if s.len() > 0 && s[0] == '+' {
        s.skip(1)
    } else {
        s
    }
}

/// The number a segment denotes where a record is to keep it, in 32 bits:
/// `Some(n)` where the segment is a non-negative integer literal (an optional
/// `+`, then one digit or more) whose value `n` fits 32 bits, `None` for
/// every other text. `segment_value` is the number without that bound.
pub open spec fn segment_number(s: Seq<char>) -> Option<u32> {
    let digits = unsigned_part(s);
    if digits.len() > 0 && all_digits(digits) && decimal_value(digits) <= u32::MAX {
        Some(decimal_value(digits) as u32)
    } else {
        None
    }
}

/// Digits never write a negative number, and a longer run of digits writes
/// no smaller a number than any of its prefixes.
pub proof fn lemma_decimal_value_grows(s: Seq<char>, k: int)
    requires
        all_digits(s),
        0 <= k <= s.len(),
    ensures
        0 <= decimal_value(s.take(k)) <= decimal_value(s),
    decreases s.len(),
{
    if s.len() == 0 {
        assert(s.take(k) =~= s);
    } else if k == s.len() {
        assert(s.take(k) =~= s);
        lemma_decimal_value_grows(s.drop_last(), k - 1);
        assert(is_digit(s.last()));
    } else {
        lemma_decimal_value_grows(s.drop_last(), k);
        assert(s.drop_last().take(k) =~= s.take(k));
        assert(is_digit(s.last()));
    }
}

/// Reads `chars[from..to]` as a segment.
pub(crate) fn parse_segment(chars: &Vec<char>, from: usize, to: usize) -> (number: Option<u32>)
    requires
        from <= to <= chars.len(),
    ensures
        number == segment_number(chars@.subrange(from as int, to as int)),
{
    let ghost segment = chars@.subrange(from as int, to as int);
    let start: usize = if from < to && chars[from] == '+' {
        from + 1
    } else {
        from
    };
    let ghost digits = chars@.subrange(start as int, to as int);
    assert(digits =~= unsigned_part(segment));
    if start == to {
        return None;
    }
    let mut value: u64 = 0;
    let mut i: usize = start;
    while i < to
        invariant
            from <= start <= i <= to <= chars.len(),
            digits == chars@.subrange(start as int, to as int),
            digits == unsigned_part(chars@.subrange(from as int, to as int)),
            all_digits(digits.take(i - start)),
            value == decimal_value(digits.take(i - start)),
            value <= u32::MAX,
        decreases to - i,
    {
        let c: char = chars[i];
        assert(c == digits[i - start]);
        if c < '0' || c > '9' {
            assert(!is_digit(digits[i - start]));
            return None;
        }
        let digit: u64 = (c as u32 - '0' as u32) as u64;
        let ghost longer = digits.take(i - start + 1);
        assert(longer.drop_last() =~= digits.take(i - start));
        assert(longer.last() == c);
        assert(all_digits(longer)) by {
            assert forall|j: int| 0 <= j < longer.len() implies is_digit(#[trigger] longer[j]) by {
                if j < longer.len() - 1 {
                    assert(longer[j] == digits.take(i - start)[j]);
                }
            }
        }
        value = value * 10 + digit;
        if value > 0xffff_ffff {
            proof {
                if all_digits(digits) {
                    lemma_decimal_value_grows(digits, i - start + 1);
                }
            }
            return None;
        }
        i += 1;
    }
    assert(digits.take(to - start) =~= digits);
    Some(value as u32)
}

/// Where the first `.` of `s` stands, or the length of `s` where it has none.
pub open spec fn first_dot(s: Seq<char>) -> int
    decreases s.len(),
{
    if s.len() == 0 || s[0] == '.' {
        0
    } else {
        1 + first_dot(s.skip(1))
    }
}

/// Where the last `.` of `s` stands, or -1 where it has none.
pub open spec fn last_dot(s: Seq<char>) -> int
    decreases s.len(),
{
    if s.len() == 0 {
        -1
    } else if s.last() == '.' {
        s.len() - 1
    } else {
        last_dot(s.drop_last())
    }
}

/// What stands before the first `.` of `s`: all of `s` where it has none.
pub open spec fn first_segment(s: Seq<char>) -> Seq<char> {
    s.take(first_dot(s))
}

/// What stands behind the last `.` of `s`: all of `s` where it has none.
pub open spec fn last_segment(s: Seq<char>) -> Seq<char> {
    s.skip(last_dot(s) + 1)
}

/// `k` is the place of the first `.` of `s`, or its length where there is none.
pub open spec fn is_first_dot(s: Seq<char>, k: int) -> bool {
    &&& 0 <= k <= s.len()
    &&& forall|j: int| 0 <= j < k ==> #[trigger] s[j] != '.'
    &&& k < s.len() ==> s[k] == '.'
}

/// `k` is the place of the last `.` of `s`, or -1 where there is none.
pub open spec fn is_last_dot(s: Seq<char>, k: int) -> bool {
    &&& -1 <= k < s.len()
    &&& forall|j: int| k < j < s.len() ==> #[trigger] s[j] != '.'
    &&& 0 <= k ==> s[k] == '.'
}

/// `first_dot` is the one place that `is_first_dot` describes.
pub proof fn lemma_first_dot(s: Seq<char>)
    ensures
        is_first_dot(s, first_dot(s)),
        forall|k: int| is_first_dot(s, k) ==> k == first_dot(s),
    decreases s.len(),
{
    if s.len() == 0 || s[0] == '.' {
        assert forall|k: int| is_first_dot(s, k) implies k == 0 by {
            if k > 0 {
                assert(s[0] != '.');
            }
        }
    } else {
        let rest = s.skip(1);
        lemma_first_dot(rest);
        let f = first_dot(rest);
        assert forall|j: int| 0 <= j < 1 + f implies #[trigger] s[j] != '.' by {
            if j > 0 {
                assert(rest[j - 1] == s[j]);
            }
        }
        assert(1 + f < s.len() ==> s[1 + f] == rest[f]);
        assert forall|k: int| is_first_dot(s, k) implies k == 1 + f by {
            assert(k > 0);
            assert forall|j: int| 0 <= j < k - 1 implies #[trigger] rest[j] != '.' by {
                assert(rest[j] == s[j + 1]);
            }
            assert(k - 1 < rest.len() ==> rest[k - 1] == s[k]);
            assert(is_first_dot(rest, k - 1));
        }
    }
}

/// `last_dot` is the one place that `is_last_dot` describes.
pub proof fn lemma_last_dot(s: Seq<char>)
    ensures
        is_last_dot(s, last_dot(s)),
        forall|k: int| is_last_dot(s, k) ==> k == last_dot(s),
    decreases s.len(),
{
    if s.len() == 0 {
    } else if s.last() == '.' {
        assert forall|k: int| is_last_dot(s, k) implies k == s.len() - 1 by {
            if k < s.len() - 1 {
                assert(s[s.len() - 1] != '.');
            }
        }
    } else {
        let front = s.drop_last();
        lemma_last_dot(front);
        let l = last_dot(front);
        assert forall|j: int| l < j < s.len() implies #[trigger] s[j] != '.' by {
            if j < s.len() - 1 {
                assert(front[j] == s[j]);
            }
        }
        assert(0 <= l ==> s[l] == front[l]);
        assert forall|k: int| is_last_dot(s, k) implies k == l by {
            assert(k < s.len() - 1);
            assert forall|j: int| k < j < front.len() implies #[trigger] front[j] != '.' by {
                assert(front[j] == s[j]);
            }
            assert(0 <= k ==> front[k] == s[k]);
            assert(is_last_dot(front, k));
        }
    }
}

/// The place of the first `.` at or behind `from`, or the length of `chars`.
fn find_dot(chars: &Vec<char>, from: usize) -> (k: usize)
    requires
        from <= chars.len(),
    ensures
        from <= k <= chars.len(),
        is_first_dot(chars@.skip(from as int), k - from),
        first_dot(chars@.skip(from as int)) == k - from,
{
    let mut k: usize = from;
    while k < chars.len() && chars[k] != '.'
        invariant
            from <= k <= chars.len(),
            forall|j: int| from <= j < k ==> #[trigger] chars@[j] != '.',
        decreases chars.len() - k,
    {
        k += 1;
    }
    proof {
        let rest = chars@.skip(from as int);
        assert forall|j: int| 0 <= j < k - from implies #[trigger] rest[j] != '.' by {
            assert(rest[j] == chars@[from + j]);
        }
        lemma_first_dot(rest);
    }
    k
}

/// The top-level number of an ordinal: what its first segment denotes.
pub open spec fn ancestor_number(s: Seq<char>) -> Option<u32> {
    segment_number(first_segment(s))
}

/// The number of the section that `ordinal` belongs to: its first segment,
/// read as an integer. A record keeps that number in 32 bits, so the call
/// fails with `InvalidOrdinal` exactly where that segment is not a
/// non-negative integer literal that fits 32 bits.
pub fn ancestor_of(ordinal: &str) -> (result: Result<u32, StoreError>)
    ensures
        match result {
            Ok(number) => ancestor_number(ordinal@) == Some(number),
            Err(error) => error is InvalidOrdinal && ancestor_number(ordinal@) is None,
        },
{
    let chars = chars_of(ordinal);
    let k = find_dot(&chars, 0);
    assert(chars@.skip(0) =~= chars@);
    assert(chars@.subrange(0, k as int) =~= first_segment(ordinal@));
    match parse_segment(&chars, 0, k) {
        Some(number) => Ok(number),
        None => Err(StoreError::InvalidOrdinal),
    }
}

/// The ordinal one level up: `None` for a text without a `.`, else the text
/// before its last `.`.
pub open spec fn parent_text(s: Seq<char>) -> Option<Seq<char>> {
    if last_dot(s) < 0 {
        None
    } else {
        Some(s.take(last_dot(s)))
    }
}

/// A text has a parent exactly where it holds a `.`, and is then its parent,
/// a `.`, and its last segment, which holds no `.`.
pub proof fn lemma_parent_text(s: Seq<char>)
    ensures
        parent_text(s) is None <==> !s.contains('.'),
        !last_segment(s).contains('.'),
        parent_text(s) matches Some(parent) ==> s == parent + seq!['.'] + last_segment(s),
{
    lemma_last_dot(s);
    let k = last_dot(s);
    let tail = last_segment(s);
    if tail.contains('.') {
        let j = choose|j: int| 0 <= j < tail.len() && tail[j] == '.';
        assert(s[k + 1 + j] == '.');
    }
    if k < 0 {
        if s.contains('.') {
            let j = choose|j: int| 0 <= j < s.len() && s[j] == '.';
            assert(s[j] == '.');
        }
    } else {
        assert(s[k] == '.');
        assert(s =~= s.take(k) + seq!['.'] + tail);
    }
}

/// The place of the last `.` of `chars`, counted from one: 0 where there is
/// none.
fn find_last_dot(chars: &Vec<char>) -> (k: usize)
    ensures
        k == last_dot(chars@) + 1,
        is_last_dot(chars@, k - 1),
{
    let mut k: usize = chars.len();
    while k > 0 && chars[k - 1] != '.'
        invariant
            k <= chars.len(),
            forall|j: int| k <= j < chars.len() ==> #[trigger] chars@[j] != '.',
        decreases k,
    {
        k -= 1;
    }
    proof {
        lemma_last_dot(chars@);
    }
    k
}

/// The ordinal of the parent of `ordinal`: `None` exactly where `ordinal`
/// has no `.` (it names a section), else `ordinal` without its last segment
/// and the `.` before it.
pub fn parent_of(ordinal: &str) -> (parent: Option<String>)
    ensures
        parent is None <==> !ordinal@.contains('.'),
        match parent {
            Some(text) => {
                &&& parent_text(ordinal@) == Some(text@)
                &&& ordinal@ == text@ + seq!['.'] + last_segment(ordinal@)
                &&& !last_segment(ordinal@).contains('.')
            },
            None => parent_text(ordinal@) is None,
        },
{
    let chars = chars_of(ordinal);
    let k = find_last_dot(&chars);
    proof {
        lemma_parent_text(ordinal@);
    }
    if k == 0 {
        None
    } else {
        let text = text_of(&chars, 0, k - 1);
        assert(chars@.subrange(0, k - 1) =~= chars@.take(k - 1));
        Some(text)
    }
}

/// The character that writes the digit `d`.
pub open spec fn digit_char(d: int) -> char {
    ((d + 48) as u8) as char
}

/// How `n` is written in base ten: no sign, no leading zero.
pub open spec fn decimal_digits(n: nat) -> Seq<char>
    decreases n,
{
    if n < 10 {
        seq![digit_char(n as int)]
    } else {
        decimal_digits(n / 10).push(digit_char((n % 10) as int))
    }
}

/// How the integer `i` is written: a `-` before the digits where it is
/// negative.
pub open spec fn signed_decimal(i: int) -> Seq<char> {
    if i < 0 {
        seq!['-'] + decimal_digits((-i) as nat)
    } else {
        decimal_digits(i as nat)
    }
}

/// What `decimal_digits` writes is read back by `decimal_value`, and holds
/// nothing but digits.
pub proof fn lemma_decimal_digits(n: nat)
    ensures
        decimal_digits(n).len() > 0,
        all_digits(decimal_digits(n)),
        decimal_value(decimal_digits(n)) == n,
    decreases n,
{
    let text = decimal_digits(n);
    if n < 10 {
        assert(text.drop_last() =~= Seq::<char>::empty());
        assert(decimal_value(text.drop_last()) == 0);
        assert(digit_value(text.last()) == n);
    } else {
        lemma_decimal_digits(n / 10);
        let front = decimal_digits(n / 10);
        assert(text.drop_last() =~= front);
        assert(digit_value(text.last()) == n % 10);
        assert forall|i: int| 0 <= i < text.len() implies is_digit(#[trigger] text[i]) by {
            if i < front.len() {
                assert(text[i] == front[i]);
            }
        }
    }
}

/// A number written by `decimal_digits` is a segment that writes that
/// number, and holds no `.`.
pub proof fn lemma_segment_of_decimal(n: nat)
    ensures
        segment_value(decimal_digits(n)) == Some(n),
        n <= u32::MAX ==> segment_number(decimal_digits(n)) == Some(n as u32),
        !decimal_digits(n).contains('.'),
{
    lemma_decimal_digits(n);
    let text = decimal_digits(n);
    assert(is_digit(text[0]));
    assert(unsigned_part(text) == text);
    if text.contains('.') {
        let j = choose|j: int| 0 <= j < text.len() && text[j] == '.';
        assert(is_digit(text[j]));
    }
}

/// Appends the decimal digits of `n` to `out`.
fn push_decimal(out: &mut String, n: u64)
    ensures
        final(out)@ == old(out)@ + decimal_digits(n as nat),
    decreases n,
{
    if n >= 10 {
        push_decimal(out, n / 10);
    }
    let d: u8 = (n % 10) as u8;
    let c: char = (d + 48) as char;
    out.push(c);
    proof {
        if n < 10 {
            assert(old(out)@.push(c) =~= old(out)@ + decimal_digits(n as nat));
        } else {
            assert((old(out)@ + decimal_digits((n / 10) as nat)).push(c) =~= old(out)@
                + decimal_digits(n as nat));
        }
    }
}

/// The ordinal beside `s`: `s` with the number of its last segment moved by
/// `delta`, and everything before that segment kept. `None` where the last
/// segment denotes no number.
pub open spec fn sibling_text(s: Seq<char>, delta: int) -> Option<Seq<char>> {
    match segment_value(last_segment(s)) {
        Some(n) => Some(s.take(last_dot(s) + 1) + signed_decimal(n + delta)),
        None => None,
    }
}

/// The digits of `n`.
fn digits_of(n: u64) -> (digits: Vec<char>)
    ensures
        digits@ == decimal_digits(n as nat),
    decreases n,
{
    let mut digits: Vec<char> = if n >= 10 {
        digits_of(n / 10)
    } else {
        Vec::new()
    };
    let d: u8 = (n % 10) as u8;
    digits.push((d + 48) as char);
    assert(digits@ =~= decimal_digits(n as nat));
    digits
}

/// The digits of the number that the first `len` of `digits` write, moved by
/// `carry`: worked out digit by digit from the right, so that the number may
/// be of any size.
fn shifted(digits: &Vec<char>, len: usize, carry: i64, Ghost(v): Ghost<nat>) -> (moved: Vec<char>)
    requires
        1 <= len <= digits.len(),
        digits@.take(len as int) == decimal_digits(v),
        -0x1_0000_0000 <= carry <= 0x1_0000_0000,
        v + carry >= 0,
    ensures
        moved@ == decimal_digits((v + carry) as nat),
    decreases len,
{
    let ghost written = decimal_digits(v);
    proof {
        lemma_decimal_digits(v);
        if v >= 10 {
            lemma_decimal_digits(v / 10);
        }
        assert(written[len - 1] == digits@[len - 1]);
        assert(is_digit(written[len - 1]));
        assert(written.last() == digit_char((v % 10) as int));
    }
    let c: char = digits[len - 1];
    let x: i64 = (c as u32 - '0' as u32) as i64;
    assert(x == v % 10);
    if len == 1 {
        digits_of((x + carry) as u64)
    } else {
        assert(v >= 10);
        let t: i64 = x + carry;
        let q: i64 = if t >= 0 {
            t / 10
        } else {
            -((9 - t) / 10)
        };
        let y: i64 = t - q * 10;
        assert(0 <= y < 10);
        proof {
            assert(written.drop_last() =~= decimal_digits(v / 10));
            assert(digits@.take(len - 1) =~= written.drop_last());
            assert(v + carry == (v / 10 + q) * 10 + y);
        }
        let mut moved = shifted(digits, len - 1, q, Ghost(v / 10));
        let last: char = ((y as u8) + 48) as char;
        let ghost above = (v / 10 + q) as nat;
        proof {
            lemma_decimal_digits(above);
            if above == 0 {
                assert(moved@ =~= seq!['0']);
            } else if moved@.len() == 1 && moved@[0] == '0' {
                assert(moved@.drop_last() =~= Seq::<char>::empty());
                assert(decimal_value(moved@.drop_last()) == 0);
                assert(decimal_value(moved@) == 0);
            }
        }
        if moved.len() == 1 && moved[0] == '0' {
            let mut only: Vec<char> = Vec::new();
            only.push(last);
            assert(only@ =~= decimal_digits((v + carry) as nat));
            only
        } else {
            moved.push(last);
            proof {
                let whole = (v + carry) as nat;
                assert(whole >= 10);
                assert(whole / 10 == above && whole % 10 == y);
                assert(moved@ =~= decimal_digits(whole));
            }
            moved
        }
    }
}

/// The ordinal whose last segment is that of `ordinal` moved by `delta`
/// (`-1` for the previous sibling, `1` for the next). No bound is put on the
/// segment or on the outcome: the number may be of any size, below zero the
/// outcome is written with a `-`, and whether a record has that ordinal is
/// for the store to say. Fails with `InvalidOrdinal` exactly where the last
/// segment of `ordinal` is not a non-negative integer literal.
pub fn sibling_of(ordinal: &str, delta: i32) -> (result: Result<String, StoreError>)
    ensures
        match result {
            Ok(text) => sibling_text(ordinal@, delta as int) == Some(text@),
            Err(error) => error is InvalidOrdinal && sibling_text(ordinal@, delta as int) is None,
        },
{
    let chars = chars_of(ordinal);
    let k = find_last_dot(&chars);
    assert(chars@.subrange(k as int, chars.len() as int) =~= last_segment(ordinal@));
    assert(chars@.subrange(0, k as int) =~= ordinal@.take(k as int));
    match parse_segment(&chars, k, chars.len()) {
        Some(number) => {
            proof {
                let written = unsigned_part(last_segment(ordinal@));
                lemma_decimal_value_grows(written, 0);
            }
            assert(segment_value(last_segment(ordinal@)) == Some(number as nat));
            let mut text = text_of(&chars, 0, k);
            let moved: i64 = number as i64 + delta as i64;
            if moved < 0 {
                text.push('-');
                push_decimal(&mut text, (-moved) as u64);
                assert(text@ =~= ordinal@.take(k as int) + signed_decimal(moved as int));
            } else {
                push_decimal(&mut text, moved as u64);
                assert(text@ =~= ordinal@.take(k as int) + signed_decimal(moved as int));
            }
            Ok(text)
        },
        None => match segment_digits(&chars, k, chars.len()) {
            None => Err(StoreError::InvalidOrdinal),
            Some(digits) => {
                let ghost n = segment_value(last_segment(ordinal@))->0;
                proof {
                    lemma_decimal_digits(n);
                    assert(digits@.take(digits.len() as int) =~= digits@);
                }
                let moved = shifted(&digits, digits.len(), delta as i64, Ghost(n));
                let mut text = text_of(&chars, 0, k);
                let mut i: usize = 0;
                while i < moved.len()
                    invariant
                        i <= moved.len(),
                        text@ == ordinal@.take(k as int) + moved@.take(i as int),
                    decreases moved.len() - i,
                {
                    text.push(moved[i]);
                    assert(moved@.take(i + 1) =~= moved@.take(i as int).push(moved@[i as int]));
                    assert(text@ =~= ordinal@.take(k as int) + moved@.take(i + 1));
                    i += 1;
                }
                assert(moved@.take(moved.len() as int) =~= moved@);
                assert(n > u32::MAX);
                assert(text@ =~= ordinal@.take(k as int) + signed_decimal(n + delta));
                Ok(text)
            },
        },
    }
}

/// The last `.` of a text is not moved by appending text that holds no `.`.
pub proof fn lemma_last_dot_append(front: Seq<char>, tail: Seq<char>)
    requires
        !tail.contains('.'),
    ensures
        last_dot(front + tail) == last_dot(front),
{
    let whole = front + tail;
    lemma_last_dot(front);
    lemma_last_dot(whole);
    let k = last_dot(front);
    assert forall|j: int| k < j < whole.len() implies #[trigger] whole[j] != '.' by {
        if j < front.len() {
            assert(whole[j] == front[j]);
        } else {
            assert(whole[j] == tail[j - front.len()]);
            assert(tail.contains(tail[j - front.len()]));
        }
    }
    assert(0 <= k ==> whole[k] == front[k]);
    assert(is_last_dot(whole, k));
}

/// Stepping to the next sibling and back gives the ordinal one started from:
/// for every ordinal whose last segment is a number, of any size, written
/// without sign or leading zero, `sibling_of(sibling_of(o, 1), -1)` is `o`.
pub proof fn sibling_round_trip(ordinal: Seq<char>, n: nat)
    requires
        last_segment(ordinal) == decimal_digits(n),
    ensures
        sibling_text(ordinal, 1) is Some,
        sibling_text(sibling_text(ordinal, 1)->0, -1) == Some(ordinal),
{
    let k = last_dot(ordinal);
    let front = ordinal.take(k + 1);
    lemma_last_dot(ordinal);
    lemma_segment_of_decimal(n);
    lemma_segment_of_decimal(n + 1);
    let next = front + decimal_digits(n + 1);
    assert(sibling_text(ordinal, 1) == Some(next));
    lemma_last_dot_append(front, decimal_digits(n + 1));
    lemma_last_dot(front);
    assert(is_last_dot(front, k)) by {
        if k >= 0 {
            assert(front[k] == ordinal[k]);
        }
    }
    assert(last_dot(next) == k);
    assert(last_segment(next) =~= decimal_digits(n + 1));
    assert(next.take(k + 1) =~= front);
    assert(front + decimal_digits(n) =~= ordinal);
}

/// The path of an ordinal in 32-bit numbers: the numbers of its segments,
/// first segment first. `None` where any segment writes no number, or one
/// that does not fit 32 bits.
pub open spec fn ordinal_path(s: Seq<char>) -> Option<Seq<u32>>
    decreases s.len(),
{
    let k = first_dot(s);
    match segment_number(s.take(k)) {
        None => None,
        Some(n) => if 0 <= k < s.len() {
            match ordinal_path(s.skip(k + 1)) {
                None => None,
                Some(rest) => Some(seq![n] + rest),
            }
        } else {
            Some(seq![n])
        },
    }
}

/// Whether `s` is an ordinal with a path in 32-bit numbers.
pub open spec fn is_ordinal(s: Seq<char>) -> bool {
    ordinal_path(s) is Some
}

/// `path`, then the path of what is left to read, where that is a path at all.
pub open spec fn path_then(path: Seq<u32>, rest: Option<Seq<u32>>) -> Option<Seq<u32>> {
    match rest {
        None => None,
        Some(more) => Some(path + more),
    }
}

/// Reads an ordinal into its path: one number for each segment. `None`
/// exactly where a segment writes no number, or one that does not fit 32
/// bits.
pub fn parse_ordinal(ordinal: &str) -> (path: Option<Vec<u32>>)
    ensures
        path is Some <==> is_ordinal(ordinal@),
        match path {
            Some(numbers) => ordinal_path(ordinal@) == Some(numbers@),
            None => ordinal_path(ordinal@) is None,
        },
{
    let chars = chars_of(ordinal);
    let mut numbers: Vec<u32> = Vec::new();
    let mut from: usize = 0;
    assert(chars@.skip(0) =~= chars@);
    loop
        invariant
            chars@ == ordinal@,
            from <= chars.len(),
            ordinal_path(ordinal@) == path_then(numbers@, ordinal_path(chars@.skip(from as int))),
        decreases chars.len() - from,
    {
        let ghost rest = chars@.skip(from as int);
        let k = find_dot(&chars, from);
        assert(chars@.subrange(from as int, k as int) =~= rest.take(k - from));
        match parse_segment(&chars, from, k) {
            None => {
                return None;
            },
            Some(n) => {
                let ghost before = numbers@;
                numbers.push(n);
                if k == chars.len() {
                    assert(before + seq![n] =~= numbers@);
                    return Some(numbers);
                }
                assert(rest.skip(k - from + 1) =~= chars@.skip(k + 1));
                proof {
                    match ordinal_path(chars@.skip(k + 1)) {
                        None => {},
                        Some(more) => {
                            assert(before + (seq![n] + more) =~= numbers@ + more);
                        },
                    }
                }
                from = k + 1;
            },
        }
    }
}

/// Whether `a` comes before `b` when the two are held side by side from the
/// left: at the first place where they differ `a` has the smaller number, or
/// `a` ends there and `b` goes on.
pub open spec fn path_lt(a: Seq<int>, b: Seq<int>) -> bool
    decreases a.len(),
{
    if b.len() == 0 {
        false
    } else if a.len() == 0 {
        true
    } else if a[0] != b[0] {
        a[0] < b[0]
    } else {
        path_lt(a.skip(1), b.skip(1))
    }
}

/// No path comes before itself.
pub proof fn lemma_path_lt_irreflexive(a: Seq<int>)
    ensures
        !path_lt(a, a),
    decreases a.len(),
{
    if a.len() > 0 {
        lemma_path_lt_irreflexive(a.skip(1));
    }
}

/// Of two different paths one comes before the other.
pub proof fn lemma_path_lt_total(a: Seq<int>, b: Seq<int>)
    ensures
        a == b || path_lt(a, b) || path_lt(b, a),
    decreases a.len(),
{
    if a.len() == 0 || b.len() == 0 {
        if a.len() == 0 && b.len() == 0 {
            assert(a =~= b);
        }
    } else if a[0] == b[0] {
        lemma_path_lt_total(a.skip(1), b.skip(1));
        if a.skip(1) == b.skip(1) {
            assert(a =~= seq![a[0]] + a.skip(1));
            assert(b =~= seq![b[0]] + b.skip(1));
        }
    }
}

/// Never does `a` come before `b` and `b` before `a`.
pub proof fn lemma_path_lt_asymmetric(a: Seq<int>, b: Seq<int>)
    requires
        path_lt(a, b),
    ensures
        !path_lt(b, a),
    decreases a.len(),
{
    if a.len() > 0 && b.len() > 0 && a[0] == b[0] {
        lemma_path_lt_asymmetric(a.skip(1), b.skip(1));
    }
}

/// Before is transitive.
pub proof fn lemma_path_lt_transitive(a: Seq<int>, b: Seq<int>, c: Seq<int>)
    requires
        path_lt(a, b),
        path_lt(b, c),
    ensures
        path_lt(a, c),
    decreases a.len(),
{
    if a.len() > 0 && b.len() > 0 && c.len() > 0 && a[0] == b[0] && b[0] == c[0] {
        lemma_path_lt_transitive(a.skip(1), b.skip(1), c.skip(1));
    }
}

/// Two paths that agree on their first `k` numbers compare as what follows
/// those numbers does.
pub proof fn lemma_path_lt_skip(a: Seq<int>, b: Seq<int>, k: int)
    requires
        0 <= k <= a.len(),
        k <= b.len(),
        a.take(k) == b.take(k),
    ensures
        path_lt(a, b) == path_lt(a.skip(k), b.skip(k)),
    decreases k,
{
    if k == 0 {
        assert(a.skip(0) =~= a);
        assert(b.skip(0) =~= b);
    } else {
        assert(a[0] == a.take(k)[0]);
        assert(b[0] == b.take(k)[0]);
        assert(a.skip(1).take(k - 1) =~= a.take(k).skip(1));
        assert(b.skip(1).take(k - 1) =~= b.take(k).skip(1));
        lemma_path_lt_skip(a.skip(1), b.skip(1), k - 1);
        assert(a.skip(1).skip(k - 1) =~= a.skip(k));
        assert(b.skip(1).skip(k - 1) =~= b.skip(k));
    }
}

/// The numbers of `s` as integers.
pub open spec fn widened(s: Seq<u32>) -> Seq<int> {
    Seq::new(s.len(), |i: int| s[i] as int)
}

/// Whether `a` comes before `b`, number by number.
pub fn path_before(a: &Vec<u32>, b: &Vec<u32>) -> (before: bool)
    ensures
        before == path_lt(widened(a@), widened(b@)),
{
    let mut i: usize = 0;
    while i < a.len() && i < b.len() && a[i] == b[i]
        invariant
            i <= a.len(),
            i <= b.len(),
            widened(a@).take(i as int) =~= widened(b@).take(i as int),
        decreases a.len() - i,
    {
        i += 1;
    }
    proof {
        lemma_path_lt_skip(widened(a@), widened(b@), i as int);
        if i < a.len() {
            assert(widened(a@).skip(i as int)[0] == a@[i as int]);
        }
        if i < b.len() {
            assert(widened(b@).skip(i as int)[0] == b@[i as int]);
        }
    }
    if i == b.len() {
        false
    } else if i == a.len() {
        true
    } else {
        a[i] < b[i]
    }
}

/// The code points of a text, one for each character.
pub open spec fn code_points(s: Seq<char>) -> Seq<int> {
    Seq::new(s.len(), |i: int| s[i] as int)
}

/// The numbers of an ordinal, whatever their size: what each of its
/// segments writes, first segment first. `None` where any segment writes no
/// number.
pub open spec fn ordinal_values(s: Seq<char>) -> Option<Seq<nat>>
    decreases s.len(),
{
    let k = first_dot(s);
    match segment_value(s.take(k)) {
        None => None,
        Some(n) => if 0 <= k < s.len() {
            match ordinal_values(s.skip(k + 1)) {
                None => None,
                Some(rest) => Some(seq![n] + rest),
            }
        } else {
            Some(seq![n])
        },
    }
}

/// `values`, then the numbers of what is left to read, where those are
/// numbers at all.
pub open spec fn values_then(values: Seq<nat>, rest: Option<Seq<nat>>) -> Option<Seq<nat>> {
    match rest {
        None => None,
        Some(more) => Some(values + more),
    }
}

/// The numbers of `s` as integers.
pub open spec fn as_integers(s: Seq<nat>) -> Seq<int> {
    Seq::new(s.len(), |i: int| s[i] as int)
}

/// The order of ordinals: numeric, segment by segment, for numbers of every
/// size. An ordinal whose segments all write numbers comes before another
/// where its numbers do (`2` before `10`, `1` before `1.1`); every such
/// ordinal comes before every other text; and texts that this leaves level
/// (two spellings of the same numbers, two texts with a segment that writes
/// no number) are told apart by their characters, so that of two different
/// texts one always comes first.
pub open spec fn ordinal_lt(a: Seq<char>, b: Seq<char>) -> bool {
    match (ordinal_values(a), ordinal_values(b)) {
        (Some(p), Some(q)) => path_lt(as_integers(p), as_integers(q)) || (p == q && path_lt(
            code_points(a),
            code_points(b),
        )),
        (Some(_), None) => true,
        (None, Some(_)) => false,
        (None, None) => path_lt(code_points(a), code_points(b)),
    }
}

/// Between two ordinals that write different numbers the numbers alone
/// decide which comes first.
pub proof fn ordinal_order_is_numeric(a: Seq<char>, b: Seq<char>)
    requires
        ordinal_values(a) is Some,
        ordinal_values(b) is Some,
        ordinal_values(a) != ordinal_values(b),
    ensures
        ordinal_lt(a, b) == path_lt(
            as_integers(ordinal_values(a)->0),
            as_integers(ordinal_values(b)->0),
        ),
{
}

/// Different texts have different code points.
pub proof fn lemma_code_points_differ(a: Seq<char>, b: Seq<char>)
    requires
        code_points(a) == code_points(b),
    ensures
        a == b,
{
    assert(a.len() == code_points(a).len());
    assert(b.len() == code_points(b).len());
    assert forall|i: int| 0 <= i < a.len() implies a[i] == b[i] by {
        assert(code_points(a)[i] == a[i] as int);
        assert(code_points(b)[i] == b[i] as int);
    }
    assert(a =~= b);
}

/// Different numbers stay different as integers.
pub proof fn lemma_as_integers_differ(p: Seq<nat>, q: Seq<nat>)
    requires
        as_integers(p) == as_integers(q),
    ensures
        p == q,
{
    assert(p.len() == as_integers(p).len());
    assert(q.len() == as_integers(q).len());
    assert forall|i: int| 0 <= i < p.len() implies p[i] == q[i] by {
        assert(as_integers(p)[i] == p[i] as int);
        assert(as_integers(q)[i] == q[i] as int);
    }
    assert(p =~= q);
}

/// `path_lt` is a strict total order.
pub proof fn lemma_path_order(a: Seq<int>, b: Seq<int>, c: Seq<int>)
    ensures
        !path_lt(a, a),
        a != b ==> (path_lt(a, b) <==> !path_lt(b, a)),
        a == b ==> !path_lt(a, b),
        path_lt(a, b) && path_lt(b, c) ==> path_lt(a, c),
{
    lemma_path_lt_irreflexive(a);
    lemma_path_lt_total(a, b);
    if path_lt(a, b) {
        lemma_path_lt_asymmetric(a, b);
        if path_lt(b, c) {
            lemma_path_lt_transitive(a, b, c);
        }
    }
}

/// The order of ordinals is a strict total order on all texts: nothing comes
/// before itself, of two different texts exactly one comes first, and what
/// comes before something that comes before a third comes before the third.
pub proof fn ordinal_order_is_total(a: Seq<char>, b: Seq<char>, c: Seq<char>)
    ensures
        !ordinal_lt(a, a),
        a != b ==> (ordinal_lt(a, b) <==> !ordinal_lt(b, a)),
        ordinal_lt(a, b) && ordinal_lt(b, c) ==> ordinal_lt(a, c),
{
    lemma_path_order(code_points(a), code_points(b), code_points(c));
    if code_points(a) == code_points(b) {
        lemma_code_points_differ(a, b);
    }
    match (ordinal_values(a), ordinal_values(b), ordinal_values(c)) {
        (Some(p), Some(q), Some(r)) => {
            lemma_path_order(as_integers(p), as_integers(q), as_integers(r));
            if as_integers(p) == as_integers(q) {
                lemma_as_integers_differ(p, q);
            }
            if as_integers(q) == as_integers(r) {
                lemma_as_integers_differ(q, r);
            }
        },
        (Some(p), Some(q), None) => {
            lemma_path_order(as_integers(p), as_integers(q), as_integers(q));
            if as_integers(p) == as_integers(q) {
                lemma_as_integers_differ(p, q);
            }
        },
        (Some(p), _, _) => {
            lemma_path_order(as_integers(p), as_integers(p), as_integers(p));
        },
        _ => {},
    }
}

/// The number a segment writes, whatever its size: `Some(n)` where the
/// segment is a non-negative integer literal (an optional `+`, then one
/// digit or more), `None` for every other text.
pub open spec fn segment_value(s: Seq<char>) -> Option<nat> {
    let digits = unsigned_part(s);
    if digits.len() > 0 && all_digits(digits) {
        Some(decimal_value(digits) as nat)
    } else {
        None
    }
}

/// A zero in front does not change the number that digits write.
pub proof fn lemma_leading_zero(s: Seq<char>)
    requires
        s.len() > 0,
        s[0] == '0',
        all_digits(s),
    ensures
        decimal_value(s.skip(1)) == decimal_value(s),
    decreases s.len(),
{
    if s.len() == 1 {
        assert(s.skip(1).len() == 0);
        assert(s.drop_last().len() == 0);
        assert(decimal_value(s.drop_last()) == 0);
        assert(decimal_value(s) == digit_value(s.last()));
    } else {
        let front = s.drop_last();
        let rest = s.skip(1);
        assert(front[0] == s[0]);
        assert forall|i: int| 0 <= i < front.len() implies is_digit(#[trigger] front[i]) by {
            assert(front[i] == s[i]);
        }
        lemma_leading_zero(front);
        assert(rest.drop_last() =~= front.skip(1));
        assert(rest.last() == s.last());
        assert(decimal_value(rest) == decimal_value(rest.drop_last()) * 10 + digit_value(
            rest.last(),
        ));
        assert(decimal_value(s) == decimal_value(front) * 10 + digit_value(s.last()));
    }
}

/// Whether `s` writes a number as `decimal_digits` does: digits alone, and no
/// zero in front of another digit.
pub open spec fn plain_digits(s: Seq<char>) -> bool {
    s.len() > 0 && all_digits(s) && (s.len() == 1 || s[0] != '0')
}

/// Digits without a zero in front are what `decimal_digits` writes for
/// their number.
pub proof fn lemma_plain_digits(s: Seq<char>)
    requires
        plain_digits(s),
    ensures
        0 <= decimal_value(s),
        decimal_digits(decimal_value(s) as nat) == s,
        s.len() >= 2 ==> decimal_value(s) >= 10,
        s[0] != '0' ==> decimal_value(s) >= 1,
    decreases s.len(),
{
    let c = s.last();
    assert(is_digit(c));
    if s.len() == 1 {
        assert(s.drop_last().len() == 0);
        assert(decimal_value(s.drop_last()) == 0);
        assert(decimal_value(s) == digit_value(c));
        assert(digit_char(digit_value(c)) == c);
        assert(decimal_digits(decimal_value(s) as nat) =~= s);
    } else {
        let front = s.drop_last();
        assert(front[0] == s[0]);
        assert forall|i: int| 0 <= i < front.len() implies is_digit(#[trigger] front[i]) by {
            assert(front[i] == s[i]);
        }
        lemma_plain_digits(front);
        let v = decimal_value(front);
        let whole = decimal_value(s);
        assert(whole == v * 10 + digit_value(c));
        assert(whole / 10 == v && whole % 10 == digit_value(c));
        assert(digit_char(digit_value(c)) == c);
        assert(decimal_digits(whole as nat) =~= front.push(c));
        assert(front.push(c) =~= s);
    }
}

/// The digits of the number that `chars[from..to]` writes as a segment,
/// without sign or zeros in front; `None` where it writes no number.
fn segment_digits(chars: &Vec<char>, from: usize, to: usize) -> (digits: Option<Vec<char>>)
    requires
        from <= to <= chars.len(),
    ensures
        match digits {
            Some(text) => segment_value(chars@.subrange(from as int, to as int)) matches Some(n)
                && text@ == decimal_digits(n),
            None => segment_value(chars@.subrange(from as int, to as int)) is None,
        },
{
    let ghost segment = chars@.subrange(from as int, to as int);
    let first: usize = if from < to && chars[from] == '+' {
        from + 1
    } else {
        from
    };
    let ghost written = chars@.subrange(first as int, to as int);
    assert(written =~= unsigned_part(segment));
    if first == to {
        return None;
    }
    let mut i: usize = first;
    while i < to
        invariant
            from <= first <= i <= to <= chars.len(),
            written == chars@.subrange(first as int, to as int),
            written == unsigned_part(chars@.subrange(from as int, to as int)),
            forall|j: int| first <= j < i ==> is_digit(#[trigger] chars@[j]),
        decreases to - i,
    {
        let c: char = chars[i];
        if c < '0' || c > '9' {
            assert(!is_digit(written[i - first]));
            return None;
        }
        i += 1;
    }
    assert(all_digits(written)) by {
        assert forall|j: int| 0 <= j < written.len() implies is_digit(#[trigger] written[j]) by {
            assert(written[j] == chars@[first + j]);
        }
    }
    let mut start: usize = first;
    while start + 1 < to && chars[start] == '0'
        invariant
            first <= start < to <= chars.len(),
            all_digits(chars@.subrange(start as int, to as int)),
            decimal_value(chars@.subrange(start as int, to as int)) == decimal_value(written),
        decreases to - start,
    {
        let ghost here = chars@.subrange(start as int, to as int);
        proof {
            lemma_leading_zero(here);
            assert(here.skip(1) =~= chars@.subrange(start + 1, to as int));
            assert forall|j: int| 0 <= j < here.skip(1).len() implies is_digit(
                #[trigger] here.skip(1)[j],
            ) by {
                assert(here.skip(1)[j] == here[j + 1]);
            }
        }
        start += 1;
    }
    let ghost plain = chars@.subrange(start as int, to as int);
    let mut text: Vec<char> = Vec::new();
    let mut k: usize = start;
    while k < to
        invariant
            start <= k <= to <= chars.len(),
            text@ == chars@.subrange(start as int, k as int),
        decreases to - k,
    {
        text.push(chars[k]);
        assert(text@ =~= chars@.subrange(start as int, k + 1));
        k += 1;
    }
    proof {
        assert(plain[0] == chars@[start as int]);
        lemma_plain_digits(plain);
    }
    Some(text)
}

/// Whether the digits `a` write a smaller number than the digits `b`, for
/// digits without zeros in front: `a` is shorter, or as long and smaller at
/// the first place where the two differ.
pub open spec fn digits_lt(a: Seq<char>, b: Seq<char>) -> bool {
    a.len() < b.len() || (a.len() == b.len() && exists|k: int|
        0 <= k < a.len() && a.take(k) == b.take(k) && #[trigger] a[k] < b[k])
}

/// Never do `a` and `b` both write the smaller number.
pub proof fn lemma_digits_lt_asymmetric(a: Seq<char>, b: Seq<char>)
    requires
        digits_lt(a, b),
    ensures
        !digits_lt(b, a),
        a != b,
{
    if a.len() == b.len() {
        let k = choose|k: int| 0 <= k < a.len() && a.take(k) == b.take(k) && #[trigger] a[k] < b[k];
        if digits_lt(b, a) {
            let m = choose|m: int|
                0 <= m < b.len() && b.take(m) == a.take(m) && #[trigger] b[m] < a[m];
            if k < m {
                assert(b.take(m)[k] == a.take(m)[k]);
            } else if m < k {
                assert(a.take(k)[m] == b.take(k)[m]);
            }
        }
    }
}

/// The smaller number is written by the smaller digits.
pub proof fn lemma_digits_order(m: nat, n: nat)
    requires
        m < n,
    ensures
        digits_lt(decimal_digits(m), decimal_digits(n)),
    decreases n,
{
    let a = decimal_digits(m);
    let b = decimal_digits(n);
    lemma_decimal_digits(m);
    lemma_decimal_digits(n);
    if n < 10 {
        assert(a.take(0) =~= b.take(0));
        assert(a[0] < b[0]);
    } else if m < 10 {
        lemma_decimal_digits(n / 10);
    } else {
        let front_a = decimal_digits(m / 10);
        let front_b = decimal_digits(n / 10);
        lemma_decimal_digits(m / 10);
        lemma_decimal_digits(n / 10);
        if m / 10 < n / 10 {
            lemma_digits_order(m / 10, n / 10);
            if front_a.len() == front_b.len() {
                let k = choose|k: int|
                    0 <= k < front_a.len() && front_a.take(k) == front_b.take(k)
                        && #[trigger] front_a[k] < front_b[k];
                assert(a.take(k) =~= front_a.take(k));
                assert(b.take(k) =~= front_b.take(k));
                assert(a[k] < b[k]);
            }
        } else {
            let k = front_a.len() as int;
            assert(a.take(k) =~= front_a);
            assert(b.take(k) =~= front_b);
            assert(a[k] < b[k]);
        }
    }
}

/// Whether the digits `a` write a smaller number than the digits `b`.
fn digits_before(a: &Vec<char>, b: &Vec<char>) -> (before: bool)
    ensures
        before == digits_lt(a@, b@),
{
    if a.len() != b.len() {
        return a.len() < b.len();
    }
    let mut i: usize = 0;
    while i < a.len() && a[i] == b[i]
        invariant
            i <= a.len(),
            a.len() == b.len(),
            a@.take(i as int) =~= b@.take(i as int),
        decreases a.len() - i,
    {
        assert(a@.take(i + 1) =~= a@.take(i as int).push(a@[i as int]));
        assert(b@.take(i + 1) =~= b@.take(i as int).push(b@[i as int]));
        i += 1;
    }
    if i == a.len() {
        proof {
            assert(a@ =~= a@.take(i as int));
            assert(b@ =~= b@.take(i as int));
            if digits_lt(a@, b@) {
                lemma_digits_lt_asymmetric(a@, b@);
            }
        }
        return false;
    }
    let before = a[i] < b[i];
    proof {
        if before {
            assert(a@[i as int] < b@[i as int]);
        } else {
            assert(b@.take(i as int) == a@.take(i as int));
            assert(b@[i as int] < a@[i as int]);
            assert(digits_lt(b@, a@));
            lemma_digits_lt_asymmetric(b@, a@);
        }
    }
    before
}

/// The code point of `c`.
fn code_point_of(c: char) -> (code: u32)
    ensures
        code as int == c as int,
{
    c as u32
}

/// The code points of `text`.
fn code_points_of(text: &str) -> (codes: Vec<u32>)
    ensures
        widened(codes@) == code_points(text@),
{
    let chars = chars_of(text);
    let mut codes: Vec<u32> = Vec::new();
    let mut i: usize = 0;
    while i < chars.len()
        invariant
            i <= chars.len(),
            chars@ == text@,
            codes.len() == i,
            widened(codes@) == code_points(text@).take(i as int),
        decreases chars.len() - i,
    {
        let ghost before = codes@;
        codes.push(code_point_of(chars[i]));
        assert forall|j: int| 0 <= j <= i implies widened(codes@)[j] == code_points(text@)[j] by {
            if j < i {
                assert(widened(before)[j] == before[j] as int);
                assert(code_points(text@).take(i as int)[j] == code_points(text@)[j]);
            }
        }
        assert(widened(codes@) =~= code_points(text@).take(i + 1));
        i += 1;
    }
    assert(widened(codes@) =~= code_points(text@));
    codes
}

/// Whether `digits` write `values`, number by number, each as
/// `decimal_digits` writes it.
pub open spec fn writes(digits: Seq<Vec<char>>, values: Seq<nat>) -> bool {
    &&& digits.len() == values.len()
    &&& forall|i: int|
        0 <= i < digits.len() ==> (#[trigger] digits[i])@ == decimal_digits(values[i])
}

/// The numbers of `text`, each by its digits; `None` where a segment writes
/// no number.
fn values_of(text: &str) -> (found: Option<Vec<Vec<char>>>)
    ensures
        match found {
            Some(digits) => ordinal_values(text@) matches Some(values) && writes(digits@, values),
            None => ordinal_values(text@) is None,
        },
{
    let chars = chars_of(text);
    let mut digits: Vec<Vec<char>> = Vec::new();
    let ghost mut values: Seq<nat> = Seq::empty();
    let mut from: usize = 0;
    assert(chars@.skip(0) =~= chars@);
    loop
        invariant
            chars@ == text@,
            from <= chars.len(),
            writes(digits@, values),
            ordinal_values(text@) == values_then(values, ordinal_values(chars@.skip(from as int))),
        decreases chars.len() - from,
    {
        let ghost rest = chars@.skip(from as int);
        let k = find_dot(&chars, from);
        assert(chars@.subrange(from as int, k as int) =~= rest.take(k - from));
        match segment_digits(&chars, from, k) {
            None => {
                return None;
            },
            Some(number) => {
                let ghost n = segment_value(rest.take(k - from))->0;
                let ghost before = values;
                let ghost held = digits@;
                digits.push(number);
                proof {
                    values = before.push(n);
                    assert forall|i: int| 0 <= i < digits.len() implies (#[trigger] digits@[i])@
                        == decimal_digits(values[i]) by {
                        if i < held.len() {
                            assert(digits@[i] == held[i]);
                        }
                    }
                }
                if k == chars.len() {
                    assert(before + seq![n] =~= values);
                    return Some(digits);
                }
                assert(rest.skip(k - from + 1) =~= chars@.skip(k + 1));
                proof {
                    match ordinal_values(chars@.skip(k + 1)) {
                        None => {},
                        Some(more) => {
                            assert(before + (seq![n] + more) =~= values + more);
                        },
                    }
                }
                from = k + 1;
            },
        }
    }
}

/// Whether two runs of digits are the same.
fn same_digits(a: &Vec<char>, b: &Vec<char>) -> (same: bool)
    ensures
        same == (a@ == b@),
{
    if a.len() != b.len() {
        return false;
    }
    let mut i: usize = 0;
    while i < a.len()
        invariant
            i <= a.len(),
            a.len() == b.len(),
            forall|j: int| 0 <= j < i ==> a@[j] == b@[j],
        decreases a.len() - i,
    {
        if a[i] != b[i] {
            return false;
        }
        i += 1;
    }
    assert(a@ =~= b@);
    true
}

/// Whether the numbers that `a` writes come before those that `b` writes.
fn values_before(
    a: &Vec<Vec<char>>,
    b: &Vec<Vec<char>>,
    Ghost(p): Ghost<Seq<nat>>,
    Ghost(q): Ghost<Seq<nat>>,
) -> (before: bool)
    requires
        writes(a@, p),
        writes(b@, q),
    ensures
        before == path_lt(as_integers(p), as_integers(q)),
{
    let mut i: usize = 0;
    while i < a.len() && i < b.len() && same_digits(&a[i], &b[i])
        invariant
            i <= a.len(),
            i <= b.len(),
            writes(a@, p),
            writes(b@, q),
            as_integers(p).take(i as int) =~= as_integers(q).take(i as int),
        decreases a.len() - i,
    {
        proof {
            lemma_decimal_digits(p[i as int]);
            lemma_decimal_digits(q[i as int]);
            assert(a@[i as int]@ == decimal_digits(p[i as int]));
            assert(b@[i as int]@ == decimal_digits(q[i as int]));
            assert(p[i as int] == q[i as int]);
        }
        i += 1;
    }
    proof {
        lemma_path_lt_skip(as_integers(p), as_integers(q), i as int);
        if i < a.len() {
            assert(as_integers(p).skip(i as int)[0] == p[i as int]);
        }
        if i < b.len() {
            assert(as_integers(q).skip(i as int)[0] == q[i as int]);
        }
    }
    if i == b.len() {
        false
    } else if i == a.len() {
        true
    } else {
        proof {
            let m = p[i as int];
            let n = q[i as int];
            assert(a@[i as int]@ == decimal_digits(m));
            assert(b@[i as int]@ == decimal_digits(n));
            if m < n {
                lemma_digits_order(m, n);
            } else if n < m {
                lemma_digits_order(n, m);
                lemma_digits_lt_asymmetric(decimal_digits(n), decimal_digits(m));
            }
        }
        digits_before(&a[i], &b[i])
    }
}

/// Whether `a` comes before `b` in the order of ordinals.
pub fn ordinal_before(a: &str, b: &str) -> (before: bool)
    ensures
        before == ordinal_lt(a@, b@),
{
    match (values_of(a), values_of(b)) {
        (Some(p), Some(q)) => {
            let ghost m = ordinal_values(a@)->0;
            let ghost n = ordinal_values(b@)->0;
            if values_before(&p, &q, Ghost(m), Ghost(n)) {
                true
            } else if values_before(&q, &p, Ghost(n), Ghost(m)) {
                false
            } else {
                proof {
                    lemma_path_lt_total(as_integers(m), as_integers(n));
                    if as_integers(m) == as_integers(n) {
                        lemma_as_integers_differ(m, n);
                    }
                }
                path_before(&code_points_of(a), &code_points_of(b))
            }
        },
        (Some(_), None) => true,
        (None, Some(_)) => false,
        (None, None) => path_before(&code_points_of(a), &code_points_of(b)),
    }
}

} // verus!
