//! Moving between strings and the character sequences that the rest of the
//! crate reasons about.

use vstd::prelude::*;

verus! {

/// `String::push` appends exactly one character to the end of the string.
pub assume_specification[ String::push ](text: &mut String, c: char)
    ensures
        final(text)@ == old(text)@.push(c),
;

/// The characters of `text`, in order.
pub fn chars_of(text: &str) -> (chars: Vec<char>)
    ensures
        chars@ == text@,
{
    let mut chars: Vec<char> = Vec::new();
    for c in it: text.chars()
        invariant
            it.seq() == text@,
            chars@ == text@.take(it.index() as int),
    {
        chars.push(c);
        assert(text@.take(it.index() + 1) =~= text@.take(it.index() as int).push(c));
    }
    assert(text@.take(text@.len() as int) =~= text@);
    chars
}

/// The string made of `chars[from..to]`.
pub(crate) fn text_of(chars: &Vec<char>, from: usize, to: usize) -> (text: String)
    requires
        from <= to <= chars.len(),
    ensures
        text@ == chars@.subrange(from as int, to as int),
{
    let mut text = String::new();
    let mut i: usize = from;
    while i < to
        invariant
            from <= i <= to <= chars.len(),
            text@ == chars@.subrange(from as int, i as int),
        decreases to - i,
    {
        text.push(chars[i]);
        assert(chars@.subrange(from as int, i + 1) =~= chars@.subrange(from as int, i as int).push(
            chars@[i as int],
        ));
        i += 1;
    }
    text
}

/// Whether two texts hold the same characters.
pub fn same_text(a: &str, b: &str) -> (same: bool)
    ensures
        same == (a@ == b@),
{
    let left = chars_of(a);
    let right = chars_of(b);
    if left.len() != right.len() {
        return false;
    }
    let mut i: usize = 0;
    while i < left.len()
        invariant
            i <= left.len(),
            left.len() == right.len(),
            left@ == a@,
            right@ == b@,
            forall|j: int| 0 <= j < i ==> left@[j] == right@[j],
        decreases left.len() - i,
    {
        if left[i] != right[i] {
            return false;
        }
        i += 1;
    }
    assert(a@ =~= b@);
    true
}

/// Whether `text` begins with `prefix`.
pub open spec fn begins_with(text: Seq<char>, prefix: Seq<char>) -> bool {
    prefix.len() <= text.len() && text.take(prefix.len() as int) == prefix
}

/// Whether `text` begins with `prefix`.
pub fn starts_with(text: &str, prefix: &str) -> (begins: bool)
    ensures
        begins == begins_with(text@, prefix@),
{
    let whole = chars_of(text);
    let head = chars_of(prefix);
    if head.len() > whole.len() {
        return false;
    }
    let mut i: usize = 0;
    while i < head.len()
        invariant
            i <= head.len() <= whole.len(),
            whole@ == text@,
            head@ == prefix@,
            forall|j: int| 0 <= j < i ==> whole@[j] == head@[j],
        decreases head.len() - i,
    {
        if whole[i] != head[i] {
            assert(text@.take(prefix@.len() as int)[i as int] != prefix@[i as int]);
            return false;
        }
        i += 1;
    }
    assert(text@.take(prefix@.len() as int) =~= prefix@);
    true
}

/// Whether `text` holds the character `c`.
pub fn holds_char(text: &str, c: char) -> (found: bool)
    ensures
        found == text@.contains(c),
{
    let chars = chars_of(text);
    let mut i: usize = 0;
    while i < chars.len()
        invariant
            i <= chars.len(),
            chars@ == text@,
            forall|j: int| 0 <= j < i ==> chars@[j] != c,
        decreases chars.len() - i,
    {
        if chars[i] == c {
            return true;
        }
        i += 1;
    }
    false
}

/// Whether `needle` stands in `text` at the position `at`.
pub open spec fn occurs_at(text: Seq<char>, needle: Seq<char>, at: int) -> bool {
    &&& 0 <= at
    &&& at + needle.len() <= text.len()
    &&& text.subrange(at, at + needle.len()) == needle
}

/// Whether `text` contains `needle`.
pub open spec fn occurs_in(text: Seq<char>, needle: Seq<char>) -> bool {
    exists|at: int| occurs_at(text, needle, at)
}

/// What stands in a part of a text stands in the text.
pub proof fn lemma_occurs_in_part(
    front: Seq<char>,
    part: Seq<char>,
    back: Seq<char>,
    needle: Seq<char>,
)
    requires
        occurs_in(part, needle),
    ensures
        occurs_in(front + part + back, needle),
{
    let at = choose|at: int| occurs_at(part, needle, at);
    let whole = front + part + back;
    assert(whole.subrange(front.len() + at, front.len() + at + needle.len()) =~= part.subrange(
        at,
        at + needle.len(),
    ));
    assert(occurs_at(whole, needle, front.len() + at));
}

/// A text shorter than the needle does not contain it.
pub proof fn lemma_too_short(text: Seq<char>, needle: Seq<char>)
    requires
        text.len() < needle.len(),
    ensures
        !occurs_in(text, needle),
{
}

/// A text that lacks a character of the needle does not contain the needle.
pub proof fn lemma_missing_char(text: Seq<char>, needle: Seq<char>, c: char)
    requires
        needle.contains(c),
        !text.contains(c),
    ensures
        !occurs_in(text, needle),
{
    if occurs_in(text, needle) {
        let at = choose|at: int| occurs_at(text, needle, at);
        let j = choose|j: int| 0 <= j < needle.len() && needle[j] == c;
        assert(text.subrange(at, at + needle.len())[j] == text[at + j]);
        assert(text.contains(text[at + j]));
    }
}

/// A character that the needle lacks parts a text in two: the needle stands
/// in the text exactly where it stands before that character or behind it.
pub proof fn lemma_barrier(text: Seq<char>, needle: Seq<char>, place: int)
    requires
        0 <= place < text.len(),
        !needle.contains(text[place]),
    ensures
        occurs_in(text, needle) <==> occurs_in(text.take(place), needle) || occurs_in(
            text.skip(place + 1),
            needle,
        ),
{
    let n = needle.len() as int;
    let before = text.take(place);
    let behind = text.skip(place + 1);
    if occurs_in(text, needle) {
        let at = choose|at: int| occurs_at(text, needle, at);
        if at <= place < at + n {
            assert(text.subrange(at, at + n)[place - at] == text[place]);
            assert(needle.contains(needle[place - at]));
        } else if at + n <= place {
            assert(before.subrange(at, at + n) =~= text.subrange(at, at + n));
            assert(occurs_at(before, needle, at));
        } else {
            assert(behind.subrange(at - place - 1, at - place - 1 + n) =~= text.subrange(
                at,
                at + n,
            ));
            assert(occurs_at(behind, needle, at - place - 1));
        }
    }
    if occurs_in(before, needle) {
        assert(text =~= Seq::<char>::empty() + before + text.skip(place));
        lemma_occurs_in_part(Seq::empty(), before, text.skip(place), needle);
    }
    if occurs_in(behind, needle) {
        assert(text =~= text.take(place + 1) + behind + Seq::<char>::empty());
        lemma_occurs_in_part(text.take(place + 1), behind, Seq::empty(), needle);
    }
}

/// Text that holds none of the needle's characters parts what stands before
/// it from what stands behind it: the needle stands in the whole exactly
/// where it stands in one of the two.
pub proof fn lemma_parted(
    front: Seq<char>,
    between: Seq<char>,
    back: Seq<char>,
    needle: Seq<char>,
)
    requires
        between.len() > 0,
        forall|j: int| 0 <= j < between.len() ==> !needle.contains(#[trigger] between[j]),
    ensures
        occurs_in(front + between + back, needle) <==> occurs_in(front, needle) || occurs_in(
            back,
            needle,
        ),
    decreases between.len(),
{
    let whole = front + between + back;
    let place = front.len() as int;
    assert(whole[place] == between[0]);
    lemma_barrier(whole, needle, place);
    assert(whole.take(place) =~= front);
    let rest = whole.skip(place + 1);
    if between.len() == 1 {
        assert(rest =~= back);
    } else {
        let shorter = between.skip(1);
        assert(rest =~= Seq::<char>::empty() + shorter + back);
        assert forall|j: int| 0 <= j < shorter.len() implies !needle.contains(
            #[trigger] shorter[j],
        ) by {
            assert(shorter[j] == between[j + 1]);
        }
        lemma_parted(Seq::empty(), shorter, back, needle);
        if needle.len() > 0 {
            lemma_too_short(Seq::empty(), needle);
        } else {
            assert(back.subrange(0, 0) =~= needle);
            assert(occurs_at(back, needle, 0));
        }
    }
}

} // verus!
