//! Which heading a page carries: the page of a leaf has the navigation
//! heading, the page of a node the heading of a table of contents, and
//! neither page has the other's heading unless a text that it was given
//! holds it.

use vstd::prelude::*;
use crate::cache::RecordView;
use crate::sink::{
    contents_heading, contents_line, contents_lines, leaf_page, navigation_heading,
    navigation_lines, next_line, node_page, page_body, previous_line,
};
use crate::text::{
    lemma_barrier, lemma_missing_char, lemma_occurs_in_part, lemma_parted, lemma_too_short,
    occurs_at, occurs_in,
};

verus! {

/// Whether every character of `text` is `#`, a space or a letter of ASCII.
pub open spec fn plain_heading(text: Seq<char>) -> bool {
    forall|j: int|
        0 <= j < text.len() ==> {
            let c = #[trigger] text[j];
            c == '#' || c == ' ' || ('a' <= c <= 'z') || ('A' <= c <= 'Z')
        }
}

/// The two headings are plain, and begin with `##`.
pub proof fn lemma_headings()
    ensures
        contents_heading().len() == 20,
        navigation_heading().len() == 13,
        plain_heading(contents_heading()),
        plain_heading(navigation_heading()),
        contents_heading()[0] == '#' && contents_heading()[1] == '#',
        navigation_heading()[0] == '#' && navigation_heading()[1] == '#',
        navigation_heading()[3] == 'N',
        !contents_heading().contains('N'),
{
    reveal_strlit("## Table of contents");
    reveal_strlit("## Navigation");
    let contents = contents_heading();
    if contents.contains('N') {
        let j = choose|j: int| 0 <= j < contents.len() && contents[j] == 'N';
        assert(contents[j] == 'N');
    }
}

/// A heading that is plain holds none of the characters that part the texts
/// of a page.
proof fn lemma_plain_lacks(needle: Seq<char>, c: char)
    requires
        plain_heading(needle),
        c == '\n' || c == '-' || c == '[' || c == ']' || c == '(' || c == ')' || c == '.' || c
            == '/' || c == ':',
    ensures
        !needle.contains(c),
{
    if needle.contains(c) {
        let j = choose|j: int| 0 <= j < needle.len() && needle[j] == c;
        assert(needle[j] == c);
    }
}

/// Whether `c` is one of the characters that part the texts of a page.
spec fn parts(c: char) -> bool {
    c == '\n' || c == '-' || c == '[' || c == ']' || c == '(' || c == ')' || c == '.' || c == '/'
        || c == ':'
}

/// Text made of parting characters alone parts what stands before it from
/// what stands behind it, for a needle that is a plain heading.
proof fn lemma_plain_parted(
    front: Seq<char>,
    between: Seq<char>,
    back: Seq<char>,
    needle: Seq<char>,
)
    requires
        plain_heading(needle),
        between.len() > 0,
        forall|j: int| 0 <= j < between.len() ==> parts(#[trigger] between[j]),
    ensures
        occurs_in(front + between + back, needle) <==> occurs_in(front, needle) || occurs_in(
            back,
            needle,
        ),
{
    assert forall|j: int| 0 <= j < between.len() implies !needle.contains(
        #[trigger] between[j],
    ) by {
        lemma_plain_lacks(needle, between[j]);
    }
    lemma_parted(front, between, back, needle);
}

/// A heading that begins with `##` stands behind `# ` only where it stands
/// in what follows.
proof fn lemma_behind_hash(title: Seq<char>, needle: Seq<char>)
    requires
        needle.len() >= 2,
        needle[0] == '#',
        needle[1] == '#',
    ensures
        occurs_in("# "@ + title, needle) <==> occurs_in(title, needle),
{
    reveal_strlit("# ");
    let whole = "# "@ + title;
    let n = needle.len() as int;
    if occurs_in(whole, needle) {
        let at = choose|at: int| occurs_at(whole, needle, at);
        if at == 0 {
            assert(whole.subrange(at, at + n)[1] == whole[1]);
        } else if at == 1 {
            assert(whole.subrange(at, at + n)[0] == whole[1]);
        } else {
            assert(title.subrange(at - 2, at - 2 + n) =~= whole.subrange(at, at + n));
            assert(occurs_at(title, needle, at - 2));
        }
    }
    if occurs_in(title, needle) {
        lemma_occurs_in_part("# "@, title, Seq::empty(), needle);
        assert(whole =~= "# "@ + title + Seq::<char>::empty());
    }
}

/// Whether the title or the slug of `record` holds `needle`.
pub open spec fn name_holds(record: RecordView, needle: Seq<char>) -> bool {
    occurs_in(record.title, needle) || occurs_in(record.slug, needle)
}

/// Whether the title or the slug of the record, where there is one, holds
/// `needle`.
pub open spec fn name_holds_if_any(record: Option<RecordView>, needle: Seq<char>) -> bool {
    match record {
        Some(r) => name_holds(r, needle),
        None => false,
    }
}

/// Whether the title or the slug of one of `records` holds `needle`.
pub open spec fn some_name_holds(records: Seq<RecordView>, needle: Seq<char>) -> bool {
    exists|i: int| 0 <= i < records.len() && name_holds(#[trigger] records[i], needle)
}

/// A link, which is a lead that ends on a parting character, a title, parting
/// characters, a slug, and a tail that begins with a parting character, holds
/// a plain heading only where the title or the slug does, as long as what is
/// left of lead and tail is shorter than the heading.
proof fn lemma_link(
    lead: Seq<char>,
    title: Seq<char>,
    mid: Seq<char>,
    slug: Seq<char>,
    tail: Seq<char>,
    needle: Seq<char>,
)
    requires
        plain_heading(needle),
        0 < lead.len() <= needle.len(),
        parts(lead.last()),
        mid.len() > 0,
        forall|j: int| 0 <= j < mid.len() ==> parts(#[trigger] mid[j]),
        0 < tail.len() <= needle.len(),
        parts(tail[0]),
    ensures
        occurs_in(lead + title + mid + slug + tail, needle) <==> occurs_in(title, needle)
            || occurs_in(slug, needle),
{
    let whole = lead + title + mid + slug + tail;
    let place = lead.len() - 1;
    lemma_plain_lacks(needle, lead.last());
    assert(whole[place] == lead.last());
    lemma_barrier(whole, needle, place);
    assert(whole.take(place) =~= lead.drop_last());
    lemma_too_short(lead.drop_last(), needle);
    let rest = whole.skip(place + 1);
    let end = slug + tail;
    assert(rest =~= title + mid + end);
    lemma_plain_parted(title, mid, end, needle);
    lemma_plain_lacks(needle, tail[0]);
    assert(end[slug.len() as int] == tail[0]);
    lemma_barrier(end, needle, slug.len() as int);
    assert(end.take(slug.len() as int) =~= slug);
    assert(end.skip(slug.len() as int + 1) =~= tail.skip(1));
    lemma_too_short(tail.skip(1), needle);
}

/// The bullets below the navigation heading hold the heading of a table of
/// contents only where the name of a sibling does.
proof fn lemma_navigation_lines(previous: Option<RecordView>, next: Option<RecordView>)
    ensures
        occurs_in(navigation_lines(previous, next), contents_heading()) <==> name_holds_if_any(
            previous,
            contents_heading(),
        ) || name_holds_if_any(next, contents_heading()),
{
    let needle = contents_heading();
    lemma_headings();
    reveal_strlit("- Previous: [");
    reveal_strlit("- Next: [");
    reveal_strlit("](");
    reveal_strlit(".md)");
    reveal_strlit("\n");
    match previous {
        Some(p) => {
            lemma_link("- Previous: ["@, p.title, "]("@, p.slug, ".md)"@, needle);
        },
        None => {},
    }
    match next {
        Some(n) => {
            lemma_link("- Next: ["@, n.title, "]("@, n.slug, ".md)"@, needle);
        },
        None => {},
    }
    match (previous, next) {
        (Some(p), Some(n)) => {
            lemma_plain_parted(previous_line(p), "\n"@, next_line(n), needle);
        },
        (None, None) => {
            lemma_too_short(Seq::empty(), needle);
        },
        _ => {},
    }
}

/// The bullets of a table of contents end with a line break, and hold the
/// navigation heading only where the name of a child does.
proof fn lemma_contents_lines(children: Seq<RecordView>)
    ensures
        children.len() > 0 ==> contents_lines(children).len() > 0 && contents_lines(
            children,
        ).last() == '\n',
        occurs_in(contents_lines(children), navigation_heading()) <==> some_name_holds(
            children,
            navigation_heading(),
        ),
    decreases children.len(),
{
    let needle = navigation_heading();
    lemma_headings();
    if children.len() == 0 {
        lemma_too_short(Seq::empty(), needle);
    } else {
        reveal_strlit("- [");
        reveal_strlit("](./");
        reveal_strlit(".md)\n");
        let before = children.drop_last();
        let child = children.last();
        let front = contents_lines(before);
        let line = contents_line(child);
        let whole = front + line;
        lemma_contents_lines(before);
        lemma_link("- ["@, child.title, "](./"@, child.slug, ".md)\n"@, needle);
        assert(line.last() == '\n');
        lemma_plain_lacks(needle, '\n');
        if some_name_holds(before, needle) {
            let i = choose|i: int|
                0 <= i < before.len() && name_holds(#[trigger] before[i], needle);
            assert(name_holds(children[i], needle));
        }
        if name_holds(child, needle) {
            assert(name_holds(children[children.len() - 1], needle));
        }
        if some_name_holds(children, needle) {
            let i = choose|i: int|
                0 <= i < children.len() && name_holds(#[trigger] children[i], needle);
            if i < before.len() {
                assert(name_holds(before[i], needle));
            }
        }
        if front.len() == 0 {
            assert(whole =~= line);
        } else {
            let place = front.len() - 1;
            assert(whole[place] == '\n');
            lemma_barrier(whole, needle, place);
            assert(whole.take(place) =~= front.drop_last());
            assert(whole.skip(place + 1) =~= line);
            lemma_barrier(front, needle, place);
            assert(front.take(place) =~= front.drop_last());
            assert(front.skip(place + 1) =~= Seq::<char>::empty());
            lemma_too_short(Seq::empty(), needle);
        }
    }
}

/// A page with the metadata `yaml`, the body of `record` and `rest` below it
/// holds a heading that is plain and begins with `##` exactly where one of
/// its parts does: the metadata, the title, the body text, or the rest.
proof fn lemma_page(yaml: Seq<char>, record: RecordView, rest: Seq<char>, needle: Seq<char>)
    requires
        plain_heading(needle),
        needle.len() >= 2,
        needle[0] == '#',
        needle[1] == '#',
    ensures
        occurs_in(yaml + "---\n"@ + page_body(record) + rest, needle) <==> occurs_in(yaml, needle)
            || occurs_in(record.title, needle) || occurs_in(record.content, needle) || occurs_in(
            rest,
            needle,
        ),
{
    reveal_strlit("---\n");
    reveal_strlit("\n\n");
    let whole = yaml + "---\n"@ + page_body(record) + rest;
    let below = page_body(record) + rest;
    assert(whole =~= yaml + "---\n"@ + below);
    lemma_plain_parted(yaml, "---\n"@, below, needle);
    let head = "# "@ + record.title;
    let lower = record.content + "\n\n"@ + rest;
    assert(below =~= head + "\n\n"@ + lower);
    lemma_plain_parted(head, "\n\n"@, lower, needle);
    lemma_behind_hash(record.title, needle);
    lemma_plain_parted(record.content, "\n\n"@, rest, needle);
}

/// The page of a leaf carries the navigation heading. It holds the heading
/// of a table of contents only where a text that it was made from does: the
/// metadata, the title or the body of the record, or the title or the slug
/// of a sibling.
pub proof fn leaf_page_headings(
    yaml: Seq<char>,
    record: RecordView,
    previous: Option<RecordView>,
    next: Option<RecordView>,
)
    ensures
        occurs_in(leaf_page(yaml + "---\n"@, record, previous, next), navigation_heading()),
        occurs_in(leaf_page(yaml + "---\n"@, record, previous, next), contents_heading()) <==> {
            ||| occurs_in(yaml, contents_heading())
            ||| occurs_in(record.title, contents_heading())
            ||| occurs_in(record.content, contents_heading())
            ||| name_holds_if_any(previous, contents_heading())
            ||| name_holds_if_any(next, contents_heading())
        },
{
    reveal_strlit("\n\n");
    lemma_headings();
    let page = leaf_page(yaml + "---\n"@, record, previous, next);
    let lines = navigation_lines(previous, next);
    let rest = navigation_heading() + "\n\n"@ + lines;
    assert(page =~= yaml + "---\n"@ + page_body(record) + rest);
    assert(occurs_in(page, navigation_heading())) by {
        let front = yaml + "---\n"@ + page_body(record);
        let back = "\n\n"@ + lines;
        assert(navigation_heading().subrange(0, 13) =~= navigation_heading());
        assert(occurs_at(navigation_heading(), navigation_heading(), 0));
        lemma_occurs_in_part(front, navigation_heading(), back, navigation_heading());
        assert(page =~= front + navigation_heading() + back);
    }
    lemma_page(yaml, record, rest, contents_heading());
    lemma_plain_parted(navigation_heading(), "\n\n"@, lines, contents_heading());
    lemma_too_short(navigation_heading(), contents_heading());
    lemma_navigation_lines(previous, next);
}

/// The page of a node carries the heading of a table of contents. It holds
/// the navigation heading only where a text that it was made from does: the
/// metadata, the title or the body of the record, or the title or the slug
/// of a child.
pub proof fn node_page_headings(yaml: Seq<char>, record: RecordView, children: Seq<RecordView>)
    ensures
        occurs_in(node_page(yaml + "---\n"@, record, children), contents_heading()),
        occurs_in(node_page(yaml + "---\n"@, record, children), navigation_heading()) <==> {
            ||| occurs_in(yaml, navigation_heading())
            ||| occurs_in(record.title, navigation_heading())
            ||| occurs_in(record.content, navigation_heading())
            ||| some_name_holds(children, navigation_heading())
        },
{
    reveal_strlit("\n\n");
    lemma_headings();
    let page = node_page(yaml + "---\n"@, record, children);
    let lines = contents_lines(children);
    let rest = contents_heading() + "\n\n"@ + lines;
    assert(page =~= yaml + "---\n"@ + page_body(record) + rest);
    assert(occurs_in(page, contents_heading())) by {
        let front = yaml + "---\n"@ + page_body(record);
        let back = "\n\n"@ + lines;
        assert(contents_heading().subrange(0, 20) =~= contents_heading());
        assert(occurs_at(contents_heading(), contents_heading(), 0));
        lemma_occurs_in_part(front, contents_heading(), back, contents_heading());
        assert(page =~= front + contents_heading() + back);
    }
    lemma_page(yaml, record, rest, navigation_heading());
    lemma_plain_parted(contents_heading(), "\n\n"@, lines, navigation_heading());
    assert(navigation_heading().contains('N')) by {
        assert(navigation_heading()[3] == 'N');
    }
    lemma_missing_char(contents_heading(), navigation_heading(), 'N');
    lemma_contents_lines(children);
}

} // verus!
