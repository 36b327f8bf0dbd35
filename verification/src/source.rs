//! Turning the metadata of one source unit into the record that is stored
//! for it: which of its texts is taken for the language asked for, what its
//! slug is, and where its body comes from.

use vstd::prelude::*;
use crate::cache::{text_view, Record, RecordView};
use crate::error::StoreError;
use crate::ordinal::{ancestor_number, ancestor_of};
use crate::text::{chars_of, same_text};

verus! {

/// The name and description of a source unit in one language.
#[derive(Debug)]
pub struct MetaItem {
    /// The code of the language.
    pub lang: String,
    /// The title of the unit in that language.
    pub name: String,
    /// The body in that language, where the metadata holds it.
    pub desc: Option<String>,
}

/// The metadata of a source unit.
#[derive(Debug)]
pub struct Metadata {
    /// The ordinal of the unit.
    pub number: String,
    /// The ordinal of its parent, where it has one.
    pub parent: Option<String>,
    /// Its advisory rating, where it has one.
    pub difficulty: Option<u32>,
    /// Its texts, one item for each language.
    pub data: Vec<MetaItem>,
}

/// Whether `name` is none of `excluded_names`, so that the directory entry
/// of that name is a source unit to be read.
pub fn exclude_by_name(name: &str, excluded_names: &[&str]) -> (kept: bool)
    ensures
        kept == (forall|i: int| 0 <= i < excluded_names@.len() ==> excluded_names@[i]@ != name@),
{
    let mut i: usize = 0;
    while i < excluded_names.len()
        invariant
            i <= excluded_names.len(),
            forall|j: int| 0 <= j < i ==> excluded_names@[j]@ != name@,
        decreases excluded_names.len() - i,
    {
        if same_text(excluded_names[i], name) {
            return false;
        }
        i += 1;
    }
    true
}

/// Whether `c` may stand in a slug: a lower-case letter of ASCII, or `-`.
pub open spec fn is_slug_char(c: char) -> bool {
    'a' <= c <= 'z' || c == '-'
}

/// What a character of a title becomes in the slug: a letter of ASCII its
/// lower-case form, a space `-`, a `-` itself, and every other character
/// nothing at all. Letters beyond ASCII are dropped, not transliterated.
pub open spec fn slug_char(c: char) -> Option<char> {
    if is_slug_char(c) {
        Some(c)
    } else if 'A' <= c <= 'Z' {
        Some(((c as u8) + 32) as char)
    } else if c == ' ' {
        Some('-')
    } else {
        None
    }
}

/// The slug of a title: what each of its characters becomes, in order.
pub open spec fn slug_of(title: Seq<char>) -> Seq<char>
    decreases title.len(),
{
    if title.len() == 0 {
        Seq::empty()
    } else {
        match slug_char(title.last()) {
            Some(c) => slug_of(title.drop_last()).push(c),
            None => slug_of(title.drop_last()),
        }
    }
}

/// A slug holds nothing but lower-case letters of ASCII and `-`, and is no
/// longer than the title it is made from.
pub proof fn lemma_slug_chars(title: Seq<char>)
    ensures
        slug_of(title).len() <= title.len(),
        forall|i: int| 0 <= i < slug_of(title).len() ==> is_slug_char(#[trigger] slug_of(title)[i]),
    decreases title.len(),
{
    if title.len() > 0 {
        lemma_slug_chars(title.drop_last());
    }
}

/// What `c` becomes in a slug.
fn slug_char_of(c: char) -> (kept: Option<char>)
    ensures
        kept == slug_char(c),
{
    if (c >= 'a' && c <= 'z') || c == '-' {
        Some(c)
    } else if c >= 'A' && c <= 'Z' {
        Some(((c as u8) + 32) as char)
    } else if c == ' ' {
        Some('-')
    } else {
        None
    }
}

/// The slug of `input`: its letters of ASCII in lower case, `-` for each
/// space and each `-`, and nothing for any other character. The outcome
/// holds only `a` to `z` and `-`.
pub fn slug(input: &str) -> (output: String)
    ensures
        output@ == slug_of(input@),
        forall|i: int| 0 <= i < output@.len() ==> is_slug_char(#[trigger] output@[i]),
{
    let chars = chars_of(input);
    let mut output = String::new();
    let mut i: usize = 0;
    while i < chars.len()
        invariant
            i <= chars.len(),
            chars@ == input@,
            output@ == slug_of(input@.take(i as int)),
        decreases chars.len() - i,
    {
        assert(input@.take(i + 1).drop_last() =~= input@.take(i as int));
        match slug_char_of(chars[i]) {
            Some(c) => {
                output.push(c);
            },
            None => {},
        }
        i += 1;
    }
    proof {
        assert(input@.take(chars.len() as int) =~= input@);
        lemma_slug_chars(input@);
    }
    output
}

/// The first item of `data` in the language `lang`.
pub open spec fn first_item(data: Seq<MetaItem>, lang: Seq<char>) -> Option<MetaItem>
    decreases data.len(),
{
    if data.len() == 0 {
        None
    } else if data[0].lang@ == lang {
        Some(data[0])
    } else {
        first_item(data.skip(1), lang)
    }
}

/// Where the body of a unit is read from when its metadata holds none:
/// `theory/<lang>.md`, below the directory of the unit.
pub open spec fn content_path(lang: Seq<char>) -> Seq<char> {
    "theory/"@ + lang + ".md"@
}

/// The record of the unit with the metadata `meta`, its texts taken from
/// `item`: ordinal, parent and difficulty come from the metadata, the title
/// is the name of the item and the slug is made from it, and the body is
/// the description of the item, or empty for a body that is still to be
/// read.
pub open spec fn entry_record(meta: Metadata, item: MetaItem, ancestor: u32) -> RecordView {
    RecordView {
        ordinal: meta.number@,
        parent: text_view(meta.parent),
        ancestor,
        slug: slug_of(item.name@),
        title: item.name@,
        difficulty: meta.difficulty,
        content: match item.desc {
            Some(text) => text@,
            None => Seq::empty(),
        },
    }
}

/// What is to be done with a source unit.
#[derive(Debug)]
pub enum Entry {
    /// The unit has no text in the language asked for: it is passed over.
    Skipped,
    /// The record of the unit, ready to be stored.
    Complete(Record),
    /// The record of the unit without its body, which is the text of the
    /// file at `content_path` below the directory of the unit.
    Pending { record: Record, content_path: String },
}

/// The item of `data` in the language `lang` that comes first.
fn find_item<'a>(data: &'a Vec<MetaItem>, lang: &str) -> (found: Option<&'a MetaItem>)
    ensures
        match found {
            Some(item) => first_item(data@, lang@) == Some(*item),
            None => first_item(data@, lang@) is None,
        },
{
    let mut i: usize = 0;
    assert(data@.skip(0) =~= data@);
    while i < data.len()
        invariant
            i <= data.len(),
            first_item(data@, lang@) == first_item(data@.skip(i as int), lang@),
        decreases data.len() - i,
    {
        assert(data@.skip(i as int)[0] == data@[i as int]);
        if same_text(data[i].lang.as_str(), lang) {
            return Some(&data[i]);
        }
        assert(data@.skip(i as int).skip(1) =~= data@.skip(i + 1));
        i += 1;
    }
    assert(data@.skip(data.len() as int).len() == 0);
    None
}

/// Decides what becomes of the source unit with the metadata `meta` when the
/// tree is built for the language `lang`.
///
/// The texts of the unit are those of its first item in that language; a
/// unit without one is `Skipped`, whatever else its metadata holds. Of the
/// others the record is made as `entry_record` says, with the number of the
/// first segment of the ordinal as its ancestor: `Complete` where the item
/// holds a description, `Pending` where the body is still to be read from
/// `theory/<lang>.md`.
///
/// Fails with `InvalidOrdinal` exactly where the unit has an item in the
/// language and the first segment of its ordinal denotes no number.
pub fn process_entry(meta: &Metadata, lang: &str) -> (result: Result<Entry, StoreError>)
    ensures
        match first_item(meta.data@, lang@) {
            None => result matches Ok(Entry::Skipped),
            Some(item) => match result {
                Ok(Entry::Skipped) => false,
                Ok(Entry::Complete(record)) => {
                    &&& item.desc is Some
                    &&& ancestor_number(meta.number@) == Some(record.ancestor)
                    &&& record@ == entry_record(*meta, item, record.ancestor)
                },
                Ok(Entry::Pending { record, content_path: path }) => {
                    &&& item.desc is None
                    &&& ancestor_number(meta.number@) == Some(record.ancestor)
                    &&& record@ == entry_record(*meta, item, record.ancestor)
                    &&& path@ == content_path(lang@)
                },
                Err(error) => error is InvalidOrdinal && ancestor_number(meta.number@) is None,
            },
        },
{
    let item = match find_item(&meta.data, lang) {
        Some(item) => item,
        None => {
            return Ok(Entry::Skipped);
        },
    };
    let ancestor = match ancestor_of(meta.number.as_str()) {
        Ok(number) => number,
        Err(error) => {
            return Err(error);
        },
    };
    let parent = match &meta.parent {
        Some(text) => Some(text.clone()),
        None => None,
    };
    match &item.desc {
        Some(text) => Ok(
            Entry::Complete(
                Record {
                    ordinal: meta.number.clone(),
                    parent,
                    ancestor,
                    slug: slug(item.name.as_str()),
                    title: item.name.clone(),
                    difficulty: meta.difficulty,
                    content: text.clone(),
                },
            ),
        ),
        None => {
            let mut path = "theory/".to_owned();
            path.append(lang);
            path.append(".md");
            assert(path@ =~= content_path(lang@));
            Ok(
                Entry::Pending {
                    record: Record {
                        ordinal: meta.number.clone(),
                        parent,
                        ancestor,
                        slug: slug(item.name.as_str()),
                        title: item.name.clone(),
                        difficulty: meta.difficulty,
                        content: String::new(),
                    },
                    content_path: path,
                },
            )
        },
    }
}

} // verus!
