//! The tree renderer: one Markdown page for each record, with a header of
//! metadata, the title and the body, and then either a table of contents
//! (the record has children) or links to the records beside it (it has
//! none).

use vstd::prelude::*;
use crate::cache::{
    lists_children, select_children, select_siblings, storable, Entries, Record, RecordView, Store,
};
use crate::error::StoreError;
use crate::headings::{leaf_page_headings, node_page_headings};
use crate::ordinal::{decimal_digits, last_segment, sibling_round_trip, sibling_text};
use crate::text::occurs_in;

verus! {

/// Why a page could not be rendered.
#[derive(Debug)]
pub enum RenderError {
    /// The store failed, or refused the ordinal of the record.
    Store(StoreError),
    /// The metadata could not be written as YAML; the text is the account
    /// that `serde_yaml` gives of it.
    Metadata(String),
}

/// The value of one line of metadata.
#[derive(Debug)]
pub enum Scalar {
    Text(String),
    Number(u32),
}

/// A `Scalar` as the contracts see it.
pub enum ScalarView {
    Text(Seq<char>),
    Number(u32),
}

impl View for Scalar {
    type V = ScalarView;

    open spec fn view(&self) -> ScalarView {
        match self {
            Scalar::Text(text) => ScalarView::Text(text@),
            Scalar::Number(number) => ScalarView::Number(*number),
        }
    }
}

/// One line of metadata: a key and its value.
#[derive(Debug)]
pub struct Field {
    pub key: String,
    pub value: Scalar,
}

/// A `Field` as the contracts see it.
pub struct FieldView {
    pub key: Seq<char>,
    pub value: ScalarView,
}

impl View for Field {
    type V = FieldView;

    open spec fn view(&self) -> FieldView {
        FieldView { key: self.key@, value: self.value@ }
    }
}

/// The views of `fields`, in order.
pub open spec fn field_views(fields: Seq<Field>) -> Seq<FieldView> {
    Seq::new(fields.len(), |i: int| fields[i]@)
}

/// The views of `records`, in order.
pub open spec fn record_views(records: Seq<Record>) -> Seq<RecordView> {
    Seq::new(records.len(), |i: int| records[i]@)
}

/// The view of a record that may be absent.
pub open spec fn record_view(record: Option<Record>) -> Option<RecordView> {
    match record {
        Some(r) => Some(r@),
        None => None,
    }
}

/// The metadata of a record, line by line: its ordinal, its parent where it
/// has one, its slug, its title, and its difficulty where it has one. The
/// body is no metadata.
pub open spec fn metadata_of(record: RecordView) -> Seq<FieldView> {
    let ordinal = seq![FieldView { key: "ordinal"@, value: ScalarView::Text(record.ordinal) }];
    let parent = match record.parent {
        Some(text) => seq![FieldView { key: "parent"@, value: ScalarView::Text(text) }],
        None => Seq::empty(),
    };
    let names = seq![
        FieldView { key: "slug"@, value: ScalarView::Text(record.slug) },
        FieldView { key: "title"@, value: ScalarView::Text(record.title) },
    ];
    let difficulty = match record.difficulty {
        Some(number) => seq![FieldView { key: "difficulty"@, value: ScalarView::Number(number) }],
        None => Seq::empty(),
    };
    ordinal + parent + names + difficulty
}

/// The metadata of `record`, line by line.
pub fn metadata_fields(record: &Record) -> (fields: Vec<Field>)
    ensures
        field_views(fields@) == metadata_of(record@),
{
    let mut fields: Vec<Field> = Vec::new();
    fields.push(Field { key: "ordinal".to_owned(), value: Scalar::Text(record.ordinal.clone()) });
    match &record.parent {
        Some(text) => {
            fields.push(Field { key: "parent".to_owned(), value: Scalar::Text(text.clone()) });
        },
        None => {},
    }
    fields.push(Field { key: "slug".to_owned(), value: Scalar::Text(record.slug.clone()) });
    fields.push(Field { key: "title".to_owned(), value: Scalar::Text(record.title.clone()) });
    match record.difficulty {
        Some(number) => {
            fields.push(Field { key: "difficulty".to_owned(), value: Scalar::Number(number) });
        },
        None => {},
    }
    assert(field_views(fields@) =~= metadata_of(record@));
    fields
}

/// `serde_yaml::Error`, what a failed serialisation hands back.
#[verifier::external_type_specification]
#[verifier::external_body]
pub struct ExYamlError(serde_yaml::Error);

/// What `serde_yaml::to_string` gives for the mapping that holds `fields`,
/// in their order: the YAML text that it writes, or `None` where it fails.
pub uninterp spec fn yaml_text(fields: Seq<FieldView>) -> Option<Seq<char>>;

/// `serde_yaml::to_string` on the `serde_yaml::Mapping` that holds `fields`
/// in their order, each key as a YAML string and each value as a YAML string
/// or number. Claimed: whether it writes, and the text that it writes,
/// depend on the fields alone.
#[verifier::external_body]
fn to_yaml(fields: &Vec<Field>) -> (written: Result<String, serde_yaml::Error>)
    ensures
        written matches Ok(text) ==> yaml_text(field_views(fields@)) == Some(text@),
        written is Err ==> yaml_text(field_views(fields@)) is None,
{
    let mut mapping = serde_yaml::Mapping::new();
    for field in fields.iter() {
        let value = match &field.value {
            Scalar::Text(text) => serde_yaml::Value::from(text.clone()),
            Scalar::Number(number) => serde_yaml::Value::from(*number),
        };
        mapping.insert(serde_yaml::Value::from(field.key.clone()), value);
    }
    serde_yaml::to_string(&mapping)
}

/// Whether the metadata of `record` can be written as YAML.
pub open spec fn has_metadata(record: RecordView) -> bool {
    yaml_text(metadata_of(record)) is Some
}

/// The header of a page, for a record whose metadata can be written: the
/// metadata as YAML, closed by a line that holds `---` and nothing else.
pub open spec fn metadata_block(record: RecordView) -> Seq<char> {
    yaml_text(metadata_of(record))->0 + "---\n"@
}

/// Appends the header of the page of `record` to `data`. It succeeds exactly
/// where the metadata can be written as YAML, and where it cannot, `data` is
/// left as it was.
pub fn build_metadata(data: &mut String, record: &Record) -> (result: Result<(), RenderError>)
    ensures
        result is Ok <==> has_metadata(record@),
        match result {
            Ok(_) => final(data)@ == old(data)@ + metadata_block(record@),
            Err(error) => error is Metadata && final(data)@ == old(data)@,
        },
{
    let fields = metadata_fields(record);
    match to_yaml(&fields) {
        Ok(text) => {
            data.append(text.as_str());
            data.append("---\n");
            assert(data@ =~= old(data)@ + metadata_block(record@));
            Ok(())
        },
        Err(error) => Err(RenderError::Metadata(error.to_string())),
    }
}

/// What every page has below its header: the title as a heading of the
/// first level, a blank line, the body, and a blank line.
pub open spec fn page_body(record: RecordView) -> Seq<char> {
    "# "@ + record.title + "\n\n"@ + record.content + "\n\n"@
}

/// The heading of a table of contents.
pub open spec fn contents_heading() -> Seq<char> {
    "## Table of contents"@
}

/// The heading of the links to the records beside a page.
pub open spec fn navigation_heading() -> Seq<char> {
    "## Navigation"@
}

/// The bullet of a table of contents that links to `child`.
pub open spec fn contents_line(child: RecordView) -> Seq<char> {
    "- ["@ + child.title + "](./"@ + child.slug + ".md)\n"@
}

/// The bullets of a table of contents, one for each child, in their order.
pub open spec fn contents_lines(children: Seq<RecordView>) -> Seq<char>
    decreases children.len(),
{
    if children.len() == 0 {
        Seq::empty()
    } else {
        contents_lines(children.drop_last()) + contents_line(children.last())
    }
}

/// The page of a record with children: header, body, and a table of
/// contents that links to each child.
pub open spec fn node_page(header: Seq<char>, record: RecordView, children: Seq<RecordView>) -> Seq<
    char,
> {
    header + page_body(record) + contents_heading() + "\n\n"@ + contents_lines(children)
}

/// The bullet that links to the previous record.
pub open spec fn previous_line(record: RecordView) -> Seq<char> {
    "- Previous: ["@ + record.title + "]("@ + record.slug + ".md)"@
}

/// The bullet that links to the next record.
pub open spec fn next_line(record: RecordView) -> Seq<char> {
    "- Next: ["@ + record.title + "]("@ + record.slug + ".md)"@
}

/// The bullets below the navigation heading: one for each sibling that is
/// there, the previous one first, with a line break between the two.
pub open spec fn navigation_lines(previous: Option<RecordView>, next: Option<RecordView>) -> Seq<
    char,
> {
    match (previous, next) {
        (Some(p), Some(n)) => previous_line(p) + "\n"@ + next_line(n),
        (Some(p), None) => previous_line(p),
        (None, Some(n)) => next_line(n),
        (None, None) => Seq::empty(),
    }
}

/// The page of a record without children: header, body, and the navigation
/// heading with a link to each sibling that is there. Without siblings the
/// heading stands alone.
pub open spec fn leaf_page(
    header: Seq<char>,
    record: RecordView,
    previous: Option<RecordView>,
    next: Option<RecordView>,
) -> Seq<char> {
    header + page_body(record) + navigation_heading() + "\n\n"@ + navigation_lines(previous, next)
}

/// Appends the body of the page of `record` to `data`.
fn push_body(data: &mut String, record: &Record)
    ensures
        final(data)@ == old(data)@ + page_body(record@),
{
    data.append("# ");
    data.append(record.title.as_str());
    data.append("\n\n");
    data.append(record.content.as_str());
    data.append("\n\n");
    assert(data@ =~= old(data)@ + page_body(record@));
}

/// Writes the page of a record with children below `header`.
pub fn render_node(header: &str, record: &Record, children: &[Record]) -> (page: String)
    ensures
        page@ == node_page(header@, record@, record_views(children@)),
{
    let mut page = header.to_owned();
    push_body(&mut page, record);
    page.append("## Table of contents");
    page.append("\n\n");
    let ghost start = page@;
    let mut i: usize = 0;
    while i < children.len()
        invariant
            i <= children.len(),
            page@ == start + contents_lines(record_views(children@).take(i as int)),
        decreases children.len() - i,
    {
        let child = &children[i];
        let ghost before = page@;
        page.append("- [");
        page.append(child.title.as_str());
        page.append("](./");
        page.append(child.slug.as_str());
        page.append(".md)\n");
        proof {
            let views = record_views(children@);
            assert(views.take(i + 1).drop_last() =~= views.take(i as int));
            assert(views.take(i + 1).last() == child@);
            assert(page@ =~= before + contents_line(child@));
            assert(page@ =~= start + contents_lines(views.take(i + 1)));
        }
        i += 1;
    }
    proof {
        let views = record_views(children@);
        assert(views.take(children.len() as int) =~= views);
        assert(page@ =~= node_page(header@, record@, views));
    }
    page
}

/// Writes the page of a record without children below `header`.
pub fn render_leaf(
    header: &str,
    record: &Record,
    previous: &Option<Record>,
    next: &Option<Record>,
) -> (page: String)
    ensures
        page@ == leaf_page(header@, record@, record_view(*previous), record_view(*next)),
{
    let mut page = header.to_owned();
    push_body(&mut page, record);
    page.append("## Navigation");
    page.append("\n\n");
    let ghost start = page@;
    match previous {
        Some(sibling) => {
            page.append("- Previous: [");
            page.append(sibling.title.as_str());
            page.append("](");
            page.append(sibling.slug.as_str());
            page.append(".md)");
            assert(page@ =~= start + previous_line(sibling@));
        },
        None => {},
    }
    match next {
        Some(sibling) => {
            if previous.is_some() {
                page.append("\n");
            }
            let ghost between = page@;
            page.append("- Next: [");
            page.append(sibling.title.as_str());
            page.append("](");
            page.append(sibling.slug.as_str());
            page.append(".md)");
            assert(page@ =~= between + next_line(sibling@));
        },
        None => {},
    }
    assert(page@ =~= leaf_page(header@, record@, record_view(*previous), record_view(*next)));
    page
}

/// Renders the page of `record`, a record with the children `children`:
/// its metadata, its title and body, and a table of contents that links to
/// each child in the order given. Fails, with `Metadata`, exactly where the
/// metadata cannot be written as YAML.
pub fn build_node(record: &Record, children: &[Record]) -> (result: Result<String, RenderError>)
    ensures
        result is Ok <==> has_metadata(record@),
        match result {
            Ok(page) => {
                &&& page@ == node_page(metadata_block(record@), record@, record_views(children@))
                &&& occurs_in(page@, contents_heading())
            },
            Err(error) => error is Metadata,
        },
{
    let mut header = String::new();
    match build_metadata(&mut header, record) {
        Ok(_) => {
            assert(header@ =~= metadata_block(record@));
            proof {
                node_page_headings(
                    yaml_text(metadata_of(record@))->0,
                    record@,
                    record_views(children@),
                );
            }
            Ok(render_node(header.as_str(), record, children))
        },
        Err(error) => Err(error),
    }
}

/// Renders the page of `record`, a record without children that has
/// `siblings` beside it (the previous one, then the next): its metadata, its
/// title and body, and the navigation heading with a link to each sibling
/// that is there. Fails, with `Metadata`, exactly where the metadata cannot
/// be written as YAML.
pub fn build_leaf(record: &Record, siblings: (Option<Record>, Option<Record>)) -> (result: Result<
    String,
    RenderError,
>)
    ensures
        result is Ok <==> has_metadata(record@),
        match result {
            Ok(page) => {
                &&& page@ == leaf_page(
                    metadata_block(record@),
                    record@,
                    record_view(siblings.0),
                    record_view(siblings.1),
                )
                &&& occurs_in(page@, navigation_heading())
            },
            Err(error) => error is Metadata,
        },
{
    let mut header = String::new();
    match build_metadata(&mut header, record) {
        Ok(_) => {
            assert(header@ =~= metadata_block(record@));
            proof {
                leaf_page_headings(
                    yaml_text(metadata_of(record@))->0,
                    record@,
                    record_view(siblings.0),
                    record_view(siblings.1),
                );
            }
            Ok(render_leaf(header.as_str(), record, &siblings.0, &siblings.1))
        },
        Err(error) => Err(error),
    }
}

/// What `entries` holds under `ordinal`.
pub open spec fn stored_at(entries: Entries, ordinal: Seq<char>) -> Option<RecordView> {
    if entries.contains_key(ordinal) {
        Some(entries[ordinal])
    } else {
        None
    }
}

/// The record that `entries` holds beside `ordinal`, `delta` steps on.
pub open spec fn sibling_at(
    entries: Entries,
    ordinal: Seq<char>,
    delta: int,
) -> Option<RecordView> {
    match sibling_text(ordinal, delta) {
        Some(text) => stored_at(entries, text),
        None => None,
    }
}

/// The record before the record after `ordinal` is the record under
/// `ordinal` itself, whatever the store holds: for every ordinal whose last
/// segment is a number, of any size, written without sign or leading zero.
pub proof fn siblings_lead_back(entries: Entries, ordinal: Seq<char>, n: nat)
    requires
        last_segment(ordinal) == decimal_digits(n),
    ensures
        sibling_text(ordinal, 1) matches Some(next) && sibling_at(entries, next, -1) == stored_at(
            entries,
            ordinal,
        ),
{
    sibling_round_trip(ordinal, n);
}

/// Whether no record of `entries` has `ordinal` as its parent.
pub open spec fn is_leaf(entries: Entries, ordinal: Seq<char>) -> bool {
    forall|key: Seq<char>| #[trigger]
        entries.contains_key(key) ==> entries[key].parent != Some(ordinal)
}

/// The page of `record`, a record whose metadata can be written, in a store
/// that holds `entries`, where `children` are the children of the record:
/// with children the page of a node, without them the page of a leaf, with
/// the siblings that the store holds.
pub open spec fn page_of(entries: Entries, record: RecordView, children: Seq<Record>) -> Seq<char> {
    if children.len() == 0 {
        leaf_page(
            metadata_block(record),
            record,
            sibling_at(entries, record.ordinal, -1),
            sibling_at(entries, record.ordinal, 1),
        )
    } else {
        node_page(metadata_block(record), record, record_views(children))
    }
}

/// Renders the page of `record` from what the store holds, and hands back
/// the children of the record with it. The children alone decide the kind of
/// page: a record with children gets a table of contents, a record without
/// gets the navigation to its siblings. So the page of a leaf carries the
/// navigation heading and the page of a node that of a table of contents;
/// `leaf_page_headings` and `node_page_headings` say when a page can hold
/// the other heading as well.
///
/// - `Store(InvalidOrdinal)`: only where the ordinal of the record holds a
///   NUL character, or the record has no children and its last segment
///   denotes no number, so that it has no siblings to look for. On such a
///   record the call always fails.
/// - `Store(StoreCorruption)`: the database failed.
/// - `Metadata`: only where the metadata cannot be written as YAML. On such a
///   record the call always fails.
pub fn build_content(store: &Store, record: &Record) -> (result: Result<
    (String, Vec<Record>),
    RenderError,
>)
    ensures
        !storable(record.ordinal@) || (is_leaf(store@, record.ordinal@) && sibling_text(
            record.ordinal@,
            1,
        ) is None) ==> result is Err,
        !has_metadata(record@) ==> result is Err,
        match result {
            Ok((page, children)) => {
                &&& storable(record.ordinal@)
                &&& has_metadata(record@)
                &&& lists_children(store@, Some(record.ordinal@), children@)
                &&& children.len() == 0 ==> sibling_text(record.ordinal@, 1) is Some
                &&& page@ == page_of(store@, record@, children@)
                &&& occurs_in(
                    page@,
                    if children.len() == 0 {
                        navigation_heading()
                    } else {
                        contents_heading()
                    },
                )
            },
            Err(RenderError::Store(error)) => match error {
                StoreError::InvalidOrdinal => !storable(record.ordinal@) || (is_leaf(
                    store@,
                    record.ordinal@,
                ) && sibling_text(record.ordinal@, 1) is None),
                StoreError::StoreCorruption(_) => storable(record.ordinal@),
                _ => false,
            },
            Err(RenderError::Metadata(_)) => {
                &&& !has_metadata(record@)
                &&& storable(record.ordinal@)
                &&& is_leaf(store@, record.ordinal@) ==> sibling_text(record.ordinal@, 1) is Some
            },
        },
{
    let children = match select_children(store, record.ordinal.as_str()) {
        Ok(rows) => rows,
        Err(error) => {
            return Err(RenderError::Store(error));
        },
    };
    if children.len() == 0 {
        assert(is_leaf(store@, record.ordinal@)) by {
            assert forall|key: Seq<char>| #[trigger]
                store@.contains_key(key) implies store@[key].parent != Some(record.ordinal@) by {
                if store@[key].parent == Some(record.ordinal@) {
                    let i = choose|i: int|
                        0 <= i < children.len() && (#[trigger] children@[i]).ordinal@ == key;
                }
            }
        }
        let siblings = match select_siblings(store, record.ordinal.as_str()) {
            Ok(found) => found,
            Err(error) => {
                return Err(RenderError::Store(error));
            },
        };
        match build_leaf(record, siblings) {
            Ok(page) => Ok((page, children)),
            Err(error) => Err(error),
        }
    } else {
        assert(!is_leaf(store@, record.ordinal@)) by {
            assert(store@.contains_key(children@[0].ordinal@));
        }
        match build_node(record, children.as_slice()) {
            Ok(page) => Ok((page, children)),
            Err(error) => Err(error),
        }
    }
}

/// A page that is ready to be written: the name of its file in the directory
/// of its section, and its text.
#[derive(Debug)]
pub struct Page {
    pub file_name: String,
    pub document: String,
}

/// The name of the file of a page: `index.md` for the page of a section, the
/// slug of the record and `.md` for every page below one.
pub open spec fn page_name(record: RecordView, section: bool) -> Seq<char> {
    if section {
        "index.md"@
    } else {
        record.slug + ".md"@
    }
}

/// The walk through one section: which records are still to be rendered, and
/// whether the next one is the section itself.
///
/// The walk is the renderer's part of writing a tree. Each call of `next`
/// renders one page and hands it out for the caller to write; the pages come
/// in pre-order, depth first, the children of a record in ascending order of
/// their ordinals. All pages of a section are named for one directory: the
/// section's own page is its `index.md`, and every descendant, whatever its
/// depth, is a file beside it.
///
/// The walk follows the parents that the records name, so it ends where no
/// record is below itself; nothing in the store keeps a record from naming
/// itself, or a record below it, as its parent.
pub struct TreeWalk {
    pending: Vec<Record>,
    section: bool,
}

impl TreeWalk {
    /// The records that are still to be rendered; the last one comes next.
    pub closed spec fn pending(&self) -> Seq<Record> {
        self.pending@
    }

    /// Whether the next record is the section that the walk began at.
    pub closed spec fn at_section(&self) -> bool {
        self.section
    }

    /// The walk through the section `record`, whose own page is `index.md`.
    pub fn section(record: Record) -> (walk: TreeWalk)
        ensures
            walk.pending() == seq![record],
            walk.at_section(),
    {
        let mut pending: Vec<Record> = Vec::new();
        pending.push(record);
        assert(pending@ =~= seq![record]);
        TreeWalk { pending, section: true }
    }

    /// The walk through the records below a section that begins at `record`,
    /// whose page is named by its slug.
    pub fn node(record: Record) -> (walk: TreeWalk)
        ensures
            walk.pending() == seq![record],
            !walk.at_section(),
    {
        let mut pending: Vec<Record> = Vec::new();
        pending.push(record);
        assert(pending@ =~= seq![record]);
        TreeWalk { pending, section: false }
    }

    /// Renders the next page of the walk, or says with `None` that the walk
    /// is over. The record that is rendered leaves the walk and its children
    /// enter it, the first child to be rendered next. Where rendering fails
    /// the walk stays as it was; the errors are those of `build_content` on
    /// the record that was next.
    pub fn next(&mut self, store: &Store) -> (result: Result<Option<Page>, RenderError>)
        ensures
            old(self).pending().len() == 0 ==> result matches Ok(None),
            old(self).pending().len() > 0 && !has_metadata(old(self).pending().last()@)
                ==> result is Err,
            match result {
                Ok(None) => old(self).pending().len() == 0 && *final(self) == *old(self),
                Ok(Some(page)) => {
                    let record = old(self).pending().last();
                    &&& old(self).pending().len() > 0
                    &&& has_metadata(record@)
                    &&& page.file_name@ == page_name(record@, old(self).at_section())
                    &&& !final(self).at_section()
                    &&& exists|children: Seq<Record>|
                        {
                            &&& #[trigger] lists_children(store@, Some(record.ordinal@), children)
                            &&& page.document@ == page_of(store@, record@, children)
                            &&& final(self).pending() == old(self).pending().drop_last()
                                + children.reverse()
                        }
                },
                Err(error) => {
                    let record = old(self).pending().last();
                    &&& old(self).pending().len() > 0
                    &&& *final(self) == *old(self)
                    &&& match error {
                        RenderError::Store(StoreError::InvalidOrdinal) => !storable(
                            record.ordinal@,
                        ) || (is_leaf(store@, record.ordinal@) && sibling_text(
                            record.ordinal@,
                            1,
                        ) is None),
                        RenderError::Store(StoreError::StoreCorruption(_)) => storable(
                            record.ordinal@,
                        ),
                        RenderError::Store(_) => false,
                        RenderError::Metadata(_) => {
                            &&& !has_metadata(record@)
                            &&& storable(record.ordinal@)
                            &&& is_leaf(store@, record.ordinal@) ==> sibling_text(
                                record.ordinal@,
                                1,
                            ) is Some
                        },
                    }
                },
            },
    {
        if self.pending.len() == 0 {
            return Ok(None);
        }
        let last = self.pending.len() - 1;
        let (document, children) = match build_content(store, &self.pending[last]) {
            Ok(built) => built,
            Err(error) => {
                return Err(error);
            },
        };
        let record = self.pending.pop().unwrap();
        let file_name = if self.section {
            "index.md".to_owned()
        } else {
            let mut name = record.slug.clone();
            name.append(".md");
            name
        };
        self.section = false;
        let ghost kept = self.pending@;
        let ghost listed = children@;
        let mut children = children;
        while children.len() > 0
            invariant
                children.len() <= listed.len(),
                children@ == listed.take(children.len() as int),
                self.pending@ == kept + listed.skip(children.len() as int).reverse(),
                self.section == false,
            decreases children.len(),
        {
            let ghost left = children.len() - 1;
            let child = children.pop().unwrap();
            self.pending.push(child);
            proof {
                assert(children@ =~= listed.take(left));
                let done = listed.skip(left + 1).reverse();
                let more = listed.skip(left).reverse();
                assert(more =~= done.push(listed[left]));
                assert(self.pending@ =~= kept + more);
            }
        }
        proof {
            assert(listed.skip(0) =~= listed);
            assert(lists_children(store@, Some(record.ordinal@), listed));
        }
        Ok(Some(Page { file_name, document }))
    }
}

} // verus!
