//! The Markdown checklists `.cadence/items/<type>.md`: writing them from the
//! tracked items, and reading checked marks and notes back.
use vstd::prelude::*;

use crate::db::{Database, DbItem, ItemView};
use crate::db::string_views;
use crate::schema::{fallback_status, fallback_status_for_markdown, first_from, markdown_for, status_for, Schemas, SchemaEntries};
use crate::text::{
    all_digit_chars, all_digits, chars_eq, decimal, decimal_chars, extend, find, find_chars,
    lemma_find_from_range, lines, parse_u64, parse_u64_chars, rsplit_once, rsplit_once_char, sep_dash,
    split_lines, split_once, split_once_char, split_once_chars, starts_with, strip_prefix_chars,
    subrange, to_chars, to_string, views,
};

verus! {

/// A generated checklist: the marker type it lists and its text.
#[derive(Debug)]
pub struct MarkdownFile {
    pub marker_type: String,
    pub content: String,
}

impl View for MarkdownFile {
    type V = (Seq<char>, Seq<char>);

    open spec fn view(&self) -> (Seq<char>, Seq<char>) {
        (self.marker_type@, self.content@)
    }
}

/// The views of a sequence of checklists.
pub open spec fn file_views(v: Seq<MarkdownFile>) -> Seq<(Seq<char>, Seq<char>)> {
    v.map_values(|f: MarkdownFile| f@)
}

/// `file:line`, or `file:line:column` when the column is known.
pub open spec fn location(it: ItemView) -> Seq<char> {
    if it.column > 0 {
        it.file + seq![':'] + decimal(it.line as nat) + seq![':'] + decimal(it.column as nat)
    } else {
        it.file + seq![':'] + decimal(it.line as nat)
    }
}

/// The first line of `content`, or nothing when it has none.
pub open spec fn first_line(content: Seq<char>) -> Seq<char> {
    if lines(content).len() > 0 {
        lines(content)[0]
    } else {
        seq![]
    }
}

/// The lines of `content` after the first.
pub open spec fn other_lines(content: Seq<char>) -> Seq<Seq<char>> {
    if lines(content).len() > 0 {
        lines(content).skip(1)
    } else {
        seq![]
    }
}

/// Each line indented by two spaces and ended by a newline.
pub open spec fn indented(ls: Seq<Seq<char>>) -> Seq<char>
    decreases ls.len(),
{
    if ls.len() == 0 {
        seq![]
    } else {
        indented(ls.drop_last()) + seq![' ', ' '] + ls.last() + seq!['\n']
    }
}

/// The marker of an item as the checklist writes it: `<prefix><type>:<id>:<status>`.
pub open spec fn item_marker(it: ItemView, prefix: Seq<char>) -> Seq<char> {
    prefix + it.item_type + seq![':'] + decimal(it.id as nat) + seq![':'] + it.status
}

/// The checklist entry of an item:
/// `- <mark> <marker> - <location> - <first line>`, then the other lines of its
/// content indented by two spaces.
pub open spec fn render_item(it: ItemView, entries: crate::schema::SchemaEntries, prefix: Seq<char>) -> Seq<char> {
    seq!['-', ' '] + markdown_for(entries, it.item_type, it.status) + seq![' '] + item_marker(
        it,
        prefix,
    ) + seq![' ', '-', ' '] + location(it) + seq![' ', '-', ' '] + first_line(it.content) + seq![
        '\n',
    ] + indented(other_lines(it.content))
}

/// The checklist of marker type `t`: the entries of its items, in order.
pub open spec fn render_type(
    items: Seq<ItemView>,
    t: Seq<char>,
    entries: crate::schema::SchemaEntries,
    prefix: Seq<char>,
) -> Seq<char>
    decreases items.len(),
{
    if items.len() == 0 {
        seq![]
    } else {
        render_type(items.drop_last(), t, entries, prefix) + if items.last().item_type == t {
            render_item(items.last(), entries, prefix)
        } else {
            seq![]
        }
    }
}

/// The marker types of `items`, each once, in the order they first occur.
pub open spec fn type_order(items: Seq<ItemView>) -> Seq<Seq<char>>
    decreases items.len(),
{
    if items.len() == 0 {
        seq![]
    } else {
        let ts = type_order(items.drop_last());
        if ts.contains(items.last().item_type) {
            ts
        } else {
            ts.push(items.last().item_type)
        }
    }
}

/// The checklists of all marker types that occur in `items`.
pub open spec fn markdown_files(
    items: Seq<ItemView>,
    entries: crate::schema::SchemaEntries,
    prefix: Seq<char>,
) -> Seq<(Seq<char>, Seq<char>)> {
    type_order(items).map_values(|t: Seq<char>| (t, render_type(items, t, entries, prefix)))
}

/// The characters of `item.file:line[:column]`.
fn item_location(item: &DbItem) -> (r: Vec<char>)
    ensures
        r@ == location(item@),
{
    let mut r = to_chars(item.file.as_str());
    r.push(':');
    let line = decimal_chars(item.line as u64);
    extend(&mut r, &line);
    if item.column > 0 {
        r.push(':');
        let column = decimal_chars(item.column as u64);
        extend(&mut r, &column);
    }
    r
}

/// The head of the checklist entry of an item: everything before its first content line.
fn render_head(item: &DbItem, schemas: &Schemas, prefix: &Vec<char>) -> (r: Vec<char>)
    ensures
        r@ == seq!['-', ' '] + markdown_for(schemas@, item@.item_type, item@.status) + seq![' ']
            + item_marker(item@, prefix@) + seq![' ', '-', ' '] + location(item@) + seq![' ', '-', ' '],
{
    let checked = to_chars(
        schemas.markdown_for_status(item.item_type.as_str(), item.status.as_str()).as_str(),
    );
    let mut marker = subrange(prefix, 0, prefix.len());
    extend(&mut marker, &to_chars(item.item_type.as_str()));
    marker.push(':');
    extend(&mut marker, &decimal_chars(item.id));
    marker.push(':');
    extend(&mut marker, &to_chars(item.status.as_str()));
    assert(marker@ == item_marker(item@, prefix@));
    let mut r: Vec<char> = Vec::new();
    r.push('-');
    r.push(' ');
    extend(&mut r, &checked);
    r.push(' ');
    extend(&mut r, &marker);
    r.push(' ');
    r.push('-');
    r.push(' ');
    extend(&mut r, &item_location(item));
    r.push(' ');
    r.push('-');
    r.push(' ');
    r
}

/// The content of an item as its checklist entry writes it: the first line,
/// a newline, then the other lines indented.
fn render_content(content: &String) -> (r: Vec<char>)
    ensures
        r@ == first_line(content@) + seq!['\n'] + indented(other_lines(content@)),
{
    let chars = to_chars(content.as_str());
    let ls = split_lines(&chars);
    let ghost lv = views(ls@);
    let mut r: Vec<char> = Vec::new();
    if ls.len() > 0 {
        extend(&mut r, &ls[0]);
    }
    r.push('\n');
    let ghost head = r@;
    assert(head == first_line(content@) + seq!['\n']);
    let mut i: usize = 1;
    assert(lv.len() > 0 ==> lv.skip(1).take(0) =~= Seq::<Seq<char>>::empty());
    while i < ls.len()
        invariant
            1 <= i,
            lv == views(ls@),
            lv.len() > 0 ==> i <= lv.len(),
            lv.len() > 0 ==> r@ == head + indented(lv.skip(1).take(i - 1)),
            lv.len() == 0 ==> r@ == head,
        decreases ls@.len() - i,
    {
        r.push(' ');
        r.push(' ');
        extend(&mut r, &ls[i]);
        r.push('\n');
        assert(lv.skip(1).take(i as int).drop_last() == lv.skip(1).take(i - 1));
        assert(lv.skip(1).take(i as int).last() == ls@[i as int]@);
        i = i + 1;
    }
    proof {
        if lv.len() > 0 {
            assert(lv.skip(1).take(lv.len() - 1) == lv.skip(1));
        } else {
            assert(r@ == head + indented(other_lines(content@)));
        }
    }
    r
}

/// The checklist entry of one item.
fn render_item_chars(item: &DbItem, schemas: &Schemas, prefix: &Vec<char>) -> (r: Vec<char>)
    ensures
        r@ == render_item(item@, schemas@, prefix@),
{
    let mut r = render_head(item, schemas, prefix);
    let body = render_content(&item.content);
    extend(&mut r, &body);
    r
}

/// Writes the checklist of every marker type that the tracked items use, one
/// per type, in the order the types first occur; each lists its items in order.
pub fn generate_markdown_files(db: &Database, schemas: &Schemas, marker_prefix: &str) -> (r: Vec<
    MarkdownFile,
>)
    ensures
        file_views(r@) == markdown_files(db@.items, schemas@, marker_prefix@),
{
    let prefix = to_chars(marker_prefix);
    let ghost items = db@.items;
    // The marker types, in order of first occurrence.
    let mut types: Vec<Vec<char>> = Vec::new();
    let mut i: usize = 0;
    while i < db.items.len()
        invariant
            i <= db.items@.len(),
            items == db@.items,
            views(types@) == type_order(items.take(i as int)),
        decreases db.items@.len() - i,
    {
        let t = to_chars(db.items[i].item_type.as_str());
        assert(items.take(i + 1).drop_last() == items.take(i as int));
        assert(items.take(i + 1).last() == db.items@[i as int]@);
        let ghost tv = views(types@);
        let mut found = false;
        let mut k: usize = 0;
        while k < types.len()
            invariant
                k <= types@.len(),
                tv == views(types@),
                found == tv.take(k as int).contains(t@),
            decreases types@.len() - k,
        {
            assert(tv.take(k + 1) == tv.take(k as int).push(tv[k as int]));
            assert(tv[k as int] == types@[k as int]@);
            if chars_eq(&types[k], &t) {
                found = true;
            }
            proof {
                let a = tv.take(k as int);
                let b = tv.take(k + 1);
                if a.contains(t@) {
                    let w = choose|w: int| 0 <= w < a.len() && a[w] == t@;
                    assert(b[w] == t@);
                }
                if tv[k as int] == t@ {
                    assert(b[k as int] == t@);
                }
                if b.contains(t@) {
                    let w = choose|w: int| 0 <= w < b.len() && b[w] == t@;
                    if w < k {
                        assert(a[w] == t@);
                    }
                }
            }
            k = k + 1;
        }
        assert(tv.take(types@.len() as int) == tv);
        if !found {
            types.push(t);
            assert(views(types@) =~= tv.push(t@));
        }
        i = i + 1;
    }
    assert(items.take(db.items@.len() as int) == items);
    let mut files: Vec<MarkdownFile> = Vec::new();
    let ghost tv = views(types@);
    let mut j: usize = 0;
    while j < types.len()
        invariant
            j <= types@.len(),
            tv == views(types@),
            tv == type_order(items),
            items == db@.items,
            prefix@ == marker_prefix@,
            file_views(files@) == markdown_files(items, schemas@, prefix@).take(j as int),
        decreases types@.len() - j,
    {
        let t = &types[j];
        let mut content: Vec<char> = Vec::new();
        let mut i: usize = 0;
        while i < db.items.len()
            invariant
                i <= db.items@.len(),
                items == db@.items,
                content@ == render_type(items.take(i as int), t@, schemas@, prefix@),
            decreases db.items@.len() - i,
        {
            assert(items.take(i + 1).drop_last() == items.take(i as int));
            assert(items.take(i + 1).last() == db.items@[i as int]@);
            if chars_eq(&to_chars(db.items[i].item_type.as_str()), t) {
                let entry = render_item_chars(&db.items[i], schemas, &prefix);
                extend(&mut content, &entry);
            }
            i = i + 1;
        }
        assert(items.take(db.items@.len() as int) == items);
        let ghost before = file_views(files@);
        files.push(MarkdownFile { marker_type: to_string(t), content: to_string(&content) });
        assert(file_views(files@) =~= before.push((t@, render_type(items, t@, schemas@, prefix@))));
        assert(markdown_files(items, schemas@, prefix@).take(j + 1) =~= markdown_files(
            items,
            schemas@,
            prefix@,
        ).take(j as int).push((t@, render_type(items, t@, schemas@, prefix@))));
        j = j + 1;
    }
    assert(markdown_files(items, schemas@, prefix@).take(types@.len() as int) =~= markdown_files(
        items,
        schemas@,
        prefix@,
    ));
    files
}


// ------------------------------------------------------------------
// Reading checklists back
// ------------------------------------------------------------------

/// Whether `v` reads as `path:line` or `path:line:column`: the last field is
/// decimal digits (possibly none) after a non-empty rest; if that rest has a
/// colon, the field before it is non-empty digits after a non-empty path.
pub open spec fn is_location(v: Seq<char>) -> bool {
    match rsplit_once(v, ':') {
        None => false,
        Some(p) => if p.0.len() == 0 || !all_digits(p.1) {
            false
        } else {
            match rsplit_once(p.0, ':') {
                Some(q) => q.0.len() > 0 && q.1.len() > 0 && all_digits(q.1),
                None => p.0.len() > 0,
            }
        },
    }
}

/// `content` without a leading `<location> - `.
pub open spec fn without_location(content: Seq<char>) -> Seq<char> {
    match split_once(content, sep_dash()) {
        Some(p) => if is_location(p.0) {
            p.1
        } else {
            content
        },
        None => content,
    }
}

/// A checklist entry read from its first line.
pub struct ParsedItem {
    pub id: u64,
    pub item_type: Seq<char>,
    pub status: Option<Seq<char>>,
    pub checkbox: Seq<char>,
    pub marker_status: Seq<char>,
    pub content: Seq<char>,
}

/// The first line of a checklist entry, `- [<c>] ... <prefix><type>:<id>:<status> - ...`,
/// read: the mark `[<c>]` gives the status through the schema of the type, or
/// else the fallback marks; the text after the status and ` - `, without a
/// location, is the first line of the content.
pub open spec fn parse_item_line(line: Seq<char>, prefix: Seq<char>, entries: SchemaEntries) -> Option<
    ParsedItem,
> {
    if !starts_with(line, seq!['-', ' ', '[']) {
        None
    } else {
        match split_once(line.skip(3), seq![']']) {
            None => None,
            Some(p0) => {
                let checkbox = seq!['['] + p0.0 + seq![']'];
                let rest = p0.1;
                match find(rest, prefix) {
                    None => None,
                    Some(ms) => {
                        let marker = rest.skip(ms + prefix.len());
                        match split_once(marker, seq![':']) {
                            None => None,
                            Some(p1) => match split_once(p1.1, seq![':']) {
                                None => None,
                                Some(p2) => match parse_u64(p2.0) {
                                    None => None,
                                    Some(id) => {
                                        let sc = match split_once(p2.1, sep_dash()) {
                                            Some(p3) => p3,
                                            None => (p2.1, Seq::<char>::empty()),
                                        };
                                        let status = match status_for(entries, p1.0, checkbox) {
                                            Some(s) => Some(s),
                                            None => fallback_status(checkbox),
                                        };
                                        Some(
                                            ParsedItem {
                                                id,
                                                item_type: p1.0,
                                                status,
                                                checkbox,
                                                marker_status: sc.0,
                                                content: without_location(sc.1),
                                            },
                                        )
                                    },
                                },
                            },
                        }
                    },
                }
            },
        }
    }
}

/// `content` with a note line added: the line loses two leading spaces or one
/// tab, and follows a newline unless `content` is empty.
pub open spec fn append_line(content: Seq<char>, line: Seq<char>) -> Seq<char> {
    let l = if starts_with(line, seq![' ', ' ']) {
        line.skip(2)
    } else if starts_with(line, seq!['\t']) {
        line.skip(1)
    } else {
        line
    };
    if content.len() > 0 {
        content + seq!['\n'] + l
    } else {
        l
    }
}

/// The abstract content of a [`MarkdownError`].
pub struct MarkdownErrorView {
    pub checkbox: Seq<char>,
    pub item_type: Seq<char>,
    pub marker_status: Seq<char>,
}

/// Why a checklist was refused.
#[derive(Debug, Clone, PartialEq, Eq)]
pub enum MarkdownError {
    /// An entry that matches a tracked item carries a mark that neither its schema nor the fallback marks know.
    UnknownChecklistMarker { checkbox: String, item_type: String, marker_status: String },
}

impl View for MarkdownError {
    type V = MarkdownErrorView;

    open spec fn view(&self) -> MarkdownErrorView {
        match self {
            MarkdownError::UnknownChecklistMarker { checkbox, item_type, marker_status } => MarkdownErrorView {
                checkbox: checkbox@,
                item_type: item_type@,
                marker_status: marker_status@,
            },
        }
    }
}

/// The message of a checklist error.
pub open spec fn markdown_error_message(e: MarkdownErrorView) -> Seq<char> {
    "Unknown checklist marker `"@ + e.checkbox + "` for `"@ + e.item_type
        + "`; add it to .cadence/schemas.yml or keep status `"@ + e.marker_status + "`"@
}

impl MarkdownError {
    /// The message that describes the error.
    pub fn message(&self) -> (r: String)
        ensures
            r@ == markdown_error_message(self@),
    {
        match self {
            MarkdownError::UnknownChecklistMarker { checkbox, item_type, marker_status } => {
                let mut r = to_chars("Unknown checklist marker `");
                extend(&mut r, &to_chars(checkbox.as_str()));
                extend(&mut r, &to_chars("` for `"));
                extend(&mut r, &to_chars(item_type.as_str()));
                extend(&mut r, &to_chars("`; add it to .cadence/schemas.yml or keep status `"));
                extend(&mut r, &to_chars(marker_status.as_str()));
                extend(&mut r, &to_chars("`"));
                to_string(&r)
            },
        }
    }
}

/// Whether a tracked item is the one an entry of checklist `t` with id `id`
/// refers to: same id and type, and, when `files` is given, a file among them.
pub open spec fn refers_to(id: u64, t: Seq<char>, files: Option<Seq<Seq<char>>>) -> spec_fn(ItemView) -> bool {
    |it: ItemView| it.id == id && it.item_type == t && match files {
        Some(fs) => fs.contains(it.file),
        None => true,
    }
}

/// Applies an entry read from checklist `t`: when its type is `t`, the first
/// tracked item it refers to takes its status and content; an unknown mark on
/// such an item is an error, which changes nothing.
pub open spec fn apply_item(
    items: Seq<ItemView>,
    t: Seq<char>,
    p: ParsedItem,
    files: Option<Seq<Seq<char>>>,
) -> (Seq<ItemView>, Option<MarkdownErrorView>) {
    if p.item_type != t {
        (items, None)
    } else {
        match first_from(items, refers_to(p.id, t, files), 0) {
            None => (items, None),
            Some(i) => match p.status {
                None => (
                    items,
                    Some(
                        MarkdownErrorView {
                            checkbox: p.checkbox,
                            item_type: p.item_type,
                            marker_status: p.marker_status,
                        },
                    ),
                ),
                Some(st) => (items.update(i, ItemView { status: st, content: p.content, ..items[i] }), None),
            },
        }
    }
}

/// The items, the entry being read, and the error that stopped the reading.
pub type DocState = (Seq<ItemView>, Option<ParsedItem>, Option<MarkdownErrorView>);

/// One line of checklist `t`: an entry line ends the entry before it (which is
/// applied) and starts a new one; another line is a note of the current entry.
pub open spec fn doc_step(
    st: DocState,
    line: Seq<char>,
    t: Seq<char>,
    prefix: Seq<char>,
    entries: SchemaEntries,
    files: Option<Seq<Seq<char>>>,
) -> DocState {
    if st.2 is Some {
        st
    } else {
        match parse_item_line(line, prefix, entries) {
            Some(item) => match st.1 {
                Some(c) => {
                    let r = apply_item(st.0, t, c, files);
                    (r.0, Some(item), r.1)
                },
                None => (st.0, Some(item), None),
            },
            None => match st.1 {
                Some(c) => (st.0, Some(ParsedItem { content: append_line(c.content, line), ..c }), None),
                None => st,
            },
        }
    }
}

/// The state after the lines `ls` of checklist `t`.
pub open spec fn doc_state(
    items: Seq<ItemView>,
    ls: Seq<Seq<char>>,
    t: Seq<char>,
    prefix: Seq<char>,
    entries: SchemaEntries,
    files: Option<Seq<Seq<char>>>,
) -> DocState
    decreases ls.len(),
{
    if ls.len() == 0 {
        (items, None, None)
    } else {
        doc_step(doc_state(items, ls.drop_last(), t, prefix, entries, files), ls.last(), t, prefix, entries, files)
    }
}

/// The items after reading checklist `t` with text `content`.
pub open spec fn apply_doc(
    items: Seq<ItemView>,
    t: Seq<char>,
    content: Seq<char>,
    prefix: Seq<char>,
    entries: SchemaEntries,
    files: Option<Seq<Seq<char>>>,
) -> (Seq<ItemView>, Option<MarkdownErrorView>) {
    let st = doc_state(items, lines(content), t, prefix, entries, files);
    if st.2 is Some {
        (st.0, st.2)
    } else {
        match st.1 {
            Some(c) => apply_item(st.0, t, c, files),
            None => (st.0, None),
        }
    }
}

/// The items after reading the checklists `docs` in order; the first error stops the reading.
pub open spec fn apply_docs(
    items: Seq<ItemView>,
    docs: Seq<(Seq<char>, Seq<char>)>,
    prefix: Seq<char>,
    entries: SchemaEntries,
    files: Option<Seq<Seq<char>>>,
) -> (Seq<ItemView>, Option<MarkdownErrorView>)
    decreases docs.len(),
{
    if docs.len() == 0 {
        (items, None)
    } else {
        let r = apply_docs(items, docs.drop_last(), prefix, entries, files);
        if r.1 is Some {
            r
        } else {
            apply_doc(r.0, docs.last().0, docs.last().1, prefix, entries, files)
        }
    }
}


/// A checklist entry read from its first line.
struct ParsedMarkdownItem {
    id: u64,
    item_type: Vec<char>,
    status: Option<Vec<char>>,
    checkbox: Vec<char>,
    marker_status: Vec<char>,
    content: Vec<char>,
}

impl View for ParsedMarkdownItem {
    type V = ParsedItem;

    closed spec fn view(&self) -> ParsedItem {
        ParsedItem {
            id: self.id,
            item_type: self.item_type@,
            status: match self.status {
                Some(s) => Some(s@),
                None => None,
            },
            checkbox: self.checkbox@,
            marker_status: self.marker_status@,
            content: self.content@,
        }
    }
}

/// Whether `value` reads as `path:line` or `path:line:column`.
fn is_source_location(value: &Vec<char>) -> (r: bool)
    ensures
        r == is_location(value@),
{
    match rsplit_once_char(value, ':') {
        None => false,
        Some((before_last, last)) => {
            if before_last.len() == 0 || !all_digit_chars(&last) {
                return false;
            }
            match rsplit_once_char(&before_last, ':') {
                Some((path, line)) => path.len() > 0 && line.len() > 0 && all_digit_chars(&line),
                None => before_last.len() > 0,
            }
        },
    }
}

/// `content` without a leading `<location> - `.
fn strip_location_prefix(content: Vec<char>) -> (r: Vec<char>)
    ensures
        r@ == without_location(content@),
{
    let sep = dash_chars();
    match split_once_chars(&content, &sep) {
        Some((candidate, rest)) => {
            if is_source_location(&candidate) {
                rest
            } else {
                content
            }
        },
        None => content,
    }
}

/// The characters ` - `.
fn dash_chars() -> (r: Vec<char>)
    ensures
        r@ == sep_dash(),
{
    let mut r: Vec<char> = Vec::new();
    r.push(' ');
    r.push('-');
    r.push(' ');
    assert(r@ == sep_dash());
    r
}

/// Reads the first line of a checklist entry.
fn parse_markdown_item_line(line: &Vec<char>, prefix: &Vec<char>, schemas: &Schemas) -> (r: Option<
    ParsedMarkdownItem,
>)
    ensures
        r matches Some(p) ==> parse_item_line(line@, prefix@, schemas@) == Some(p@),
        r is None ==> parse_item_line(line@, prefix@, schemas@) is None,
{
    let mut head: Vec<char> = Vec::new();
    head.push('-');
    head.push(' ');
    head.push('[');
    assert(head@ == seq!['-', ' ', '[']);
    let rest0 = match strip_prefix_chars(line, &head) {
        Some(r) => r,
        None => return None,
    };
    let (cb, rest) = match split_once_char(&rest0, ']') {
        Some(p) => p,
        None => return None,
    };
    let mut checkbox: Vec<char> = Vec::new();
    checkbox.push('[');
    extend(&mut checkbox, &cb);
    checkbox.push(']');
    assert(checkbox@ == seq!['['] + cb@ + seq![']']);
    let ms = match find_chars(&rest, prefix) {
        Some(k) => k,
        None => return None,
    };
    proof {
        lemma_find_from_range(rest@, prefix@, 0);
    }
    let plen = prefix.len();
    let rlen = rest.len();
    assert(ms + plen <= rlen);
    let marker = subrange(&rest, ms + plen, rlen);
    let (item_type, m1) = match split_once_char(&marker, ':') {
        Some(p) => p,
        None => return None,
    };
    let (id_part, m2) = match split_once_char(&m1, ':') {
        Some(p) => p,
        None => return None,
    };
    let id = match parse_u64_chars(&id_part) {
        Some(v) => v,
        None => return None,
    };
    let sep = dash_chars();
    let (marker_status, content) = match split_once_chars(&m2, &sep) {
        Some(p) => p,
        None => (m2, Vec::new()),
    };
    let content = strip_location_prefix(content);
    let type_string = to_string(&item_type);
    let checkbox_string = to_string(&checkbox);
    let status = match schemas.status_for_markdown(type_string.as_str(), checkbox_string.as_str()) {
        Some(s) => Some(to_chars(s.as_str())),
        None => match fallback_status_for_markdown(checkbox_string.as_str()) {
            Some(s) => Some(to_chars(s)),
            None => None,
        },
    };
    let r = ParsedMarkdownItem { id, item_type, status, checkbox, marker_status, content };
    assert(r@.content == without_location(
        match split_once(m2@, sep_dash()) {
            Some(p3) => p3,
            None => (m2@, Seq::<char>::empty()),
        }.1,
    ));
    Some(r)
}

/// Adds a note line to the content of the entry being read.
fn append_continuation_line(content: &mut Vec<char>, line: &Vec<char>)
    ensures
        final(content)@ == append_line(old(content)@, line@),
{
    let mut two: Vec<char> = Vec::new();
    two.push(' ');
    two.push(' ');
    let mut tab: Vec<char> = Vec::new();
    tab.push('\t');
    assert(two@ == seq![' ', ' ']);
    assert(tab@ == seq!['\t']);
    let l = match strip_prefix_chars(line, &two) {
        Some(l) => l,
        None => match strip_prefix_chars(line, &tab) {
            Some(l) => l,
            None => subrange(line, 0, line.len()),
        },
    };
    if content.len() > 0 {
        content.push('\n');
    }
    extend(content, &l);
}

/// The optional views of an optional list of file names.
pub open spec fn files_view(files: Option<&Vec<String>>) -> Option<Seq<Seq<char>>> {
    match files {
        Some(fs) => Some(string_views(fs@)),
        None => None,
    }
}

/// Applies a checklist entry to the tracked items.
fn apply_markdown_item(
    db: &mut Database,
    marker_type: &Vec<char>,
    parsed: ParsedMarkdownItem,
    files: Option<&Vec<String>>,
) -> (r: Result<(), MarkdownError>)
    ensures
        final(db)@.counter == old(db)@.counter,
        final(db)@.items == apply_item(old(db)@.items, marker_type@, parsed@, files_view(files)).0,
        r is Ok <==> apply_item(old(db)@.items, marker_type@, parsed@, files_view(files)).1 is None,
        r matches Err(e) ==> apply_item(old(db)@.items, marker_type@, parsed@, files_view(files)).1
            == Some(e@),
{
    if !chars_eq(&parsed.item_type, marker_type) {
        return Ok(());
    }
    let ghost items = db@.items;
    let ghost pred = refers_to(parsed@.id, marker_type@, files_view(files));
    let mut i: usize = 0;
    while i < db.items.len()
        invariant
            i <= db.items@.len(),
            items == db@.items,
            items == old(db)@.items,
            db@.counter == old(db)@.counter,
            parsed@.item_type == marker_type@,
            pred == refers_to(parsed@.id, marker_type@, files_view(files)),
            first_from(items, pred, 0) == first_from(items, pred, i as int),
        decreases db.items@.len() - i,
    {
        let it = &db.items[i];
        assert(items[i as int] == it@);
        let file_ok = match files {
            Some(fs) => crate::db::contains_path(fs, &it.file),
            None => true,
        };
        if it.id == parsed.id && chars_eq(&to_chars(it.item_type.as_str()), marker_type) && file_ok {
            match parsed.status {
                None => {
                    return Err(
                        MarkdownError::UnknownChecklistMarker {
                            checkbox: to_string(&parsed.checkbox),
                            item_type: to_string(&parsed.item_type),
                            marker_status: to_string(&parsed.marker_status),
                        },
                    );
                },
                Some(st) => {
                    let updated = DbItem {
                        id: it.id,
                        item_type: it.item_type.clone(),
                        file: it.file.clone(),
                        line: it.line,
                        column: it.column,
                        status: to_string(&st),
                        content: to_string(&parsed.content),
                    };
                    db.items.set(i, updated);
                    assert(db@.items =~= items.update(
                        i as int,
                        ItemView { status: st@, content: parsed@.content, ..items[i as int] },
                    ));
                    return Ok(());
                },
            }
        }
        i = i + 1;
    }
    Ok(())
}

/// Reads the checklists `docs` into the tracked items.
fn parse_markdown_status_filtered(
    db: &mut Database,
    docs: &Vec<MarkdownFile>,
    marker_prefix: &str,
    schemas: &Schemas,
    files: Option<&Vec<String>>,
) -> (r: Result<(), MarkdownError>)
    ensures
        final(db)@.counter == old(db)@.counter,
        final(db)@.items == apply_docs(old(db)@.items, file_views(docs@), marker_prefix@, schemas@, files_view(files)).0,
        r is Ok <==> apply_docs(old(db)@.items, file_views(docs@), marker_prefix@, schemas@, files_view(files)).1 is None,
        r matches Err(e) ==> apply_docs(old(db)@.items, file_views(docs@), marker_prefix@, schemas@, files_view(files)).1
            == Some(e@),
{
    let prefix = to_chars(marker_prefix);
    let ghost dv = file_views(docs@);
    let ghost fv = files_view(files);
    let ghost start = db@.items;
    let mut d: usize = 0;
    assert(dv.take(0) =~= Seq::<(Seq<char>, Seq<char>)>::empty());
    while d < docs.len()
        invariant
            d <= docs@.len(),
            dv == file_views(docs@),
            fv == files_view(files),
            prefix@ == marker_prefix@,
            db@.counter == old(db)@.counter,
            start == old(db)@.items,
            apply_docs(start, dv.take(d as int), prefix@, schemas@, fv) == (db@.items, None::<MarkdownErrorView>),
        decreases docs@.len() - d,
    {
        let doc = &docs[d];
        assert(dv.take(d + 1).drop_last() == dv.take(d as int));
        assert(dv.take(d + 1).last() == doc@);
        let t = to_chars(doc.marker_type.as_str());
        let content = to_chars(doc.content.as_str());
        let ls = split_lines(&content);
        let ghost lv = views(ls@);
        let ghost before = db@.items;
        let mut current: Option<ParsedMarkdownItem> = None;
        let mut i: usize = 0;
        assert(lv.take(0) =~= Seq::<Seq<char>>::empty());
        while i < ls.len()
            invariant
                i <= ls@.len(),
                lv == views(ls@),
                lv == lines(content@),
                fv == files_view(files),
                db@.counter == old(db)@.counter,
                d < dv.len(),
                dv == file_views(docs@),
                dv[d as int] == (t@, content@),
                start == old(db)@.items,
                prefix@ == marker_prefix@,
                apply_docs(start, dv.take(d as int), prefix@, schemas@, fv) == (before, None::<MarkdownErrorView>),
                doc_state(before, lv.take(i as int), t@, prefix@, schemas@, fv) == (
                    db@.items,
                    match current {
                        Some(c) => Some(c@),
                        None => None::<ParsedItem>,
                    },
                    None::<MarkdownErrorView>,
                ),
            decreases ls@.len() - i,
        {
            let line = &ls[i];
            assert(lv.take(i + 1).drop_last() == lv.take(i as int));
            assert(lv.take(i + 1).last() == line@);
            match parse_markdown_item_line(line, &prefix, schemas) {
                Some(item) => {
                    match current {
                        Some(c) => {
                            match apply_markdown_item(db, &t, c, files) {
                                Ok(()) => {},
                                Err(e) => {
                                    proof {
                                        assert(doc_state(before, lv.take(i + 1), t@, prefix@, schemas@, fv).2 == Some(e@));
                                        lemma_doc_error_stays(before, lv, i + 1, t@, prefix@, schemas@, fv);
                                        assert(lv.take(ls@.len() as int) == lv);
                                        assert(apply_doc(before, t@, content@, prefix@, schemas@, fv) == (db@.items, Some(e@)));
                                        assert(dv.take(d + 1).drop_last() == dv.take(d as int));
                                        assert(dv.take(d + 1).last() == (t@, content@));
                                        assert(apply_docs(start, dv.take(d + 1), prefix@, schemas@, fv) == (db@.items, Some(e@)));
                                        lemma_docs_error_stays(start, dv, d + 1, prefix@, schemas@, fv);
                                    }
                                    return Err(e);
                                },
                            }
                        },
                        None => {},
                    }
                    current = Some(item);
                },
                None => {
                    match current {
                        Some(mut c) => {
                            append_continuation_line(&mut c.content, line);
                            current = Some(c);
                        },
                        None => {},
                    }
                },
            }
            i = i + 1;
        }
        assert(lv.take(ls@.len() as int) == lv);
        match current {
            Some(c) => {
                match apply_markdown_item(db, &t, c, files) {
                    Ok(()) => {},
                    Err(e) => {
                        proof {
                            lemma_docs_error_stays(start, dv, d + 1, prefix@, schemas@, fv);
                        }
                        return Err(e);
                    },
                }
            },
            None => {},
        }
        d = d + 1;
    }
    assert(dv.take(docs@.len() as int) == dv);
    Ok(())
}

proof fn lemma_doc_error_stays(
    items: Seq<ItemView>,
    ls: Seq<Seq<char>>,
    i: int,
    t: Seq<char>,
    prefix: Seq<char>,
    entries: SchemaEntries,
    files: Option<Seq<Seq<char>>>,
)
    requires
        0 <= i <= ls.len(),
        doc_state(items, ls.take(i), t, prefix, entries, files).2 is Some,
    ensures
        doc_state(items, ls, t, prefix, entries, files) == doc_state(items, ls.take(i), t, prefix, entries, files),
    decreases ls.len() - i,
{
    if i < ls.len() {
        assert(ls.take(i + 1).drop_last() == ls.take(i));
        lemma_doc_error_stays(items, ls, i + 1, t, prefix, entries, files);
    } else {
        assert(ls.take(i) == ls);
    }
}

proof fn lemma_docs_error_stays(
    items: Seq<ItemView>,
    docs: Seq<(Seq<char>, Seq<char>)>,
    i: int,
    prefix: Seq<char>,
    entries: SchemaEntries,
    files: Option<Seq<Seq<char>>>,
)
    requires
        0 <= i <= docs.len(),
        apply_docs(items, docs.take(i), prefix, entries, files).1 is Some,
    ensures
        apply_docs(items, docs, prefix, entries, files) == apply_docs(items, docs.take(i), prefix, entries, files),
    decreases docs.len() - i,
{
    if i < docs.len() {
        assert(docs.take(i + 1).drop_last() == docs.take(i));
        lemma_docs_error_stays(items, docs, i + 1, prefix, entries, files);
    } else {
        assert(docs.take(i) == docs);
    }
}

/// Reads the checklists `docs` (each with the marker type it lists and its
/// text) into the tracked items: each entry that refers to a tracked item of
/// the listed type sets that item's status (from its mark) and content (from
/// its first line and notes). The first unknown mark stops the reading.
pub fn parse_markdown_status(
    db: &mut Database,
    docs: &Vec<MarkdownFile>,
    marker_prefix: &str,
    schemas: &Schemas,
) -> (r: Result<(), MarkdownError>)
    ensures
        final(db)@.counter == old(db)@.counter,
        final(db)@.items == apply_docs(old(db)@.items, file_views(docs@), marker_prefix@, schemas@, None).0,
        r is Ok <==> apply_docs(old(db)@.items, file_views(docs@), marker_prefix@, schemas@, None).1 is None,
        r matches Err(e) ==> apply_docs(old(db)@.items, file_views(docs@), marker_prefix@, schemas@, None).1
            == Some(e@),
{
    parse_markdown_status_filtered(db, docs, marker_prefix, schemas, None)
}

/// Like [`parse_markdown_status`], but an entry changes only tracked items whose file is among `files`.
pub fn parse_markdown_status_for_files(
    db: &mut Database,
    docs: &Vec<MarkdownFile>,
    marker_prefix: &str,
    schemas: &Schemas,
    files: &Vec<String>,
) -> (r: Result<(), MarkdownError>)
    ensures
        final(db)@.counter == old(db)@.counter,
        final(db)@.items == apply_docs(old(db)@.items, file_views(docs@), marker_prefix@, schemas@, Some(string_views(files@))).0,
        r is Ok <==> apply_docs(old(db)@.items, file_views(docs@), marker_prefix@, schemas@, Some(string_views(files@))).1 is None,
        r matches Err(e) ==> apply_docs(old(db)@.items, file_views(docs@), marker_prefix@, schemas@, Some(string_views(files@))).1
            == Some(e@),
{
    parse_markdown_status_filtered(db, docs, marker_prefix, schemas, Some(files))
}

} // verus!
