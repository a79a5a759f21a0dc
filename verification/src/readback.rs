//! What reading the generated checklists gives back: the tracked items,
//! unchanged, when each item's entry can be read as it was written.
use vstd::prelude::*;

use crate::db::ItemView;
use crate::markdown::{
    append_line, apply_doc, apply_docs, apply_item, doc_state, doc_step, first_line, indented, is_location,
    item_marker, location, markdown_files, other_lines, parse_item_line, refers_to, render_item,
    render_type, without_location, DocState, MarkdownErrorView, ParsedItem,
};
use crate::schema::{fallback_status, first_from, lemma_first_from, markdown_for, status_for, SchemaEntries};
use crate::text::{
    all_digits, decimal, is_digit, join, lacks, lemma_digits_lack, lemma_lacks_concat, lemma_find_first,
    lemma_lines_lack_newline, lemma_lines_terminated, lemma_parse_decimal, lemma_split_char,
    lemma_split_dash, lemma_terminated_concat, lines, match_at, no_dash_sep_start, plain_line,
    sep_dash, split_once, starts_with, terminated,
};

verus! {

/// The status that checklist mark `mark` reads as for marker type `t`: through
/// the schema of `t`, else through the fallback marks.
pub open spec fn status_of_mark(entries: SchemaEntries, t: Seq<char>, mark: Seq<char>) -> Option<Seq<char>> {
    match status_for(entries, t, mark) {
        Some(s) => Some(s),
        None => fallback_status(mark),
    }
}

/// Whether `mark` has the shape `[<c>]`: brackets around text without `]`,
/// and no newline.
pub open spec fn bracketed(mark: Seq<char>) -> bool {
    &&& mark.len() >= 2
    &&& mark[0] == '['
    &&& mark.last() == ']'
    &&& lacks(mark.subrange(1, mark.len() - 1), ']')
    &&& lacks(mark, '\n')
}

/// Whether ` - ` does not occur in `s`.
pub open spec fn free_of_dash(s: Seq<char>) -> bool {
    forall|k: int| !#[trigger] match_at(s, sep_dash(), k)
}

/// Whether no line of `c` ends with a carriage return.
pub open spec fn no_trailing_cr(c: Seq<char>) -> bool {
    forall|i: int| 0 <= i < lines(c).len() ==> !(#[trigger] lines(c)[i].len() > 0 && lines(c)[i].last() == '\r')
}

/// Whether text is given back by its lines: joined with newlines they give it
/// back, none ends with a carriage return, and the first is not empty when
/// more follow.
pub open spec fn keeps_lines(c: Seq<char>) -> bool {
    &&& join(lines(c), seq!['\n']) == c
    &&& no_trailing_cr(c)
    &&& lines(c).len() > 1 ==> lines(c)[0].len() > 0
}

/// Whether the checklist entry of `it` reads back as `it`: its mark has the
/// shape `[<c>]` and reads as its status; its type has no colon, its status no
/// space, its file holds no ` - `, and its location reads as one (the file is
/// not empty and, when the column is unknown, a colon in it is followed by
/// digits); none of them has a newline; its content is given back by its lines.
pub open spec fn entry_reads_back(it: ItemView, entries: SchemaEntries, prefix: Seq<char>) -> bool {
    let mark = markdown_for(entries, it.item_type, it.status);
    &&& bracketed(mark)
    &&& status_of_mark(entries, it.item_type, mark) == Some(it.status)
    &&& lacks(it.item_type, ':')
    &&& lacks(it.item_type, '\n')
    &&& lacks(it.status, ' ')
    &&& lacks(it.status, '\n')
    &&& lacks(it.file, '\n')
    &&& free_of_dash(it.file)
    &&& is_location(location(it))
    &&& keeps_lines(it.content)
}

/// Whether `p` is made of spaces alone.
pub open spec fn all_spaces(p: Seq<char>) -> bool {
    forall|i: int| 0 <= i < p.len() ==> p[i] == ' '
}

/// Whether a marker prefix is found again at its place in an entry: it is not
/// empty, not made of spaces alone, and has no newline.
pub open spec fn prefix_found(prefix: Seq<char>) -> bool {
    prefix.len() > 0 && !all_spaces(prefix) && lacks(prefix, '\n')
}

/// Whether no two items share both id and marker type.
pub open spec fn ids_distinct(items: Seq<ItemView>) -> bool {
    forall|i: int, j: int|
        0 <= i < j < items.len() ==> !(#[trigger] items[i].id == #[trigger] items[j].id
            && items[i].item_type == items[j].item_type)
}

/// The entry of `it` as it is read back, before its notes.
pub open spec fn parsed_head(it: ItemView, entries: SchemaEntries) -> ParsedItem {
    ParsedItem {
        id: it.id,
        item_type: it.item_type,
        status: Some(it.status),
        checkbox: markdown_for(entries, it.item_type, it.status),
        marker_status: it.status,
        content: first_line(it.content),
    }
}

/// The entry of `it` as it is read back, with its notes.
pub open spec fn parsed_entry(it: ItemView, entries: SchemaEntries) -> ParsedItem {
    ParsedItem { content: it.content, ..parsed_head(it, entries) }
}

proof fn lemma_decimal_facts(n: nat)
    requires
        n <= u64::MAX,
    ensures
        decimal(n).len() > 0,
        all_digits(decimal(n)),
        lacks(decimal(n), ':'),
        lacks(decimal(n), ' '),
        lacks(decimal(n), '\n'),
{
    lemma_parse_decimal(n);
    lemma_digits_lack(decimal(n), ':');
    lemma_digits_lack(decimal(n), ' ');
    lemma_digits_lack(decimal(n), '\n');
}

/// The location of an entry holds no ` - ` start and no newline.
proof fn lemma_location(it: ItemView, entries: SchemaEntries, prefix: Seq<char>)
    requires
        entry_reads_back(it, entries, prefix),
    ensures
        no_dash_sep_start(location(it)),
        lacks(location(it), '\n'),
        location(it).len() > 0,
{
    let f = it.file;
    let dl = decimal(it.line as nat);
    let dc = decimal(it.column as nat);
    lemma_decimal_facts(it.line as nat);
    lemma_decimal_facts(it.column as nat);
    let loc = location(it);
    // Everything after the file is a colon or a digit.
    let tail = if it.column > 0 {
        seq![':'] + dl + seq![':'] + dc
    } else {
        seq![':'] + dl
    };
    assert(loc =~= f + tail);
    assert(tail.len() >= 2);
    assert forall|i: int| 0 <= i < tail.len() implies tail[i] == ':' || is_digit(#[trigger] tail[i]) by {
        if it.column > 0 {
            if 1 <= i < 1 + dl.len() {
                assert(tail[i] == dl[i - 1]);
            } else if 1 + dl.len() + 1 <= i {
                assert(tail[i] == dc[i - 2 - dl.len()]);
            }
        } else {
            if 1 <= i {
                assert(tail[i] == dl[i - 1]);
            }
        }
    }
    assert(lacks(tail, '\n'));
    lemma_lacks_concat(f, tail, '\n');
    assert forall|k: int| 0 <= k < loc.len() && #[trigger] loc[k] == ' ' implies k + 2 < loc.len()
        && !(loc[k + 1] == '-' && loc[k + 2] == ' ') by {
        if k >= f.len() {
            assert(loc[k] == tail[k - f.len()]);
        } else {
            assert(loc[k] == f[k]);
            if loc[k + 1] == '-' && loc[k + 2] == ' ' {
                if k + 1 >= f.len() {
                    assert(loc[k + 1] == tail[k + 1 - f.len()]);
                } else if k + 2 >= f.len() {
                    assert(loc[k + 2] == tail[k + 2 - f.len()]);
                } else {
                    assert(f.subrange(k, k + 3) =~= sep_dash());
                    assert(match_at(f, sep_dash(), k));
                }
            }
        }
    }
}

/// What follows the status in the first line of an entry.
spec fn after_status(it: ItemView) -> Seq<char> {
    location(it) + sep_dash() + first_line(it.content)
}

/// What follows the id in the first line of an entry.
spec fn after_id(it: ItemView) -> Seq<char> {
    it.status + sep_dash() + after_status(it)
}

/// What follows the type in the first line of an entry.
spec fn after_type(it: ItemView) -> Seq<char> {
    decimal(it.id as nat) + seq![':'] + after_id(it)
}

/// The marker of an entry without its prefix, and what follows it.
spec fn marker_rest(it: ItemView) -> Seq<char> {
    it.item_type + seq![':'] + after_type(it)
}

/// What follows the mark in the first line of an entry.
#[verifier::opaque]
spec fn after_mark(it: ItemView, prefix: Seq<char>) -> Seq<char> {
    seq![' '] + prefix + marker_rest(it)
}

/// The first line of the checklist entry of `it`:
/// `- <mark> <prefix><type>:<id>:<status> - <location> - <first line>`.
pub closed spec fn head_line(it: ItemView, entries: SchemaEntries, prefix: Seq<char>) -> Seq<char> {
    seq!['-', ' '] + markdown_for(entries, it.item_type, it.status) + after_mark(it, prefix)
}

proof fn lemma_head_mark(it: ItemView, entries: SchemaEntries, prefix: Seq<char>)
    requires
        entry_reads_back(it, entries, prefix),
    ensures
        ({
            let mark = markdown_for(entries, it.item_type, it.status);
            let inner = mark.subrange(1, mark.len() - 1);
            &&& starts_with(head_line(it, entries, prefix), seq!['-', ' ', '['])
            &&& split_once(head_line(it, entries, prefix).skip(3), seq![']']) == Some((inner, after_mark(it, prefix)))
            &&& seq!['['] + inner + seq![']'] == mark
        }),
{
    let mark = markdown_for(entries, it.item_type, it.status);
    let inner = mark.subrange(1, mark.len() - 1);
    let line = head_line(it, entries, prefix);
    assert(line[2] == mark[0]);
    assert(line.take(3) =~= seq!['-', ' ', '[']);
    assert(line.skip(3) =~= inner + seq![']'] + after_mark(it, prefix));
    lemma_split_char(inner, ']', after_mark(it, prefix));
    assert(seq!['['] + inner + seq![']'] =~= mark);
}

/// A sequence that matches itself shifted by one place after a space is made
/// of spaces.
proof fn lemma_shifted_spaces(p: Seq<char>, i: int)
    requires
        0 <= i < p.len(),
        p[0] == ' ',
        forall|j: int| 1 <= j < p.len() ==> #[trigger] p[j] == p[j - 1],
    ensures
        p[i] == ' ',
    decreases i,
{
    if i > 0 {
        lemma_shifted_spaces(p, i - 1);
    }
}

proof fn lemma_head_prefix(it: ItemView, prefix: Seq<char>)
    requires
        prefix_found(prefix),
    ensures
        crate::text::find(after_mark(it, prefix), prefix) == Some(1int),
        after_mark(it, prefix).skip(1 + prefix.len() as int) == marker_rest(it),
{
    let r = after_mark(it, prefix);
    reveal(after_mark);
    assert(r.subrange(1, 1 + prefix.len() as int) =~= prefix);
    assert forall|k: int| 0 <= k < 1 implies !match_at(r, prefix, k) by {
        if match_at(r, prefix, k) {
            let w = r.subrange(0, prefix.len() as int);
            assert(w[0] == r[0]);
            assert forall|j: int| 1 <= j < prefix.len() implies #[trigger] prefix[j] == prefix[j - 1] by {
                assert(w[j] == r[j]);
                assert(r[j] == prefix[j - 1]);
            }
            assert forall|i: int| 0 <= i < prefix.len() implies prefix[i] == ' ' by {
                lemma_shifted_spaces(prefix, i);
            }
        }
    }
    lemma_find_first(r, prefix, 1);
    assert(r.skip(1 + prefix.len() as int) =~= marker_rest(it));
}

proof fn lemma_head_marker(it: ItemView, entries: SchemaEntries, prefix: Seq<char>)
    requires
        entry_reads_back(it, entries, prefix),
    ensures
        split_once(marker_rest(it), seq![':']) == Some((it.item_type, after_type(it))),
        split_once(after_type(it), seq![':']) == Some((decimal(it.id as nat), after_id(it))),
        crate::text::parse_u64(decimal(it.id as nat)) == Some(it.id),
        split_once(after_id(it), sep_dash()) == Some((it.status, after_status(it))),
        without_location(after_status(it)) == first_line(it.content),
{
    lemma_decimal_facts(it.id as nat);
    lemma_parse_decimal(it.id as nat);
    lemma_location(it, entries, prefix);
    lemma_split_char(it.item_type, ':', after_type(it));
    lemma_split_char(decimal(it.id as nat), ':', after_id(it));
    assert(no_dash_sep_start(it.status));
    lemma_split_dash(it.status, after_status(it));
    lemma_split_dash(location(it), first_line(it.content));
}

/// The first line of an entry reads as the entry, before its notes.
proof fn lemma_parse_head(it: ItemView, entries: SchemaEntries, prefix: Seq<char>)
    requires
        entry_reads_back(it, entries, prefix),
        prefix_found(prefix),
    ensures
        parse_item_line(head_line(it, entries, prefix), prefix, entries) == Some(parsed_head(it, entries)),
{
    lemma_head_mark(it, entries, prefix);
    lemma_head_prefix(it, prefix);
    lemma_head_marker(it, entries, prefix);
}

/// Note lines as an entry writes them: each indented by two spaces.
pub open spec fn notes(ls: Seq<Seq<char>>) -> Seq<Seq<char>> {
    ls.map_values(|l: Seq<char>| seq![' ', ' '] + l)
}

/// The lines of the checklist entry of `it`: its first line, then the other
/// lines of its content as notes.
pub open spec fn entry_lines(it: ItemView, entries: SchemaEntries, prefix: Seq<char>) -> Seq<Seq<char>> {
    seq![head_line(it, entries, prefix)] + notes(other_lines(it.content))
}

/// The lines of the checklist of marker type `t`.
pub open spec fn doc_lines(items: Seq<ItemView>, t: Seq<char>, entries: SchemaEntries, prefix: Seq<char>) -> Seq<Seq<char>>
    decreases items.len(),
{
    if items.len() == 0 {
        seq![]
    } else {
        doc_lines(items.drop_last(), t, entries, prefix) + if items.last().item_type == t {
            entry_lines(items.last(), entries, prefix)
        } else {
            seq![]
        }
    }
}

proof fn lemma_indented(ls: Seq<Seq<char>>)
    ensures
        indented(ls) == terminated(notes(ls)),
    decreases ls.len(),
{
    if ls.len() > 0 {
        lemma_indented(ls.drop_last());
        assert(notes(ls).drop_last() =~= notes(ls.drop_last()));
        assert(notes(ls).last() == seq![' ', ' '] + ls.last());
        assert(indented(ls) =~= terminated(notes(ls.drop_last())) + (seq![' ', ' '] + ls.last()) + seq!['\n']);
    } else {
        assert(notes(ls) =~= Seq::<Seq<char>>::empty());
    }
}

proof fn lemma_terminated_one(h: Seq<char>)
    ensures
        terminated(seq![h]) == h + seq!['\n'],
{
    assert(seq![h].drop_last() =~= Seq::<Seq<char>>::empty());
    assert(terminated(Seq::<Seq<char>>::empty()) == Seq::<char>::empty());
    assert(Seq::<char>::empty() + h =~= h);
}

/// The first line of an entry, written out:
/// `- <mark> <prefix><type>:<id>:<status> - <location> - <first line>`.
pub proof fn lemma_head_text(it: ItemView, entries: SchemaEntries, prefix: Seq<char>)
    ensures
        head_line(it, entries, prefix) == seq!['-', ' '] + markdown_for(entries, it.item_type, it.status)
            + seq![' '] + item_marker(it, prefix) + sep_dash() + location(it) + sep_dash() + first_line(
            it.content,
        ),
{
    reveal(after_mark);
    let tail = location(it) + sep_dash() + first_line(it.content);
    assert(item_marker(it, prefix) + sep_dash() + tail =~= prefix + marker_rest(it));
    assert(item_marker(it, prefix) + sep_dash() + location(it) + sep_dash() + first_line(it.content)
        =~= item_marker(it, prefix) + sep_dash() + tail);
}

/// The entry of an item is its first line, then each further line of its
/// content indented by two spaces, each line ended by a newline.
pub proof fn lemma_render_item(it: ItemView, entries: SchemaEntries, prefix: Seq<char>)
    ensures
        render_item(it, entries, prefix) == terminated(entry_lines(it, entries, prefix)),
{
    let h = head_line(it, entries, prefix);
    lemma_head_text(it, entries, prefix);
    lemma_indented(other_lines(it.content));
    lemma_terminated_concat(seq![h], notes(other_lines(it.content)));
    lemma_terminated_one(h);
    assert(render_item(it, entries, prefix) =~= h + seq!['\n'] + indented(other_lines(it.content)));
}

/// The checklist of marker type `t` is the lines of the entries of the items
/// of type `t`, in the order of the items, each ended by a newline.
pub proof fn lemma_render_type(items: Seq<ItemView>, t: Seq<char>, entries: SchemaEntries, prefix: Seq<char>)
    ensures
        render_type(items, t, entries, prefix) == terminated(doc_lines(items, t, entries, prefix)),
    decreases items.len(),
{
    if items.len() > 0 {
        lemma_render_type(items.drop_last(), t, entries, prefix);
        let a = doc_lines(items.drop_last(), t, entries, prefix);
        if items.last().item_type == t {
            lemma_render_item(items.last(), entries, prefix);
            lemma_terminated_concat(a, entry_lines(items.last(), entries, prefix));
        } else {
            assert(a + Seq::<Seq<char>>::empty() =~= a);
            assert(terminated(a) + Seq::<char>::empty() =~= terminated(a));
        }
    }
}

/// Whether every line of `ls` can stand as a line.
pub open spec fn all_plain(ls: Seq<Seq<char>>) -> bool {
    forall|i: int| 0 <= i < ls.len() ==> plain_line(#[trigger] ls[i])
}

proof fn lemma_all_plain_concat(a: Seq<Seq<char>>, b: Seq<Seq<char>>)
    requires
        all_plain(a),
        all_plain(b),
    ensures
        all_plain(a + b),
{
    assert forall|i: int| 0 <= i < (a + b).len() implies plain_line(#[trigger] (a + b)[i]) by {
        if i < a.len() {
            assert((a + b)[i] == a[i]);
        } else {
            assert((a + b)[i] == b[i - a.len()]);
        }
    }
}

/// A line after text that ends with a space can stand as a line when that text
/// and the line have no newline and the line does not end with a carriage return.
proof fn lemma_plain_after_space(x: Seq<char>, l: Seq<char>)
    requires
        x.len() > 0,
        x.last() == ' ',
        lacks(x, '\n'),
        lacks(l, '\n'),
        !(l.len() > 0 && l.last() == '\r'),
    ensures
        plain_line(x + l),
{
    lemma_lacks_concat(x, l, '\n');
    if l.len() > 0 {
        assert((x + l).last() == l.last());
    } else {
        assert(x + l =~= x);
    }
}

proof fn lemma_entry_plain(it: ItemView, entries: SchemaEntries, prefix: Seq<char>)
    requires
        entry_reads_back(it, entries, prefix),
        lacks(prefix, '\n'),
    ensures
        all_plain(entry_lines(it, entries, prefix)),
{
    let c = it.content;
    let ls = lines(c);
    lemma_lines_lack_newline(c);
    // The first line.
    let mark = markdown_for(entries, it.item_type, it.status);
    lemma_head_text(it, entries, prefix);
    lemma_location(it, entries, prefix);
    lemma_decimal_facts(it.id as nat);
    let x = seq!['-', ' '] + mark + seq![' '] + item_marker(it, prefix) + sep_dash() + location(it) + sep_dash();
    assert(lacks(seq!['-', ' '], '\n'));
    assert(lacks(seq![' '], '\n'));
    assert(lacks(seq![':'], '\n'));
    assert(lacks(sep_dash(), '\n'));
    lemma_lacks_concat(prefix, it.item_type, '\n');
    lemma_lacks_concat(prefix + it.item_type, seq![':'], '\n');
    lemma_lacks_concat(prefix + it.item_type + seq![':'], decimal(it.id as nat), '\n');
    lemma_lacks_concat(prefix + it.item_type + seq![':'] + decimal(it.id as nat), seq![':'], '\n');
    lemma_lacks_concat(prefix + it.item_type + seq![':'] + decimal(it.id as nat) + seq![':'], it.status, '\n');
    lemma_lacks_concat(seq!['-', ' '], mark, '\n');
    lemma_lacks_concat(seq!['-', ' '] + mark, seq![' '], '\n');
    lemma_lacks_concat(seq!['-', ' '] + mark + seq![' '], item_marker(it, prefix), '\n');
    lemma_lacks_concat(seq!['-', ' '] + mark + seq![' '] + item_marker(it, prefix), sep_dash(), '\n');
    lemma_lacks_concat(seq!['-', ' '] + mark + seq![' '] + item_marker(it, prefix) + sep_dash(), location(it), '\n');
    lemma_lacks_concat(x.drop_last().drop_last().drop_last(), sep_dash(), '\n');
    assert(x.drop_last().drop_last().drop_last() + sep_dash() =~= x);
    if ls.len() > 0 {
        assert(first_line(c) == ls[0]);
        assert(!(ls[0].len() > 0 && ls[0].last() == '\r'));
    } else {
        assert(lacks(first_line(c), '\n'));
    }
    lemma_plain_after_space(x, first_line(c));
    // The notes.
    let ns = notes(other_lines(c));
    assert forall|i: int| 0 <= i < ns.len() implies plain_line(#[trigger] ns[i]) by {
        assert(ls.len() > 0);
        assert(other_lines(c)[i] == ls[i + 1]);
        assert(ns[i] == seq![' ', ' '] + ls[i + 1]);
        assert(lacks(seq![' ', ' '], '\n'));
        lemma_plain_after_space(seq![' ', ' '], ls[i + 1]);
    }
    assert(all_plain(seq![head_line(it, entries, prefix)]));
    lemma_all_plain_concat(seq![head_line(it, entries, prefix)], ns);
}

proof fn lemma_doc_plain(items: Seq<ItemView>, t: Seq<char>, entries: SchemaEntries, prefix: Seq<char>)
    requires
        lacks(prefix, '\n'),
        forall|i: int| 0 <= i < items.len() ==> entry_reads_back(#[trigger] items[i], entries, prefix),
    ensures
        all_plain(doc_lines(items, t, entries, prefix)),
    decreases items.len(),
{
    if items.len() > 0 {
        let a = items.drop_last();
        assert forall|i: int| 0 <= i < a.len() implies entry_reads_back(#[trigger] a[i], entries, prefix) by {
            assert(a[i] == items[i]);
        }
        lemma_doc_plain(a, t, entries, prefix);
        if items.last().item_type == t {
            assert(entry_reads_back(items[items.len() - 1], entries, prefix));
            lemma_entry_plain(items.last(), entries, prefix);
            lemma_all_plain_concat(doc_lines(a, t, entries, prefix), entry_lines(items.last(), entries, prefix));
        } else {
            assert(doc_lines(a, t, entries, prefix) + Seq::<Seq<char>>::empty() =~= doc_lines(a, t, entries, prefix));
        }
    }
}

/// The state after the lines `ls` of checklist `t`, from state `st`.
pub open spec fn doc_run(
    st: DocState,
    ls: Seq<Seq<char>>,
    t: Seq<char>,
    prefix: Seq<char>,
    entries: SchemaEntries,
    files: Option<Seq<Seq<char>>>,
) -> DocState
    decreases ls.len(),
{
    if ls.len() == 0 {
        st
    } else {
        doc_step(doc_run(st, ls.drop_last(), t, prefix, entries, files), ls.last(), t, prefix, entries, files)
    }
}

proof fn lemma_doc_state_run(
    items: Seq<ItemView>,
    ls: Seq<Seq<char>>,
    t: Seq<char>,
    prefix: Seq<char>,
    entries: SchemaEntries,
    files: Option<Seq<Seq<char>>>,
)
    ensures
        doc_state(items, ls, t, prefix, entries, files) == doc_run(
            (items, None, None),
            ls,
            t,
            prefix,
            entries,
            files,
        ),
    decreases ls.len(),
{
    if ls.len() > 0 {
        lemma_doc_state_run(items, ls.drop_last(), t, prefix, entries, files);
    }
}

proof fn lemma_doc_run_concat(
    st: DocState,
    a: Seq<Seq<char>>,
    b: Seq<Seq<char>>,
    t: Seq<char>,
    prefix: Seq<char>,
    entries: SchemaEntries,
    files: Option<Seq<Seq<char>>>,
)
    ensures
        doc_run(st, a + b, t, prefix, entries, files) == doc_run(
            doc_run(st, a, t, prefix, entries, files),
            b,
            t,
            prefix,
            entries,
            files,
        ),
    decreases b.len(),
{
    if b.len() == 0 {
        assert(a + b =~= a);
    } else {
        assert((a + b).drop_last() =~= a + b.drop_last());
        assert((a + b).last() == b.last());
        lemma_doc_run_concat(st, a, b.drop_last(), t, prefix, entries, files);
    }
}

/// Reading the notes of an entry: after the first `k - 1` notes, the content
/// read is the first `k` lines joined with newlines.
proof fn lemma_read_notes(
    items: Seq<ItemView>,
    base: ParsedItem,
    ls: Seq<Seq<char>>,
    k: int,
    t: Seq<char>,
    prefix: Seq<char>,
    entries: SchemaEntries,
    files: Option<Seq<Seq<char>>>,
)
    requires
        1 <= k <= ls.len(),
        ls.len() > 1 ==> ls[0].len() > 0,
    ensures
        doc_run(
            (items, Some(ParsedItem { content: ls[0], ..base }), None),
            notes(ls.skip(1)).take(k - 1),
            t,
            prefix,
            entries,
            files,
        ) == (items, Some(ParsedItem { content: join(ls.take(k), seq!['\n']), ..base }), None::<MarkdownErrorView>),
    decreases k,
{
    let st0 = (items, Some(ParsedItem { content: ls[0], ..base }), None::<MarkdownErrorView>);
    if k == 1 {
        assert(notes(ls.skip(1)).take(0) =~= Seq::<Seq<char>>::empty());
        assert(ls.take(1).len() == 1);
        assert(join(ls.take(1), seq!['\n']) == ls.take(1)[0]);
    } else {
        lemma_read_notes(items, base, ls, k - 1, t, prefix, entries, files);
        let ns = notes(ls.skip(1));
        assert(ns.take(k - 1).drop_last() =~= ns.take(k - 2));
        let l = ls[k - 1];
        assert(ns.take(k - 1).last() == seq![' ', ' '] + l);
        let line = seq![' ', ' '] + l;
        assert(!starts_with(line, seq!['-', ' ', '['])) by {
            if starts_with(line, seq!['-', ' ', '[']) {
                assert(line.take(3)[0] == line[0]);
            }
        }
        assert(parse_item_line(line, prefix, entries) is None);
        assert(line.take(2) =~= seq![' ', ' ']);
        assert(line.skip(2) =~= l);
        let before = join(ls.take(k - 1), seq!['\n']);
        if k - 1 == 1 {
            assert(ls.take(1)[0] == ls[0]);
        }
        assert(before.len() > 0);
        assert(ls.take(k).drop_last() =~= ls.take(k - 1));
        assert(ls.take(k).last() == l);
    }
}

/// Reading the lines of the entry of `it` after a finished entry, or none,
/// leaves the items alone and holds the entry of `it`, with its full content.
proof fn lemma_read_entry(
    items: Seq<ItemView>,
    cur: Option<ParsedItem>,
    it: ItemView,
    t: Seq<char>,
    prefix: Seq<char>,
    entries: SchemaEntries,
    files: Option<Seq<Seq<char>>>,
)
    requires
        entry_reads_back(it, entries, prefix),
        prefix_found(prefix),
        cur matches Some(c) ==> apply_item(items, t, c, files) == (items, None::<MarkdownErrorView>),
    ensures
        doc_run((items, cur, None), entry_lines(it, entries, prefix), t, prefix, entries, files) == (
            items,
            Some(parsed_entry(it, entries)),
            None::<MarkdownErrorView>,
        ),
{
    let h = head_line(it, entries, prefix);
    let st = (items, cur, None::<MarkdownErrorView>);
    lemma_parse_head(it, entries, prefix);
    lemma_doc_run_concat(st, seq![h], notes(other_lines(it.content)), t, prefix, entries, files);
    assert(seq![h].drop_last() =~= Seq::<Seq<char>>::empty());
    let ph = parsed_head(it, entries);
    assert(seq![h].last() == h);
    assert(doc_run(st, Seq::<Seq<char>>::empty(), t, prefix, entries, files) == st);
    assert(doc_step(st, h, t, prefix, entries, files) == (items, Some(ph), None::<MarkdownErrorView>));
    assert(doc_run(st, seq![h], t, prefix, entries, files) == (items, Some(ph), None::<MarkdownErrorView>));
    let ls = lines(it.content);
    if ls.len() == 0 {
        assert(notes(other_lines(it.content)) =~= Seq::<Seq<char>>::empty());
        assert(ph == parsed_entry(it, entries));
    } else {
        lemma_read_notes(items, ph, ls, ls.len() as int, t, prefix, entries, files);
        assert(notes(ls.skip(1)).take(ls.len() - 1) =~= notes(other_lines(it.content)));
        assert(ls.take(ls.len() as int) =~= ls);
        assert(ParsedItem { content: ls[0], ..ph } == ph);
    }
}

/// Applying the entry of item `j` changes nothing: it refers to no other item,
/// and gives `j` its own status and content.
proof fn lemma_apply_own(
    items: Seq<ItemView>,
    j: int,
    t: Seq<char>,
    entries: SchemaEntries,
    files: Option<Seq<Seq<char>>>,
)
    requires
        0 <= j < items.len(),
        items[j].item_type == t,
        ids_distinct(items),
    ensures
        apply_item(items, t, parsed_entry(items[j], entries), files) == (items, None::<MarkdownErrorView>),
{
    let p = parsed_entry(items[j], entries);
    let pred = refers_to(p.id, t, files);
    lemma_first_from(items, pred, 0);
    match first_from(items, pred, 0) {
        Some(k) => {
            assert(pred(items[k]));
            if k < j {
                assert(!(items[k].id == items[j].id && items[k].item_type == items[j].item_type));
            } else if k > j {
                assert(!(items[j].id == items[k].id && items[j].item_type == items[k].item_type));
            }
            assert(k == j);
            assert(ItemView { status: items[j].status, content: items[j].content, ..items[j] } == items[j]);
            assert(items.update(j, items[j]) =~= items);
        },
        None => {},
    }
}

/// The index of the last item of marker type `t`.
pub open spec fn last_index(items: Seq<ItemView>, t: Seq<char>) -> Option<int>
    decreases items.len(),
{
    if items.len() == 0 {
        None
    } else if items.last().item_type == t {
        Some(items.len() - 1)
    } else {
        last_index(items.drop_last(), t)
    }
}

proof fn lemma_last_index(items: Seq<ItemView>, t: Seq<char>)
    ensures
        last_index(items, t) matches Some(j) ==> 0 <= j < items.len() && items[j].item_type == t,
    decreases items.len(),
{
    if items.len() > 0 && items.last().item_type != t {
        lemma_last_index(items.drop_last(), t);
    }
}

/// The entry being read after the checklist lines of the first `k` items.
pub open spec fn entry_after(items: Seq<ItemView>, k: int, t: Seq<char>, entries: SchemaEntries) -> Option<ParsedItem> {
    match last_index(items.take(k), t) {
        Some(j) => Some(parsed_entry(items[j], entries)),
        None => None,
    }
}

proof fn lemma_read_items(
    items: Seq<ItemView>,
    k: int,
    t: Seq<char>,
    prefix: Seq<char>,
    entries: SchemaEntries,
    files: Option<Seq<Seq<char>>>,
)
    requires
        0 <= k <= items.len(),
        prefix_found(prefix),
        ids_distinct(items),
        forall|i: int| 0 <= i < items.len() ==> entry_reads_back(#[trigger] items[i], entries, prefix),
    ensures
        doc_run((items, None, None), doc_lines(items.take(k), t, entries, prefix), t, prefix, entries, files)
            == (items, entry_after(items, k, t, entries), None::<MarkdownErrorView>),
    decreases k,
{
    if k == 0 {
        assert(items.take(0) =~= Seq::<ItemView>::empty());
    } else {
        lemma_read_items(items, k - 1, t, prefix, entries, files);
        let a = items.take(k - 1);
        let b = items.take(k);
        assert(b.drop_last() =~= a);
        assert(b.last() == items[k - 1]);
        let st0 = (items, None::<ParsedItem>, None::<MarkdownErrorView>);
        let prev = doc_lines(a, t, entries, prefix);
        let cur = entry_after(items, k - 1, t, entries);
        lemma_last_index(a, t);
        if items[k - 1].item_type == t {
            let e = entry_lines(items[k - 1], entries, prefix);
            lemma_doc_run_concat(st0, prev, e, t, prefix, entries, files);
            match last_index(a, t) {
                Some(j) => {
                    assert(a[j] == items[j]);
                    lemma_apply_own(items, j, t, entries, files);
                },
                None => {},
            }
            lemma_read_entry(items, cur, items[k - 1], t, prefix, entries, files);
        } else {
            assert(prev + Seq::<Seq<char>>::empty() =~= prev);
        }
    }
}

/// Reading the checklist of marker type `t` that was written from `items`
/// leaves them unchanged.
proof fn lemma_read_doc(
    items: Seq<ItemView>,
    t: Seq<char>,
    prefix: Seq<char>,
    entries: SchemaEntries,
    files: Option<Seq<Seq<char>>>,
)
    requires
        prefix_found(prefix),
        ids_distinct(items),
        forall|i: int| 0 <= i < items.len() ==> entry_reads_back(#[trigger] items[i], entries, prefix),
    ensures
        apply_doc(items, t, render_type(items, t, entries, prefix), prefix, entries, files) == (
            items,
            None::<MarkdownErrorView>,
        ),
{
    let dl = doc_lines(items, t, entries, prefix);
    lemma_render_type(items, t, entries, prefix);
    lemma_doc_plain(items, t, entries, prefix);
    lemma_lines_terminated(dl);
    lemma_doc_state_run(items, dl, t, prefix, entries, files);
    lemma_read_items(items, items.len() as int, t, prefix, entries, files);
    assert(items.take(items.len() as int) =~= items);
    let ti = items.take(items.len() as int);
    lemma_last_index(ti, t);
    match last_index(ti, t) {
        Some(j) => {
            lemma_apply_own(items, j, t, entries, files);
        },
        None => {},
    }
}

proof fn lemma_read_docs(
    items: Seq<ItemView>,
    docs: Seq<(Seq<char>, Seq<char>)>,
    prefix: Seq<char>,
    entries: SchemaEntries,
    files: Option<Seq<Seq<char>>>,
)
    requires
        forall|i: int|
            0 <= i < docs.len() ==> apply_doc(items, #[trigger] docs[i].0, docs[i].1, prefix, entries, files) == (
                items,
                None::<MarkdownErrorView>,
            ),
    ensures
        apply_docs(items, docs, prefix, entries, files) == (items, None::<MarkdownErrorView>),
    decreases docs.len(),
{
    if docs.len() > 0 {
        let a = docs.drop_last();
        assert forall|i: int| 0 <= i < a.len() implies apply_doc(items, #[trigger] a[i].0, a[i].1, prefix, entries, files) == (
            items,
            None::<MarkdownErrorView>,
        ) by {
            assert(a[i] == docs[i]);
        }
        lemma_read_docs(items, a, prefix, entries, files);
        assert(docs.last() == docs[docs.len() - 1]);
    }
}

/// Whether line `l` reads as an entry of marker type `t`.
pub open spec fn reads_as_type(l: Seq<char>, prefix: Seq<char>, entries: SchemaEntries, t: Seq<char>) -> bool {
    parse_item_line(l, prefix, entries) matches Some(p) && p.item_type == t
}

/// Whether no line of `ls` reads as an entry of marker type `t`.
pub open spec fn foreign(ls: Seq<Seq<char>>, prefix: Seq<char>, entries: SchemaEntries, t: Seq<char>) -> bool {
    forall|i: int| 0 <= i < ls.len() ==> !reads_as_type(#[trigger] ls[i], prefix, entries, t)
}

proof fn lemma_foreign_concat(a: Seq<Seq<char>>, b: Seq<Seq<char>>, prefix: Seq<char>, entries: SchemaEntries, t: Seq<char>)
    requires
        foreign(a, prefix, entries, t),
        foreign(b, prefix, entries, t),
    ensures
        foreign(a + b, prefix, entries, t),
{
    assert forall|i: int| 0 <= i < (a + b).len() implies !reads_as_type(#[trigger] (a + b)[i], prefix, entries, t) by {
        if i < a.len() {
            assert((a + b)[i] == a[i]);
        } else {
            assert((a + b)[i] == b[i - a.len()]);
        }
    }
}

proof fn lemma_foreign_state(
    items: Seq<ItemView>,
    ls: Seq<Seq<char>>,
    t: Seq<char>,
    prefix: Seq<char>,
    entries: SchemaEntries,
    files: Option<Seq<Seq<char>>>,
)
    requires
        foreign(ls, prefix, entries, t),
    ensures
        doc_state(items, ls, t, prefix, entries, files).0 == items,
        doc_state(items, ls, t, prefix, entries, files).2 is None,
        doc_state(items, ls, t, prefix, entries, files).1 matches Some(c) ==> c.item_type != t,
    decreases ls.len(),
{
    if ls.len() > 0 {
        let a = ls.drop_last();
        assert forall|i: int| 0 <= i < a.len() implies !reads_as_type(#[trigger] a[i], prefix, entries, t) by {
            assert(a[i] == ls[i]);
        }
        lemma_foreign_state(items, a, t, prefix, entries, files);
        assert(!reads_as_type(ls[ls.len() - 1], prefix, entries, t));
    }
}

/// Reading a checklist none of whose lines reads as an entry of its own marker
/// type changes nothing.
proof fn lemma_foreign_doc(
    items: Seq<ItemView>,
    t: Seq<char>,
    content: Seq<char>,
    prefix: Seq<char>,
    entries: SchemaEntries,
    files: Option<Seq<Seq<char>>>,
)
    requires
        foreign(lines(content), prefix, entries, t),
    ensures
        apply_doc(items, t, content, prefix, entries, files) == (items, None::<MarkdownErrorView>),
{
    lemma_foreign_state(items, lines(content), t, prefix, entries, files);
}

/// A line without a newline holds no prefix that has one, so it reads as no entry.
proof fn lemma_no_entry_without_prefix(l: Seq<char>, prefix: Seq<char>, entries: SchemaEntries)
    requires
        lacks(l, '\n'),
        !lacks(prefix, '\n'),
    ensures
        parse_item_line(l, prefix, entries) is None,
{
    if starts_with(l, seq!['-', ' ', '[']) {
        let s3 = l.skip(3);
        crate::text::lemma_find_from_range(s3, seq![']'], 0);
        if let Some(k) = crate::text::find(s3, seq![']']) {
            let rest = s3.skip(k + 1);
            crate::text::lemma_find_from_range(rest, prefix, 0);
            if let Some(ms) = crate::text::find(rest, prefix) {
                let j = choose|j: int| 0 <= j < prefix.len() && prefix[j] == '\n';
                assert(rest.subrange(ms, ms + prefix.len())[j] == rest[ms + j]);
                assert(rest[ms + j] == l[3 + k + 1 + ms + j]);
            }
        }
    }
}

/// With a prefix of spaces alone, the first line of an entry reads with a type
/// one space longer than its own, so it is not an entry of its type.
proof fn lemma_head_foreign_spaces(it: ItemView, entries: SchemaEntries, prefix: Seq<char>)
    requires
        entry_reads_back(it, entries, prefix),
        prefix.len() > 0,
        all_spaces(prefix),
    ensures
        !reads_as_type(head_line(it, entries, prefix), prefix, entries, it.item_type),
{
    lemma_head_mark(it, entries, prefix);
    let r = after_mark(it, prefix);
    reveal(after_mark);
    let n = prefix.len() as int;
    assert forall|i: int| 0 <= i < n implies #[trigger] r.subrange(0, n)[i] == prefix[i] by {
        if i > 0 {
            assert(r[i] == prefix[i - 1]);
        }
    }
    assert(r.subrange(0, n) =~= prefix);
    lemma_find_first(r, prefix, 0);
    let m = r.skip(n);
    assert(m[0] == prefix[n - 1]);
    assert(m =~= seq![' '] + marker_rest(it));
    let ty2 = seq![' '] + it.item_type;
    assert(m =~= ty2 + seq![':'] + after_type(it));
    assert(lacks(seq![' '], ':'));
    lemma_lacks_concat(seq![' '], it.item_type, ':');
    lemma_split_char(ty2, ':', after_type(it));
    assert(ty2.len() != it.item_type.len());
}

proof fn lemma_entry_foreign_spaces(it: ItemView, entries: SchemaEntries, prefix: Seq<char>)
    requires
        entry_reads_back(it, entries, prefix),
        prefix.len() > 0,
        all_spaces(prefix),
    ensures
        foreign(entry_lines(it, entries, prefix), prefix, entries, it.item_type),
{
    lemma_head_foreign_spaces(it, entries, prefix);
    let h = head_line(it, entries, prefix);
    let ns = notes(other_lines(it.content));
    assert forall|i: int| 0 <= i < ns.len() implies !reads_as_type(#[trigger] ns[i], prefix, entries, it.item_type) by {
        let l = ns[i];
        assert(l[0] == ' ');
        if starts_with(l, seq!['-', ' ', '[']) {
            assert(l.take(3)[0] == l[0]);
        }
    }
    assert forall|i: int| 0 <= i < seq![h].len() implies !reads_as_type(#[trigger] seq![h][i], prefix, entries, it.item_type) by {
        assert(seq![h][i] == h);
    }
    lemma_foreign_concat(seq![h], ns, prefix, entries, it.item_type);
}

proof fn lemma_doc_foreign_spaces(items: Seq<ItemView>, t: Seq<char>, entries: SchemaEntries, prefix: Seq<char>)
    requires
        prefix.len() > 0,
        all_spaces(prefix),
        forall|i: int| 0 <= i < items.len() ==> entry_reads_back(#[trigger] items[i], entries, prefix),
    ensures
        foreign(doc_lines(items, t, entries, prefix), prefix, entries, t),
    decreases items.len(),
{
    if items.len() > 0 {
        let a = items.drop_last();
        assert forall|i: int| 0 <= i < a.len() implies entry_reads_back(#[trigger] a[i], entries, prefix) by {
            assert(a[i] == items[i]);
        }
        lemma_doc_foreign_spaces(a, t, entries, prefix);
        if items.last().item_type == t {
            assert(entry_reads_back(items[items.len() - 1], entries, prefix));
            lemma_entry_foreign_spaces(items.last(), entries, prefix);
            lemma_foreign_concat(doc_lines(a, t, entries, prefix), entry_lines(items.last(), entries, prefix), prefix, entries, t);
        } else {
            assert(doc_lines(a, t, entries, prefix) + Seq::<Seq<char>>::empty() =~= doc_lines(a, t, entries, prefix));
        }
    }
}

/// Reading the checklist of marker type `t` written from `items` leaves them
/// unchanged, for any non-empty prefix: a prefix that is found again reads
/// each entry back; one made of spaces alone reads a type one space longer, and
/// one with a newline is found on no line, so then no entry applies.
proof fn lemma_read_doc_any(
    items: Seq<ItemView>,
    t: Seq<char>,
    prefix: Seq<char>,
    entries: SchemaEntries,
    files: Option<Seq<Seq<char>>>,
)
    requires
        prefix.len() > 0,
        ids_distinct(items),
        forall|i: int| 0 <= i < items.len() ==> entry_reads_back(#[trigger] items[i], entries, prefix),
    ensures
        apply_doc(items, t, render_type(items, t, entries, prefix), prefix, entries, files) == (
            items,
            None::<MarkdownErrorView>,
        ),
{
    let c = render_type(items, t, entries, prefix);
    if prefix_found(prefix) {
        lemma_read_doc(items, t, prefix, entries, files);
    } else if lacks(prefix, '\n') {
        let dl = doc_lines(items, t, entries, prefix);
        lemma_render_type(items, t, entries, prefix);
        lemma_doc_plain(items, t, entries, prefix);
        lemma_lines_terminated(dl);
        lemma_doc_foreign_spaces(items, t, entries, prefix);
        lemma_foreign_doc(items, t, c, prefix, entries, files);
    } else {
        lemma_lines_lack_newline(c);
        assert forall|i: int| 0 <= i < lines(c).len() implies !reads_as_type(#[trigger] lines(c)[i], prefix, entries, t) by {
            lemma_no_entry_without_prefix(lines(c)[i], prefix, entries);
        }
        lemma_foreign_doc(items, t, c, prefix, entries, files);
    }
}

/// Reading back the checklists written from the tracked items gives the items
/// back unchanged and no error, whichever files the reading is limited to:
/// when the prefix is not empty, no two items share id and marker type, and
/// the entry of each item reads back as that item.
pub proof fn lemma_checklists_read_back(
    items: Seq<ItemView>,
    entries: SchemaEntries,
    prefix: Seq<char>,
    files: Option<Seq<Seq<char>>>,
)
    requires
        prefix.len() > 0,
        ids_distinct(items),
        forall|i: int| 0 <= i < items.len() ==> entry_reads_back(#[trigger] items[i], entries, prefix),
    ensures
        apply_docs(items, markdown_files(items, entries, prefix), prefix, entries, files) == (
            items,
            None::<MarkdownErrorView>,
        ),
{
    let docs = markdown_files(items, entries, prefix);
    assert forall|i: int| 0 <= i < docs.len() implies apply_doc(items, #[trigger] docs[i].0, docs[i].1, prefix, entries, files) == (
        items,
        None::<MarkdownErrorView>,
    ) by {
        lemma_read_doc_any(items, docs[i].0, prefix, entries, files);
    }
    lemma_read_docs(items, docs, prefix, entries, files);
}

/// A status that the schema of marker type `t` lists reads back from its mark
/// exactly when no status listed before its first listing has the same mark.
pub proof fn lemma_listed_status_reads_back(entries: SchemaEntries, t: Seq<char>, s: Seq<char>, j: int)
    requires
        crate::schema::statuses_of(entries, t) matches Some(sts) && 0 <= j < sts.len() && sts[j].0 == s
            && forall|i: int| 0 <= i < j ==> sts[i].0 != s,
    ensures
        ({
            let sts = crate::schema::statuses_of(entries, t)->Some_0;
            status_of_mark(entries, t, markdown_for(entries, t, s)) == Some(s) <==> forall|i: int|
                0 <= i < j ==> #[trigger] sts[i].1 != sts[j].1
        }),
{
    let sts = crate::schema::statuses_of(entries, t)->Some_0;
    let name = crate::schema::has_name(s);
    lemma_first_from(sts, name, 0);
    assert(name(sts[j]));
    let j0 = first_from(sts, name, 0)->Some_0;
    assert(j0 == j) by {
        if j0 < j {
            assert(name(sts[j0]));
        }
    }
    let m = sts[j].1;
    assert(markdown_for(entries, t, s) == m);
    let has = crate::schema::has_mark(m);
    lemma_first_from(sts, has, 0);
    assert(has(sts[j]));
    let k = first_from(sts, has, 0)->Some_0;
    assert(status_for(entries, t, m) == Some(sts[k].0));
    if forall|i: int| 0 <= i < j ==> #[trigger] sts[i].1 != sts[j].1 {
        assert(k == j) by {
            if k < j {
                assert(has(sts[k]));
            }
        }
    } else {
        let i = choose|i: int| 0 <= i < j && #[trigger] sts[i].1 == sts[j].1;
        assert(has(sts[i]));
        assert(k <= i);
        assert(sts[k].0 != s);
    }
}

/// A status of a marker type that the schemas do not name reads back from its
/// mark exactly when it is `open` or `done`.
pub proof fn lemma_default_status_reads_back(entries: SchemaEntries, t: Seq<char>, s: Seq<char>)
    requires
        crate::schema::statuses_of(entries, t) is None,
    ensures
        status_of_mark(entries, t, markdown_for(entries, t, s)) == Some(s) <==> (s == seq!['o', 'p', 'e', 'n']
            || s == seq!['d', 'o', 'n', 'e']),
{
    let done = seq!['d', 'o', 'n', 'e'];
    let open = seq!['o', 'p', 'e', 'n'];
    assert(crate::schema::mark_open() != crate::schema::mark_done()) by {
        assert(crate::schema::mark_open()[1] != crate::schema::mark_done()[1]);
    }
    assert(crate::schema::mark_open() != seq!['[', 'X', ']']) by {
        assert(crate::schema::mark_open()[1] != seq!['[', 'X', ']'][1]);
    }
    assert(crate::text::eq_ignore_ascii_case(done, done));
    assert(!crate::text::eq_ignore_ascii_case(open, done)) by {
        assert(crate::text::ascii_lower(open[0]) != crate::text::ascii_lower(done[0]));
    }
    assert(open != done) by {
        assert(open[0] != done[0]);
    }
}

/// Whether `b` holds the same items as `a` up to status and content: same
/// number, and each with the same id, type, file, line and column.
pub open spec fn same_identity(a: Seq<ItemView>, b: Seq<ItemView>) -> bool {
    &&& a.len() == b.len()
    &&& forall|i: int|
        0 <= i < a.len() ==> {
            &&& (#[trigger] b[i]).id == a[i].id
            &&& b[i].item_type == a[i].item_type
            &&& b[i].file == a[i].file
            &&& b[i].line == a[i].line
            &&& b[i].column == a[i].column
        }
}

proof fn lemma_apply_item_identity(
    items: Seq<ItemView>,
    t: Seq<char>,
    p: ParsedItem,
    files: Option<Seq<Seq<char>>>,
)
    ensures
        same_identity(items, apply_item(items, t, p, files).0),
{
    if p.item_type == t {
        let pred = refers_to(p.id, t, files);
        lemma_first_from(items, pred, 0);
    }
}

proof fn lemma_doc_state_identity(
    items: Seq<ItemView>,
    ls: Seq<Seq<char>>,
    t: Seq<char>,
    prefix: Seq<char>,
    entries: SchemaEntries,
    files: Option<Seq<Seq<char>>>,
)
    ensures
        same_identity(items, doc_state(items, ls, t, prefix, entries, files).0),
    decreases ls.len(),
{
    if ls.len() > 0 {
        lemma_doc_state_identity(items, ls.drop_last(), t, prefix, entries, files);
        let st = doc_state(items, ls.drop_last(), t, prefix, entries, files);
        if st.2 is None {
            if let Some(c) = st.1 {
                lemma_apply_item_identity(st.0, t, c, files);
            }
        }
    }
}

proof fn lemma_apply_doc_identity(
    items: Seq<ItemView>,
    t: Seq<char>,
    content: Seq<char>,
    prefix: Seq<char>,
    entries: SchemaEntries,
    files: Option<Seq<Seq<char>>>,
)
    ensures
        same_identity(items, apply_doc(items, t, content, prefix, entries, files).0),
{
    lemma_doc_state_identity(items, lines(content), t, prefix, entries, files);
    let st = doc_state(items, lines(content), t, prefix, entries, files);
    if st.2 is None {
        if let Some(c) = st.1 {
            lemma_apply_item_identity(st.0, t, c, files);
        }
    }
}

/// Reading checklists changes only the statuses and contents of the tracked
/// items: there are as many, in the same order, with the same ids, types,
/// files, lines and columns, whether or not an error stopped the reading.
pub proof fn lemma_reading_keeps_identity(
    items: Seq<ItemView>,
    docs: Seq<(Seq<char>, Seq<char>)>,
    prefix: Seq<char>,
    entries: SchemaEntries,
    files: Option<Seq<Seq<char>>>,
)
    ensures
        same_identity(items, apply_docs(items, docs, prefix, entries, files).0),
    decreases docs.len(),
{
    if docs.len() > 0 {
        lemma_reading_keeps_identity(items, docs.drop_last(), prefix, entries, files);
        let r = apply_docs(items, docs.drop_last(), prefix, entries, files);
        if r.1 is None {
            lemma_apply_doc_identity(r.0, docs.last().0, docs.last().1, prefix, entries, files);
        }
    }
}

/// An entry line as it is read: it starts with `- [`; its mark is `[`, the text
/// up to the first `]`, and `]`; its status is the one the mark reads as for
/// its type, through the schema, else through the fallback marks.
pub proof fn lemma_item_line(line: Seq<char>, prefix: Seq<char>, entries: SchemaEntries)
    ensures
        parse_item_line(line, prefix, entries) matches Some(p) ==> {
            &&& starts_with(line, seq!['-', ' ', '['])
            &&& split_once(line.skip(3), seq![']']) matches Some(q) && p.checkbox == seq!['['] + q.0 + seq![']']
            &&& p.status == status_of_mark(entries, p.item_type, p.checkbox)
        },
{
}

/// Applying an entry read from checklist `t`: when its type is not `t`, or no
/// tracked item has its id and type (and, when `files` is given, a file among
/// them), nothing changes and there is no error. Otherwise the first such item
/// takes the entry's status and content when its mark reads as a status; when
/// it does not, nothing changes and the error names the mark, the type and the
/// status written in the entry.
pub proof fn lemma_apply_item_cases(
    items: Seq<ItemView>,
    t: Seq<char>,
    p: ParsedItem,
    files: Option<Seq<Seq<char>>>,
)
    ensures
        (p.item_type != t || forall|i: int| 0 <= i < items.len() ==> !refers_to(p.id, t, files)(#[trigger] items[i]))
            ==> apply_item(items, t, p, files) == (items, None::<MarkdownErrorView>),
        (p.item_type == t && exists|i: int| 0 <= i < items.len() && refers_to(p.id, t, files)(#[trigger] items[i]))
            ==> {
            let k = first_from(items, refers_to(p.id, t, files), 0)->Some_0;
            &&& first_from(items, refers_to(p.id, t, files), 0) is Some
            &&& 0 <= k < items.len()
            &&& refers_to(p.id, t, files)(items[k])
            &&& forall|j: int| 0 <= j < k ==> !refers_to(p.id, t, files)(#[trigger] items[j])
            &&& p.status matches Some(s) ==> apply_item(items, t, p, files) == (
                items.update(k, ItemView { status: s, content: p.content, ..items[k] }),
                None::<MarkdownErrorView>,
            )
            &&& p.status is None ==> apply_item(items, t, p, files) == (
                items,
                Some(MarkdownErrorView { checkbox: p.checkbox, item_type: p.item_type, marker_status: p.marker_status }),
            )
        },
{
    lemma_first_from(items, refers_to(p.id, t, files), 0);
}

/// Whether file `f` is among `files`, when they are given.
pub open spec fn file_ok(files: Option<Seq<Seq<char>>>, f: Seq<char>) -> bool {
    match files {
        Some(fs) => fs.contains(f),
        None => true,
    }
}

/// Whether line `l` of checklist `t` reads as an entry with the type and id of `it`.
pub open spec fn line_names(l: Seq<char>, prefix: Seq<char>, entries: SchemaEntries, t: Seq<char>, it: ItemView) -> bool {
    parse_item_line(l, prefix, entries) matches Some(p) && p.item_type == t && t == it.item_type && p.id == it.id
}

/// Whether some line of `ls`, the lines of checklist `t`, names `it`.
pub open spec fn doc_names(ls: Seq<Seq<char>>, prefix: Seq<char>, entries: SchemaEntries, t: Seq<char>, it: ItemView) -> bool {
    exists|j: int| 0 <= j < ls.len() && line_names(#[trigger] ls[j], prefix, entries, t, it)
}

/// Whether some line of `ls` reads as an entry with the type and id of `c`.
spec fn doc_holds_entry(ls: Seq<Seq<char>>, prefix: Seq<char>, entries: SchemaEntries, c: ParsedItem) -> bool {
    exists|j: int|
        0 <= j < ls.len() && (parse_item_line(#[trigger] ls[j], prefix, entries) matches Some(q) && q.id == c.id
            && q.item_type == c.item_type)
}

proof fn lemma_apply_item_named(
    base: Seq<ItemView>,
    cur: Seq<ItemView>,
    t: Seq<char>,
    c: ParsedItem,
    files: Option<Seq<Seq<char>>>,
)
    requires
        same_identity(base, cur),
    ensures
        forall|i: int|
            0 <= i < cur.len() && #[trigger] apply_item(cur, t, c, files).0[i] != cur[i] ==> c.item_type == t && t
                == base[i].item_type && c.id == base[i].id && file_ok(files, base[i].file),
        same_identity(base, apply_item(cur, t, c, files).0),
{
    lemma_apply_item_cases(cur, t, c, files);
    lemma_apply_item_identity(cur, t, c, files);
    let r = apply_item(cur, t, c, files).0;
    assert forall|i: int| 0 <= i < base.len() implies #[trigger] r[i].id == base[i].id && r[i].item_type
        == base[i].item_type && r[i].file == base[i].file && r[i].line == base[i].line && r[i].column
        == base[i].column by {
        assert(r[i].id == cur[i].id);
    }
    assert forall|i: int| 0 <= i < cur.len() && #[trigger] r[i] != cur[i] implies c.item_type == t && t
        == base[i].item_type && c.id == base[i].id && file_ok(files, base[i].file) by {
        if c.item_type == t && exists|j: int| 0 <= j < cur.len() && refers_to(c.id, t, files)(#[trigger] cur[j]) {
            let k = first_from(cur, refers_to(c.id, t, files), 0)->Some_0;
            if i != k {
                assert(r[i] == cur[i]);
            }
        }
    }
}

proof fn lemma_doc_state_named(
    base: Seq<ItemView>,
    ls: Seq<Seq<char>>,
    t: Seq<char>,
    prefix: Seq<char>,
    entries: SchemaEntries,
    files: Option<Seq<Seq<char>>>,
)
    ensures
        same_identity(base, doc_state(base, ls, t, prefix, entries, files).0),
        forall|i: int|
            0 <= i < base.len() && #[trigger] doc_state(base, ls, t, prefix, entries, files).0[i] != base[i]
                ==> file_ok(files, base[i].file) && doc_names(ls, prefix, entries, t, base[i]),
        doc_state(base, ls, t, prefix, entries, files).1 matches Some(c) ==> doc_holds_entry(ls, prefix, entries, c),
    decreases ls.len(),
{
    if ls.len() > 0 {
        let a = ls.drop_last();
        let l = ls.last();
        lemma_doc_state_named(base, a, t, prefix, entries, files);
        let st = doc_state(base, a, t, prefix, entries, files);
        let st2 = doc_state(base, ls, t, prefix, entries, files);
        assert(l == ls[ls.len() - 1]);
        // What held of the shorter list holds of the longer one.
        assert forall|it: ItemView| doc_names(a, prefix, entries, t, it) implies doc_names(ls, prefix, entries, t, it) by {
            let j = choose|j: int| 0 <= j < a.len() && line_names(#[trigger] a[j], prefix, entries, t, it);
            assert(a[j] == ls[j]);
        }
        assert forall|c: ParsedItem| doc_holds_entry(a, prefix, entries, c) implies doc_holds_entry(ls, prefix, entries, c) by {
            let j = choose|j: int|
                0 <= j < a.len() && (parse_item_line(#[trigger] a[j], prefix, entries) matches Some(q) && q.id == c.id
                    && q.item_type == c.item_type);
            assert(a[j] == ls[j]);
        }
        if st.2 is None {
            match parse_item_line(l, prefix, entries) {
                Some(item) => {
                    assert(parse_item_line(ls[ls.len() - 1], prefix, entries) == Some(item));
                    if let Some(c) = st.1 {
                        lemma_apply_item_named(base, st.0, t, c, files);
                        let r = apply_item(st.0, t, c, files).0;
                        assert forall|i: int| 0 <= i < base.len() && #[trigger] r[i] != base[i] implies file_ok(
                            files,
                            base[i].file,
                        ) && doc_names(ls, prefix, entries, t, base[i]) by {
                            if st.0[i] == base[i] {
                                assert(r[i] != st.0[i]);
                                let j = choose|j: int|
                                    0 <= j < a.len() && (parse_item_line(#[trigger] a[j], prefix, entries) matches Some(q)
                                        && q.id == c.id && q.item_type == c.item_type);
                                assert(a[j] == ls[j]);
                                assert(line_names(ls[j], prefix, entries, t, base[i]));
                            }
                        }
                    }
                },
                None => {},
            }
        }
    }
}

/// Reading checklists changes the status or content of a tracked item only if
/// some line of a checklist of the item's marker type reads as an entry with
/// that type and the item's id, and, when `files` is given, the item's file is
/// among them.
pub proof fn lemma_reading_changes_only_named(
    items: Seq<ItemView>,
    docs: Seq<(Seq<char>, Seq<char>)>,
    prefix: Seq<char>,
    entries: SchemaEntries,
    files: Option<Seq<Seq<char>>>,
)
    ensures
        forall|i: int|
            0 <= i < items.len() && #[trigger] apply_docs(items, docs, prefix, entries, files).0[i] != items[i] ==> {
                &&& file_ok(files, items[i].file)
                &&& exists|d: int| 0 <= d < docs.len() && doc_names(lines(#[trigger] docs[d].1), prefix, entries, docs[d].0, items[i])
            },
    decreases docs.len(),
{
    lemma_reading_keeps_identity(items, docs, prefix, entries, files);
    if docs.len() > 0 {
        let pv = docs.drop_last();
        lemma_reading_changes_only_named(items, pv, prefix, entries, files);
        lemma_reading_keeps_identity(items, pv, prefix, entries, files);
        let r = apply_docs(items, pv, prefix, entries, files);
        let dl = docs.last();
        assert(dl == docs[docs.len() - 1]);
        let fin = apply_docs(items, docs, prefix, entries, files).0;
        if r.1 is None {
            let ls = lines(dl.1);
            lemma_doc_state_named(r.0, ls, dl.0, prefix, entries, files);
            let st = doc_state(r.0, ls, dl.0, prefix, entries, files);
            let mid = st.0;
            if st.2 is None {
                if let Some(c) = st.1 {
                    lemma_apply_item_named(r.0, mid, dl.0, c, files);
                }
            }
            assert forall|i: int| 0 <= i < items.len() && #[trigger] fin[i] != items[i] implies {
                &&& file_ok(files, items[i].file)
                &&& exists|d: int| 0 <= d < docs.len() && doc_names(lines(#[trigger] docs[d].1), prefix, entries, docs[d].0, items[i])
            } by {
                if r.0[i] != items[i] {
                    let d = choose|d: int| 0 <= d < pv.len() && doc_names(lines(#[trigger] pv[d].1), prefix, entries, pv[d].0, items[i]);
                    assert(pv[d] == docs[d]);
                } else if mid[i] != r.0[i] {
                    assert(doc_names(ls, prefix, entries, dl.0, r.0[i]));
                    let j = choose|j: int| 0 <= j < ls.len() && line_names(#[trigger] ls[j], prefix, entries, dl.0, r.0[i]);
                    assert(line_names(ls[j], prefix, entries, dl.0, items[i]));
                    assert(doc_names(lines(docs[docs.len() - 1].1), prefix, entries, docs[docs.len() - 1].0, items[i]));
                } else {
                    if let Some(c) = st.1 {
                        let j = choose|j: int|
                            0 <= j < ls.len() && (parse_item_line(#[trigger] ls[j], prefix, entries) matches Some(q) && q.id
                                == c.id && q.item_type == c.item_type);
                        assert(line_names(ls[j], prefix, entries, dl.0, items[i]));
                        assert(doc_names(lines(docs[docs.len() - 1].1), prefix, entries, docs[docs.len() - 1].0, items[i]));
                    }
                }
            }
        }
    }
}

/// Whether line `l` of checklist `t` reads as an entry of type `t` that names a
/// tracked item of `items` (with its file among `files`, when they are given)
/// and whose mark reads as no status.
pub open spec fn bad_entry(
    l: Seq<char>,
    prefix: Seq<char>,
    entries: SchemaEntries,
    t: Seq<char>,
    items: Seq<ItemView>,
    files: Option<Seq<Seq<char>>>,
) -> bool {
    parse_item_line(l, prefix, entries) matches Some(p) && p.item_type == t && p.status is None && exists|i: int|
        0 <= i < items.len() && refers_to(p.id, t, files)(#[trigger] items[i])
}

/// The error that entry `p` stands for.
pub open spec fn error_of(p: ParsedItem) -> MarkdownErrorView {
    MarkdownErrorView { checkbox: p.checkbox, item_type: p.item_type, marker_status: p.marker_status }
}

/// Whether the entry being read, `c`, is one that would be an error.
spec fn pending_bad(c: ParsedItem, t: Seq<char>, items: Seq<ItemView>, files: Option<Seq<Seq<char>>>) -> bool {
    c.item_type == t && c.status is None && exists|i: int| 0 <= i < items.len() && refers_to(c.id, t, files)(#[trigger] items[i])
}

/// Whether `q` and `c` agree on all but their content.
spec fn same_but_content(q: ParsedItem, c: ParsedItem) -> bool {
    q.id == c.id && q.item_type == c.item_type && q.status == c.status && q.checkbox == c.checkbox
        && q.marker_status == c.marker_status
}

/// Whether the entry being read comes from some line of `ls`.
spec fn from_line(ls: Seq<Seq<char>>, prefix: Seq<char>, entries: SchemaEntries, c: ParsedItem) -> bool {
    exists|j: int| 0 <= j < ls.len() && (parse_item_line(#[trigger] ls[j], prefix, entries) matches Some(q) && same_but_content(q, c))
}

proof fn lemma_refers_same(
    a: Seq<ItemView>,
    b: Seq<ItemView>,
    id: u64,
    t: Seq<char>,
    files: Option<Seq<Seq<char>>>,
)
    requires
        same_identity(a, b),
    ensures
        (exists|i: int| 0 <= i < a.len() && refers_to(id, t, files)(#[trigger] a[i])) <==> (exists|i: int|
            0 <= i < b.len() && refers_to(id, t, files)(#[trigger] b[i])),
{
    if exists|i: int| 0 <= i < a.len() && refers_to(id, t, files)(#[trigger] a[i]) {
        let i = choose|i: int| 0 <= i < a.len() && refers_to(id, t, files)(#[trigger] a[i]);
        assert(refers_to(id, t, files)(b[i]));
    }
    if exists|i: int| 0 <= i < b.len() && refers_to(id, t, files)(#[trigger] b[i]) {
        let i = choose|i: int| 0 <= i < b.len() && refers_to(id, t, files)(#[trigger] b[i]);
        assert(refers_to(id, t, files)(a[i]));
    }
}

proof fn lemma_apply_item_error(
    base: Seq<ItemView>,
    cur: Seq<ItemView>,
    t: Seq<char>,
    c: ParsedItem,
    files: Option<Seq<Seq<char>>>,
)
    requires
        same_identity(base, cur),
    ensures
        apply_item(cur, t, c, files).1 is Some <==> pending_bad(c, t, base, files),
        apply_item(cur, t, c, files).1 matches Some(e) ==> e == error_of(c),
{
    lemma_apply_item_cases(cur, t, c, files);
    lemma_refers_same(base, cur, c.id, t, files);
}

/// The bad entries of checklist `t`, as a test on lines.
pub open spec fn is_bad(
    prefix: Seq<char>,
    entries: SchemaEntries,
    t: Seq<char>,
    items: Seq<ItemView>,
    files: Option<Seq<Seq<char>>>,
) -> spec_fn(Seq<char>) -> bool {
    |l: Seq<char>| bad_entry(l, prefix, entries, t, items, files)
}

/// The index of the first bad entry among the lines of checklist `t` with text `content`.
pub open spec fn first_bad(
    content: Seq<char>,
    prefix: Seq<char>,
    entries: SchemaEntries,
    t: Seq<char>,
    items: Seq<ItemView>,
    files: Option<Seq<Seq<char>>>,
) -> Option<int> {
    first_from(lines(content), is_bad(prefix, entries, t, items, files), 0)
}

/// The only bad entry of `ls`, if any, is its last entry line, and it is the entry being read.
spec fn bad_is_pending(
    ls: Seq<Seq<char>>,
    prefix: Seq<char>,
    entries: SchemaEntries,
    t: Seq<char>,
    base: Seq<ItemView>,
    files: Option<Seq<Seq<char>>>,
    pending: Option<ParsedItem>,
) -> bool {
    forall|j: int|
        0 <= j < ls.len() && bad_entry(#[trigger] ls[j], prefix, entries, t, base, files) ==> {
            &&& pending matches Some(c) && same_but_content(parse_item_line(ls[j], prefix, entries)->Some_0, c)
            &&& forall|j2: int| j < j2 < ls.len() ==> parse_item_line(#[trigger] ls[j2], prefix, entries) is None
        }
}

proof fn lemma_first_at<A>(s: Seq<A>, p: spec_fn(A) -> bool, j: int)
    requires
        0 <= j < s.len(),
        p(s[j]),
        forall|i: int| 0 <= i < j ==> !p(#[trigger] s[i]),
    ensures
        first_from(s, p, 0) == Some(j),
{
    lemma_first_from(s, p, 0);
    match first_from(s, p, 0) {
        Some(k) => {
            if k > j {
                assert(p(s[j]));
            }
        },
        None => {
            assert(p(s[j]));
        },
    }
}

proof fn lemma_doc_state_error(
    base: Seq<ItemView>,
    cur: Seq<ItemView>,
    ls: Seq<Seq<char>>,
    t: Seq<char>,
    prefix: Seq<char>,
    entries: SchemaEntries,
    files: Option<Seq<Seq<char>>>,
)
    requires
        same_identity(base, cur),
    ensures
        ({
            let st = doc_state(cur, ls, t, prefix, entries, files);
            &&& same_identity(base, st.0)
            &&& st.2 matches Some(e) ==> (first_from(ls, is_bad(prefix, entries, t, base, files), 0) matches Some(j)
                && e == error_of(parse_item_line(ls[j], prefix, entries)->Some_0))
            &&& st.2 is None ==> bad_is_pending(ls, prefix, entries, t, base, files, st.1)
            &&& st.1 matches Some(c) ==> from_line(ls, prefix, entries, c)
        }),
    decreases ls.len(),
{
    let bad = is_bad(prefix, entries, t, base, files);
    if ls.len() > 0 {
        let a = ls.drop_last();
        let l = ls.last();
        let n = ls.len() - 1;
        assert(l == ls[n]);
        lemma_doc_state_error(base, cur, a, t, prefix, entries, files);
        let st = doc_state(cur, a, t, prefix, entries, files);
        let st2 = doc_state(cur, ls, t, prefix, entries, files);
        assert forall|i: int| 0 <= i < a.len() implies #[trigger] a[i] == ls[i] by {}
        assert forall|c: ParsedItem| from_line(a, prefix, entries, c) implies from_line(ls, prefix, entries, c) by {
            let j = choose|j: int|
                0 <= j < a.len() && (parse_item_line(#[trigger] a[j], prefix, entries) matches Some(q) && same_but_content(q, c));
            assert(a[j] == ls[j]);
        }
        if st.2 is Some {
            let j = first_from(a, bad, 0)->Some_0;
            lemma_first_from(a, bad, 0);
            assert forall|i: int| 0 <= i < j implies !bad(#[trigger] ls[i]) by {
                assert(a[i] == ls[i]);
                assert(!bad(a[i]));
            }
            assert(a[j] == ls[j]);
            lemma_first_at(ls, bad, j);
        } else {
            match parse_item_line(l, prefix, entries) {
                Some(item) => {
                    if let Some(c) = st.1 {
                        lemma_apply_item_error(base, st.0, t, c, files);
                        lemma_apply_item_identity(st.0, t, c, files);
                        let r = apply_item(st.0, t, c, files);
                        let j0 = choose|j: int|
                            0 <= j < a.len() && (parse_item_line(#[trigger] a[j], prefix, entries) matches Some(q)
                                && same_but_content(q, c));
                        if r.1 is Some {
                            assert(bad(a[j0]));
                            assert forall|i: int| 0 <= i < j0 implies !bad(#[trigger] ls[i]) by {
                                assert(a[i] == ls[i]);
                                if bad(a[i]) {
                                    assert(parse_item_line(a[j0], prefix, entries) is None);
                                }
                            }
                            assert(bad(ls[j0]));
                            lemma_first_at(ls, bad, j0);
                        } else {
                            assert forall|j: int| 0 <= j < ls.len() && bad_entry(#[trigger] ls[j], prefix, entries, t, base, files) implies {
                                &&& st2.1 matches Some(c2) && same_but_content(parse_item_line(ls[j], prefix, entries)->Some_0, c2)
                                &&& forall|j2: int| j < j2 < ls.len() ==> parse_item_line(#[trigger] ls[j2], prefix, entries) is None
                            } by {
                                if j < a.len() {
                                    assert(a[j] == ls[j]);
                                    assert(bad_entry(a[j], prefix, entries, t, base, files));
                                }
                            }
                        }
                    } else {
                        assert forall|j: int| 0 <= j < ls.len() && bad_entry(#[trigger] ls[j], prefix, entries, t, base, files) implies {
                            &&& st2.1 matches Some(c2) && same_but_content(parse_item_line(ls[j], prefix, entries)->Some_0, c2)
                            &&& forall|j2: int| j < j2 < ls.len() ==> parse_item_line(#[trigger] ls[j2], prefix, entries) is None
                        } by {
                            if j < a.len() {
                                assert(a[j] == ls[j]);
                                assert(bad_entry(a[j], prefix, entries, t, base, files));
                            }
                        }
                    }
                    assert(same_but_content(item, item));
                    assert(parse_item_line(ls[n], prefix, entries) == Some(item));
                },
                None => {
                    assert forall|j: int| 0 <= j < ls.len() && bad_entry(#[trigger] ls[j], prefix, entries, t, base, files) implies {
                        &&& st2.1 matches Some(c2) && same_but_content(parse_item_line(ls[j], prefix, entries)->Some_0, c2)
                        &&& forall|j2: int| j < j2 < ls.len() ==> parse_item_line(#[trigger] ls[j2], prefix, entries) is None
                    } by {
                        if j < a.len() {
                            assert(a[j] == ls[j]);
                            assert(bad_entry(a[j], prefix, entries, t, base, files));
                            assert forall|j2: int| j < j2 < ls.len() implies parse_item_line(#[trigger] ls[j2], prefix, entries) is None by {
                                if j2 < a.len() {
                                    assert(a[j2] == ls[j2]);
                                }
                            }
                        } else {
                            assert(parse_item_line(ls[n], prefix, entries) is None);
                        }
                    }
                    if let Some(c) = st.1 {
                        let c2 = ParsedItem { content: append_line(c.content, l), ..c };
                        let j = choose|j: int|
                            0 <= j < a.len() && (parse_item_line(#[trigger] a[j], prefix, entries) matches Some(q)
                                && same_but_content(q, c));
                        assert(a[j] == ls[j]);
                        assert(from_line(ls, prefix, entries, c2));
                    }
                },
            }
        }
    }
}

proof fn lemma_apply_doc_error(
    base: Seq<ItemView>,
    cur: Seq<ItemView>,
    t: Seq<char>,
    content: Seq<char>,
    prefix: Seq<char>,
    entries: SchemaEntries,
    files: Option<Seq<Seq<char>>>,
)
    requires
        same_identity(base, cur),
    ensures
        apply_doc(cur, t, content, prefix, entries, files).1 is Some <==> first_bad(content, prefix, entries, t, base, files) is Some,
        apply_doc(cur, t, content, prefix, entries, files).1 matches Some(e) ==> e == error_of(
            parse_item_line(lines(content)[first_bad(content, prefix, entries, t, base, files)->Some_0], prefix, entries)->Some_0,
        ),
{
    let ls = lines(content);
    let bad = is_bad(prefix, entries, t, base, files);
    lemma_doc_state_error(base, cur, ls, t, prefix, entries, files);
    lemma_first_from(ls, bad, 0);
    let st = doc_state(cur, ls, t, prefix, entries, files);
    if st.2 is None {
        match st.1 {
            Some(c) => {
                lemma_apply_item_error(base, st.0, t, c, files);
                let j0 = choose|j: int|
                    0 <= j < ls.len() && (parse_item_line(#[trigger] ls[j], prefix, entries) matches Some(q) && same_but_content(q, c));
                if pending_bad(c, t, base, files) {
                    assert(bad(ls[j0]));
                    assert forall|i: int| 0 <= i < j0 implies !bad(#[trigger] ls[i]) by {
                        if bad(ls[i]) {
                            assert(parse_item_line(ls[j0], prefix, entries) is None);
                        }
                    }
                    lemma_first_at(ls, bad, j0);
                } else {
                    if first_bad(content, prefix, entries, t, base, files) is Some {
                        let j = first_from(ls, bad, 0)->Some_0;
                        assert(bad(ls[j]));
                    }
                }
            },
            None => {
                if first_bad(content, prefix, entries, t, base, files) is Some {
                    let j = first_from(ls, bad, 0)->Some_0;
                    assert(bad(ls[j]));
                }
            },
        }
    }
}

/// Reading checklists stops with an error exactly when some line of some
/// checklist reads as an entry of that checklist's marker type that names a
/// tracked item (with its file among `files`, when they are given) and whose
/// mark reads as no status. The error then comes from the first such line of
/// the first checklist that has one: it gives that line's mark, type and
/// status text.
pub proof fn lemma_reading_error_iff(
    items: Seq<ItemView>,
    docs: Seq<(Seq<char>, Seq<char>)>,
    prefix: Seq<char>,
    entries: SchemaEntries,
    files: Option<Seq<Seq<char>>>,
)
    ensures
        apply_docs(items, docs, prefix, entries, files).1 is Some <==> exists|d: int|
            0 <= d < docs.len() && (#[trigger] first_bad(docs[d].1, prefix, entries, docs[d].0, items, files)) is Some,
        apply_docs(items, docs, prefix, entries, files).1 matches Some(e) ==> exists|d: int|
            0 <= d < docs.len() && (forall|d2: int|
                0 <= d2 < d ==> (#[trigger] first_bad(docs[d2].1, prefix, entries, docs[d2].0, items, files)) is None)
                && (#[trigger] first_bad(docs[d].1, prefix, entries, docs[d].0, items, files)) is Some && e == error_of(
                parse_item_line(
                    lines(docs[d].1)[first_bad(docs[d].1, prefix, entries, docs[d].0, items, files)->Some_0],
                    prefix,
                    entries,
                )->Some_0,
            ),
    decreases docs.len(),
{
    if docs.len() > 0 {
        let pv = docs.drop_last();
        lemma_reading_error_iff(items, pv, prefix, entries, files);
        lemma_reading_keeps_identity(items, pv, prefix, entries, files);
        let r = apply_docs(items, pv, prefix, entries, files);
        let dl = docs.last();
        let m = docs.len() - 1;
        assert(dl == docs[m]);
        assert forall|d: int| 0 <= d < pv.len() implies #[trigger] pv[d] == docs[d] by {}
        if r.1 is Some {
            let d = choose|d: int| 0 <= d < pv.len() && (#[trigger] first_bad(pv[d].1, prefix, entries, pv[d].0, items, files)) is Some;
            assert(pv[d] == docs[d]);
            let e = r.1->Some_0;
            let d2 = choose|d: int|
                0 <= d < pv.len() && (forall|d2: int|
                    0 <= d2 < d ==> (#[trigger] first_bad(pv[d2].1, prefix, entries, pv[d2].0, items, files)) is None)
                    && (#[trigger] first_bad(pv[d].1, prefix, entries, pv[d].0, items, files)) is Some && e == error_of(
                    parse_item_line(
                        lines(pv[d].1)[first_bad(pv[d].1, prefix, entries, pv[d].0, items, files)->Some_0],
                        prefix,
                        entries,
                    )->Some_0,
                );
            assert(pv[d2] == docs[d2]);
            assert forall|d3: int| 0 <= d3 < d2 implies (#[trigger] first_bad(docs[d3].1, prefix, entries, docs[d3].0, items, files)) is None by {
                assert(pv[d3] == docs[d3]);
            }
        } else {
            lemma_apply_doc_error(items, r.0, dl.0, dl.1, prefix, entries, files);
            assert forall|d: int| 0 <= d < m implies (#[trigger] first_bad(docs[d].1, prefix, entries, docs[d].0, items, files)) is None by {
                assert(pv[d] == docs[d]);
            }
            if exists|d: int| 0 <= d < docs.len() && (#[trigger] first_bad(docs[d].1, prefix, entries, docs[d].0, items, files)) is Some {
                let d = choose|d: int| 0 <= d < docs.len() && (#[trigger] first_bad(docs[d].1, prefix, entries, docs[d].0, items, files)) is Some;
                if d < m {
                    assert(pv[d] == docs[d]);
                }
            }
        }
    }
}

/// A note line indented by two spaces or by a tab joins the content of the
/// entry being read without that indentation, after a newline unless the
/// content is still empty; any other note line joins as it is.
pub proof fn lemma_note_lines(c: Seq<char>, l: Seq<char>, line: Seq<char>)
    ensures
        append_line(c, seq![' ', ' '] + l) == (if c.len() > 0 {
            c + seq!['\n'] + l
        } else {
            l
        }),
        append_line(c, seq!['\t'] + l) == (if c.len() > 0 {
            c + seq!['\n'] + l
        } else {
            l
        }),
        !starts_with(line, seq![' ', ' ']) && !starts_with(line, seq!['\t']) ==> append_line(c, line) == (if c.len()
            > 0 {
            c + seq!['\n'] + line
        } else {
            line
        }),
{
    let a = seq![' ', ' '] + l;
    assert(a.take(2) =~= seq![' ', ' ']);
    assert(a.skip(2) =~= l);
    let b = seq!['\t'] + l;
    assert(b.take(1) =~= seq!['\t']);
    assert(b.skip(1) =~= l);
    if starts_with(b, seq![' ', ' ']) {
        assert(b.take(2)[0] == b[0]);
    }
}

} // verus!
