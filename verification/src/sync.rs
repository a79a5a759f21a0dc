//! Writing the statuses of tracked items back into their source files.
use vstd::prelude::*;

use crate::db::{Database, ItemView};
use crate::schema::{first_from, lemma_first_from};
use crate::text::{
    chars_eq, decimal, decimal_chars, extend, find, find_chars, join, join_chars,
    lacks, lemma_find_first, lemma_find_from_range, lemma_join_lack, lemma_join_terminated,
    lemma_lacks_concat, lemma_lines_end, lemma_lines_lack, lemma_lines_lack_newline, lemma_lines_of_join,
    lines, match_at, plain_line, replace_first, replace_first_chars, split_lines, subrange,
    to_chars, to_string, views,
};

verus! {

/// A source file: its path as staged or tracked, and its text.
#[derive(Debug)]
pub struct SourceFile {
    pub path: String,
    pub content: String,
}

impl View for SourceFile {
    type V = (Seq<char>, Seq<char>);

    open spec fn view(&self) -> (Seq<char>, Seq<char>) {
        (self.path@, self.content@)
    }
}

/// The views of a sequence of source files.
pub open spec fn source_views(v: Seq<SourceFile>) -> Seq<(Seq<char>, Seq<char>)> {
    v.map_values(|f: SourceFile| f@)
}

/// Whether a source file has the path `p`.
pub open spec fn path_is(p: Seq<char>) -> spec_fn((Seq<char>, Seq<char>)) -> bool {
    |f: (Seq<char>, Seq<char>)| f.0 == p
}

/// Whether some source file has the path `p`.
pub open spec fn has_path(files: Seq<(Seq<char>, Seq<char>)>, p: Seq<char>) -> bool {
    exists|k: int| 0 <= k < files.len() && #[trigger] files[k].0 == p
}

/// The text before the id's status in a marker: `<prefix><type>:<id>:`.
pub open spec fn status_pattern(prefix: Seq<char>, it: ItemView) -> Seq<char> {
    prefix + it.item_type + seq![':'] + decimal(it.id as nat) + seq![':']
}

/// How many characters at the start of `s` come before a space, tab or newline.
pub open spec fn status_len(s: Seq<char>) -> nat
    decreases s.len(),
{
    if s.len() > 0 && s[0] != ' ' && s[0] != '\t' && s[0] != '\n' {
        1 + status_len(s.drop_first())
    } else {
        0
    }
}

/// The line with the status of the marker of `it` set to `it.status`, when the
/// line holds the marker and the status differs; otherwise none.
pub open spec fn synced_line(line: Seq<char>, prefix: Seq<char>, it: ItemView) -> Option<Seq<char>> {
    let pat = status_pattern(prefix, it);
    match find(line, pat) {
        None => None,
        Some(pos) => {
            let after = line.skip(pos + pat.len());
            let old_status = after.take(status_len(after) as int);
            if old_status == it.status {
                None
            } else {
                Some(replace_first(line, pat + old_status, pat + it.status))
            }
        },
    }
}

/// Lines joined by newlines, with a final newline when `content` had one.
pub open spec fn rejoin(ls: Seq<Seq<char>>, content: Seq<char>) -> Seq<char> {
    if content.len() > 0 && content.last() == '\n' {
        join(ls, seq!['\n']) + seq!['\n']
    } else {
        join(ls, seq!['\n'])
    }
}

/// The text of a source file after the status of `it` is written into line `it.line`.
pub open spec fn synced_content(content: Seq<char>, prefix: Seq<char>, it: ItemView) -> Seq<char> {
    let ls = lines(content);
    if 1 <= it.line && it.line <= ls.len() {
        match synced_line(ls[it.line - 1], prefix, it) {
            Some(l) => rejoin(ls.update(it.line - 1, l), content),
            None => content,
        }
    } else {
        content
    }
}

/// The source files after the status of each item, in order, is written into
/// the first file with the item's path.
pub open spec fn synced_files(
    files: Seq<(Seq<char>, Seq<char>)>,
    items: Seq<ItemView>,
    prefix: Seq<char>,
) -> Seq<(Seq<char>, Seq<char>)>
    decreases items.len(),
{
    if items.len() == 0 {
        files
    } else {
        let fs = synced_files(files, items.drop_last(), prefix);
        let it = items.last();
        match first_from(fs, path_is(it.file), 0) {
            None => fs,
            Some(k) => fs.update(k, (fs[k].0, synced_content(fs[k].1, prefix, it))),
        }
    }
}

/// Whether every item whose file is present names a line from 1 on (line 0 has no index).
pub open spec fn lines_valid(files: Seq<(Seq<char>, Seq<char>)>, items: Seq<ItemView>) -> bool {
    forall|i: int| 0 <= i < items.len() ==> #[trigger] items[i].line >= 1 || !has_path(files, items[i].file)
}

/// The index of the first file with path `p`.
pub fn find_file(files: &Vec<SourceFile>, p: &Vec<char>) -> (r: Option<usize>)
    ensures
        r matches Some(k) ==> first_from(source_views(files@), path_is(p@), 0) == Some(k as int)
            && k < files@.len(),
        r is None ==> first_from(source_views(files@), path_is(p@), 0) is None,
{
    let ghost fv = source_views(files@);
    let ghost pr = path_is(p@);
    let mut i: usize = 0;
    while i < files.len()
        invariant
            i <= files@.len(),
            fv == source_views(files@),
            pr == path_is(p@),
            first_from(fv, pr, 0) == first_from(fv, pr, i as int),
        decreases files@.len() - i,
    {
        assert(fv[i as int] == files@[i as int]@);
        if chars_eq(&to_chars(files[i].path.as_str()), p) {
            return Some(i);
        }
        i = i + 1;
    }
    None
}

/// The characters before the first space, tab or newline of `s[start..]`.
fn status_token(s: &Vec<char>, start: usize) -> (r: Vec<char>)
    requires
        start <= s@.len(),
    ensures
        r@ == s@.skip(start as int).take(status_len(s@.skip(start as int)) as int),
{
    let mut i: usize = start;
    assert(s@.skip(start as int).skip(0) == s@.skip(start as int));
    while i < s.len() && s[i] != ' ' && s[i] != '\t' && s[i] != '\n'
        invariant
            start <= i <= s@.len(),
            status_len(s@.skip(start as int)) == (i - start) + status_len(s@.skip(i as int)),
        decreases s@.len() - i,
    {
        assert(s@.skip(i as int).drop_first() == s@.skip(i + 1));
        i = i + 1;
    }
    let r = subrange(s, start, i);
    assert(r@ == s@.skip(start as int).take(i - start));
    r
}

/// The text of a source file after the status of `item` is written into its line.
fn sync_content(content: &Vec<char>, prefix: &Vec<char>, item: &crate::db::DbItem) -> (r: Vec<char>)
    ensures
        r@ == synced_content(content@, prefix@, item@),
{
    let ls = split_lines(content);
    let ghost lv = views(ls@);
    if !(1 <= item.line && item.line <= ls.len()) {
        return subrange(content, 0, content.len());
    }
    let idx = item.line - 1;
    let line = &ls[idx];
    let mut pat = subrange(prefix, 0, prefix.len());
    extend(&mut pat, &to_chars(item.item_type.as_str()));
    pat.push(':');
    extend(&mut pat, &decimal_chars(item.id));
    pat.push(':');
    assert(pat@ == status_pattern(prefix@, item@));
    let pos = match find_chars(line, &pat) {
        Some(p) => p,
        None => return subrange(content, 0, content.len()),
    };
    proof {
        lemma_find_from_range(line@, pat@, 0);
    }
    let plen = pat.len();
    let llen = line.len();
    assert(pos + plen <= llen);
    let old_status = status_token(line, pos + plen);
    let status = to_chars(item.status.as_str());
    if chars_eq(&old_status, &status) {
        return subrange(content, 0, content.len());
    }
    let mut search = subrange(&pat, 0, pat.len());
    extend(&mut search, &old_status);
    let mut replace = pat;
    extend(&mut replace, &status);
    let new_line = replace_first_chars(line, &search, &replace);
    assert(lv[idx as int] == line@);
    assert(find(line@, status_pattern(prefix@, item@)) == Some(pos as int));
    assert(old_status@ == line@.skip(pos + plen).take(status_len(line@.skip(pos + plen)) as int));
    assert(old_status@ != item@.status);
    assert(search@ == status_pattern(prefix@, item@) + old_status@);
    assert(replace@ == status_pattern(prefix@, item@) + item@.status);
    assert(synced_line(line@, prefix@, item@) == Some(new_line@));
    let mut ls = ls;
    ls.set(idx, new_line);
    assert(views(ls@) =~= lv.update(idx as int, new_line@));
    let mut nl: Vec<char> = Vec::new();
    nl.push('\n');
    assert(nl@ == seq!['\n']);
    let mut r = join_chars(&ls, &nl);
    if content.len() > 0 && content[content.len() - 1] == '\n' {
        r.push('\n');
    }
    assert(r@ == rejoin(lv.update(idx as int, new_line@), content@));
    r
}

/// Writes the status of each tracked item into its source file: in the line
/// the item names, the first `<prefix><type>:<id>:<status>` has its status
/// replaced when it differs. Items whose file is not among `files` are
/// skipped; the first file with the item's path is the one changed.
pub fn update_source_files(files: &mut Vec<SourceFile>, db: &Database, marker_prefix: &str)
    requires
        lines_valid(source_views(old(files)@), db@.items),
    ensures
        source_views(final(files)@) == synced_files(source_views(old(files)@), db@.items, marker_prefix@),
{
    let prefix = to_chars(marker_prefix);
    let ghost items = db@.items;
    let ghost start = source_views(files@);
    let mut i: usize = 0;
    assert(items.take(0) =~= Seq::<ItemView>::empty());
    while i < db.items.len()
        invariant
            i <= db.items@.len(),
            items == db@.items,
            prefix@ == marker_prefix@,
            start == source_views(old(files)@),
            lines_valid(start, items),
            source_views(files@) == synced_files(start, items.take(i as int), prefix@),
            forall|k: int| 0 <= k < files@.len() ==> #[trigger] source_views(files@)[k].0 == start[k].0,
            files@.len() == start.len(),
        decreases db.items@.len() - i,
    {
        let item = &db.items[i];
        assert(items.take(i + 1).drop_last() == items.take(i as int));
        assert(items.take(i + 1).last() == item@);
        let ghost fs = source_views(files@);
        match find_file(files, &to_chars(item.file.as_str())) {
            None => {},
            Some(k) => {
                let new_content = sync_content(&to_chars(files[k].content.as_str()), &prefix, item);
                let path = files[k].path.clone();
                files.set(k, SourceFile { path, content: to_string(&new_content) });
                assert(source_views(files@) =~= fs.update(k as int, (fs[k as int].0, new_content@)));
            },
        }
        i = i + 1;
    }
    assert(items.take(db.items@.len() as int) == items);
}

/// Whether `c` ends a status: a space, tab or newline.
pub open spec fn ends_status(c: char) -> bool {
    c == ' ' || c == '\t' || c == '\n'
}

proof fn lemma_status_len_end(s: Seq<char>)
    ensures
        status_len(s) <= s.len(),
        status_len(s) < s.len() ==> ends_status(s[status_len(s) as int]),
    decreases s.len(),
{
    if s.len() > 0 && !ends_status(s[0]) {
        lemma_status_len_end(s.drop_first());
        if status_len(s) < s.len() {
            assert(s.drop_first()[status_len(s.drop_first()) as int] == s[status_len(s) as int]);
        }
    }
}

proof fn lemma_status_len_of(t: Seq<char>, rest: Seq<char>)
    requires
        forall|i: int| 0 <= i < t.len() ==> !ends_status(#[trigger] t[i]),
        rest.len() == 0 || ends_status(rest[0]),
    ensures
        status_len(t + rest) == t.len(),
    decreases t.len(),
{
    if t.len() == 0 {
        assert(t + rest =~= rest);
    } else {
        assert((t + rest)[0] == t[0]);
        assert((t + rest).drop_first() =~= t.drop_first() + rest);
        assert forall|i: int| 0 <= i < t.drop_first().len() implies !ends_status(#[trigger] t.drop_first()[i]) by {
            assert(t.drop_first()[i] == t[i + 1]);
        }
        lemma_status_len_of(t.drop_first(), rest);
    }
}

/// Writing the status of an item into a line that holds its marker replaces
/// the old status by the item's, and leaves nothing more to write: when the
/// status has no space, tab or newline.
pub proof fn lemma_status_written_once(line: Seq<char>, prefix: Seq<char>, it: ItemView)
    requires
        find(line, status_pattern(prefix, it)) is Some,
        forall|i: int| 0 <= i < it.status.len() ==> !ends_status(#[trigger] it.status[i]),
    ensures
        ({
            let pat = status_pattern(prefix, it);
            let pos = find(line, pat)->Some_0;
            let after = line.skip(pos + pat.len());
            let old_status = after.take(status_len(after) as int);
            &&& synced_line(line, prefix, it) is None <==> old_status == it.status
            &&& synced_line(line, prefix, it) matches Some(l) ==> l == line.take(pos) + pat + it.status
                + after.skip(old_status.len() as int) && synced_line(l, prefix, it) is None
        }),
{
    let pat = status_pattern(prefix, it);
    let pos = find(line, pat)->Some_0;
    lemma_find_from_range(line, pat, 0);
    let after = line.skip(pos + pat.len());
    lemma_status_len_end(after);
    let n = status_len(after) as int;
    let old_status = after.take(n);
    let rest = after.skip(n);
    if old_status != it.status {
        // The old marker with its status is first found where the pattern is.
        let search = pat + old_status;
        assert(line.subrange(pos, pos + search.len()) =~= search);
        assert forall|k: int| 0 <= k < pos implies !match_at(line, search, k) by {
            if match_at(line, search, k) {
                assert(line.subrange(k, k + pat.len()) =~= line.subrange(k, k + search.len()).take(pat.len() as int));
                assert(search.take(pat.len() as int) =~= pat);
                assert(match_at(line, pat, k));
            }
        }
        lemma_find_first(line, search, pos);
        let l = line.take(pos) + (pat + it.status) + line.skip(pos + search.len());
        assert(line.skip(pos + search.len()) =~= rest);
        assert(l =~= line.take(pos) + pat + it.status + rest);
        // The pattern is first found at the same place in the new line.
        assert(l.subrange(pos, pos + pat.len()) =~= pat);
        assert forall|k: int| 0 <= k < pos implies !match_at(l, pat, k) by {
            if match_at(l, pat, k) {
                assert(l.subrange(k, k + pat.len()) =~= line.subrange(k, k + pat.len()));
                assert(match_at(line, pat, k));
            }
        }
        lemma_find_first(l, pat, pos);
        assert(l.skip(pos + pat.len()) =~= it.status + rest);
        if rest.len() > 0 {
            assert(rest[0] == after[n]);
        }
        lemma_status_len_of(it.status, rest);
        assert((it.status + rest).take(it.status.len() as int) =~= it.status);
    }
}

/// Writing statuses changes only the contents of files that some item names:
/// the files keep their number, order and paths, and a file whose path no
/// item names keeps its text.
pub proof fn lemma_sync_touches_named_files(
    files: Seq<(Seq<char>, Seq<char>)>,
    items: Seq<ItemView>,
    prefix: Seq<char>,
)
    ensures
        synced_files(files, items, prefix).len() == files.len(),
        forall|k: int| 0 <= k < files.len() ==> (#[trigger] synced_files(files, items, prefix)[k]).0 == files[k].0,
        forall|k: int|
            0 <= k < files.len() && (forall|i: int| 0 <= i < items.len() ==> #[trigger] items[i].file != files[k].0)
                ==> (#[trigger] synced_files(files, items, prefix)[k]).1 == files[k].1,
    decreases items.len(),
{
    if items.len() > 0 {
        let prev = items.drop_last();
        lemma_sync_touches_named_files(files, prev, prefix);
        let fs = synced_files(files, prev, prefix);
        let it = items.last();
        lemma_first_from(fs, path_is(it.file), 0);
        assert forall|k: int|
            0 <= k < files.len() && (forall|i: int| 0 <= i < items.len() ==> #[trigger] items[i].file != files[k].0)
                implies (#[trigger] synced_files(files, items, prefix)[k]).1 == files[k].1 by {
            assert forall|i: int| 0 <= i < prev.len() implies #[trigger] prev[i].file != files[k].0 by {
                assert(prev[i] == items[i]);
            }
            assert(items[items.len() - 1].file != files[k].0);
        }
    }
}

/// Whether text ends with a newline.
pub open spec fn ends_in_newline(c: Seq<char>) -> bool {
    c.len() > 0 && c.last() == '\n'
}

/// Lines rejoined for a text read back as those lines, when each can stand as a
/// line, there are as many as the text had, and the last is not empty unless the
/// text ends with a newline; the new text ends with a newline exactly when the
/// old one did, and has no carriage return when neither the old one nor the lines
/// have one.
pub proof fn lemma_lines_rejoin(ls: Seq<Seq<char>>, content: Seq<char>)
    requires
        forall|i: int| 0 <= i < ls.len() ==> plain_line(#[trigger] ls[i]),
        ls.len() == lines(content).len(),
        !ends_in_newline(content) && ls.len() > 0 ==> ls.last().len() > 0,
    ensures
        lines(rejoin(ls, content)) == ls,
        ends_in_newline(rejoin(ls, content)) == ends_in_newline(content),
        (forall|i: int| 0 <= i < ls.len() ==> lacks(#[trigger] ls[i], '\r')) ==> lacks(rejoin(ls, content), '\r'),
{
    lemma_lines_end(content);
    lemma_lines_of_join(ls);
    if ls.len() > 0 {
        lemma_join_terminated(ls);
    }
    if !ends_in_newline(content) && ls.len() > 0 {
        let a = ls.drop_last();
        assert(join(ls, seq!['\n']).last() == ls.last().last());
        assert(plain_line(ls[ls.len() - 1]));
    }
    if forall|i: int| 0 <= i < ls.len() ==> lacks(#[trigger] ls[i], '\r') {
        lemma_join_lack(ls, seq!['\n'], '\r');
        lemma_lacks_concat(join(ls, seq!['\n']), seq!['\n'], '\r');
    }
}

/// Whether the status `s` can be written and found again: no space, tab,
/// newline or carriage return.
pub open spec fn plain_status(s: Seq<char>) -> bool {
    &&& forall|i: int| 0 <= i < s.len() ==> !ends_status(#[trigger] s[i])
    &&& lacks(s, '\r')
}

/// Writing the status of an item into a text without carriage returns keeps
/// every line but the item's, the number of lines, whether the text ends with a
/// newline, and the absence of carriage returns. When the item's line holds
/// its marker, that line becomes the line with the status replaced, and
/// writing the status again changes nothing.
pub proof fn lemma_status_written_in_text(c: Seq<char>, prefix: Seq<char>, it: ItemView)
    requires
        lacks(c, '\r'),
        plain_status(it.status),
    ensures
        ({
            let r = synced_content(c, prefix, it);
            &&& lacks(r, '\r')
            &&& lines(r).len() == lines(c).len()
            &&& ends_in_newline(r) == ends_in_newline(c)
            &&& forall|l: int| 0 <= l < lines(c).len() && l != it.line - 1 ==> #[trigger] lines(r)[l] == lines(c)[l]
        }),
        1 <= it.line <= lines(c).len() && find(lines(c)[it.line - 1], status_pattern(prefix, it)) is Some ==> ({
            let line = lines(c)[it.line - 1];
            let pat = status_pattern(prefix, it);
            let pos = find(line, pat)->Some_0;
            let after = line.skip(pos + pat.len());
            let old_status = after.take(status_len(after) as int);
            &&& lines(synced_content(c, prefix, it))[it.line - 1] == line.take(pos) + pat + it.status + after.skip(
                old_status.len() as int,
            )
            &&& synced_content(synced_content(c, prefix, it), prefix, it) == synced_content(c, prefix, it)
        }),
{
    let ls = lines(c);
    lemma_lines_lack_newline(c);
    lemma_lines_lack(c, '\r');
    if 1 <= it.line <= ls.len() {
        let i = it.line - 1;
        let line = ls[i];
        let pat = status_pattern(prefix, it);
        if find(line, pat) is Some {
            lemma_status_written_once(line, prefix, it);
            lemma_find_from_range(line, pat, 0);
            let pos = find(line, pat)->Some_0;
            let after = line.skip(pos + pat.len());
            lemma_status_len_end(after);
            let old_status = after.take(status_len(after) as int);
            let rest = after.skip(old_status.len() as int);
            let l2 = line.take(pos) + pat + it.status + rest;
            if old_status == it.status {
                assert(after =~= old_status + rest);
                assert(line =~= line.take(pos) + line.subrange(pos, pos + pat.len()) + after);
                assert(l2 =~= line);
            } else {
                // The new line has no newline or carriage return, and is not empty.
                assert(line.subrange(pos, pos + pat.len()) == pat);
                assert forall|k: int| 0 <= k < l2.len() implies l2[k] != '\n' && l2[k] != '\r' by {
                    let a = line.take(pos).len();
                    let b = a + pat.len();
                    let d = b + it.status.len();
                    if k < a {
                        assert(l2[k] == line[k]);
                    } else if k < b {
                        assert(l2[k] == pat[k - a]);
                        assert(pat[k - a] == line[pos + (k - a)]);
                    } else if k < d {
                        assert(l2[k] == it.status[k - b]);
                        assert(!ends_status(it.status[k - b]));
                    } else {
                        assert(l2[k] == rest[k - d]);
                        assert(rest[k - d] == line[pos + pat.len() + old_status.len() + (k - d)]);
                    }
                }
                if l2.len() > 0 {
                    assert(l2.last() == l2[l2.len() - 1]);
                }
                assert(pat.len() > 0) by {
                    assert(pat == prefix + it.item_type + seq![':'] + decimal(it.id as nat) + seq![':']);
                }
                let ls2 = ls.update(i, l2);
                assert forall|j: int| 0 <= j < ls2.len() implies plain_line(#[trigger] ls2[j]) && lacks(ls2[j], '\r') by {
                    if j != i {
                        assert(ls2[j] == ls[j]);
                    }
                }
                if !ends_in_newline(c) && ls2.len() > 0 {
                    lemma_lines_end(c);
                    if ls2.len() - 1 != i {
                        assert(ls2.last() == ls.last());
                    }
                }
                lemma_lines_rejoin(ls2, c);
                let r = synced_content(c, prefix, it);
                assert(r == rejoin(ls2, c));
                assert(lines(r)[i] == l2);
                assert(synced_line(l2, prefix, it) is None);
            }
        }
    }
}

/// Writing the statuses of the items into files without carriage returns
/// changes only the lines the items name: each file keeps its number of lines,
/// whether it ends with a newline, its lack of carriage returns, and every
/// line that no item with the file's path names.
pub proof fn lemma_sync_keeps_unnamed_lines(
    files: Seq<(Seq<char>, Seq<char>)>,
    items: Seq<ItemView>,
    prefix: Seq<char>,
)
    requires
        forall|k: int| 0 <= k < files.len() ==> lacks(#[trigger] files[k].1, '\r'),
        forall|i: int| 0 <= i < items.len() ==> plain_status(#[trigger] items[i].status),
    ensures
        synced_files(files, items, prefix).len() == files.len(),
        forall|k: int|
            0 <= k < files.len() ==> {
                let f = #[trigger] synced_files(files, items, prefix)[k];
                &&& f.0 == files[k].0
                &&& lacks(f.1, '\r')
                &&& lines(f.1).len() == lines(files[k].1).len()
                &&& ends_in_newline(f.1) == ends_in_newline(files[k].1)
                &&& forall|l: int|
                    0 <= l < lines(files[k].1).len() && (forall|i: int|
                        0 <= i < items.len() && items[i].file == files[k].0 ==> #[trigger] items[i].line != l + 1)
                        ==> #[trigger] lines(f.1)[l] == lines(files[k].1)[l]
            },
    decreases items.len(),
{
    lemma_sync_touches_named_files(files, items, prefix);
    if items.len() > 0 {
        let pv = items.drop_last();
        assert forall|i: int| 0 <= i < pv.len() implies plain_status(#[trigger] pv[i].status) by {
            assert(pv[i] == items[i]);
        }
        lemma_sync_keeps_unnamed_lines(files, pv, prefix);
        let fs = synced_files(files, pv, prefix);
        let it = items.last();
        assert(it == items[items.len() - 1]);
        lemma_first_from(fs, path_is(it.file), 0);
        let out = synced_files(files, items, prefix);
        match first_from(fs, path_is(it.file), 0) {
            None => {
                assert forall|k: int| 0 <= k < files.len() implies {
                    let f = #[trigger] synced_files(files, items, prefix)[k];
                    &&& f.0 == files[k].0
                    &&& lacks(f.1, '\r')
                    &&& lines(f.1).len() == lines(files[k].1).len()
                    &&& ends_in_newline(f.1) == ends_in_newline(files[k].1)
                    &&& forall|l: int|
                        0 <= l < lines(files[k].1).len() && (forall|i: int|
                            0 <= i < items.len() && items[i].file == files[k].0 ==> #[trigger] items[i].line != l + 1)
                            ==> #[trigger] lines(f.1)[l] == lines(files[k].1)[l]
                } by {
                    assert(out[k] == fs[k]);
                    assert forall|l: int|
                        0 <= l < lines(files[k].1).len() && (forall|i: int|
                            0 <= i < items.len() && items[i].file == files[k].0 ==> #[trigger] items[i].line != l + 1)
                            implies #[trigger] lines(out[k].1)[l] == lines(files[k].1)[l] by {
                        assert forall|i: int| 0 <= i < pv.len() && pv[i].file == files[k].0 implies #[trigger] pv[i].line != l + 1 by {
                            assert(pv[i] == items[i]);
                        }
                    }
                }
            },
            Some(kk) => {
                lemma_status_written_in_text(fs[kk].1, prefix, it);
                assert forall|k: int| 0 <= k < files.len() implies {
                    let f = #[trigger] synced_files(files, items, prefix)[k];
                    &&& f.0 == files[k].0
                    &&& lacks(f.1, '\r')
                    &&& lines(f.1).len() == lines(files[k].1).len()
                    &&& ends_in_newline(f.1) == ends_in_newline(files[k].1)
                    &&& forall|l: int|
                        0 <= l < lines(files[k].1).len() && (forall|i: int|
                            0 <= i < items.len() && items[i].file == files[k].0 ==> #[trigger] items[i].line != l + 1)
                            ==> #[trigger] lines(f.1)[l] == lines(files[k].1)[l]
                } by {
                    assert forall|l: int|
                        0 <= l < lines(files[k].1).len() && (forall|i: int|
                            0 <= i < items.len() && items[i].file == files[k].0 ==> #[trigger] items[i].line != l + 1)
                            implies #[trigger] lines(out[k].1)[l] == lines(files[k].1)[l] by {
                        assert forall|i: int| 0 <= i < pv.len() && pv[i].file == files[k].0 implies #[trigger] pv[i].line != l + 1 by {
                            assert(pv[i] == items[i]);
                        }
                        if k == kk {
                            assert(items[items.len() - 1].line != l + 1);
                        }
                    }
                }
            },
        }
    }
}

/// Files with the same paths in the same order have the same first file with a given path.
pub proof fn lemma_first_from_same_paths(
    a: Seq<(Seq<char>, Seq<char>)>,
    b: Seq<(Seq<char>, Seq<char>)>,
    p: Seq<char>,
    i: int,
)
    requires
        a.len() == b.len(),
        forall|k: int| 0 <= k < a.len() ==> (#[trigger] a[k]).0 == b[k].0,
    ensures
        first_from(a, path_is(p), i) == first_from(b, path_is(p), i),
    decreases a.len() - i,
{
    if 0 <= i < a.len() {
        assert(a[i].0 == b[i].0);
        lemma_first_from_same_paths(a, b, p, i + 1);
    }
}

/// Whether no two items name the same line of the same file.
pub open spec fn lines_distinct(items: Seq<ItemView>) -> bool {
    forall|i: int, j: int|
        0 <= i < j < items.len() ==> !(#[trigger] items[i].file == #[trigger] items[j].file && items[i].line == items[j].line)
}

/// The line that `it` names in text `c`, with the item's status written after
/// the first `<prefix><type>:<id>:` of that line, when it holds one.
pub open spec fn written_line(c: Seq<char>, prefix: Seq<char>, it: ItemView) -> Seq<char> {
    let line = lines(c)[it.line - 1];
    let pat = status_pattern(prefix, it);
    match find(line, pat) {
        Some(pos) => {
            let after = line.skip(pos + pat.len());
            let old_status = after.take(status_len(after) as int);
            line.take(pos) + pat + it.status + after.skip(old_status.len() as int)
        },
        None => line,
    }
}

/// What holds of the texts the statuses are written into.
pub open spec fn sync_inputs_plain(files: Seq<(Seq<char>, Seq<char>)>, items: Seq<ItemView>) -> bool {
    &&& forall|k: int| 0 <= k < files.len() ==> lacks(#[trigger] files[k].1, '\r')
    &&& forall|i: int| 0 <= i < items.len() ==> plain_status(#[trigger] items[i].status)
}

/// When no two items name the same line of a file, each item's line ends up
/// with the item's status written into the line as it was.
pub proof fn lemma_sync_writes_each_line(
    files: Seq<(Seq<char>, Seq<char>)>,
    items: Seq<ItemView>,
    prefix: Seq<char>,
)
    requires
        sync_inputs_plain(files, items),
        lines_distinct(items),
    ensures
        forall|i: int, k: int|
            0 <= i < items.len() && first_from(files, path_is(items[i].file), 0) == Some(k) && 1 <= items[i].line
                <= lines(files[k].1).len() ==> lines(#[trigger] synced_files(files, items, prefix)[k].1)[items[i].line - 1]
                == written_line(files[k].1, prefix, #[trigger] items[i]),
    decreases items.len(),
{
    if items.len() > 0 {
        let pv = items.drop_last();
        assert forall|i: int| 0 <= i < pv.len() implies plain_status(#[trigger] pv[i].status) by {
            assert(pv[i] == items[i]);
        }
        assert forall|i: int, j: int| 0 <= i < j < pv.len() implies !(#[trigger] pv[i].file == #[trigger] pv[j].file
            && pv[i].line == pv[j].line) by {
            assert(pv[i] == items[i]);
            assert(pv[j] == items[j]);
        }
        lemma_sync_writes_each_line(files, pv, prefix);
        lemma_sync_keeps_unnamed_lines(files, pv, prefix);
        lemma_sync_touches_named_files(files, pv, prefix);
        let fs = synced_files(files, pv, prefix);
        let it = items.last();
        assert(it == items[items.len() - 1]);
        lemma_first_from_same_paths(fs, files, it.file, 0);
        lemma_first_from(files, path_is(it.file), 0);
        let out = synced_files(files, items, prefix);
        assert forall|i: int, k: int|
            0 <= i < items.len() && first_from(files, path_is(items[i].file), 0) == Some(k) && 1 <= items[i].line
                <= lines(files[k].1).len() implies lines(#[trigger] out[k].1)[items[i].line - 1]
                == written_line(files[k].1, prefix, #[trigger] items[i]) by {
            lemma_first_from(files, path_is(items[i].file), 0);
            if i < pv.len() {
                assert(pv[i] == items[i]);
                match first_from(files, path_is(it.file), 0) {
                    Some(kk) => {
                        if kk == k {
                            lemma_status_written_in_text(fs[k].1, prefix, it);
                            assert(items[i].file == it.file);
                            assert(items[i].line != it.line);
                        }
                    },
                    None => {},
                }
            } else {
                let kk = k;
                assert forall|j: int| 0 <= j < pv.len() && pv[j].file == files[k].0 implies #[trigger] pv[j].line
                    != it.line by {
                    assert(pv[j] == items[j]);
                }
                assert(lines(fs[k].1)[it.line - 1] == lines(files[k].1)[it.line - 1]);
                lemma_status_written_in_text(fs[k].1, prefix, it);
                let line = lines(fs[k].1)[it.line - 1];
                let pat = status_pattern(prefix, it);
                if find(line, pat) is None {
                    assert(synced_content(fs[k].1, prefix, it) == fs[k].1);
                }
            }
        }
    }
}

/// Writing the statuses a second time changes nothing, when the texts have no
/// carriage return, the statuses no space, tab, newline or carriage return, every
/// item names a line from 1 on, and no two items name the same line of a file.
pub proof fn lemma_sync_twice(files: Seq<(Seq<char>, Seq<char>)>, items: Seq<ItemView>, prefix: Seq<char>)
    requires
        sync_inputs_plain(files, items),
        lines_distinct(items),
        forall|i: int| 0 <= i < items.len() ==> #[trigger] items[i].line >= 1,
    ensures
        synced_files(synced_files(files, items, prefix), items, prefix) == synced_files(files, items, prefix),
{
    let s1 = synced_files(files, items, prefix);
    lemma_sync_writes_each_line(files, items, prefix);
    lemma_sync_keeps_unnamed_lines(files, items, prefix);
    lemma_sync_touches_named_files(files, items, prefix);
    lemma_sync_twice_prefix(files, items, prefix, items.len() as int);
    assert(items.take(items.len() as int) =~= items);
}

proof fn lemma_sync_twice_prefix(files: Seq<(Seq<char>, Seq<char>)>, items: Seq<ItemView>, prefix: Seq<char>, n: int)
    requires
        0 <= n <= items.len(),
        sync_inputs_plain(files, items),
        lines_distinct(items),
        forall|i: int| 0 <= i < items.len() ==> #[trigger] items[i].line >= 1,
    ensures
        synced_files(synced_files(files, items, prefix), items.take(n), prefix) == synced_files(files, items, prefix),
    decreases n,
{
    let s1 = synced_files(files, items, prefix);
    if n == 0 {
        assert(items.take(0) =~= Seq::<ItemView>::empty());
    } else {
        lemma_sync_twice_prefix(files, items, prefix, n - 1);
        assert(items.take(n).drop_last() =~= items.take(n - 1));
        let it = items[n - 1];
        assert(items.take(n).last() == it);
        lemma_sync_writes_each_line(files, items, prefix);
        lemma_sync_keeps_unnamed_lines(files, items, prefix);
        lemma_sync_touches_named_files(files, items, prefix);
        lemma_first_from_same_paths(s1, files, it.file, 0);
        lemma_first_from(files, path_is(it.file), 0);
        match first_from(files, path_is(it.file), 0) {
            None => {},
            Some(k) => {
                let c = s1[k].1;
                if 1 <= it.line <= lines(c).len() {
                    let orig = lines(files[k].1)[it.line - 1];
                    assert(lines(c)[it.line - 1] == written_line(files[k].1, prefix, it));
                    let pat = status_pattern(prefix, it);
                    assert(plain_status(items[n - 1].status));
                    if find(orig, pat) is Some {
                        lemma_status_written_once(orig, prefix, it);
                        lemma_find_from_range(orig, pat, 0);
                        let pos = find(orig, pat)->Some_0;
                        let after = orig.skip(pos + pat.len());
                        lemma_status_len_end(after);
                        let old_status = after.take(status_len(after) as int);
                        if old_status == it.status {
                            assert(after =~= old_status + after.skip(old_status.len() as int));
                            assert(orig =~= orig.take(pos) + orig.subrange(pos, pos + pat.len()) + after);
                            assert(written_line(files[k].1, prefix, it) =~= orig);
                        }
                    }
                    assert(synced_line(lines(c)[it.line - 1], prefix, it) is None);
                }
                assert(synced_content(c, prefix, it) == c);
                assert(s1.update(k, (s1[k].0, c)) =~= s1);
            },
        }
    }
}

/// Whether `q` occurs somewhere in `s`.
pub open spec fn occurs(s: Seq<char>, q: Seq<char>) -> bool {
    exists|p: int| match_at(s, q, p)
}

/// Each item's status is written in its turn, also when other items name the
/// same line: when, after the items before it, the item's line still holds
/// `<prefix><type>:<id>:`, then after the item that line holds
/// `<prefix><type>:<id>:<status>` (for texts without carriage returns and
/// statuses without space, tab, newline or carriage return).
pub proof fn lemma_sync_writes_in_turn(files: Seq<(Seq<char>, Seq<char>)>, items: Seq<ItemView>, prefix: Seq<char>)
    requires
        sync_inputs_plain(files, items),
    ensures
        forall|i: int, k: int|
            0 <= i < items.len() && first_from(files, path_is(items[i].file), 0) == Some(k) && 1 <= items[i].line
                <= lines(files[k].1).len() && occurs(
                lines(synced_files(files, items.take(i), prefix)[k].1)[items[i].line - 1],
                status_pattern(prefix, items[i]),
            ) ==> occurs(
                lines(#[trigger] synced_files(files, items.take(i + 1), prefix)[k].1)[items[i].line - 1],
                status_pattern(prefix, items[i]) + items[i].status,
            ),
{
    assert forall|i: int, k: int|
        0 <= i < items.len() && first_from(files, path_is(items[i].file), 0) == Some(k) && 1 <= items[i].line
            <= lines(files[k].1).len() && occurs(
            lines(synced_files(files, items.take(i), prefix)[k].1)[items[i].line - 1],
            status_pattern(prefix, items[i]),
        ) implies occurs(
            lines(#[trigger] synced_files(files, items.take(i + 1), prefix)[k].1)[items[i].line - 1],
            status_pattern(prefix, items[i]) + items[i].status,
        ) by {
        let pv = items.take(i);
        let it = items[i];
        assert(items.take(i + 1).drop_last() =~= pv);
        assert(items.take(i + 1).last() == it);
        assert forall|j: int| 0 <= j < pv.len() implies plain_status(#[trigger] pv[j].status) by {
            assert(pv[j] == items[j]);
        }
        lemma_sync_keeps_unnamed_lines(files, pv, prefix);
        lemma_sync_touches_named_files(files, pv, prefix);
        let fs = synced_files(files, pv, prefix);
        lemma_first_from_same_paths(fs, files, it.file, 0);
        lemma_first_from(files, path_is(it.file), 0);
        assert(0 <= k < files.len());
        let fk = synced_files(files, pv, prefix)[k];
        assert(lacks(fk.1, '\r'));
        assert(lines(fs[k].1).len() == lines(files[k].1).len());
        let line = lines(fs[k].1)[it.line - 1];
        let pat = status_pattern(prefix, it);
        let w = choose|p: int| match_at(line, pat, p);
        lemma_find_from_range(line, pat, 0);
        assert(find(line, pat) is Some);
        lemma_status_written_in_text(fs[k].1, prefix, it);
        let pos = find(line, pat)->Some_0;
        let after = line.skip(pos + pat.len());
        lemma_status_len_end(after);
        let old_status = after.take(status_len(after) as int);
        let l2 = line.take(pos) + pat + it.status + after.skip(old_status.len() as int);
        assert(l2.subrange(pos, pos + (pat + it.status).len()) =~= pat + it.status);
        assert(match_at(l2, pat + it.status, pos));
        let out = synced_files(files, items.take(i + 1), prefix);
        assert(out[k].1 == synced_content(fs[k].1, prefix, it));
    }
}

} // verus!
