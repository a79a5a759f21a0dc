//! Giving ids to new markers in staged files and tracking them.
use vstd::prelude::*;

use crate::db::{item_views, string_views, Database, DbItem, ItemView};
use crate::scanner::{
    hit_end, hits_in_lines, lemma_hits_in_lines_order, lemma_hits_in_lines_text, scan_lines, Hit,
};
use crate::schema::{first_from, lemma_first_from};
use crate::sync::{
    ends_in_newline, find_file, lemma_first_from_same_paths, lemma_lines_rejoin, path_is, rejoin,
    source_views, SourceFile,
};
use crate::text::{
    match_at, decimal, decimal_chars, extend, is_piece, join_chars, lemma_encode_utf8_concat,
    lemma_utf8_len_piece, lines, split_lines, subrange, to_chars, to_string, trim, trim_chars,
    utf8_len, views, lacks, lemma_digits_lack, lemma_lacks_concat, lemma_lines_end, lemma_lines_lack,
    lemma_lines_lack_newline, plain_line,
};

verus! {

/// The status of a newly tracked marker.
pub open spec fn open_status() -> Seq<char> {
    seq!['o', 'p', 'e', 'n']
}

/// Gives id `id` to the new marker `h` of line `h.0`: in the current lines
/// `ls`, the `<prefix><type>` that stands at the marker's position becomes
/// `<prefix><type>:<id>:open`, and the item tracks the text after the marker.
/// Markers are numbered last first, so the text before the marker's position
/// is still as scanned. `orig` are the lines as scanned, which give the column.
pub open spec fn assign_one(
    orig: Seq<Seq<char>>,
    ls: Seq<Seq<char>>,
    h: (int, Hit),
    id: int,
    prefix: Seq<char>,
    file: Seq<char>,
) -> (Seq<Seq<char>>, Seq<ItemView>) {
    let li = h.0;
    if 0 <= li < ls.len() && li < orig.len() {
        let line = ls[li];
        let old_marker = prefix + h.1.marker_type;
        let new_marker = old_marker + seq![':'] + decimal(id as nat) + seq![':'] + open_status();
        let start = h.1.pos + old_marker.len();
        let fits = 0 <= h.1.pos && start <= line.len();
        let new_line = if fits {
            line.take(h.1.pos) + new_marker + line.skip(start)
        } else {
            line
        };
        let after = if fits {
            trim(line.skip(start))
        } else {
            seq![]
        };
        (
            ls.update(li, new_line),
            seq![
                ItemView {
                    id: id as u64,
                    item_type: h.1.marker_type,
                    file,
                    line: (li + 1) as usize,
                    column: (utf8_len(orig[li].take(h.1.pos)) + 1) as usize,
                    status: open_status(),
                    content: after,
                },
            ],
        )
    } else {
        (ls, seq![])
    }
}

/// The lines, the last id given out, and the new items, after the markers `hs`
/// without an id get ids, the last marker first; the items come in the order
/// of their markers.
pub open spec fn assign_state(
    orig: Seq<Seq<char>>,
    ls: Seq<Seq<char>>,
    hs: Seq<(int, Hit)>,
    c: int,
    prefix: Seq<char>,
    file: Seq<char>,
) -> (Seq<Seq<char>>, int, Seq<ItemView>)
    decreases hs.len(),
{
    if hs.len() == 0 {
        (ls, c, seq![])
    } else if hs.last().1.has_id {
        assign_state(orig, ls, hs.drop_last(), c, prefix, file)
    } else {
        let one = assign_one(orig, ls, hs.last(), c + 1, prefix, file);
        let rest = assign_state(orig, one.0, hs.drop_last(), c + 1, prefix, file);
        (rest.0, rest.1, rest.2 + one.1)
    }
}

/// How many of the markers `hs` have no id.
pub open spec fn new_count(hs: Seq<(int, Hit)>) -> nat
    decreases hs.len(),
{
    if hs.len() == 0 {
        0
    } else if hs.last().1.has_id {
        new_count(hs.drop_last())
    } else {
        new_count(hs.drop_last()) + 1
    }
}

/// The text of file `file`, the last id given out, and the new items, after
/// the markers of `content` without an id get ids from `c + 1` on.
pub open spec fn assign_content(content: Seq<char>, file: Seq<char>, c: int, prefix: Seq<char>) -> (
    Seq<char>,
    int,
    Seq<ItemView>,
) {
    let ls = lines(content);
    let st = assign_state(ls, ls, hits_in_lines(ls, prefix), c, prefix, file);
    (rejoin(st.0, content), st.1, st.2)
}

/// The files, the last id given out, and the new items, after each staged
/// path in turn has the markers of its first file given ids; paths with no
/// file are skipped.
pub open spec fn assign_files(
    files: Seq<(Seq<char>, Seq<char>)>,
    staged: Seq<Seq<char>>,
    c: int,
    prefix: Seq<char>,
) -> (Seq<(Seq<char>, Seq<char>)>, int, Seq<ItemView>)
    decreases staged.len(),
{
    if staged.len() == 0 {
        (files, c, seq![])
    } else {
        let r = assign_files(files, staged.drop_last(), c, prefix);
        let p = staged.last();
        match first_from(r.0, path_is(p), 0) {
            None => r,
            Some(k) => {
                let a = assign_content(r.0[k].1, p, r.1, prefix);
                (r.0.update(k, (r.0[k].0, a.0)), a.1, r.2 + a.2)
            },
        }
    }
}

/// Giving ids in one file advances the last id by the number of markers without one.
pub proof fn lemma_assign_state_counter(
    orig: Seq<Seq<char>>,
    ls: Seq<Seq<char>>,
    hs: Seq<(int, Hit)>,
    c: int,
    prefix: Seq<char>,
    file: Seq<char>,
)
    ensures
        assign_state(orig, ls, hs, c, prefix, file).1 == c + new_count(hs),
    decreases hs.len(),
{
    if hs.len() > 0 {
        if hs.last().1.has_id {
            lemma_assign_state_counter(orig, ls, hs.drop_last(), c, prefix, file);
        } else {
            let one = assign_one(orig, ls, hs.last(), c + 1, prefix, file);
            lemma_assign_state_counter(orig, one.0, hs.drop_last(), c + 1, prefix, file);
        }
    }
}

/// The last id given out never goes down as more staged paths are handled.
pub proof fn lemma_assign_files_counter_grows(
    files: Seq<(Seq<char>, Seq<char>)>,
    staged: Seq<Seq<char>>,
    c: int,
    prefix: Seq<char>,
    i: int,
)
    requires
        0 <= i <= staged.len(),
    ensures
        assign_files(files, staged.take(i), c, prefix).1 <= assign_files(files, staged, c, prefix).1,
        c <= assign_files(files, staged, c, prefix).1,
    decreases staged.len(),
{
    if staged.len() > 0 {
        let r = assign_files(files, staged.drop_last(), c, prefix);
        if i < staged.len() {
            assert(staged.drop_last().take(i) == staged.take(i));
            lemma_assign_files_counter_grows(files, staged.drop_last(), c, prefix, i);
        } else {
            assert(staged.take(i) == staged);
            lemma_assign_files_counter_grows(files, staged.drop_last(), c, prefix, 0);
        }
        let p = staged.last();
        match first_from(r.0, path_is(p), 0) {
            None => {},
            Some(k) => {
                let ls = lines(r.0[k].1);
                lemma_assign_state_counter(ls, ls, hits_in_lines(ls, prefix), r.1, prefix, p);
            },
        }
    } else {
        assert(staged.take(i) == staged);
    }
}

/// Giving ids changes only the contents of staged files: the files keep their
/// number, order and paths, and a file whose path is not staged keeps its text.
pub proof fn lemma_ids_touch_staged_files(
    files: Seq<(Seq<char>, Seq<char>)>,
    staged: Seq<Seq<char>>,
    c: int,
    prefix: Seq<char>,
)
    ensures
        assign_files(files, staged, c, prefix).0.len() == files.len(),
        forall|k: int| 0 <= k < files.len() ==> (#[trigger] assign_files(files, staged, c, prefix).0[k]).0 == files[k].0,
        forall|k: int|
            0 <= k < files.len() && !staged.contains(files[k].0) ==> (#[trigger] assign_files(
                files,
                staged,
                c,
                prefix,
            ).0[k]).1 == files[k].1,
    decreases staged.len(),
{
    if staged.len() > 0 {
        let prev = staged.drop_last();
        lemma_ids_touch_staged_files(files, prev, c, prefix);
        let r = assign_files(files, prev, c, prefix);
        let p = staged.last();
        lemma_first_from(r.0, path_is(p), 0);
        assert forall|k: int| 0 <= k < files.len() && !staged.contains(files[k].0) implies (#[trigger] assign_files(
            files,
            staged,
            c,
            prefix,
        ).0[k]).1 == files[k].1 by {
            if prev.contains(files[k].0) {
                let i = choose|i: int| 0 <= i < prev.len() && prev[i] == files[k].0;
                assert(staged[i] == prev[i]);
            }
            assert(staged[staged.len() - 1] == p);
        }
    }
}

/// Whether the markers `hs` of the lines `ls` lie in their lines, two markers
/// of one line in order, the first ending before the second begins.
pub open spec fn hits_fit(orig: Seq<Seq<char>>, ls: Seq<Seq<char>>, hs: Seq<(int, Hit)>, prefix: Seq<char>) -> bool {
    &&& forall|j: int|
        0 <= j < hs.len() ==> {
            let h = #[trigger] hs[j];
            &&& 0 <= h.0 < ls.len()
            &&& h.0 < orig.len()
            &&& 0 <= h.1.pos
            &&& hit_end(h.1, prefix) <= ls[h.0].len()
        }
    &&& forall|i: int, j: int|
        0 <= i < j < hs.len() && (#[trigger] hs[i]).0 == (#[trigger] hs[j]).0 ==> hit_end(hs[i].1, prefix)
            <= hs[j].1.pos
}

proof fn lemma_assign_state_exact(
    orig: Seq<Seq<char>>,
    ls: Seq<Seq<char>>,
    hs: Seq<(int, Hit)>,
    c: int,
    prefix: Seq<char>,
    file: Seq<char>,
)
    requires
        hits_fit(orig, ls, hs, prefix),
    ensures
        ({
            let r = assign_state(orig, ls, hs, c, prefix, file);
            &&& r.2.len() == new_count(hs)
            &&& forall|i: int| 0 <= i < r.2.len() ==> (#[trigger] r.2[i]).status == open_status() && r.2[i].file == file
        }),
    decreases hs.len(),
{
    if hs.len() > 0 {
        let a = hs.drop_last();
        let last = hs.last();
        assert(last == hs[hs.len() - 1]);
        if last.1.has_id {
            assert(hits_fit(orig, ls, a, prefix)) by {
                assert forall|j: int| 0 <= j < a.len() implies #[trigger] a[j] == hs[j] by {}
            }
            lemma_assign_state_exact(orig, ls, a, c, prefix, file);
        } else {
            let one = assign_one(orig, ls, last, c + 1, prefix, file);
            let li = last.0;
            let line = ls[li];
            let om = prefix + last.1.marker_type;
            let nm = om + seq![':'] + decimal((c + 1) as nat) + seq![':'] + open_status();
            let start = last.1.pos + om.len();
            let nl = line.take(last.1.pos) + nm + line.skip(start);
            assert(one.0 == ls.update(li, nl));
            assert(one.1.len() == 1);
            assert(hits_fit(orig, one.0, a, prefix)) by {
                assert forall|j: int| 0 <= j < a.len() implies {
                    let h = #[trigger] a[j];
                    &&& 0 <= h.0 < one.0.len()
                    &&& h.0 < orig.len()
                    &&& 0 <= h.1.pos
                    &&& hit_end(h.1, prefix) <= one.0[h.0].len()
                } by {
                    assert(a[j] == hs[j]);
                    if hs[j].0 == li {
                        assert(hit_end(hs[j].1, prefix) <= hs[hs.len() - 1].1.pos);
                    }
                }
                assert forall|i: int, j: int|
                    0 <= i < j < a.len() && (#[trigger] a[i]).0 == (#[trigger] a[j]).0 implies hit_end(a[i].1, prefix)
                        <= a[j].1.pos by {
                    assert(a[i] == hs[i]);
                    assert(a[j] == hs[j]);
                }
            }
            lemma_assign_state_exact(orig, one.0, a, c + 1, prefix, file);
            let rest = assign_state(orig, one.0, a, c + 1, prefix, file);
            let all = rest.2 + one.1;
            assert forall|i: int| 0 <= i < all.len() implies (#[trigger] all[i]).status == open_status() && all[i].file == file by {
                if i < rest.2.len() {
                    assert(all[i] == rest.2[i]);
                } else {
                    assert(all[i] == one.1[i - rest.2.len()]);
                }
            }
        }
    }
}

/// New items are exactly one per marker without an id: as many as the last id
/// given out advanced, with ids from `c + 1` to the new last id, each once, each
/// with status `open` and the path of a staged file.
pub proof fn lemma_new_items_exact(
    files: Seq<(Seq<char>, Seq<char>)>,
    staged: Seq<Seq<char>>,
    c: u64,
    prefix: Seq<char>,
)
    requires
        prefix.len() > 0,
        assign_files(files, staged, c as int, prefix).1 <= u64::MAX,
    ensures
        ({
            let r = assign_files(files, staged, c as int, prefix);
            &&& r.2.len() == r.1 - c
            &&& ids_unique(r.2)
            &&& forall|i: int| 0 <= i < r.2.len() ==> c < (#[trigger] r.2[i]).id <= r.1
            &&& forall|i: int| 0 <= i < r.2.len() ==> (#[trigger] r.2[i]).status == open_status() && staged.contains(r.2[i].file)
        }),
    decreases staged.len(),
{
    let r = assign_files(files, staged, c as int, prefix);
    lemma_new_ids_fresh(files, staged, Seq::<ItemView>::empty(), c, prefix);
    assert(Seq::<ItemView>::empty() + r.2 =~= r.2);
    lemma_assign_files_counter_grows(files, staged, c as int, prefix, 0);
    if staged.len() > 0 {
        let pv = staged.drop_last();
        assert(staged.take(staged.len() - 1) == pv);
        lemma_assign_files_counter_grows(files, staged, c as int, prefix, staged.len() - 1);
        lemma_new_items_exact(files, pv, c, prefix);
        let prev = assign_files(files, pv, c as int, prefix);
        let p = staged.last();
        assert forall|i: int| 0 <= i < prev.2.len() implies staged.contains(#[trigger] prev.2[i].file) by {
            let k = choose|k: int| 0 <= k < pv.len() && pv[k] == prev.2[i].file;
            assert(staged[k] == pv[k]);
        }
        assert(staged[staged.len() - 1] == p);
        match first_from(prev.0, path_is(p), 0) {
            None => {},
            Some(k) => {
                let ls = lines(prev.0[k].1);
                let hs = hits_in_lines(ls, prefix);
                lemma_hits_in_lines_order(ls, prefix);
                lemma_assign_state_exact(ls, ls, hs, prev.1, prefix, p);
                lemma_assign_state_counter(ls, ls, hs, prev.1, prefix, p);
                lemma_assign_state_ids(ls, ls, hs, prev.1, prefix, p);
                let st = assign_state(ls, ls, hs, prev.1, prefix, p);
                assert(r.2 =~= prev.2 + st.2);
                assert forall|i: int| 0 <= i < r.2.len() implies c < (#[trigger] r.2[i]).id && (#[trigger] r.2[i]).status == open_status()
                    && staged.contains(r.2[i].file) by {
                    if i < prev.2.len() {
                        assert(r.2[i] == prev.2[i]);
                    } else {
                        assert(r.2[i] == st.2[i - prev.2.len()]);
                    }
                }
            },
        }
    }
}

/// Whether no marker without an id among `hs` stands on line `l` before
/// position `q`.
pub open spec fn no_new_marker_before(hs: Seq<(int, Hit)>, l: int, q: int) -> bool {
    forall|j: int| 0 <= j < hs.len() && (#[trigger] hs[j]).0 == l && !hs[j].1.has_id ==> q <= hs[j].1.pos
}

/// Whether every marker among `hs` on line `l` has an id.
pub open spec fn no_new_marker_on(hs: Seq<(int, Hit)>, l: int) -> bool {
    forall|j: int| 0 <= j < hs.len() && (#[trigger] hs[j]).0 == l ==> hs[j].1.has_id
}

/// Giving ids keeps the text of each line before its first marker without an
/// id, and so keeps a line that has none, with every marker that already has
/// an id before that point.
pub proof fn lemma_ids_keep_earlier_text(
    orig: Seq<Seq<char>>,
    ls: Seq<Seq<char>>,
    hs: Seq<(int, Hit)>,
    c: int,
    prefix: Seq<char>,
    file: Seq<char>,
)
    ensures
        ({
            let r = assign_state(orig, ls, hs, c, prefix, file).0;
            &&& r.len() == ls.len()
            &&& forall|l: int, q: int|
                0 <= l < ls.len() && 0 <= q <= ls[l].len() && no_new_marker_before(hs, l, q) ==> #[trigger] r[l].take(q)
                    == ls[l].take(q)
            &&& forall|l: int| 0 <= l < ls.len() && no_new_marker_on(hs, l) ==> #[trigger] r[l] == ls[l]
        }),
    decreases hs.len(),
{
    if hs.len() > 0 {
        let a = hs.drop_last();
        let last = hs.last();
        assert(last == hs[hs.len() - 1]);
        assert forall|l: int, q: int| #[trigger] no_new_marker_before(hs, l, q) implies no_new_marker_before(a, l, q) by {
            assert forall|j: int| 0 <= j < a.len() && (#[trigger] a[j]).0 == l && !a[j].1.has_id implies q <= a[j].1.pos by {
                assert(a[j] == hs[j]);
            }
        }
        assert forall|l: int| #[trigger] no_new_marker_on(hs, l) implies no_new_marker_on(a, l) by {
            assert forall|j: int| 0 <= j < a.len() && (#[trigger] a[j]).0 == l implies a[j].1.has_id by {
                assert(a[j] == hs[j]);
            }
        }
        if last.1.has_id {
            lemma_ids_keep_earlier_text(orig, ls, a, c, prefix, file);
        } else {
            let one = assign_one(orig, ls, last, c + 1, prefix, file);
            lemma_ids_keep_earlier_text(orig, one.0, a, c + 1, prefix, file);
            let r = assign_state(orig, ls, hs, c, prefix, file).0;
            assert(r == assign_state(orig, one.0, a, c + 1, prefix, file).0);
            assert forall|l: int, q: int|
                0 <= l < ls.len() && 0 <= q <= ls[l].len() && no_new_marker_before(hs, l, q) implies #[trigger] r[l].take(q)
                    == ls[l].take(q) by {
                if l == last.0 {
                    assert(q <= last.1.pos);
                    assert(one.0[l].take(q) =~= ls[l].take(q));
                }
            }
            assert forall|l: int| 0 <= l < ls.len() && no_new_marker_on(hs, l) implies #[trigger] r[l] == ls[l] by {
                if l == last.0 {
                    assert(hs[hs.len() - 1].1.has_id);
                }
            }
        }
    }
}

/// The number of markers without an id in the first file with path `p`, or 0
/// when no file has it.
pub open spec fn new_markers_in(files: Seq<(Seq<char>, Seq<char>)>, p: Seq<char>, prefix: Seq<char>) -> nat {
    match first_from(files, path_is(p), 0) {
        Some(k) => new_count(hits_in_lines(lines(files[k].1), prefix)),
        None => 0,
    }
}

/// The number of markers without an id over the files of the staged paths.
pub open spec fn new_markers(files: Seq<(Seq<char>, Seq<char>)>, staged: Seq<Seq<char>>, prefix: Seq<char>) -> nat
    decreases staged.len(),
{
    if staged.len() == 0 {
        0
    } else {
        new_markers(files, staged.drop_last(), prefix) + new_markers_in(files, staged.last(), prefix)
    }
}

/// When no path is staged twice, the last id given out advances by the number
/// of markers without an id in the staged files as they were, and as many new
/// items are tracked.
pub proof fn lemma_counter_counts_new_markers(
    files: Seq<(Seq<char>, Seq<char>)>,
    staged: Seq<Seq<char>>,
    c: int,
    prefix: Seq<char>,
)
    requires
        prefix.len() > 0,
        staged.no_duplicates(),
    ensures
        assign_files(files, staged, c, prefix).1 == c + new_markers(files, staged, prefix),
        assign_files(files, staged, c, prefix).2.len() == new_markers(files, staged, prefix),
    decreases staged.len(),
{
    if staged.len() > 0 {
        let pv = staged.drop_last();
        let p = staged.last();
        assert(pv.no_duplicates()) by {
            assert forall|i: int, j: int| 0 <= i < pv.len() && 0 <= j < pv.len() && i != j implies pv[i] != pv[j] by {
                assert(pv[i] == staged[i]);
                assert(pv[j] == staged[j]);
            }
        }
        assert(!pv.contains(p)) by {
            if pv.contains(p) {
                let i = choose|i: int| 0 <= i < pv.len() && pv[i] == p;
                assert(staged[i] == staged[staged.len() - 1]);
            }
        }
        lemma_counter_counts_new_markers(files, pv, c, prefix);
        lemma_ids_touch_staged_files(files, pv, c, prefix);
        let r = assign_files(files, pv, c, prefix);
        lemma_first_from_same_paths(r.0, files, p, 0);
        lemma_first_from(files, path_is(p), 0);
        match first_from(files, path_is(p), 0) {
            None => {},
            Some(k) => {
                assert(files[k].0 == p);
                assert(r.0[k].1 == files[k].1);
                let ls = lines(files[k].1);
                let hs = hits_in_lines(ls, prefix);
                lemma_assign_state_counter(ls, ls, hs, r.1, prefix, p);
                lemma_hits_in_lines_order(ls, prefix);
                lemma_assign_state_exact(ls, ls, hs, r.1, prefix, p);
            },
        }
    }
}

/// Whether every item has an id of at most `c`.
pub open spec fn ids_at_most(items: Seq<ItemView>, c: int) -> bool {
    forall|i: int| 0 <= i < items.len() ==> #[trigger] items[i].id <= c
}

/// Whether no two items have the same id.
pub open spec fn ids_unique(items: Seq<ItemView>) -> bool {
    forall|i: int, j: int| 0 <= i < j < items.len() ==> #[trigger] items[i].id != #[trigger] items[j].id
}

proof fn lemma_assign_state_ids(
    orig: Seq<Seq<char>>,
    ls: Seq<Seq<char>>,
    hs: Seq<(int, Hit)>,
    c: int,
    prefix: Seq<char>,
    file: Seq<char>,
)
    requires
        0 <= c,
        assign_state(orig, ls, hs, c, prefix, file).1 <= u64::MAX,
    ensures
        ({
            let r = assign_state(orig, ls, hs, c, prefix, file);
            &&& c <= r.1
            &&& forall|i: int| 0 <= i < r.2.len() ==> c < #[trigger] r.2[i].id <= r.1
            &&& forall|i: int, j: int| 0 <= i < j < r.2.len() ==> #[trigger] r.2[i].id > #[trigger] r.2[j].id
        }),
    decreases hs.len(),
{
    lemma_assign_state_counter(orig, ls, hs, c, prefix, file);
    if hs.len() > 0 {
        if hs.last().1.has_id {
            lemma_assign_state_ids(orig, ls, hs.drop_last(), c, prefix, file);
        } else {
            let one = assign_one(orig, ls, hs.last(), c + 1, prefix, file);
            lemma_assign_state_counter(orig, one.0, hs.drop_last(), c + 1, prefix, file);
            lemma_assign_state_ids(orig, one.0, hs.drop_last(), c + 1, prefix, file);
            let rest = assign_state(orig, one.0, hs.drop_last(), c + 1, prefix, file);
            let all = rest.2 + one.1;
            assert forall|i: int| 0 <= i < all.len() implies c < #[trigger] all[i].id <= rest.1 by {
                if i < rest.2.len() {
                    assert(all[i] == rest.2[i]);
                } else {
                    assert(all[i] == one.1[i - rest.2.len()]);
                }
            }
            assert forall|i: int, j: int| 0 <= i < j < all.len() implies #[trigger] all[i].id > #[trigger] all[j].id by {
                if j < rest.2.len() {
                    assert(all[i] == rest.2[i]);
                    assert(all[j] == rest.2[j]);
                } else {
                    assert(all[i] == rest.2[i]);
                    assert(all[j] == one.1[j - rest.2.len()]);
                }
            }
        }
    }
}

/// Ids given out are new: when the tracked items have distinct ids of at most
/// the last id given out `c`, the items after [`update_files_with_ids`] still
/// have distinct ids, of at most the new last id, which is not below `c`.
pub proof fn lemma_new_ids_fresh(
    files: Seq<(Seq<char>, Seq<char>)>,
    staged: Seq<Seq<char>>,
    items: Seq<ItemView>,
    c: u64,
    prefix: Seq<char>,
)
    requires
        ids_unique(items),
        ids_at_most(items, c as int),
        assign_files(files, staged, c as int, prefix).1 <= u64::MAX,
    ensures
        ({
            let r = assign_files(files, staged, c as int, prefix);
            &&& c <= r.1
            &&& ids_unique(items + r.2)
            &&& ids_at_most(items + r.2, r.1)
        }),
    decreases staged.len(),
{
    lemma_assign_files_counter_grows(files, staged, c as int, prefix, 0);
    if staged.len() > 0 {
        let prev = assign_files(files, staged.drop_last(), c as int, prefix);
        assert(staged.take(staged.len() - 1) == staged.drop_last());
        lemma_assign_files_counter_grows(files, staged, c as int, prefix, staged.len() - 1);
        lemma_new_ids_fresh(files, staged.drop_last(), items, c, prefix);
        let p = staged.last();
        match first_from(prev.0, path_is(p), 0) {
            None => {},
            Some(k) => {
                let ls = lines(prev.0[k].1);
                let hs = hits_in_lines(ls, prefix);
                let st = assign_state(ls, ls, hs, prev.1, prefix, p);
                lemma_assign_state_ids(ls, ls, hs, prev.1, prefix, p);
                let old_all = items + prev.2;
                let all = items + (prev.2 + st.2);
                assert(all =~= old_all + st.2);
                assert forall|i: int| 0 <= i < all.len() implies #[trigger] all[i].id <= st.1 by {
                    if i < old_all.len() {
                        assert(all[i] == old_all[i]);
                    } else {
                        assert(all[i] == st.2[i - old_all.len()]);
                    }
                }
                assert forall|i: int, j: int| 0 <= i < j < all.len() implies #[trigger] all[i].id != #[trigger] all[j].id by {
                    if j < old_all.len() {
                        assert(all[i] == old_all[i]);
                        assert(all[j] == old_all[j]);
                    } else if i < old_all.len() {
                        assert(all[i] == old_all[i]);
                        assert(all[j] == st.2[j - old_all.len()]);
                    } else {
                        assert(all[i] == st.2[i - old_all.len()]);
                        assert(all[j] == st.2[j - old_all.len()]);
                    }
                }
            },
        }
    } else {
        assert(items + Seq::<ItemView>::empty() =~= items);
    }
}

/// The characters of `open`.
fn open_chars() -> (r: Vec<char>)
    ensures
        r@ == open_status(),
{
    let mut r: Vec<char> = Vec::new();
    r.push('o');
    r.push('p');
    r.push('e');
    r.push('n');
    assert(r@ == open_status());
    r
}

/// Gives ids to the new markers of one file; returns its new text and the new
/// items, and advances `counter`.
fn assign_ids_in_content(
    content: &Vec<char>,
    file: &String,
    counter: &mut u64,
    prefix: &Vec<char>,
    byte_len: usize,
) -> (r: (Vec<char>, Vec<DbItem>))
    requires
        prefix@.len() > 0,
        byte_len == utf8_len(content@),
        assign_content(content@, file@, *old(counter) as int, prefix@).1 <= u64::MAX,
    ensures
        r.0@ == assign_content(content@, file@, *old(counter) as int, prefix@).0,
        *final(counter) as int == assign_content(content@, file@, *old(counter) as int, prefix@).1,
        item_views(r.1@) == assign_content(content@, file@, *old(counter) as int, prefix@).2,
{
    let orig = split_lines(content);
    let ghost ov = views(orig@);
    let hits = scan_lines(&orig, prefix, Ghost(content@));
    let ghost hs = hits_in_lines(ov, prefix@);
    let ghost target = assign_state(ov, ov, hs, *old(counter) as int, prefix@, file@);
    proof {
        lemma_assign_state_counter(ov, ov, hs, *old(counter) as int, prefix@, file@);
    }
    let mut cur = split_lines(content);
    let mut new_items: Vec<DbItem> = Vec::new();
    let ghost mut acc: Seq<ItemView> = seq![];
    let mut k: usize = hits.len();
    assert(hs.take(k as int) == hs);
    let ghost c0 = *old(counter);
    while k > 0
        invariant
            k <= hits@.len(),
            hits@.len() == hs.len(),
            ov == views(orig@),
            hs == hits_in_lines(ov, prefix@),
            views(cur@).len() == ov.len(),
            prefix@.len() > 0,
            utf8_len(content@) <= usize::MAX,
            forall|k: int| 0 <= k < orig@.len() ==> is_piece(content@, #[trigger] orig@[k]@),
            forall|i: int|
                0 <= i < hits@.len() ==> {
                    let h = hs[i];
                    &&& (#[trigger] hits@[i]).0 == h.0
                    &&& hits@[i].1 == h.1.pos
                    &&& hits@[i].0 < orig@.len()
                    &&& hits@[i].1 < orig@[hits@[i].0 as int]@.len()
                    &&& hits@[i].2@ == crate::scanner::marker_of(
                        h.1,
                        orig@[hits@[i].0 as int]@,
                        (hits@[i].0 + 1) as usize,
                    )
                },
            target == assign_state(ov, ov, hs, c0 as int, prefix@, file@),
            target.1 <= u64::MAX,
            ({
                let rr = assign_state(ov, views(cur@), hs.take(k as int), *counter as int, prefix@, file@);
                target == (rr.0, rr.1, rr.2 + acc)
            }),
            item_views(new_items@) == acc,
        decreases k,
    {
        k = k - 1;
        let ghost cv = views(cur@);
        let ghost hk = hs.take(k + 1);
        assert(hk.drop_last() == hs.take(k as int));
        assert(hk.last() == hs[k as int]);
        let (li, pos, m) = (hits[k].0, hits[k].1, &hits[k].2);
        if !m.has_id {
            proof {
                let one = assign_one(ov, cv, hs[k as int], *counter as int + 1, prefix@, file@);
                lemma_assign_state_counter(ov, one.0, hs.take(k as int), *counter as int + 1, prefix@, file@);
            }
            *counter = *counter + 1;
            let id = *counter;
            let line = &cur[li];
            let ty = to_chars(m.marker_type.as_str());
            let mut old_marker = subrange(prefix, 0, prefix.len());
            extend(&mut old_marker, &ty);
            let mut new_marker = subrange(&old_marker, 0, old_marker.len());
            new_marker.push(':');
            extend(&mut new_marker, &decimal_chars(id));
            new_marker.push(':');
            extend(&mut new_marker, &open_chars());
            let olen = old_marker.len();
            let fits = pos <= line.len() && olen <= line.len() - pos;
            let (new_line, after) = if fits {
                let mut nl = subrange(line, 0, pos);
                extend(&mut nl, &new_marker);
                let rest = subrange(line, pos + olen, line.len());
                extend(&mut nl, &rest);
                (nl, trim_chars(&rest))
            } else {
                (subrange(line, 0, line.len()), Vec::new())
            };
            proof {
                let ol = orig@[li as int]@;
                assert(ov[li as int] == ol);
                lemma_encode_utf8_concat(ol.take(pos as int), ol.subrange(pos as int, pos + 1));
                assert(ol.take(pos as int) + ol.subrange(pos as int, pos + 1) == ol.take(pos + 1));
                assert(ol.subrange(pos as int, pos + 1).drop_first() =~= Seq::<char>::empty());
                let (a, b) = choose|a: int, b: int|
                    0 <= a <= b <= content@.len() && ol == content@.subrange(a, b);
                lemma_utf8_len_piece(content@, a, b);
                lemma_utf8_len_piece(ol, pos + 1, pos + 1);
            }
            let nlines = orig.len();
            assert(li < nlines);
            let item = DbItem {
                id,
                item_type: to_string(&ty),
                file: file.clone(),
                line: li + 1,
                column: m.column_offset + 1,
                status: to_string(&open_chars()),
                content: to_string(&after),
            };
            let ghost one = assign_one(ov, cv, hs[k as int], id as int, prefix@, file@);
            assert(hs[k as int].0 == li);
            assert(hs[k as int].1.marker_type == m@.marker_type);
            assert(cv[li as int] == line@);
            assert(old_marker@ == prefix@ + hs[k as int].1.marker_type);
            assert(new_marker@ == old_marker@ + seq![':'] + decimal(id as nat) + seq![':'] + open_status());
            assert(new_line@ == one.0[li as int]);
            assert(one.0 == cv.update(li as int, new_line@));
            cur.set(li, new_line);
            assert(views(cur@) =~= one.0);
            assert(seq![item@] == one.1);
            new_items.insert(0, item);
            proof {
                acc = one.1 + acc;
                assert(item_views(new_items@) =~= acc);
            }
        }
    }
    assert(hs.take(0) =~= Seq::<(int, Hit)>::empty());
    assert(acc == target.2);
    let mut nl: Vec<char> = Vec::new();
    nl.push('\n');
    assert(nl@ == seq!['\n']);
    let mut text = join_chars(&cur, &nl);
    if content.len() > 0 && content[content.len() - 1] == '\n' {
        text.push('\n');
    }
    (text, new_items)
}

/// Gives ids to the markers without one in the staged files: for each staged
/// path in turn, the first file with that path has each new marker, the last
/// first, rewritten in place (at its own position, other markers untouched) to
/// `<prefix><type>:<id>:open` with the next id, and a
/// tracked item (status `open`, the text after the marker as content) added
/// in the order of the markers. Paths with no file are skipped.
/// `marker_prefix` must not be empty (the search for markers would not end),
/// and the ids must fit in a `u64`.
pub fn update_files_with_ids(
    files: &mut Vec<SourceFile>,
    staged_files: &Vec<String>,
    db: &mut Database,
    marker_prefix: &str,
)
    requires
        marker_prefix@.len() > 0,
        assign_files(source_views(old(files)@), string_views(staged_files@), old(db)@.counter as int, marker_prefix@).1
            <= u64::MAX,
    ensures
        source_views(final(files)@) == assign_files(source_views(old(files)@), string_views(staged_files@), old(db)@.counter as int, marker_prefix@).0,
        final(db)@.counter as int == assign_files(source_views(old(files)@), string_views(staged_files@), old(db)@.counter as int, marker_prefix@).1,
        final(db)@.items == old(db)@.items + assign_files(source_views(old(files)@), string_views(staged_files@), old(db)@.counter as int, marker_prefix@).2,
{
    let prefix = to_chars(marker_prefix);
    let ghost sv = string_views(staged_files@);
    let ghost f0 = source_views(files@);
    let ghost c0 = db.counter;
    let ghost items0 = db@.items;
    let ghost total = assign_files(f0, sv, c0 as int, prefix@);
    let mut s: usize = 0;
    assert(sv.take(0) =~= Seq::<Seq<char>>::empty());
    assert(items0 + Seq::<ItemView>::empty() == items0);
    while s < staged_files.len()
        invariant
            s <= staged_files@.len(),
            sv == string_views(staged_files@),
            prefix@ == marker_prefix@,
            prefix@.len() > 0,
            f0 == source_views(old(files)@),
            c0 == old(db)@.counter,
            items0 == old(db)@.items,
            total == assign_files(f0, sv, c0 as int, prefix@),
            total.1 <= u64::MAX,
            ({
                let r = assign_files(f0, sv.take(s as int), c0 as int, prefix@);
                &&& source_views(files@) == r.0
                &&& db@.counter as int == r.1
                &&& db@.items == items0 + r.2
            }),
        decreases staged_files@.len() - s,
    {
        let path = &staged_files[s];
        let ghost st = sv.take(s + 1);
        assert(st.drop_last() == sv.take(s as int));
        assert(st.last() == path@);
        proof {
            lemma_assign_files_counter_grows(f0, sv, c0 as int, prefix@, s + 1);
        }
        let ghost fs = source_views(files@);
        match find_file(files, &to_chars(path.as_str())) {
            None => {},
            Some(k) => {
                proof {
                    lemma_first_from(fs, path_is(path@), 0);
                }
                let (chars, n) = crate::text::chars_and_len(files[k].content.as_str());
                let (text, mut new_items) = assign_ids_in_content(&chars, path, &mut db.counter, &prefix, n);
                let p = files[k].path.clone();
                files.set(k, SourceFile { path: p, content: to_string(&text) });
                assert(source_views(files@) =~= fs.update(k as int, (fs[k as int].0, text@)));
                let ghost before = db@.items;
                let ghost nv = item_views(new_items@);
                db.items.append(&mut new_items);
                assert(db@.items =~= before + nv);
            },
        }
        s = s + 1;
    }
    assert(sv.take(staged_files@.len() as int) == sv);
}

/// The number of markers without an id in `content`.
fn count_new_markers(content: &Vec<char>, prefix: &Vec<char>, byte_len: usize) -> (r: u64)
    requires
        prefix@.len() > 0,
        byte_len == utf8_len(content@),
    ensures
        r == new_count(hits_in_lines(lines(content@), prefix@)),
{
    let ls = split_lines(content);
    let hits = scan_lines(&ls, prefix, Ghost(content@));
    let ghost hs = hits_in_lines(views(ls@), prefix@);
    let mut n: u64 = 0;
    let mut i: usize = 0;
    assert(hs.take(0) =~= Seq::<(int, Hit)>::empty());
    while i < hits.len()
        invariant
            i <= hits@.len(),
            hits@.len() == hs.len(),
            hs == hits_in_lines(views(ls@), prefix@),
            n <= i,
            n == new_count(hs.take(i as int)),
            forall|j: int|
                0 <= j < hits@.len() ==> (#[trigger] hits@[j]).2@ == crate::scanner::marker_of(
                    hs[j].1,
                    ls@[hits@[j].0 as int]@,
                    (hits@[j].0 + 1) as usize,
                ),
        decreases hits@.len() - i,
    {
        assert(hs.take(i + 1).drop_last() == hs.take(i as int));
        assert(hs.take(i + 1).last() == hs[i as int]);
        if !hits[i].2.has_id {
            n = n + 1;
        }
        i = i + 1;
    }
    assert(hs.take(hits@.len() as int) == hs);
    n
}

/// Gives ids as [`update_files_with_ids`] does when every id fits in a `u64`,
/// and says whether they do; when they do not, the files and the tracked items
/// are left as they were. `marker_prefix` must not be empty.
pub fn update_files_with_ids_checked(
    files: &mut Vec<SourceFile>,
    staged_files: &Vec<String>,
    db: &mut Database,
    marker_prefix: &str,
) -> (ok: bool)
    requires
        marker_prefix@.len() > 0,
    ensures
        ok == (assign_files(source_views(old(files)@), string_views(staged_files@), old(db)@.counter as int, marker_prefix@).1
            <= u64::MAX),
        ok ==> source_views(final(files)@) == assign_files(source_views(old(files)@), string_views(staged_files@), old(db)@.counter as int, marker_prefix@).0,
        ok ==> final(db)@.counter as int == assign_files(source_views(old(files)@), string_views(staged_files@), old(db)@.counter as int, marker_prefix@).1,
        ok ==> final(db)@.items == old(db)@.items + assign_files(source_views(old(files)@), string_views(staged_files@), old(db)@.counter as int, marker_prefix@).2,
        !ok ==> source_views(final(files)@) == source_views(old(files)@) && final(db)@ == old(db)@,
{
    let prefix = to_chars(marker_prefix);
    let ghost sv = string_views(staged_files@);
    let ghost f0 = source_views(files@);
    let ghost c0 = db.counter;
    // A trial run on copies.
    let mut work: Vec<SourceFile> = Vec::new();
    let mut i: usize = 0;
    while i < files.len()
        invariant
            i <= files@.len(),
            f0 == source_views(files@),
            source_views(work@) == f0.take(i as int),
        decreases files@.len() - i,
    {
        let ghost before = source_views(work@);
        work.push(SourceFile { path: files[i].path.clone(), content: files[i].content.clone() });
        assert(source_views(work@) =~= before.push(f0[i as int]));
        assert(f0.take(i + 1) =~= f0.take(i as int).push(f0[i as int]));
        i = i + 1;
    }
    assert(f0.take(files@.len() as int) =~= f0);
    let mut counter: u64 = db.counter;
    let mut s: usize = 0;
    assert(sv.take(0) =~= Seq::<Seq<char>>::empty());
    while s < staged_files.len()
        invariant
            s <= staged_files@.len(),
            sv == string_views(staged_files@),
            prefix@ == marker_prefix@,
            prefix@.len() > 0,
            f0 == source_views(files@),
            c0 == db@.counter,
            ({
                let r = assign_files(f0, sv.take(s as int), c0 as int, prefix@);
                &&& source_views(work@) == r.0
                &&& counter as int == r.1
            }),
        decreases staged_files@.len() - s,
    {
        let path = &staged_files[s];
        let ghost st = sv.take(s + 1);
        assert(st.drop_last() == sv.take(s as int));
        assert(st.last() == path@);
        proof {
            lemma_assign_files_counter_grows(f0, sv, c0 as int, prefix@, s + 1);
        }
        let ghost ws = source_views(work@);
        match find_file(&work, &to_chars(path.as_str())) {
            None => {},
            Some(k) => {
                proof {
                    lemma_first_from(ws, path_is(path@), 0);
                }
                let (chars, n) = crate::text::chars_and_len(work[k].content.as_str());
                let fresh = count_new_markers(&chars, &prefix, n);
                proof {
                    let ls = lines(chars@);
                    lemma_assign_state_counter(ls, ls, hits_in_lines(ls, prefix@), counter as int, prefix@, path@);
                }
                if fresh > u64::MAX - counter {
                    return false;
                }
                let mut c = counter;
                let (text, _items) = assign_ids_in_content(&chars, path, &mut c, &prefix, n);
                let p = work[k].path.clone();
                work.set(k, SourceFile { path: p, content: to_string(&text) });
                assert(source_views(work@) =~= ws.update(k as int, (ws[k as int].0, text@)));
                counter = c;
            },
        }
        s = s + 1;
    }
    assert(sv.take(staged_files@.len() as int) == sv);
    update_files_with_ids(files, staged_files, db, marker_prefix);
    true
}

/// Whether text `s` has no newline and no carriage return.
pub open spec fn one_line(s: Seq<char>) -> bool {
    lacks(s, '\n') && lacks(s, '\r')
}

proof fn lemma_assign_state_one_line(
    orig: Seq<Seq<char>>,
    ls: Seq<Seq<char>>,
    hs: Seq<(int, Hit)>,
    c: int,
    prefix: Seq<char>,
    file: Seq<char>,
)
    requires
        0 <= c,
        forall|l: int| 0 <= l < ls.len() ==> one_line(#[trigger] ls[l]),
        forall|j: int| 0 <= j < hs.len() ==> one_line(prefix + (#[trigger] hs[j]).1.marker_type),
    ensures
        ({
            let r = assign_state(orig, ls, hs, c, prefix, file).0;
            &&& r.len() == ls.len()
            &&& forall|l: int| 0 <= l < r.len() ==> one_line(#[trigger] r[l])
            &&& forall|l: int| 0 <= l < r.len() && ls[l].len() > 0 ==> (#[trigger] r[l]).len() > 0
        }),
    decreases hs.len(),
{
    if hs.len() > 0 {
        let a = hs.drop_last();
        let last = hs.last();
        assert(last == hs[hs.len() - 1]);
        assert forall|j: int| 0 <= j < a.len() implies one_line(prefix + (#[trigger] a[j]).1.marker_type) by {
            assert(a[j] == hs[j]);
        }
        if last.1.has_id {
            lemma_assign_state_one_line(orig, ls, a, c, prefix, file);
        } else {
            let one = assign_one(orig, ls, last, c + 1, prefix, file);
            let li = last.0;
            if 0 <= li < ls.len() && li < orig.len() {
                let line = ls[li];
                let om = prefix + last.1.marker_type;
                let d = decimal((c + 1) as nat);
                crate::text::lemma_decimal_digits((c + 1) as nat);
                lemma_digits_lack(d, '\n');
                lemma_digits_lack(d, '\r');
                let nm = om + seq![':'] + d + seq![':'] + open_status();
                assert(one_line(seq![':']));
                assert(one_line(open_status()));
                lemma_lacks_concat(om, seq![':'], '\n');
                lemma_lacks_concat(om, seq![':'], '\r');
                lemma_lacks_concat(om + seq![':'], d, '\n');
                lemma_lacks_concat(om + seq![':'], d, '\r');
                lemma_lacks_concat(om + seq![':'] + d, seq![':'], '\n');
                lemma_lacks_concat(om + seq![':'] + d, seq![':'], '\r');
                lemma_lacks_concat(om + seq![':'] + d + seq![':'], open_status(), '\n');
                lemma_lacks_concat(om + seq![':'] + d + seq![':'], open_status(), '\r');
                let start = last.1.pos + om.len();
                if 0 <= last.1.pos && start <= line.len() {
                    assert(one_line(line));
                    let t = line.take(last.1.pos);
                    let rest = line.skip(start);
                    assert forall|k: int| 0 <= k < t.len() implies t[k] != '\n' && t[k] != '\r' by {
                        assert(t[k] == line[k]);
                    }
                    assert forall|k: int| 0 <= k < rest.len() implies rest[k] != '\n' && rest[k] != '\r' by {
                        assert(rest[k] == line[start + k]);
                    }
                    lemma_lacks_concat(t, nm, '\n');
                    lemma_lacks_concat(t, nm, '\r');
                    lemma_lacks_concat(t + nm, rest, '\n');
                    lemma_lacks_concat(t + nm, rest, '\r');
                }
            }
            assert forall|l: int| 0 <= l < one.0.len() implies one_line(#[trigger] one.0[l]) by {}
            lemma_assign_state_one_line(orig, one.0, a, c + 1, prefix, file);
        }
    }
}

/// Giving ids in a text without carriage returns keeps its number of lines,
/// whether it ends with a newline, its lack of carriage returns, every line
/// that holds no marker without an id, and in every line the text before its
/// first marker without an id.
pub proof fn lemma_ids_keep_lines(content: Seq<char>, file: Seq<char>, c: int, prefix: Seq<char>)
    requires
        prefix.len() > 0,
        0 <= c,
        lacks(content, '\r'),
    ensures
        ({
            let ls = lines(content);
            let hs = hits_in_lines(ls, prefix);
            let r = assign_content(content, file, c, prefix).0;
            &&& lines(r).len() == ls.len()
            &&& ends_in_newline(r) == ends_in_newline(content)
            &&& lacks(r, '\r')
            &&& forall|l: int| 0 <= l < ls.len() && no_new_marker_on(hs, l) ==> #[trigger] lines(r)[l] == ls[l]
            &&& forall|l: int, q: int|
                0 <= l < ls.len() && 0 <= q <= ls[l].len() && no_new_marker_before(hs, l, q) ==> #[trigger] lines(r)[l].take(q)
                    == ls[l].take(q)
        }),
{
    let ls = lines(content);
    let hs = hits_in_lines(ls, prefix);
    lemma_lines_lack_newline(content);
    lemma_lines_lack(content, '\r');
    lemma_hits_in_lines_text(ls, prefix);
    lemma_hits_in_lines_order(ls, prefix);
    assert forall|l: int| 0 <= l < ls.len() implies one_line(#[trigger] ls[l]) by {}
    assert forall|j: int| 0 <= j < hs.len() implies one_line(prefix + (#[trigger] hs[j]).1.marker_type) by {
        let h = hs[j];
        let line = ls[h.0];
        let e = hit_end(h.1, prefix);
        assert(line.subrange(h.1.pos, h.1.pos + prefix.len()) == prefix);
        assert(prefix + h.1.marker_type =~= line.subrange(h.1.pos, e));
        assert forall|k: int| 0 <= k < line.subrange(h.1.pos, e).len() implies line.subrange(h.1.pos, e)[k] != '\n'
            && line.subrange(h.1.pos, e)[k] != '\r' by {
            assert(line.subrange(h.1.pos, e)[k] == line[h.1.pos + k]);
        }
    }
    lemma_assign_state_one_line(ls, ls, hs, c, prefix, file);
    lemma_ids_keep_earlier_text(ls, ls, hs, c, prefix, file);
    let st = assign_state(ls, ls, hs, c, prefix, file).0;
    assert forall|l: int| 0 <= l < st.len() implies plain_line(#[trigger] st[l]) && lacks(st[l], '\r') by {
        assert(one_line(st[l]));
        if st[l].len() > 0 {
            assert(st[l].last() == st[l][st[l].len() - 1]);
        }
    }
    lemma_lines_end(content);
    if !ends_in_newline(content) && st.len() > 0 {
        assert(ls[ls.len() - 1].len() > 0);
        assert(st[st.len() - 1].len() > 0);
    }
    lemma_lines_rejoin(st, content);
}

/// Whether `text` is the text of `file` given ids from some last id `c2` not
/// below `c` on.
pub open spec fn given_ids(file: (Seq<char>, Seq<char>), c: int, prefix: Seq<char>, text: Seq<char>) -> bool {
    exists|c2: int| c <= c2 && text == #[trigger] assign_content(file.1, file.0, c2, prefix).0
}

/// When no path is staged twice, each staged file (the first with its path)
/// ends up as its own text given ids from some last id on, which is how
/// [`lemma_ids_keep_lines`] describes it; other files keep their text.
pub proof fn lemma_staged_file_given_ids(
    files: Seq<(Seq<char>, Seq<char>)>,
    staged: Seq<Seq<char>>,
    c: int,
    prefix: Seq<char>,
)
    requires
        staged.no_duplicates(),
    ensures
        forall|k: int|
            0 <= k < files.len() && staged.contains(files[k].0) && first_from(files, path_is(files[k].0), 0) == Some(k)
                ==> given_ids(files[k], c, prefix, (#[trigger] assign_files(files, staged, c, prefix).0[k]).1),
        forall|k: int|
            0 <= k < files.len() && !staged.contains(files[k].0) ==> (#[trigger] assign_files(files, staged, c, prefix).0[k])
                == files[k],
    decreases staged.len(),
{
    lemma_ids_touch_staged_files(files, staged, c, prefix);
    if staged.len() > 0 {
        let pv = staged.drop_last();
        let p = staged.last();
        assert(pv.no_duplicates()) by {
            assert forall|i: int, j: int| 0 <= i < pv.len() && 0 <= j < pv.len() && i != j implies pv[i] != pv[j] by {
                assert(pv[i] == staged[i]);
                assert(pv[j] == staged[j]);
            }
        }
        assert(!pv.contains(p)) by {
            if pv.contains(p) {
                let i = choose|i: int| 0 <= i < pv.len() && pv[i] == p;
                assert(staged[i] == staged[staged.len() - 1]);
            }
        }
        lemma_staged_file_given_ids(files, pv, c, prefix);
        lemma_ids_touch_staged_files(files, pv, c, prefix);
        lemma_assign_files_counter_grows(files, pv, c, prefix, 0);
        let r = assign_files(files, pv, c, prefix);
        lemma_first_from_same_paths(r.0, files, p, 0);
        lemma_first_from(files, path_is(p), 0);
        let out = assign_files(files, staged, c, prefix).0;
        assert(staged[staged.len() - 1] == p);
        assert forall|k: int|
            0 <= k < files.len() && staged.contains(files[k].0) && first_from(files, path_is(files[k].0), 0) == Some(k)
                implies given_ids(files[k], c, prefix, (#[trigger] assign_files(files, staged, c, prefix).0[k]).1) by {
            if files[k].0 == p {
                assert(r.0[k].1 == files[k].1);
                assert(out[k].1 == assign_content(files[k].1, files[k].0, r.1, prefix).0);
                assert(c <= r.1);
                assert(given_ids(files[k], c, prefix, out[k].1));
            } else {
                let i = choose|i: int| 0 <= i < staged.len() && staged[i] == files[k].0;
                assert(pv[i] == staged[i]);
                assert(pv.contains(files[k].0));
                match first_from(files, path_is(p), 0) {
                    Some(kk) => {
                        assert(kk != k);
                    },
                    None => {},
                }
                assert(out[k] == r.0[k]);
                assert(given_ids(files[k], c, prefix, r.0[k].1));
            }
        }
        assert forall|k: int| 0 <= k < files.len() && !staged.contains(files[k].0) implies (#[trigger] assign_files(
            files,
            staged,
            c,
            prefix,
        ).0[k]) == files[k] by {
            assert(!pv.contains(files[k].0)) by {
                if pv.contains(files[k].0) {
                    let i = choose|i: int| 0 <= i < pv.len() && pv[i] == files[k].0;
                    assert(staged[i] == pv[i]);
                }
            }
            match first_from(files, path_is(p), 0) {
                Some(kk) => {
                    assert(files[kk].0 == p);
                    assert(kk != k);
                },
                None => {},
            }
        }
    }
}

/// Whether item `it` stands for a marker without an id among `hs`, found in
/// lines `orig`: one of its type found on line `it.line` (counted from 1),
/// whose column is one more than the UTF-8 length of the text before it.
pub open spec fn from_new_marker(orig: Seq<Seq<char>>, hs: Seq<(int, Hit)>, it: ItemView) -> bool {
    exists|j: int|
        0 <= j < hs.len() && !(#[trigger] hs[j]).1.has_id && hs[j].0 + 1 == it.line && hs[j].1.marker_type
            == it.item_type && it.column == utf8_len(orig[hs[j].0].take(hs[j].1.pos)) + 1
}

proof fn lemma_assign_state_lines(
    orig: Seq<Seq<char>>,
    ls: Seq<Seq<char>>,
    hs: Seq<(int, Hit)>,
    c: int,
    prefix: Seq<char>,
    file: Seq<char>,
)
    requires
        orig.len() <= usize::MAX,
        forall|l: int| 0 <= l < orig.len() ==> utf8_len(#[trigger] orig[l]) < usize::MAX,
        forall|j: int|
            0 <= j < hs.len() ==> 0 <= (#[trigger] hs[j]).1.pos && (0 <= hs[j].0 < orig.len() ==> hs[j].1.pos
                <= orig[hs[j].0].len()),
    ensures
        forall|i: int|
            0 <= i < assign_state(orig, ls, hs, c, prefix, file).2.len() ==> from_new_marker(
                orig,
                hs,
                #[trigger] assign_state(orig, ls, hs, c, prefix, file).2[i],
            ),
    decreases hs.len(),
{
    if hs.len() > 0 {
        let a = hs.drop_last();
        let last = hs.last();
        assert(last == hs[hs.len() - 1]);
        assert forall|j: int| 0 <= j < a.len() implies #[trigger] a[j] == hs[j] by {}
        assert forall|it: ItemView| from_new_marker(orig, a, it) implies from_new_marker(orig, hs, it) by {
            let j = choose|j: int|
                0 <= j < a.len() && !(#[trigger] a[j]).1.has_id && a[j].0 + 1 == it.line && a[j].1.marker_type
                    == it.item_type && it.column == utf8_len(orig[a[j].0].take(a[j].1.pos)) + 1;
            assert(a[j] == hs[j]);
        }
        if last.1.has_id {
            lemma_assign_state_lines(orig, ls, a, c, prefix, file);
            assert(assign_state(orig, ls, hs, c, prefix, file) == assign_state(orig, ls, a, c, prefix, file));
        } else {
            let one = assign_one(orig, ls, last, c + 1, prefix, file);
            lemma_assign_state_lines(orig, one.0, a, c + 1, prefix, file);
            let rest = assign_state(orig, one.0, a, c + 1, prefix, file);
            let all = rest.2 + one.1;
            assert forall|i: int| 0 <= i < all.len() implies from_new_marker(orig, hs, #[trigger] all[i]) by {
                if i < rest.2.len() {
                    assert(all[i] == rest.2[i]);
                } else {
                    assert(all[i] == one.1[i - rest.2.len()]);
                    assert(!hs[hs.len() - 1].1.has_id);
                    assert(0 <= last.0 < orig.len());
                    assert(all[i].line as int == last.0 + 1);
                    assert(all[i].item_type == last.1.marker_type);
                    lemma_utf8_len_piece(orig[last.0], last.1.pos, last.1.pos);
                    assert(utf8_len(#[trigger] orig[last.0]) < usize::MAX);
                    assert(all[i].column as int == utf8_len(orig[last.0].take(last.1.pos)) + 1);
                }
            }
        }
    }
}

/// Each new item names the place of its marker: its line, counted from 1
/// among all the lines of the text (blank ones included), holds
/// `<prefix><type>` of the item's type where a marker without an id of that
/// type was found, and its column is one more than the UTF-8 length of the
/// text before that marker.
pub proof fn lemma_new_item_lines(content: Seq<char>, file: Seq<char>, c: int, prefix: Seq<char>)
    requires
        prefix.len() > 0,
        lines(content).len() <= usize::MAX,
        forall|l: int| 0 <= l < lines(content).len() ==> utf8_len(#[trigger] lines(content)[l]) < usize::MAX,
    ensures
        forall|i: int|
            0 <= i < assign_content(content, file, c, prefix).2.len() ==> {
                let it = #[trigger] assign_content(content, file, c, prefix).2[i];
                let ls = lines(content);
                let hs = hits_in_lines(ls, prefix);
                &&& 1 <= it.line <= ls.len()
                &&& exists|j: int|
                    0 <= j < hs.len() && !(#[trigger] hs[j]).1.has_id && hs[j].0 + 1 == it.line && hs[j].1.marker_type
                        == it.item_type && match_at(ls[it.line - 1], prefix + it.item_type, hs[j].1.pos) && it.column
                        == utf8_len(ls[it.line - 1].take(hs[j].1.pos)) + 1
            },
{
    let ls = lines(content);
    let hs = hits_in_lines(ls, prefix);
    lemma_hits_in_lines_text(ls, prefix);
    lemma_hits_in_lines_order(ls, prefix);
    assert forall|j: int|
        0 <= j < hs.len() implies 0 <= (#[trigger] hs[j]).1.pos && (0 <= hs[j].0 < ls.len() ==> hs[j].1.pos
            <= ls[hs[j].0].len()) by {}
    lemma_assign_state_lines(ls, ls, hs, c, prefix, file);
    let r = assign_content(content, file, c, prefix);
    assert forall|i: int| 0 <= i < r.2.len() implies {
        let it = #[trigger] r.2[i];
        &&& 1 <= it.line <= ls.len()
        &&& exists|j: int|
            0 <= j < hs.len() && !(#[trigger] hs[j]).1.has_id && hs[j].0 + 1 == it.line && hs[j].1.marker_type
                == it.item_type && match_at(ls[it.line - 1], prefix + it.item_type, hs[j].1.pos) && it.column
                == utf8_len(ls[it.line - 1].take(hs[j].1.pos)) + 1
    } by {
        let it = r.2[i];
        assert(from_new_marker(ls, hs, it));
        let j = choose|j: int|
            0 <= j < hs.len() && !(#[trigger] hs[j]).1.has_id && hs[j].0 + 1 == it.line && hs[j].1.marker_type
                == it.item_type && it.column == utf8_len(ls[hs[j].0].take(hs[j].1.pos)) + 1;
        let h = hs[j];
        let line = ls[h.0];
        let pos = h.1.pos;
        assert(line.subrange(pos, pos + prefix.len()) == prefix);
        assert(line.subrange(pos, pos + (prefix + it.item_type).len()) =~= prefix + it.item_type);
    }
}

} // verus!
