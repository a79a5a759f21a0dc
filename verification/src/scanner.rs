//! Finding markers such as `$$todo` or `$$todo:5:open` in source text.
use vstd::prelude::*;

use crate::text::{
    chars_and_len, is_piece, lemma_utf8_len_piece, lines, split_lines, to_chars, views,
    find_chars_from, find_from, first_token, first_token_chars, lemma_find_from_range,
    lemma_word_len_bound, parse_u64, parse_u64_chars, split_once, split_once_char, subrange,
    to_string, utf8_len, utf8_len_prefix, word_len, word_len_from, decimal, is_word_char,
    is_white_space, lemma_word_len_words, lemma_parse_decimal, lemma_digits_lack,
    lemma_split_char, lemma_first_token_of, lemma_word_len_shape, match_at,
};

verus! {

/// A marker found in a file.
#[derive(Debug, Clone, PartialEq)]
pub struct Marker {
    /// The 1-based number of the line that holds the marker.
    pub line_number: usize,
    /// The byte offset of the marker prefix in its line.
    pub column_offset: usize,
    /// The word after the prefix, such as `todo`.
    pub marker_type: String,
    /// Whether a `:` follows the type, that is, whether the marker carries an id.
    pub has_id: bool,
    /// The id written after the type, when there is one (0 when it does not parse).
    pub existing_id: Option<u64>,
    /// The status written after the id, when there is one.
    pub existing_status: Option<String>,
}

/// The abstract content of a [`Marker`].
pub struct MarkerView {
    pub line_number: usize,
    pub column_offset: int,
    pub marker_type: Seq<char>,
    pub has_id: bool,
    pub existing_id: Option<u64>,
    pub existing_status: Option<Seq<char>>,
}

/// The view of an optional string.
pub open spec fn opt_view(o: Option<String>) -> Option<Seq<char>> {
    match o {
        Some(s) => Some(s@),
        None => None,
    }
}

impl View for Marker {
    type V = MarkerView;

    open spec fn view(&self) -> MarkerView {
        MarkerView {
            line_number: self.line_number,
            column_offset: self.column_offset as int,
            marker_type: self.marker_type@,
            has_id: self.has_id,
            existing_id: self.existing_id,
            existing_status: opt_view(self.existing_status),
        }
    }
}

/// A marker found in a line, with its position counted in characters.
pub struct Hit {
    pub pos: int,
    pub marker_type: Seq<char>,
    pub has_id: bool,
    pub existing_id: Option<u64>,
    pub existing_status: Option<Seq<char>>,
}

/// The marker at character `pos` with type `ty`, read from the text `after`
/// that follows its type: a colon there means an id, the text up to the next
/// colon (0 when it is not a number), and a status, the first token after that
/// colon.
pub open spec fn marker_after(pos: int, ty: Seq<char>, after: Seq<char>) -> Hit {
    if after.len() > 0 && after[0] == ':' {
        let tail = after.drop_first();
        let id_part = match split_once(tail, seq![':']) {
            Some(parts) => parts.0,
            None => tail,
        };
        let status = match split_once(tail, seq![':']) {
            Some(parts) => first_token(parts.1),
            None => None,
        };
        Hit {
            pos,
            marker_type: ty,
            has_id: true,
            existing_id: Some(
                match parse_u64(id_part) {
                    Some(v) => v,
                    None => 0,
                },
            ),
            existing_status: status,
        }
    } else {
        Hit { pos, marker_type: ty, has_id: false, existing_id: None, existing_status: None }
    }
}

/// The marker whose prefix stands at character `pos` of `line`: its type is the
/// run of word characters after the prefix.
pub open spec fn hit_at(line: Seq<char>, prefix: Seq<char>, pos: int) -> Hit {
    let rest = line.skip(pos + prefix.len());
    let ty = rest.take(word_len(rest) as int);
    marker_after(pos, ty, rest.skip(ty.len() as int))
}

/// The markers of `line` found by searching for `prefix` from character `start` on:
/// a prefix followed by at least one word character is a marker; the search goes on
/// after its type, or just after a prefix that has no type.
pub open spec fn scan_from(line: Seq<char>, prefix: Seq<char>, start: int) -> Seq<Hit>
    decreases line.len() + 1 - start,
{
    if prefix.len() == 0 || start < 0 {
        seq![]
    } else {
        match find_from(line, prefix, start) {
            None => seq![],
            Some(pos) => {
                proof {
                    lemma_find_from_range(line, prefix, start);
                }
                let ty_len = word_len(line.skip(pos + prefix.len()));
                if ty_len > 0 {
                    proof {
                        lemma_word_len_bound(line.skip(pos + prefix.len()));
                    }
                    seq![hit_at(line, prefix, pos)] + scan_from(
                        line,
                        prefix,
                        pos + prefix.len() + ty_len,
                    )
                } else {
                    scan_from(line, prefix, pos + prefix.len())
                }
            },
        }
    }
}

/// The [`Marker`] that a hit in `line` stands for.
pub open spec fn marker_of(h: Hit, line: Seq<char>, line_number: usize) -> MarkerView {
    MarkerView {
        line_number,
        column_offset: utf8_len(line.take(h.pos)) as int,
        marker_type: h.marker_type,
        has_id: h.has_id,
        existing_id: h.existing_id,
        existing_status: h.existing_status,
    }
}

/// The markers of one line.
pub open spec fn line_markers(line: Seq<char>, prefix: Seq<char>, line_number: usize) -> Seq<
    MarkerView,
> {
    scan_from(line, prefix, 0).map_values(|h: Hit| marker_of(h, line, line_number))
}

/// The views of a sequence of markers.
pub open spec fn marker_views(v: Seq<Marker>) -> Seq<MarkerView> {
    v.map_values(|m: Marker| m@)
}

/// The markers of the lines `ls`, in order; the first line is line 1.
pub open spec fn markers_in_lines(ls: Seq<Seq<char>>, prefix: Seq<char>) -> Seq<MarkerView>
    decreases ls.len(),
{
    if ls.len() == 0 {
        seq![]
    } else {
        markers_in_lines(ls.drop_last(), prefix) + line_markers(
            ls.last(),
            prefix,
            ls.len() as usize,
        )
    }
}

/// The markers of `content`: those of each of its lines, in order.
pub open spec fn content_markers(content: Seq<char>, prefix: Seq<char>) -> Seq<MarkerView> {
    markers_in_lines(lines(content), prefix)
}

/// Finds the markers of one line. `marker_prefix` must not be empty: with an
/// empty prefix the search never ends.
pub fn find_markers_in_line(line: &str, marker_prefix: &str, line_number: usize) -> (r: Vec<Marker>)
    requires
        marker_prefix@.len() > 0,
    ensures
        marker_views(r@) == line_markers(line@, marker_prefix@, line_number),
{
    let (chars, _n) = chars_and_len(line);
    let prefix = to_chars(marker_prefix);
    let hits = scan_line(&chars, &prefix, line_number);
    markers_of_hits(hits, Ghost(chars@), Ghost(prefix@), line_number)
}

/// The markers of a scanned line, without their positions.
fn markers_of_hits(
    hits: Vec<(usize, Marker)>,
    line: Ghost<Seq<char>>,
    prefix: Ghost<Seq<char>>,
    line_number: usize,
) -> (r: Vec<Marker>)
    requires
        hits@.len() == scan_from(line@, prefix@, 0).len(),
        forall|i: int|
            0 <= i < hits@.len() ==> (#[trigger] hits@[i]).1@ == marker_of(
                scan_from(line@, prefix@, 0)[i],
                line@,
                line_number,
            ),
    ensures
        marker_views(r@) == line_markers(line@, prefix@, line_number),
{
    let mut r: Vec<Marker> = Vec::new();
    let mut hits = hits;
    let ghost all = hits@;
    let n = hits.len();
    while hits.len() > 0
        invariant
            all.len() == n,
            hits@.len() + r@.len() == n,
            hits@ == all.take(hits@.len() as int),
            forall|k: int| 0 <= k < r@.len() ==> (#[trigger] r@[k])@ == all[n - 1 - k].1@,
        decreases hits@.len(),
    {
        let (_p, m) = hits.pop().unwrap();
        r.push(m);
    }
    let mut out: Vec<Marker> = Vec::new();
    while r.len() > 0
        invariant
            r@.len() + out@.len() == n,
            forall|k: int| 0 <= k < r@.len() ==> (#[trigger] r@[k])@ == all[n - 1 - k].1@,
            forall|k: int| 0 <= k < out@.len() ==> (#[trigger] out@[k])@ == all[k].1@,
        decreases r@.len(),
    {
        let m = r.pop().unwrap();
        out.push(m);
    }
    assert(marker_views(out@) =~= line_markers(line@, prefix@, line_number));
    out
}

/// Finds the markers of `content`, line by line (lines numbered from 1).
/// `marker_prefix` must not be empty: with an empty prefix the search never ends.
pub fn find_markers(content: &str, marker_prefix: &str) -> (r: Vec<Marker>)
    requires
        marker_prefix@.len() > 0,
    ensures
        marker_views(r@) == content_markers(content@, marker_prefix@),
{
    let (chars, _n) = chars_and_len(content);
    let prefix = to_chars(marker_prefix);
    let ls = split_lines(&chars);
    let mut r: Vec<Marker> = Vec::new();
    let mut i: usize = 0;
    while i < ls.len()
        invariant
            i <= ls@.len(),
            prefix@.len() > 0,
            views(ls@) == lines(chars@),
            chars@ == content@,
            utf8_len(chars@) <= usize::MAX,
            forall|k: int| 0 <= k < ls@.len() ==> is_piece(chars@, #[trigger] ls@[k]@),
            marker_views(r@) == markers_in_lines(views(ls@).take(i as int), prefix@),
        decreases ls@.len() - i,
    {
        let line = &ls[i];
        proof {
            assert(is_piece(chars@, ls@[i as int]@));
            let (a, b) = choose|a: int, b: int|
                0 <= a <= b <= chars@.len() && ls@[i as int]@ == chars@.subrange(a, b);
            lemma_utf8_len_piece(chars@, a, b);
        }
        let hits = scan_line(line, &prefix, i + 1);
        let ms = markers_of_hits(hits, Ghost(line@), Ghost(prefix@), i + 1);
        let ghost before = r@;
        let mut ms = ms;
        r.append(&mut ms);
        proof {
            let ls_v = views(ls@);
            assert(ls_v.take(i + 1).drop_last() == ls_v.take(i as int));
            assert(ls_v.take(i + 1).last() == line@);
            assert(marker_views(r@) =~= marker_views(before) + line_markers(line@, prefix@, (i + 1) as usize));
        }
        i = i + 1;
    }
    assert(views(ls@).take(ls@.len() as int) == views(ls@));
    r
}

/// The markers of the lines `ls` with the index of their line, in order.
pub open spec fn hits_in_lines(ls: Seq<Seq<char>>, prefix: Seq<char>) -> Seq<(int, Hit)>
    decreases ls.len(),
{
    if ls.len() == 0 {
        seq![]
    } else {
        hits_in_lines(ls.drop_last(), prefix) + scan_from(ls.last(), prefix, 0).map_values(
            |h: Hit| ((ls.len() - 1) as int, h),
        )
    }
}

/// The markers of the lines `ls`, each with the index of its line and its
/// character position; the lines are pieces of `whole`.
pub(crate) fn scan_lines(ls: &Vec<Vec<char>>, prefix: &Vec<char>, whole: Ghost<Seq<char>>) -> (r: Vec<
    (usize, usize, Marker),
>)
    requires
        prefix@.len() > 0,
        utf8_len(whole@) <= usize::MAX,
        forall|k: int| 0 <= k < ls@.len() ==> is_piece(whole@, #[trigger] ls@[k]@),
    ensures
        r@.len() == hits_in_lines(views(ls@), prefix@).len(),
        forall|i: int|
            0 <= i < r@.len() ==> {
                let h = hits_in_lines(views(ls@), prefix@)[i];
                &&& (#[trigger] r@[i]).0 == h.0
                &&& r@[i].1 == h.1.pos
                &&& r@[i].0 < ls@.len()
                &&& r@[i].1 < ls@[r@[i].0 as int]@.len()
                &&& r@[i].2@ == marker_of(h.1, ls@[r@[i].0 as int]@, (r@[i].0 + 1) as usize)
            },
{
    let ghost lv = views(ls@);
    let mut r: Vec<(usize, usize, Marker)> = Vec::new();
    let mut li: usize = 0;
    assert(lv.take(0) =~= Seq::<Seq<char>>::empty());
    while li < ls.len()
        invariant
            li <= ls@.len(),
            lv == views(ls@),
            prefix@.len() > 0,
            utf8_len(whole@) <= usize::MAX,
            forall|k: int| 0 <= k < ls@.len() ==> is_piece(whole@, #[trigger] ls@[k]@),
            r@.len() == hits_in_lines(lv.take(li as int), prefix@).len(),
            forall|i: int|
                0 <= i < r@.len() ==> {
                    let h = hits_in_lines(lv.take(li as int), prefix@)[i];
                    &&& (#[trigger] r@[i]).0 == h.0
                    &&& r@[i].1 == h.1.pos
                    &&& r@[i].0 < li
                    &&& r@[i].1 < ls@[r@[i].0 as int]@.len()
                    &&& r@[i].2@ == marker_of(h.1, ls@[r@[i].0 as int]@, (r@[i].0 + 1) as usize)
                },
        decreases ls@.len() - li,
    {
        let line = &ls[li];
        proof {
            assert(is_piece(whole@, ls@[li as int]@));
            let (a, b) = choose|a: int, b: int|
                0 <= a <= b <= whole@.len() && ls@[li as int]@ == whole@.subrange(a, b);
            lemma_utf8_len_piece(whole@, a, b);
        }
        let mut hits = scan_line(line, prefix, li + 1);
        let ghost old_r = r@;
        let ghost prev = hits_in_lines(lv.take(li as int), prefix@);
        let ghost sc = scan_from(line@, prefix@, 0);
        let ghost mapped = sc.map_values(|h: Hit| (li as int, h));
        assert(lv.take(li + 1).drop_last() == lv.take(li as int));
        assert(lv.take(li + 1).last() == line@);
        assert(hits_in_lines(lv.take(li + 1), prefix@) == prev + mapped);
        let n = hits.len();
        let mut j: usize = 0;
        while j < n
            invariant
                n == sc.len(),
                j <= n,
                hits@.len() == n - j,
                forall|q: int|
                    0 <= q < hits@.len() ==> {
                        &&& (#[trigger] hits@[q]).0 == sc[q + j].pos
                        &&& hits@[q].0 < line@.len()
                        &&& hits@[q].1@ == marker_of(sc[q + j], line@, (li + 1) as usize)
                    },
                r@.len() == old_r.len() + j,
                r@.take(old_r.len() as int) == old_r,
                forall|q: int|
                    old_r.len() <= q < r@.len() ==> {
                        &&& (#[trigger] r@[q]).0 == li
                        &&& r@[q].1 == sc[q - old_r.len()].pos
                        &&& r@[q].1 < line@.len()
                        &&& r@[q].2@ == marker_of(sc[q - old_r.len()], line@, (li + 1) as usize)
                    },
            decreases n - j,
        {
            let (pos, m) = hits.remove(0);
            let ghost before = r@;
            r.push((li, pos, m));
            assert(r@.take(old_r.len() as int) == before.take(old_r.len() as int));
            j = j + 1;
        }
        proof {
            let full = hits_in_lines(lv.take(li + 1), prefix@);
            assert forall|i: int| 0 <= i < r@.len() implies {
                let h = full[i];
                &&& (#[trigger] r@[i]).0 == h.0
                &&& r@[i].1 == h.1.pos
                &&& r@[i].0 < li + 1
                &&& r@[i].1 < ls@[r@[i].0 as int]@.len()
                &&& r@[i].2@ == marker_of(h.1, ls@[r@[i].0 as int]@, (r@[i].0 + 1) as usize)
            } by {
                if i < old_r.len() {
                    assert(r@[i] == old_r[i]);
                    assert(full[i] == prev[i]);
                } else {
                    assert(full[i] == mapped[i - old_r.len()]);
                }
            }
        }
        li = li + 1;
    }
    assert(lv.take(ls@.len() as int) == lv);
    r
}

/// The hits of `line`, each with its marker.
fn scan_line(line: &Vec<char>, prefix: &Vec<char>, line_number: usize) -> (r: Vec<
    (usize, Marker),
>)
    requires
        prefix@.len() > 0,
        utf8_len(line@) <= usize::MAX,
    ensures
        r@.len() == scan_from(line@, prefix@, 0).len(),
        forall|i: int|
            0 <= i < r@.len() ==> {
                &&& (#[trigger] r@[i]).0 == scan_from(line@, prefix@, 0)[i].pos
                &&& r@[i].0 < line@.len()
                &&& r@[i].1@ == marker_of(scan_from(line@, prefix@, 0)[i], line@, line_number)
            },
{
    let mut r: Vec<(usize, Marker)> = Vec::new();
    let mut start: usize = 0;
    let ghost all = scan_from(line@, prefix@, 0);
    loop
        invariant
            prefix@.len() > 0,
            utf8_len(line@) <= usize::MAX,
            start <= line@.len() + 1,
            all == scan_from(line@, prefix@, 0),
            all == r@.map_values(|p: (usize, Marker)| hit_at(line@, prefix@, p.0 as int))
                + scan_from(line@, prefix@, start as int),
            forall|i: int|
                0 <= i < r@.len() ==> {
                    &&& (#[trigger] r@[i]).0 == all[i].pos
                    &&& r@[i].0 < line@.len()
                    &&& r@[i].1@ == marker_of(all[i], line@, line_number)
                },
        decreases line@.len() + 1 - start,
    {
        match find_chars_from(line, prefix, start) {
            None => {
                assert(scan_from(line@, prefix@, start as int) =~= Seq::<Hit>::empty());
                assert(all =~= r@.map_values(|p: (usize, Marker)| hit_at(line@, prefix@, p.0 as int)));
                return r;
            },
            Some(pos) => {
                proof {
                    lemma_find_from_range(line@, prefix@, start as int);
                }
                let plen = prefix.len();
                let n = line.len();
                assert(pos + plen <= n);
                let after_prefix = pos + plen;
                let ty_len = word_len_from(line, after_prefix);
                assert(line@.skip(after_prefix as int) == line@.skip(pos + prefix@.len()));
                if ty_len > 0 {
                    let m = marker_at(line, prefix, pos, line_number);
                    let ghost prev = r@;
                    r.push((pos, m));
                    assert(r@.map_values(|p: (usize, Marker)| hit_at(line@, prefix@, p.0 as int))
                        =~= prev.map_values(|p: (usize, Marker)| hit_at(line@, prefix@, p.0 as int)).push(
                        hit_at(line@, prefix@, pos as int),
                    ));
                    start = after_prefix + ty_len;
                } else {
                    start = after_prefix;
                }
            },
        }
    }
}

/// The marker whose prefix stands at character `pos` of `line`.
fn marker_at(line: &Vec<char>, prefix: &Vec<char>, pos: usize, line_number: usize) -> (m: Marker)
    requires
        pos + prefix@.len() <= line@.len(),
        utf8_len(line@) <= usize::MAX,
    ensures
        m@ == marker_of(hit_at(line@, prefix@, pos as int), line@, line_number),
{
    let plen = prefix.len();
    let n = line.len();
    assert(pos + plen <= n);
    let after_prefix = pos + plen;
    let ty_len = word_len_from(line, after_prefix);
    let j = after_prefix + ty_len;
    let ty = subrange(line, after_prefix, j);
    let ghost rest = line@.skip(after_prefix as int);
    assert(ty@ == rest.take(word_len(rest) as int));
    assert(rest.skip(ty@.len() as int) == line@.skip(j as int));
    let column_offset = utf8_len_prefix(line, pos);
    if j < line.len() && line[j] == ':' {
        let tail = subrange(line, j + 1, line.len());
        assert(tail@ == line@.skip(j as int).drop_first());
        let (id_part, status) = match split_once_char(&tail, ':') {
            Some((a, b)) => (a, first_token_chars(&b)),
            None => (tail, None),
        };
        let id = match parse_u64_chars(&id_part) {
            Some(v) => v,
            None => 0,
        };
        let status_string = match status {
            Some(t) => Some(to_string(&t)),
            None => None,
        };
        Marker {
            line_number,
            column_offset,
            marker_type: to_string(&ty),
            has_id: true,
            existing_id: Some(id),
            existing_status: status_string,
        }
    } else {
        Marker {
            line_number,
            column_offset,
            marker_type: to_string(&ty),
            has_id: false,
            existing_id: None,
            existing_status: None,
        }
    }
}

/// A marker written as `<prefix><type>:<id>:<status>` is read back with that
/// type, id and status: when the type is made of word characters, and the
/// status is not empty, has no whitespace, and is followed by whitespace or by
/// the end of the line.
pub proof fn lemma_written_marker_read(
    before: Seq<char>,
    prefix: Seq<char>,
    t: Seq<char>,
    id: u64,
    status: Seq<char>,
    after: Seq<char>,
)
    requires
        forall|i: int| 0 <= i < t.len() ==> is_word_char(#[trigger] t[i]),
        status.len() > 0,
        forall|i: int| 0 <= i < status.len() ==> !is_white_space(#[trigger] status[i]),
        after.len() == 0 || is_white_space(after[0]),
    ensures
        hit_at(
            before + prefix + t + seq![':'] + decimal(id as nat) + seq![':'] + status + after,
            prefix,
            before.len() as int,
        ) == (Hit {
            pos: before.len() as int,
            marker_type: t,
            has_id: true,
            existing_id: Some(id),
            existing_status: Some(status),
        }),
{
    let d = decimal(id as nat);
    let line = before + prefix + t + seq![':'] + d + seq![':'] + status + after;
    let tail = d + seq![':'] + (status + after);
    let rest = t + (seq![':'] + tail);
    assert(line.skip(before.len() + prefix.len() as int) =~= rest);
    assert((seq![':'] + tail)[0] == ':');
    lemma_word_len_words(t, seq![':'] + tail);
    assert(rest.take(t.len() as int) =~= t);
    assert(rest.skip(t.len() as int) =~= seq![':'] + tail);
    assert((seq![':'] + tail).drop_first() =~= tail);
    lemma_parse_decimal(id as nat);
    lemma_digits_lack(d, ':');
    lemma_split_char(d, ':', status + after);
    lemma_first_token_of(status, after);
}

/// Where the marker of hit `h` ends: after its prefix and its type.
pub open spec fn hit_end(h: Hit, prefix: Seq<char>) -> int {
    h.pos + prefix.len() + h.marker_type.len()
}

/// The markers found from `start` on lie in the line, from `start` on, each
/// ending before the next begins.
pub proof fn lemma_scan_from_order(line: Seq<char>, prefix: Seq<char>, start: int)
    requires
        prefix.len() > 0,
        0 <= start,
    ensures
        forall|i: int|
            0 <= i < scan_from(line, prefix, start).len() ==> start <= (#[trigger] scan_from(line, prefix, start)[i]).pos
                && hit_end(scan_from(line, prefix, start)[i], prefix) <= line.len(),
        forall|i: int, j: int|
            0 <= i < j < scan_from(line, prefix, start).len() ==> hit_end(
                #[trigger] scan_from(line, prefix, start)[i],
                prefix,
            ) <= (#[trigger] scan_from(line, prefix, start)[j]).pos,
    decreases line.len() + 1 - start,
{
    lemma_find_from_range(line, prefix, start);
    match find_from(line, prefix, start) {
        None => {},
        Some(pos) => {
            let rest = line.skip(pos + prefix.len());
            let ty_len = word_len(rest);
            lemma_word_len_bound(rest);
            if ty_len > 0 {
                let next = pos + prefix.len() + ty_len;
                lemma_scan_from_order(line, prefix, next);
                let h = hit_at(line, prefix, pos);
                let tail = scan_from(line, prefix, next);
                let all = scan_from(line, prefix, start);
                assert(all == seq![h] + tail);
                assert(h.marker_type.len() == ty_len);
                assert forall|i: int| 0 <= i < all.len() implies start <= (#[trigger] all[i]).pos && hit_end(all[i], prefix)
                    <= line.len() by {
                    if i > 0 {
                        assert(all[i] == tail[i - 1]);
                    }
                }
                assert forall|i: int, j: int| 0 <= i < j < all.len() implies hit_end(#[trigger] all[i], prefix) <= (#[trigger] all[j]).pos by {
                    assert(all[j] == tail[j - 1]);
                    if i > 0 {
                        assert(all[i] == tail[i - 1]);
                    }
                }
            } else {
                lemma_scan_from_order(line, prefix, pos + prefix.len());
            }
        },
    }
}

/// The markers of lines `ls` name a line of `ls` and lie in it; two markers of
/// one line come in order, the first ending before the second begins.
pub proof fn lemma_hits_in_lines_order(ls: Seq<Seq<char>>, prefix: Seq<char>)
    requires
        prefix.len() > 0,
    ensures
        forall|i: int|
            0 <= i < hits_in_lines(ls, prefix).len() ==> {
                let h = #[trigger] hits_in_lines(ls, prefix)[i];
                &&& 0 <= h.0 < ls.len()
                &&& 0 <= h.1.pos
                &&& hit_end(h.1, prefix) <= ls[h.0].len()
            },
        forall|i: int, j: int|
            0 <= i < j < hits_in_lines(ls, prefix).len() && (#[trigger] hits_in_lines(ls, prefix)[i]).0
                == (#[trigger] hits_in_lines(ls, prefix)[j]).0 ==> hit_end(hits_in_lines(ls, prefix)[i].1, prefix)
                <= hits_in_lines(ls, prefix)[j].1.pos,
    decreases ls.len(),
{
    if ls.len() > 0 {
        let a = ls.drop_last();
        lemma_hits_in_lines_order(a, prefix);
        let n = ls.len() - 1;
        let sc = scan_from(ls.last(), prefix, 0);
        lemma_scan_from_order(ls.last(), prefix, 0);
        let ha = hits_in_lines(a, prefix);
        let hb = sc.map_values(|h: Hit| (n as int, h));
        let all = hits_in_lines(ls, prefix);
        assert(all == ha + hb);
        assert forall|i: int| 0 <= i < all.len() implies {
            let h = #[trigger] all[i];
            &&& 0 <= h.0 < ls.len()
            &&& 0 <= h.1.pos
            &&& hit_end(h.1, prefix) <= ls[h.0].len()
        } by {
            if i < ha.len() {
                assert(all[i] == ha[i]);
                assert(a[ha[i].0] == ls[ha[i].0]);
            } else {
                assert(all[i] == hb[i - ha.len()]);
                assert(hb[i - ha.len()].1 == sc[i - ha.len()]);
            }
        }
        assert forall|i: int, j: int|
            0 <= i < j < all.len() && (#[trigger] all[i]).0 == (#[trigger] all[j]).0 implies hit_end(all[i].1, prefix)
                <= all[j].1.pos by {
            if j < ha.len() {
                assert(all[i] == ha[i]);
                assert(all[j] == ha[j]);
            } else if i < ha.len() {
                assert(all[i] == ha[i]);
                assert(all[j] == hb[j - ha.len()]);
            } else {
                assert(all[i] == hb[i - ha.len()]);
                assert(all[j] == hb[j - ha.len()]);
                assert(hb[i - ha.len()].1 == sc[i - ha.len()]);
                assert(hb[j - ha.len()].1 == sc[j - ha.len()]);
            }
        }
    }
}

/// Each marker found from `start` on starts an occurrence of the prefix; its
/// type is the longest run of word characters right after the prefix, and is
/// not empty; its id and status are read from the text after the type (a
/// colon there means an id).
pub proof fn lemma_scan_hits_shape(line: Seq<char>, prefix: Seq<char>, start: int)
    requires
        prefix.len() > 0,
        0 <= start,
    ensures
        forall|i: int|
            0 <= i < scan_from(line, prefix, start).len() ==> {
                let h = #[trigger] scan_from(line, prefix, start)[i];
                let e = hit_end(h, prefix);
                &&& match_at(line, prefix, h.pos)
                &&& h.marker_type.len() > 0
                &&& h.marker_type == line.subrange(h.pos + prefix.len(), e)
                &&& forall|k: int| 0 <= k < h.marker_type.len() ==> is_word_char(#[trigger] h.marker_type[k])
                &&& (e < line.len() ==> !is_word_char(line[e]))
                &&& h == marker_after(h.pos, h.marker_type, line.skip(e))
            },
    decreases line.len() + 1 - start,
{
    lemma_find_from_range(line, prefix, start);
    match find_from(line, prefix, start) {
        None => {},
        Some(pos) => {
            let rest = line.skip(pos + prefix.len());
            let ty_len = word_len(rest);
            lemma_word_len_shape(rest);
            if ty_len > 0 {
                let next = pos + prefix.len() + ty_len;
                lemma_scan_hits_shape(line, prefix, next);
                let h = hit_at(line, prefix, pos);
                let tail = scan_from(line, prefix, next);
                let all = scan_from(line, prefix, start);
                assert(all == seq![h] + tail);
                let ty = rest.take(ty_len as int);
                assert(h.marker_type == ty);
                assert(ty =~= line.subrange(pos + prefix.len(), next));
                assert(rest.skip(ty_len as int) =~= line.skip(next));
                assert forall|k: int| 0 <= k < ty.len() implies is_word_char(#[trigger] ty[k]) by {
                    assert(ty[k] == rest[k]);
                }
                if next < line.len() {
                    assert(line[next] == rest[ty_len as int]);
                }
                assert forall|i: int| 0 <= i < all.len() implies {
                    let g = #[trigger] all[i];
                    let e = hit_end(g, prefix);
                    &&& match_at(line, prefix, g.pos)
                    &&& g.marker_type.len() > 0
                    &&& g.marker_type == line.subrange(g.pos + prefix.len(), e)
                    &&& forall|k: int| 0 <= k < g.marker_type.len() ==> is_word_char(#[trigger] g.marker_type[k])
                    &&& (e < line.len() ==> !is_word_char(line[e]))
                    &&& g == marker_after(g.pos, g.marker_type, line.skip(e))
                } by {
                    if i > 0 {
                        assert(all[i] == tail[i - 1]);
                    }
                }
            } else {
                lemma_scan_hits_shape(line, prefix, pos + prefix.len());
            }
        },
    }
}

/// Each marker takes its prefix and at least one more character, so the number
/// of markers found from `start` on, times one more than the prefix length, is
/// at most the number of characters from `start` on.
pub proof fn lemma_scan_count(line: Seq<char>, prefix: Seq<char>, start: int)
    requires
        prefix.len() > 0,
        0 <= start <= line.len(),
    ensures
        scan_from(line, prefix, start).len() * (prefix.len() + 1) <= line.len() - start,
    decreases line.len() + 1 - start,
{
    lemma_find_from_range(line, prefix, start);
    match find_from(line, prefix, start) {
        None => {},
        Some(pos) => {
            let rest = line.skip(pos + prefix.len());
            let ty_len = word_len(rest);
            lemma_word_len_bound(rest);
            if ty_len > 0 {
                let next = pos + prefix.len() + ty_len;
                lemma_scan_count(line, prefix, next);
                let t = scan_from(line, prefix, next).len();
                let m = prefix.len() + 1;
                assert((t + 1) * m == t * m + m) by (nonlinear_arith);
            } else {
                lemma_scan_count(line, prefix, pos + prefix.len());
            }
        },
    }
}

/// The markers of a line (what [`find_markers_in_line`] returns): each has the
/// given line number and, as its column, the UTF-8 length of the text before
/// its prefix; there are at most as many as the line's characters divided by
/// one more than the prefix length.
pub proof fn lemma_line_markers(line: Seq<char>, prefix: Seq<char>, line_number: usize)
    requires
        prefix.len() > 0,
    ensures
        line_markers(line, prefix, line_number).len() * (prefix.len() + 1) <= line.len(),
        forall|i: int|
            0 <= i < line_markers(line, prefix, line_number).len() ==> {
                let m = #[trigger] line_markers(line, prefix, line_number)[i];
                let h = scan_from(line, prefix, 0)[i];
                &&& m.line_number == line_number
                &&& m.column_offset == utf8_len(line.take(h.pos))
                &&& m.marker_type == h.marker_type
                &&& m.has_id == h.has_id
                &&& m.existing_id == h.existing_id
                &&& m.existing_status == h.existing_status
            },
{
    lemma_scan_count(line, prefix, 0);
}

/// Each marker of lines `ls` starts an occurrence of the prefix in its line,
/// and its type is the text of its line right after the prefix.
pub proof fn lemma_hits_in_lines_text(ls: Seq<Seq<char>>, prefix: Seq<char>)
    requires
        prefix.len() > 0,
    ensures
        forall|j: int|
            0 <= j < hits_in_lines(ls, prefix).len() ==> {
                let h = #[trigger] hits_in_lines(ls, prefix)[j];
                &&& 0 <= h.0 < ls.len()
                &&& match_at(ls[h.0], prefix, h.1.pos)
                &&& h.1.marker_type == ls[h.0].subrange(h.1.pos + prefix.len(), hit_end(h.1, prefix))
            },
    decreases ls.len(),
{
    if ls.len() > 0 {
        let a = ls.drop_last();
        lemma_hits_in_lines_text(a, prefix);
        lemma_hits_in_lines_order(a, prefix);
        let n = ls.len() - 1;
        let sc = scan_from(ls.last(), prefix, 0);
        lemma_scan_hits_shape(ls.last(), prefix, 0);
        let ha = hits_in_lines(a, prefix);
        let hb = sc.map_values(|h: Hit| (n as int, h));
        let all = hits_in_lines(ls, prefix);
        assert(all == ha + hb);
        assert forall|j: int| 0 <= j < all.len() implies {
            let h = #[trigger] all[j];
            &&& 0 <= h.0 < ls.len()
            &&& match_at(ls[h.0], prefix, h.1.pos)
            &&& h.1.marker_type == ls[h.0].subrange(h.1.pos + prefix.len(), hit_end(h.1, prefix))
        } by {
            if j < ha.len() {
                assert(all[j] == ha[j]);
                assert(a[ha[j].0] == ls[ha[j].0]);
            } else {
                assert(all[j] == hb[j - ha.len()]);
                assert(hb[j - ha.len()].1 == sc[j - ha.len()]);
            }
        }
    }
}

} // verus!
