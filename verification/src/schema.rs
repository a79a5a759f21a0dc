//! Marker schemas: the statuses of each marker type and their checklist marks.
use vstd::prelude::*;

use crate::text::{
    lemma_rfind_split, starts_with,
    chars_eq, eq_ignore_ascii_case, eq_ignore_ascii_case_chars, lines, rfind, rsplit_once_char,
    split_lines, split_once, split_once_char, strip_prefix_chars, subrange, to_chars, to_string,
    trim, trim_chars, views, is_white_space, lemma_trim_ends, lacks, lemma_split_char, lemma_trim_is,
    lemma_trim_bounds,
};

verus! {

/// The checklist mark `[x]`.
pub open spec fn mark_done() -> Seq<char> {
    seq!['[', 'x', ']']
}

/// The checklist mark `[ ]`.
pub open spec fn mark_open() -> Seq<char> {
    seq!['[', ' ', ']']
}

/// The mark of a status that no schema lists: `[x]` for `done` in any ASCII case, else `[ ]`.
pub open spec fn default_markdown(status: Seq<char>) -> Seq<char> {
    if eq_ignore_ascii_case(status, seq!['d', 'o', 'n', 'e']) {
        mark_done()
    } else {
        mark_open()
    }
}

/// The checklist mark for a status that no schema lists.
pub fn default_markdown_for_status(status: &str) -> (r: &'static str)
    ensures
        r@ == default_markdown(status@),
{
    let done = to_chars("done");
    proof {
        reveal_strlit("done");
        reveal_strlit("[x]");
        reveal_strlit("[ ]");
    }
    assert(done@ == seq!['d', 'o', 'n', 'e']);
    if eq_ignore_ascii_case_chars(&to_chars(status), &done) {
        "[x]"
    } else {
        "[ ]"
    }
}


/// The checklist status that a mark stands for when no schema lists it:
/// `[ ]` is `open`, `[x]` and `[X]` are `done`.
pub open spec fn fallback_status(markdown: Seq<char>) -> Option<Seq<char>> {
    if markdown == mark_open() {
        Some(seq!['o', 'p', 'e', 'n'])
    } else if markdown == mark_done() || markdown == seq!['[', 'X', ']'] {
        Some(seq!['d', 'o', 'n', 'e'])
    } else {
        None
    }
}

/// The status that a checklist mark stands for when no schema lists it.
pub fn fallback_status_for_markdown(markdown: &str) -> (r: Option<&'static str>)
    ensures
        r matches Some(s) ==> fallback_status(markdown@) == Some(s@),
        r is None ==> fallback_status(markdown@) is None,
{
    let m = to_chars(markdown);
    let open_mark = to_chars("[ ]");
    let done_mark = to_chars("[x]");
    let done_upper = to_chars("[X]");
    proof {
        reveal_strlit("[ ]");
        reveal_strlit("[x]");
        reveal_strlit("[X]");
        reveal_strlit("open");
        reveal_strlit("done");
    }
    assert(open_mark@ == mark_open());
    assert(done_mark@ == mark_done());
    assert(done_upper@ == seq!['[', 'X', ']']);
    if chars_eq(&m, &open_mark) {
        Some("open")
    } else if chars_eq(&m, &done_mark) || chars_eq(&m, &done_upper) {
        Some("done")
    } else {
        None
    }
}

/// A status of a marker type and its checklist mark.
#[derive(Debug, Clone, PartialEq, Eq)]
pub struct StatusSchema {
    pub name: String,
    pub markdown: String,
}

impl View for StatusSchema {
    type V = (Seq<char>, Seq<char>);

    open spec fn view(&self) -> (Seq<char>, Seq<char>) {
        (self.name@, self.markdown@)
    }
}

/// The statuses of one marker type, in the order the schema lists them.
#[derive(Debug, Clone, PartialEq, Eq)]
pub struct MarkerSchema {
    pub statuses: Vec<StatusSchema>,
}

/// The views of a sequence of statuses.
pub open spec fn status_views(v: Seq<StatusSchema>) -> Seq<(Seq<char>, Seq<char>)> {
    v.map_values(|st: StatusSchema| st@)
}

impl View for MarkerSchema {
    type V = Seq<(Seq<char>, Seq<char>)>;

    open spec fn view(&self) -> Seq<(Seq<char>, Seq<char>)> {
        status_views(self.statuses@)
    }
}

impl Default for MarkerSchema {
    fn default() -> (r: Self)
        ensures
            r@ == Seq::<(Seq<char>, Seq<char>)>::empty(),
    {
        let r = MarkerSchema { statuses: Vec::new() };
        assert(r@ =~= Seq::<(Seq<char>, Seq<char>)>::empty());
        r
    }
}

/// The abstract content of the schemas: each marker type with its statuses.
pub type SchemaEntries = Seq<(Seq<char>, Seq<(Seq<char>, Seq<char>)>)>;

/// The first index at or after `i` of an element of `s` that satisfies `p`.
pub open spec fn first_from<A>(s: Seq<A>, p: spec_fn(A) -> bool, i: int) -> Option<int>
    decreases s.len() - i,
{
    if i < 0 || i >= s.len() {
        None
    } else if p(s[i]) {
        Some(i)
    } else {
        first_from(s, p, i + 1)
    }
}

/// What `first_from` returns: the first index from `i` on that satisfies `p`, or none.
pub proof fn lemma_first_from<A>(s: Seq<A>, p: spec_fn(A) -> bool, i: int)
    requires
        0 <= i,
    ensures
        first_from(s, p, i) matches Some(k) ==> i <= k < s.len() && p(s[k]) && forall|j: int|
            i <= j < k ==> !p(#[trigger] s[j]),
        first_from(s, p, i) is None ==> forall|j: int| i <= j < s.len() ==> !p(#[trigger] s[j]),
    decreases s.len() - i,
{
    if i < s.len() && !p(s[i]) {
        lemma_first_from(s, p, i + 1);
    }
}

/// Whether an entry is the one of marker type `t`.
pub open spec fn is_type(t: Seq<char>) -> spec_fn((Seq<char>, Seq<(Seq<char>, Seq<char>)>)) -> bool {
    |e: (Seq<char>, Seq<(Seq<char>, Seq<char>)>)| e.0 == t
}

/// Whether a status has the name `name`.
pub open spec fn has_name(name: Seq<char>) -> spec_fn((Seq<char>, Seq<char>)) -> bool {
    |st: (Seq<char>, Seq<char>)| st.0 == name
}

/// Whether a status has the checklist mark `markdown`.
pub open spec fn has_mark(markdown: Seq<char>) -> spec_fn((Seq<char>, Seq<char>)) -> bool {
    |st: (Seq<char>, Seq<char>)| st.1 == markdown
}

/// The index of the entry for marker type `t`.
pub open spec fn type_index(entries: SchemaEntries, t: Seq<char>) -> Option<int> {
    first_from(entries, is_type(t), 0)
}

/// The statuses listed for marker type `t`, if the schemas name it.
pub open spec fn statuses_of(entries: SchemaEntries, t: Seq<char>) -> Option<
    Seq<(Seq<char>, Seq<char>)>,
> {
    match type_index(entries, t) {
        Some(i) => Some(entries[i].1),
        None => None,
    }
}

/// The checklist mark of status `status` of marker type `t`: the mark of the first
/// status of that name in the schema of `t`, else the default mark.
pub open spec fn markdown_for(entries: SchemaEntries, t: Seq<char>, status: Seq<char>) -> Seq<char> {
    match statuses_of(entries, t) {
        Some(sts) => match first_from(sts, has_name(status), 0) {
            Some(j) => sts[j].1,
            None => default_markdown(status),
        },
        None => default_markdown(status),
    }
}

/// The status of marker type `t` whose mark is `markdown`: the first such status in
/// the schema of `t`; none when the schemas do not name `t`.
pub open spec fn status_for(entries: SchemaEntries, t: Seq<char>, markdown: Seq<char>) -> Option<
    Seq<char>,
> {
    match statuses_of(entries, t) {
        Some(sts) => match first_from(sts, has_mark(markdown), 0) {
            Some(j) => Some(sts[j].0),
            None => None,
        },
        None => None,
    }
}

/// Whether no marker type occurs twice.
pub open spec fn unique_types(entries: SchemaEntries) -> bool {
    forall|i: int, j: int|
        0 <= i < entries.len() && 0 <= j < entries.len() && i != j ==> entries[i].0
            != entries[j].0
}

/// The abstract content of a list of marker types with their schemas.
pub open spec fn entries_view(v: Seq<(String, MarkerSchema)>) -> SchemaEntries {
    v.map_values(|e: (String, MarkerSchema)| (e.0@, e.1@))
}

/// The statuses of each marker type.
#[derive(Debug)]
pub struct Schemas {
    by_type: Vec<(String, MarkerSchema)>,
}

impl View for Schemas {
    type V = SchemaEntries;

    closed spec fn view(&self) -> SchemaEntries {
        entries_view(self.by_type@)
    }
}

impl Schemas {
    #[verifier::type_invariant]
    spec fn inv(self) -> bool {
        unique_types(self@)
    }

    /// The checklist mark of `status` for markers of type `item_type`.
    pub fn markdown_for_status(&self, item_type: &str, status: &str) -> (r: String)
        ensures
            r@ == markdown_for(self@, item_type@, status@),
    {
        match self.find_type(item_type) {
            Some(i) => {
                let sts = &self.by_type[i].1.statuses;
                let want = to_chars(status);
                let mut j: usize = 0;
                let ghost p = has_name(status@);
                let ghost sv = status_views(sts@);
                assert(sv == self@[i as int].1);
                while j < sts.len()
                    invariant
                        j <= sts@.len(),
                        want@ == status@,
                        sv == status_views(sts@),
                        p == has_name(status@),
                        statuses_of(self@, item_type@) == Some(sv),
                        first_from(sv, p, 0) == first_from(sv, p, j as int),
                    decreases sts@.len() - j,
                {
                    assert(sv[j as int] == sts@[j as int]@);
                    if chars_eq(&to_chars(sts[j].name.as_str()), &want) {
                        return sts[j].markdown.clone();
                    }
                    j = j + 1;
                }
                to_string(&to_chars(default_markdown_for_status(status)))
            },
            None => to_string(&to_chars(default_markdown_for_status(status))),
        }
    }

    /// The status of markers of type `item_type` whose checklist mark is `markdown`.
    pub fn status_for_markdown(&self, item_type: &str, markdown: &str) -> (r: Option<String>)
        ensures
            r matches Some(s) ==> status_for(self@, item_type@, markdown@) == Some(s@),
            r is None ==> status_for(self@, item_type@, markdown@) is None,
    {
        match self.find_type(item_type) {
            Some(i) => {
                let sts = &self.by_type[i].1.statuses;
                let want = to_chars(markdown);
                let mut j: usize = 0;
                let ghost p = has_mark(markdown@);
                let ghost sv = status_views(sts@);
                assert(sv == self@[i as int].1);
                while j < sts.len()
                    invariant
                        j <= sts@.len(),
                        want@ == markdown@,
                        sv == status_views(sts@),
                        p == has_mark(markdown@),
                        statuses_of(self@, item_type@) == Some(sv),
                        first_from(sv, p, 0) == first_from(sv, p, j as int),
                    decreases sts@.len() - j,
                {
                    assert(sv[j as int] == sts@[j as int]@);
                    if chars_eq(&to_chars(sts[j].markdown.as_str()), &want) {
                        return Some(sts[j].name.clone());
                    }
                    j = j + 1;
                }
                None
            },
            None => None,
        }
    }

    /// The index of the entry for `item_type`.
    fn find_type(&self, item_type: &str) -> (r: Option<usize>)
        ensures
            r matches Some(i) ==> type_index(self@, item_type@) == Some(i as int) && i
                < self.by_type@.len(),
            r is None ==> type_index(self@, item_type@) is None,
    {
        find_entry(&self.by_type, &to_chars(item_type))
    }
}

/// The index of the entry for marker type `t` in `v`.
fn find_entry(v: &Vec<(String, MarkerSchema)>, t: &Vec<char>) -> (r: Option<usize>)
    ensures
        r matches Some(i) ==> type_index(entries_view(v@), t@) == Some(i as int) && i < v@.len(),
        r is None ==> type_index(entries_view(v@), t@) is None,
{
    let mut i: usize = 0;
    let ghost p = is_type(t@);
    let ghost ev = entries_view(v@);
    while i < v.len()
        invariant
            i <= v@.len(),
            p == is_type(t@),
            ev == entries_view(v@),
            type_index(ev, t@) == first_from(ev, p, i as int),
        decreases v@.len() - i,
    {
        assert(ev[i as int] == (v@[i as int].0@, v@[i as int].1@));
        if chars_eq(&to_chars(v[i].0.as_str()), t) {
            return Some(i);
        }
        i = i + 1;
    }
    None
}

impl Default for Schemas {
    fn default() -> (r: Self)
        ensures
            r@ == SchemaEntries::empty(),
    {
        let r = Schemas { by_type: Vec::new() };
        assert(r@ =~= SchemaEntries::empty());
        r
    }
}

// ------------------------------------------------------------------
// Reading schemas.yml
// ------------------------------------------------------------------

/// `v` without one pair of enclosing double or single quotes.
pub open spec fn unquoted(v: Seq<char>) -> Seq<char> {
    if v.len() >= 2 && v[0] == '"' && v.last() == '"' {
        v.subrange(1, v.len() - 1)
    } else if v.len() >= 2 && v[0] == '\'' && v.last() == '\'' {
        v.subrange(1, v.len() - 1)
    } else {
        v
    }
}

/// A status entry such as `open:[ ]`, `in-progress[~]` or `open`, read as a
/// name and a checklist mark; none when either is empty.
pub open spec fn status_entry(entry: Seq<char>) -> Option<(Seq<char>, Seq<char>)> {
    let e = unquoted(trim(entry));
    if e.len() == 0 {
        None
    } else {
        let pair = match split_once(e, seq![':']) {
            Some(p) => (trim(p.0), trim(p.1)),
            None => match rfind(e, '[') {
                Some(k) => (trim(e.take(k)), trim(e.skip(k))),
                None => (e, default_markdown(e)),
            },
        };
        if pair.0.len() == 0 || pair.1.len() == 0 {
            None
        } else {
            Some(pair)
        }
    }
}

/// The items split off so far, the item in progress, and the open quote.
pub type ListState = (Seq<Seq<char>>, Seq<char>, Option<char>);

/// One character of an inline list: quotes open and close (and are dropped),
/// a comma outside quotes ends an item.
pub open spec fn list_step(st: ListState, c: char) -> ListState {
    match st.2 {
        None => if c == '"' || c == '\'' {
            (st.0, st.1, Some(c))
        } else if c == ',' {
            (st.0.push(trim(st.1)), seq![], None)
        } else {
            (st.0, st.1.push(c), None)
        },
        Some(q) => if c == q {
            (st.0, st.1, None)
        } else {
            (st.0, st.1.push(c), Some(q))
        },
    }
}

/// The state after the characters of `s`.
pub open spec fn list_state(s: Seq<char>) -> ListState
    decreases s.len(),
{
    if s.len() == 0 {
        (seq![], seq![], None)
    } else {
        list_step(list_state(s.drop_last()), s.last())
    }
}

/// The items of an inline list `a, "b", 'c'`, each trimmed; a last item that
/// is empty after trimming is dropped.
pub open spec fn inline_list(s: Seq<char>) -> Seq<Seq<char>> {
    let st = list_state(s);
    if trim(st.1).len() > 0 {
        st.0.push(trim(st.1))
    } else {
        st.0
    }
}

/// The status entries that `items` hold, in order, skipping those that do not read.
pub open spec fn status_entries(items: Seq<Seq<char>>) -> Seq<(Seq<char>, Seq<char>)>
    decreases items.len(),
{
    if items.len() == 0 {
        seq![]
    } else {
        let rest = status_entries(items.drop_last());
        match status_entry(items.last()) {
            Some(e) => rest.push(e),
            None => rest,
        }
    }
}

/// The statuses of a `statuses:` value `[..]`; none unless it is bracketed.
pub open spec fn statuses_value(value: Seq<char>) -> Seq<(Seq<char>, Seq<char>)> {
    let v = trim(value);
    if v.len() >= 2 && v[0] == '[' && v.last() == ']' {
        status_entries(inline_list(v.subrange(1, v.len() - 1)))
    } else {
        seq![]
    }
}

/// `s` without its trailing colons.
pub open spec fn strip_colons(s: Seq<char>) -> Seq<char>
    decreases s.len(),
{
    if s.len() > 0 && s.last() == ':' {
        strip_colons(s.drop_last())
    } else {
        s
    }
}

/// `entries` with an empty schema for `t` added, unless `t` has one.
pub open spec fn or_default(entries: SchemaEntries, t: Seq<char>) -> SchemaEntries {
    match type_index(entries, t) {
        Some(_) => entries,
        None => entries.push((t, seq![])),
    }
}

/// `entries` with the statuses of `t` set to `sts`.
pub open spec fn insert_type(
    entries: SchemaEntries,
    t: Seq<char>,
    sts: Seq<(Seq<char>, Seq<char>)>,
) -> SchemaEntries {
    match type_index(entries, t) {
        Some(i) => entries.update(i, (t, sts)),
        None => entries.push((t, sts)),
    }
}

/// The schemas read so far and the marker type being read.
pub type SchemaState = (SchemaEntries, Option<Seq<char>>);

/// The characters of `statuses:`.
pub open spec fn statuses_key() -> Seq<char> {
    seq!['s', 't', 'a', 't', 'u', 's', 'e', 's', ':']
}

/// One line of `schemas.yml`: blank lines and `#` comments are skipped; an
/// unindented line ending in `:` opens a marker type; a `statuses:` line under
/// it sets the statuses of that type; other lines are ignored.
pub open spec fn schema_step(st: SchemaState, line: Seq<char>) -> SchemaState {
    let tr = trim(line);
    if tr.len() == 0 || tr[0] == '#' {
        st
    } else if !(line.len() > 0 && line[0] == ' ') && tr.last() == ':' {
        let name = strip_colons(tr);
        (or_default(st.0, name), Some(name))
    } else {
        match st.1 {
            None => st,
            Some(t) => if starts_with(tr, statuses_key()) {
                (insert_type(st.0, t, statuses_value(trim(tr.skip(9)))), st.1)
            } else {
                st
            },
        }
    }
}

/// The state after the lines `ls`.
pub open spec fn schema_state(ls: Seq<Seq<char>>) -> SchemaState
    decreases ls.len(),
{
    if ls.len() == 0 {
        (seq![], None)
    } else {
        schema_step(schema_state(ls.drop_last()), ls.last())
    }
}

/// The schemas that the text of `schemas.yml` describes.
pub open spec fn schemas_of(content: Seq<char>) -> SchemaEntries {
    schema_state(lines(content)).0
}

/// Adding an empty entry for a marker type keeps the marker types distinct.
pub proof fn lemma_or_default_unique(entries: SchemaEntries, t: Seq<char>)
    requires
        unique_types(entries),
    ensures
        unique_types(or_default(entries, t)),
        type_index(or_default(entries, t), t) is Some,
{
    lemma_first_from(entries, is_type(t), 0);
    if type_index(entries, t) is None {
        let e2 = entries.push((t, seq![]));
        assert(e2[entries.len() as int] == (t, Seq::<(Seq<char>, Seq<char>)>::empty()));
        assert forall|i: int, j: int|
            0 <= i < e2.len() && 0 <= j < e2.len() && i != j implies e2[i].0 != e2[j].0 by {
            if i < entries.len() && j < entries.len() {
                assert(e2[i] == entries[i]);
                assert(e2[j] == entries[j]);
            } else if i < entries.len() {
                assert(!is_type(t)(entries[i]));
            } else {
                assert(!is_type(t)(entries[j]));
            }
        }
        lemma_first_from(e2, is_type(t), 0);
        if type_index(e2, t) is None {
            assert(is_type(t)(e2[entries.len() as int]));
        }
    }
}

/// Setting the statuses of a marker type keeps the marker types distinct.
pub proof fn lemma_insert_type_unique(
    entries: SchemaEntries,
    t: Seq<char>,
    sts: Seq<(Seq<char>, Seq<char>)>,
)
    requires
        unique_types(entries),
        type_index(entries, t) is Some,
    ensures
        unique_types(insert_type(entries, t, sts)),
{
    lemma_first_from(entries, is_type(t), 0);
    let i = type_index(entries, t).unwrap();
    let e2 = entries.update(i, (t, sts));
    assert forall|a: int, b: int|
        0 <= a < e2.len() && 0 <= b < e2.len() && a != b implies e2[a].0 != e2[b].0 by {
        if a != i && b != i {
        } else if a == i {
            assert(e2[a].0 == entries[i].0);
        } else {
            assert(e2[b].0 == entries[i].0);
        }
    }
}

/// `v` without one pair of enclosing double or single quotes.
fn unquote(v: &Vec<char>) -> (r: Vec<char>)
    ensures
        r@ == unquoted(v@),
{
    let n = v.len();
    if n >= 2 && ((v[0] == '"' && v[n - 1] == '"') || (v[0] == '\'' && v[n - 1] == '\'')) {
        subrange(v, 1, n - 1)
    } else {
        subrange(v, 0, n)
    }
}

/// Reads one status entry.
fn parse_status_entry(entry: &Vec<char>) -> (r: Option<StatusSchema>)
    ensures
        r matches Some(st) ==> status_entry(entry@) == Some(st@),
        r is None ==> status_entry(entry@) is None,
{
    let e = unquote(&trim_chars(entry));
    if e.len() == 0 {
        return None;
    }
    let (name, markdown) = match split_once_char(&e, ':') {
        Some((a, b)) => (trim_chars(&a), trim_chars(&b)),
        None => match rsplit_once_char(&e, '[') {
            Some((a, _b)) => {
                let k = a.len();
                proof {
                    lemma_rfind_split(e@, '[');
                }
                let rest = subrange(&e, k, e.len());
                (trim_chars(&a), trim_chars(&rest))
            },
            None => {
                let md = to_chars(default_markdown_for_status(to_string(&e).as_str()));
                (subrange(&e, 0, e.len()), md)
            },
        },
    };
    if name.len() == 0 || markdown.len() == 0 {
        None
    } else {
        Some(StatusSchema { name: to_string(&name), markdown: to_string(&markdown) })
    }
}

/// Splits an inline list at the commas that stand outside quotes.
fn split_inline_list(value: &Vec<char>) -> (r: Vec<Vec<char>>)
    ensures
        views(r@) == inline_list(value@),
{
    let mut items: Vec<Vec<char>> = Vec::new();
    let mut current: Vec<char> = Vec::new();
    let mut quote: Option<char> = None;
    let mut i: usize = 0;
    while i < value.len()
        invariant
            i <= value@.len(),
            (views(items@), current@, quote) == list_state(value@.take(i as int)),
        decreases value@.len() - i,
    {
        let c = value[i];
        assert(value@.take(i + 1).drop_last() == value@.take(i as int));
        assert(value@.take(i + 1).last() == c);
        let ghost before = views(items@);
        match quote {
            None => {
                if c == '"' || c == '\'' {
                    quote = Some(c);
                } else if c == ',' {
                    let t = trim_chars(&current);
                    items.push(t);
                    assert(views(items@) =~= before.push(t@));
                    current = Vec::new();
                } else {
                    current.push(c);
                }
            },
            Some(q) => {
                if c == q {
                    quote = None;
                } else {
                    current.push(c);
                }
            },
        }
        i = i + 1;
    }
    assert(value@.take(value@.len() as int) == value@);
    let t = trim_chars(&current);
    if t.len() > 0 {
        let ghost before = views(items@);
        items.push(t);
        assert(views(items@) =~= before.push(t@));
    }
    items
}

/// Reads a `statuses:` value.
fn parse_statuses(value: &Vec<char>) -> (r: Vec<StatusSchema>)
    ensures
        status_views(r@) == statuses_value(value@),
{
    let v = trim_chars(value);
    let n = v.len();
    if !(n >= 2 && v[0] == '[' && v[n - 1] == ']') {
        let r: Vec<StatusSchema> = Vec::new();
        assert(status_views(r@) =~= Seq::<(Seq<char>, Seq<char>)>::empty());
        return r;
    }
    let inner = subrange(&v, 1, n - 1);
    let items = split_inline_list(&inner);
    let mut r: Vec<StatusSchema> = Vec::new();
    let mut i: usize = 0;
    let ghost iv = views(items@);
    assert(status_views(r@) =~= status_entries(iv.take(0)));
    while i < items.len()
        invariant
            i <= items@.len(),
            iv == views(items@),
            status_views(r@) == status_entries(iv.take(i as int)),
        decreases items@.len() - i,
    {
        assert(iv.take(i + 1).drop_last() == iv.take(i as int));
        assert(iv.take(i + 1).last() == items@[i as int]@);
        let ghost before = status_views(r@);
        match parse_status_entry(&items[i]) {
            Some(st) => {
                r.push(st);
                assert(status_views(r@) =~= before.push(st@));
            },
            None => {},
        }
        i = i + 1;
    }
    assert(iv.take(items@.len() as int) == iv);
    r
}

/// `s` without its trailing colons.
fn strip_trailing_colons(s: &Vec<char>) -> (r: Vec<char>)
    ensures
        r@ == strip_colons(s@),
{
    let mut n: usize = s.len();
    assert(s@.subrange(0, n as int) == s@);
    while n > 0 && s[n - 1] == ':'
        invariant
            n <= s@.len(),
            strip_colons(s@) == strip_colons(s@.subrange(0, n as int)),
        decreases n,
    {
        assert(s@.subrange(0, n as int).drop_last() == s@.subrange(0, n - 1));
        n = n - 1;
    }
    subrange(s, 0, n)
}

/// Reads the text of `schemas.yml`.
pub fn parse_schemas(content: &str) -> (r: Schemas)
    ensures
        r@ == schemas_of(content@),
{
    let chars = to_chars(content);
    let ls = split_lines(&chars);
    let ghost lv = views(ls@);
    let mut by_type: Vec<(String, MarkerSchema)> = Vec::new();
    let mut current: Option<Vec<char>> = None;
    let key = to_chars("statuses:");
    proof {
        reveal_strlit("statuses:");
    }
    assert(key@ == statuses_key());
    let mut i: usize = 0;
    assert(entries_view(by_type@) =~= SchemaEntries::empty());
    while i < ls.len()
        invariant
            i <= ls@.len(),
            lv == views(ls@),
            key@ == statuses_key(),
            entries_view(by_type@) == schema_state(lv.take(i as int)).0,
            opt_chars(current) == schema_state(lv.take(i as int)).1,
            unique_types(entries_view(by_type@)),
            current matches Some(t) ==> type_index(entries_view(by_type@), t@) is Some,
        decreases ls@.len() - i,
    {
        let line = &ls[i];
        assert(lv.take(i + 1).drop_last() == lv.take(i as int));
        assert(lv.take(i + 1).last() == line@);
        let tr = trim_chars(line);
        let ghost before = entries_view(by_type@);
        if tr.len() == 0 || tr[0] == '#' {
        } else if !(line.len() > 0 && line[0] == ' ') && tr[tr.len() - 1] == ':' {
            let name = strip_trailing_colons(&tr);
            proof {
                lemma_or_default_unique(before, name@);
            }
            match find_entry(&by_type, &name) {
                Some(_) => {},
                None => {
                    by_type.push((to_string(&name), MarkerSchema::default()));
                    assert(entries_view(by_type@) =~= before.push((name@, seq![])));
                },
            }
            current = Some(name);
        } else {
            match &current {
                None => {},
                Some(t) => {
                    match strip_prefix_chars(&tr, &key) {
                        Some(rest) => {
                            let sts = parse_statuses(&trim_chars(&rest));
                            let idx = find_entry(&by_type, t);
                            proof {
                                lemma_insert_type_unique(before, t@, status_views(sts@));
                            }
                            let k = idx.unwrap();
                            let entry = (to_string(t), MarkerSchema { statuses: sts });
                            by_type.set(k, entry);
                            assert(entries_view(by_type@) =~= insert_type(
                                before,
                                t@,
                                status_views(sts@),
                            ));
                            proof {
                                lemma_first_from(entries_view(by_type@), is_type(t@), 0);
                                assert(is_type(t@)(entries_view(by_type@)[k as int]));
                            }
                        },
                        None => {},
                    }
                },
            }
        }
        i = i + 1;
    }
    assert(lv.take(ls@.len() as int) == lv);
    Schemas { by_type }
}

/// The optional view of an optional character vector.
pub open spec fn opt_chars(o: Option<Vec<char>>) -> Option<Seq<char>> {
    match o {
        Some(v) => Some(v@),
        None => None,
    }
}

/// The schemas given the text of `schemas.yml`, or none when there is no such file.
pub fn load_schemas(content: Option<&str>) -> (r: Schemas)
    ensures
        content matches Some(c) ==> r@ == schemas_of(c@),
        content is None ==> r@ == SchemaEntries::empty(),
{
    match content {
        Some(c) => parse_schemas(c),
        None => Schemas::default(),
    }
}

proof fn lemma_type_index_update(entries: SchemaEntries, i: int, x: (Seq<char>, Seq<(Seq<char>, Seq<char>)>), u: Seq<char>)
    requires
        0 <= i < entries.len(),
        entries[i].0 == x.0,
    ensures
        type_index(entries.update(i, x), u) == type_index(entries, u),
{
    let e2 = entries.update(i, x);
    lemma_first_from(entries, is_type(u), 0);
    lemma_first_from(e2, is_type(u), 0);
    assert forall|j: int| 0 <= j < entries.len() implies is_type(u)(#[trigger] e2[j]) == is_type(u)(entries[j]) by {
        if j == i {
        }
    }
    match (type_index(entries, u), type_index(e2, u)) {
        (Some(a), Some(b)) => {
            if a < b {
                assert(is_type(u)(e2[a]));
            } else if b < a {
                assert(is_type(u)(entries[b]));
            }
        },
        (Some(a), None) => {
            assert(is_type(u)(e2[a]));
        },
        (None, Some(b)) => {
            assert(is_type(u)(entries[b]));
        },
        (None, None) => {},
    }
}

proof fn lemma_type_index_push(entries: SchemaEntries, x: (Seq<char>, Seq<(Seq<char>, Seq<char>)>), u: Seq<char>)
    ensures
        type_index(entries.push(x), u) == (match type_index(entries, u) {
            Some(k) => Some(k),
            None => if x.0 == u {
                Some(entries.len() as int)
            } else {
                None
            },
        }),
{
    let e2 = entries.push(x);
    lemma_first_from(entries, is_type(u), 0);
    lemma_first_from(e2, is_type(u), 0);
    assert forall|j: int| 0 <= j < entries.len() implies #[trigger] e2[j] == entries[j] by {}
    match (type_index(entries, u), type_index(e2, u)) {
        (Some(a), Some(b)) => {
            if a < b {
                assert(is_type(u)(e2[a]));
            } else if b < a {
                assert(is_type(u)(entries[b]));
            }
        },
        (Some(a), None) => {
            assert(is_type(u)(e2[a]));
        },
        (None, Some(b)) => {
            if b < entries.len() {
                assert(is_type(u)(entries[b]));
            }
        },
        (None, None) => {
            if x.0 == u {
                assert(is_type(u)(e2[entries.len() as int]));
            }
        },
    }
}

/// One line of `schemas.yml` as it is read, told by the statuses each marker
/// type `u` has afterwards: a blank line or a `#` comment changes nothing; an
/// unindented line ending in `:` makes the type it names current, and gives it
/// an empty list of statuses unless it has one; a `statuses:` line under a
/// current type sets that type's statuses and leaves every other type's;
/// any other line changes nothing.
pub proof fn lemma_schema_line(st: SchemaState, line: Seq<char>, u: Seq<char>)
    ensures
        ({
            let n = schema_step(st, line);
            let tr = trim(line);
            let blank = tr.len() == 0 || tr[0] == '#';
            let header = !blank && !(line.len() > 0 && line[0] == ' ') && tr.last() == ':';
            let sets = !blank && !header && st.1 is Some && starts_with(tr, statuses_key());
            &&& blank ==> n == st
            &&& header ==> n.1 == Some(strip_colons(tr)) && statuses_of(n.0, u) == (if u == strip_colons(tr)
                && statuses_of(st.0, u) is None {
                Some(Seq::<(Seq<char>, Seq<char>)>::empty())
            } else {
                statuses_of(st.0, u)
            })
            &&& sets ==> n.1 == st.1 && statuses_of(n.0, u) == (if u == st.1->Some_0 {
                Some(statuses_value(trim(tr.skip(9))))
            } else {
                statuses_of(st.0, u)
            })
            &&& (!blank && !header && !sets) ==> n == st
        }),
{
    let tr = trim(line);
    let blank = tr.len() == 0 || tr[0] == '#';
    let header = !blank && !(line.len() > 0 && line[0] == ' ') && tr.last() == ':';
    let n = schema_step(st, line);
    if header {
        let name = strip_colons(tr);
        assert(n == (or_default(st.0, name), Some(name)));
        lemma_first_from(st.0, is_type(name), 0);
        lemma_first_from(st.0, is_type(u), 0);
        if type_index(st.0, name) is None {
            lemma_type_index_push(st.0, (name, seq![]), u);
            if let Some(k) = type_index(st.0, u) {
                assert(n.0[k] == st.0[k]);
            }
            assert(statuses_of(n.0, u) == (if u == name && statuses_of(st.0, u) is None {
                Some(Seq::<(Seq<char>, Seq<char>)>::empty())
            } else {
                statuses_of(st.0, u)
            }));
        } else {
            assert(n.0 == st.0);
            if u == name {
                assert(statuses_of(st.0, u) is Some);
            }
        }
    } else if !blank && st.1 is Some && starts_with(tr, statuses_key()) {
        let t = st.1->Some_0;
        let sts = statuses_value(trim(tr.skip(9)));
        assert(n == (insert_type(st.0, t, sts), st.1));
        lemma_first_from(st.0, is_type(t), 0);
        lemma_first_from(st.0, is_type(u), 0);
        match type_index(st.0, t) {
            Some(i) => {
                lemma_type_index_update(st.0, i, (t, sts), u);
                lemma_type_index_update(st.0, i, (t, sts), t);
                if let Some(k) = type_index(st.0, u) {
                    if k != i {
                        assert(n.0[k] == st.0[k]);
                    }
                }
            },
            None => {
                lemma_type_index_push(st.0, (t, sts), u);
                if let Some(k) = type_index(st.0, u) {
                    assert(n.0[k] == st.0[k]);
                }
            },
        }
    }
}

/// Whether text neither starts nor ends with whitespace.
pub open spec fn trimmed(s: Seq<char>) -> bool {
    s.len() > 0 ==> !is_white_space(s[0]) && !is_white_space(s.last())
}

/// A status entry reads as a mark that neither starts nor ends with
/// whitespace; and an entry `name:mark` reads with name and mark trimmed, so
/// both are trimmed too.
pub proof fn lemma_status_entry_trimmed(entry: Seq<char>)
    ensures
        status_entry(entry) matches Some(p) ==> trimmed(p.1),
        split_once(unquoted(trim(entry)), seq![':']) is Some ==> (status_entry(entry) matches Some(p) ==> trimmed(p.0)),
{
    let e = unquoted(trim(entry));
    match split_once(e, seq![':']) {
        Some(q) => {
            lemma_trim_ends(q.0);
            lemma_trim_ends(q.1);
        },
        None => match rfind(e, '[') {
            Some(k) => {
                lemma_trim_ends(e.take(k));
                lemma_trim_ends(e.skip(k));
            },
            None => {
                let m = default_markdown(e);
                assert(m[0] == '[');
                assert(m.last() == ']');
            },
        },
    }
}

/// An entry `name:mark` whose name has no colon reads as the trimmed name and
/// the trimmed mark, when both are not empty and the name does not start with
/// a quote.
pub proof fn lemma_status_entry_colon(n: Seq<char>, m: Seq<char>)
    requires
        lacks(n, ':'),
        trim(n).len() > 0,
        trim(m).len() > 0,
        trim(n)[0] != '"',
        trim(n)[0] != '\'',
    ensures
        status_entry(n + seq![':'] + m) == Some((trim(n), trim(m))),
{
    let (an, bn) = lemma_trim_bounds(n);
    let (am, bm) = lemma_trim_bounds(m);
    let entry = n + seq![':'] + m;
    let b = n.len() + 1 + bm;
    assert forall|i: int| 0 <= i < an implies is_white_space(#[trigger] entry[i]) by {
        assert(entry[i] == n[i]);
    }
    assert forall|i: int| b <= i < entry.len() implies is_white_space(#[trigger] entry[i]) by {
        assert(entry[i] == m[i - n.len() - 1]);
    }
    assert(entry[an] == n[an]);
    assert(entry[b - 1] == m[bm - 1]);
    lemma_trim_is(entry, an, b);
    let ns = n.skip(an);
    let mt = m.take(bm);
    assert(entry.subrange(an, b) =~= ns + seq![':'] + mt);
    let e = trim(entry);
    assert(e[0] == n[an]);
    assert(trim(n)[0] == n[an]);
    assert(unquoted(e) == e);
    assert forall|i: int| 0 <= i < ns.len() implies ns[i] != ':' by {
        assert(ns[i] == n[an + i]);
    }
    lemma_split_char(ns, ':', mt);
    assert forall|i: int| bn - an <= i < ns.len() implies is_white_space(#[trigger] ns[i]) by {
        assert(ns[i] == n[an + i]);
    }
    assert(ns[0] == n[an]);
    assert(ns[bn - an - 1] == n[bn - 1]);
    lemma_trim_is(ns, 0, bn - an);
    assert(ns.subrange(0, bn - an) =~= n.subrange(an, bn));
    assert forall|i: int| 0 <= i < am implies is_white_space(#[trigger] mt[i]) by {
        assert(mt[i] == m[i]);
    }
    assert(mt[am] == m[am]);
    assert(mt[bm - 1] == m[bm - 1]);
    lemma_trim_is(mt, am, bm);
    assert(mt.subrange(am, bm) =~= m.subrange(am, bm));
}

} // verus!
