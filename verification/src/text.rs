//! Character-level text operations over `Seq<char>`, with executable
//! counterparts on `Vec<char>`.
use vstd::prelude::*;

verus! {

// ------------------------------------------------------------------
// Character classes
// ------------------------------------------------------------------

/// Whether `c` has the Unicode `White_Space` property (what `char::is_whitespace`
/// returns): tab to carriage return, space, U+0085, U+00A0, U+1680,
/// U+2000 to U+200A, U+2028, U+2029, U+202F, U+205F and U+3000.
pub open spec fn is_white_space(c: char) -> bool {
    let v = c as u32;
    ||| 0x09 <= v <= 0x0D
    ||| v == 0x20
    ||| v == 0x85
    ||| v == 0xA0
    ||| v == 0x1680
    ||| 0x2000 <= v <= 0x200A
    ||| v == 0x2028
    ||| v == 0x2029
    ||| v == 0x202F
    ||| v == 0x205F
    ||| v == 0x3000
}

/// Whether `c` has the `White_Space` property.
pub fn is_whitespace(c: char) -> (r: bool)
    ensures
        r == is_white_space(c),
{
    let v = c as u32;
    (0x09 <= v && v <= 0x0D) || v == 0x20 || v == 0x85 || v == 0xA0 || v == 0x1680 || (0x2000 <= v
        && v <= 0x200A) || v == 0x2028 || v == 0x2029 || v == 0x202F || v == 0x205F || v == 0x3000
}

/// Whether `c` is an ASCII letter or digit.
pub open spec fn is_ascii_alphanumeric(c: char) -> bool {
    let v = c as u32;
    (48 <= v <= 57) || (65 <= v <= 90) || (97 <= v <= 122)
}

/// Whether `c` is alphabetic or numeric in Unicode (what `char::is_alphanumeric`
/// returns); the Unicode tables behind it are not written out here.
pub uninterp spec fn spec_is_alphanumeric(c: char) -> bool;

/// Whether `c` is alphabetic or numeric: among ASCII characters, exactly the
/// letters and digits.
pub open spec fn is_alphanumeric_char(c: char) -> bool {
    if (c as u32) < 128 {
        is_ascii_alphanumeric(c)
    } else {
        spec_is_alphanumeric(c)
    }
}

/// Calls `char::is_alphanumeric`. The contract names the result; of ASCII
/// characters it states what the documentation of `char::is_alphanumeric`
/// fixes: exactly the letters and digits are alphanumeric.
#[verifier::external_body]
fn call_is_alphanumeric(c: char) -> (r: bool)
    ensures
        r == spec_is_alphanumeric(c),
        (c as u32) < 128 ==> (r <==> is_ascii_alphanumeric(c)),
{
    c.is_alphanumeric()
}

/// Whether `c` is alphabetic or numeric.
pub fn is_alphanumeric(c: char) -> (r: bool)
    ensures
        r == is_alphanumeric_char(c),
{
    call_is_alphanumeric(c)
}

/// Calls `String::push`, which appends `c` at the end of `s`.
#[verifier::external_body]
pub(crate) fn push_char(s: &mut String, c: char)
    ensures
        final(s)@ == old(s)@.push(c),
{
    s.push(c);
}

// ------------------------------------------------------------------
// Conversions
// ------------------------------------------------------------------

/// The characters of `s`, in order.
pub fn to_chars(s: &str) -> (v: Vec<char>)
    ensures
        v@ == s@,
{
    let mut v: Vec<char> = Vec::new();
    for c in it: s.chars()
        invariant
            it.seq() == s@,
            v@ == it.seq().take(it.index() as int),
    {
        v.push(c);
    }
    v
}

/// A `String` holding the characters of `v`.
pub fn to_string(v: &Vec<char>) -> (s: String)
    ensures
        s@ == v@,
{
    let mut s = String::new();
    let mut i: usize = 0;
    while i < v.len()
        invariant
            i <= v.len(),
            s@ == v@.take(i as int),
        decreases v.len() - i,
    {
        push_char(&mut s, v[i]);
        i = i + 1;
        assert(v@.take(i as int) == v@.take(i - 1).push(v@[i - 1]));
    }
    assert(v@.take(v.len() as int) == v@);
    s
}

/// A copy of `v[a..b]`.
pub fn subrange(v: &Vec<char>, a: usize, b: usize) -> (r: Vec<char>)
    requires
        a <= b <= v.len(),
    ensures
        r@ == v@.subrange(a as int, b as int),
{
    let mut r: Vec<char> = Vec::new();
    let mut i: usize = a;
    while i < b
        invariant
            a <= i <= b <= v.len(),
            r@ == v@.subrange(a as int, i as int),
        decreases b - i,
    {
        r.push(v[i]);
        i = i + 1;
        assert(r@ == v@.subrange(a as int, i as int));
    }
    r
}

/// Appends all of `b` at the end of `a`.
pub fn extend(a: &mut Vec<char>, b: &Vec<char>)
    ensures
        final(a)@ == old(a)@ + b@,
{
    let mut i: usize = 0;
    while i < b.len()
        invariant
            i <= b.len(),
            a@ == old(a)@ + b@.take(i as int),
        decreases b.len() - i,
    {
        a.push(b[i]);
        i = i + 1;
        assert(a@ == old(a)@ + b@.take(i as int));
    }
    assert(b@.take(b.len() as int) == b@);
}

/// Whether `a` and `b` hold the same characters.
pub fn chars_eq(a: &Vec<char>, b: &Vec<char>) -> (r: bool)
    ensures
        r == (a@ == b@),
{
    if a.len() != b.len() {
        return false;
    }
    let mut i: usize = 0;
    while i < a.len()
        invariant
            a.len() == b.len(),
            i <= a.len(),
            forall|j: int| 0 <= j < i ==> a@[j] == b@[j],
        decreases a.len() - i,
    {
        if a[i] != b[i] {
            return false;
        }
        i = i + 1;
    }
    assert(a@ =~= b@);
    true
}

// ------------------------------------------------------------------
// Trimming
// ------------------------------------------------------------------

/// `s` without its leading whitespace.
pub open spec fn trim_start(s: Seq<char>) -> Seq<char>
    decreases s.len(),
{
    if s.len() > 0 && is_white_space(s[0]) {
        trim_start(s.drop_first())
    } else {
        s
    }
}

/// `s` without its trailing whitespace.
pub open spec fn trim_end(s: Seq<char>) -> Seq<char>
    decreases s.len(),
{
    if s.len() > 0 && is_white_space(s.last()) {
        trim_end(s.drop_last())
    } else {
        s
    }
}

/// `s` without leading and trailing whitespace (what `str::trim` returns).
pub open spec fn trim(s: Seq<char>) -> Seq<char> {
    trim_end(trim_start(s))
}

/// `str::trim` on characters.
pub fn trim_chars(s: &Vec<char>) -> (r: Vec<char>)
    ensures
        r@ == trim(s@),
{
    let n = s.len();
    let mut a: usize = 0;
    assert(s@.skip(0) == s@);
    while a < n && is_whitespace(s[a])
        invariant
            a <= n == s.len(),
            trim_start(s@) == trim_start(s@.skip(a as int)),
        decreases n - a,
    {
        assert(s@.skip(a as int).drop_first() == s@.skip(a + 1));
        a = a + 1;
    }
    let ghost t = s@.skip(a as int);
    assert(trim_start(s@) == t);
    let mut b: usize = n;
    while b > a && is_whitespace(s[b - 1])
        invariant
            a <= b <= n == s.len(),
            t == s@.skip(a as int),
            trim_end(t) == trim_end(s@.subrange(a as int, b as int)),
        decreases b - a,
    {
        assert(s@.subrange(a as int, b as int).drop_last() == s@.subrange(a as int, b - 1));
        b = b - 1;
    }
    assert(t == s@.subrange(a as int, n as int));
    subrange(s, a, b)
}

// ------------------------------------------------------------------
// Prefixes and searching
// ------------------------------------------------------------------

/// Whether `p` occurs in `s` starting at index `i`.
pub open spec fn match_at(s: Seq<char>, p: Seq<char>, i: int) -> bool {
    0 <= i && i + p.len() <= s.len() && s.subrange(i, i + p.len()) == p
}

/// The first index `k >= i` at which `p` occurs in `s`.
pub open spec fn find_from(s: Seq<char>, p: Seq<char>, i: int) -> Option<int>
    decreases s.len() + 1 - i,
{
    if i < 0 || i + p.len() > s.len() {
        None
    } else if match_at(s, p, i) {
        Some(i)
    } else {
        find_from(s, p, i + 1)
    }
}

/// The first index at which `p` occurs in `s` (what `str::find` returns, counted in characters).
pub open spec fn find(s: Seq<char>, p: Seq<char>) -> Option<int> {
    find_from(s, p, 0)
}

/// Whether `s` starts with `p`.
pub open spec fn starts_with(s: Seq<char>, p: Seq<char>) -> bool {
    p.len() <= s.len() && s.take(p.len() as int) == p
}

/// `s` split around the first occurrence of `p` (what `str::split_once` returns).
pub open spec fn split_once(s: Seq<char>, p: Seq<char>) -> Option<(Seq<char>, Seq<char>)> {
    match find(s, p) {
        Some(k) => Some((s.take(k), s.skip(k + p.len()))),
        None => None,
    }
}

/// The last index below `n` at which `c` stands in `s`.
pub open spec fn rfind_below(s: Seq<char>, c: char, n: int) -> Option<int>
    decreases n,
{
    if n <= 0 || n > s.len() {
        None
    } else if s[n - 1] == c {
        Some(n - 1)
    } else {
        rfind_below(s, c, n - 1)
    }
}

/// The last index at which `c` stands in `s` (what `str::rfind` returns for a character).
pub open spec fn rfind(s: Seq<char>, c: char) -> Option<int> {
    rfind_below(s, c, s.len() as int)
}

/// `s` split around the last occurrence of `c` (what `str::rsplit_once` returns).
pub open spec fn rsplit_once(s: Seq<char>, c: char) -> Option<(Seq<char>, Seq<char>)> {
    match rfind(s, c) {
        Some(k) => Some((s.take(k), s.skip(k + 1))),
        None => None,
    }
}

/// `s` with the first occurrence of `from` replaced by `to` (what `str::replacen(.., 1)` returns).
pub open spec fn replace_first(s: Seq<char>, from: Seq<char>, to: Seq<char>) -> Seq<char> {
    match find(s, from) {
        Some(k) => s.take(k) + to + s.skip(k + from.len()),
        None => s,
    }
}

/// What `find_from` returns: the first match from `i` on, or none at all.
pub proof fn lemma_find_from_range(s: Seq<char>, p: Seq<char>, i: int)
    requires
        0 <= i,
    ensures
        find_from(s, p, i) matches Some(k) ==> i <= k && k + p.len() <= s.len() && match_at(
            s,
            p,
            k,
        ) && forall|j: int| i <= j < k ==> !match_at(s, p, j),
        find_from(s, p, i) is None ==> forall|j: int| i <= j ==> !match_at(s, p, j),
    decreases s.len() + 1 - i,
{
    if i < 0 || i + p.len() > s.len() {
    } else if match_at(s, p, i) {
    } else {
        lemma_find_from_range(s, p, i + 1);
    }
}

/// Whether `p` occurs in `s` at index `i`.
pub fn matches_at(s: &Vec<char>, p: &Vec<char>, i: usize) -> (r: bool)
    ensures
        r == match_at(s@, p@, i as int),
{
    if i > s.len() || p.len() > s.len() - i {
        return false;
    }
    let mut j: usize = 0;
    while j < p.len()
        invariant
            i + p.len() <= s.len(),
            j <= p.len(),
            forall|k: int| 0 <= k < j ==> s@[i + k] == p@[k],
        decreases p.len() - j,
    {
        if s[i + j] != p[j] {
            assert(s@.subrange(i as int, i + p.len())[j as int] != p@[j as int]);
            return false;
        }
        j = j + 1;
    }
    assert(s@.subrange(i as int, i + p.len()) =~= p@);
    true
}

/// The first index `k >= start` at which `p` occurs in `s`.
pub fn find_chars_from(s: &Vec<char>, p: &Vec<char>, start: usize) -> (r: Option<usize>)
    ensures
        r matches Some(k) ==> find_from(s@, p@, start as int) == Some(k as int),
        r is None ==> find_from(s@, p@, start as int) is None,
{
    if p.len() > s.len() || start > s.len() - p.len() {
        return None;
    }
    let last = s.len() - p.len();
    let mut i: usize = start;
    loop
        invariant
            p.len() <= s.len(),
            last == s.len() - p.len(),
            start <= i <= last,
            find_from(s@, p@, start as int) == find_from(s@, p@, i as int),
        decreases last - i,
    {
        if matches_at(s, p, i) {
            return Some(i);
        }
        if i == last {
            assert(find_from(s@, p@, i + 1) is None);
            return None;
        }
        i = i + 1;
    }
}

/// The first index at which `p` occurs in `s`.
pub fn find_chars(s: &Vec<char>, p: &Vec<char>) -> (r: Option<usize>)
    ensures
        r matches Some(k) ==> find(s@, p@) == Some(k as int),
        r is None ==> find(s@, p@) is None,
{
    find_chars_from(s, p, 0)
}


/// `s` split around the first occurrence of `p`.
pub fn split_once_chars(s: &Vec<char>, p: &Vec<char>) -> (r: Option<(Vec<char>, Vec<char>)>)
    ensures
        r matches Some((a, b)) ==> split_once(s@, p@) == Some((a@, b@)),
        r is None ==> split_once(s@, p@) is None,
{
    match find_chars(s, p) {
        Some(k) => {
            proof {
                lemma_find_from_range(s@, p@, 0);
            }
            let plen = p.len();
            assert(k + plen <= s.len());
            let a = subrange(s, 0, k);
            let b = subrange(s, k + plen, s.len());
            assert(a@ == s@.take(k as int));
            assert(b@ == s@.skip(k + p.len()));
            Some((a, b))
        },
        None => None,
    }
}

/// `s` split around the first occurrence of the character `c`.
pub fn split_once_char(s: &Vec<char>, c: char) -> (r: Option<(Vec<char>, Vec<char>)>)
    ensures
        r matches Some((a, b)) ==> split_once(s@, seq![c]) == Some((a@, b@)),
        r is None ==> split_once(s@, seq![c]) is None,
{
    let p = vec![c];
    assert(p@ == seq![c]);
    split_once_chars(s, &p)
}

/// What `rfind_below` returns: the last index below `n` holding `c`, or none.
pub proof fn lemma_rfind_below_range(s: Seq<char>, c: char, n: int)
    requires
        n <= s.len(),
    ensures
        rfind_below(s, c, n) matches Some(k) ==> 0 <= k < n && s[k] == c,
    decreases n,
{
    if n > 0 && s[n - 1] != c {
        lemma_rfind_below_range(s, c, n - 1);
    }
}

/// `s` split around the last occurrence of `c`.
pub fn rsplit_once_char(s: &Vec<char>, c: char) -> (r: Option<(Vec<char>, Vec<char>)>)
    ensures
        r matches Some((a, b)) ==> rsplit_once(s@, c) == Some((a@, b@)),
        r is None ==> rsplit_once(s@, c) is None,
{
    let mut n: usize = s.len();
    while n > 0 && s[n - 1] != c
        invariant
            n <= s.len(),
            rfind(s@, c) == rfind_below(s@, c, n as int),
        decreases n,
    {
        n = n - 1;
    }
    if n == 0 {
        None
    } else {
        let a = subrange(s, 0, n - 1);
        let b = subrange(s, n, s.len());
        assert(a@ == s@.take(n - 1));
        assert(b@ == s@.skip(n as int));
        Some((a, b))
    }
}

/// `rsplit_once` gives back `s` around the character it splits at.
pub proof fn lemma_rfind_split(s: Seq<char>, c: char)
    ensures
        rsplit_once(s, c) matches Some(parts) ==> rfind(s, c) == Some(parts.0.len() as int)
            && parts.0.len() < s.len(),
{
    lemma_rfind_below_range(s, c, s.len() as int);
}

/// Whether `s` starts with `p`.
pub fn starts_with_chars(s: &Vec<char>, p: &Vec<char>) -> (r: bool)
    ensures
        r == starts_with(s@, p@),
{
    let r = matches_at(s, p, 0);
    assert(r ==> s@.take(p@.len() as int) == s@.subrange(0, p@.len() as int));
    assert(starts_with(s@, p@) ==> s@.subrange(0, p@.len() as int) == s@.take(p@.len() as int));
    r
}

/// `s` without the prefix `p`, if it starts with it.
pub fn strip_prefix_chars(s: &Vec<char>, p: &Vec<char>) -> (r: Option<Vec<char>>)
    ensures
        r matches Some(t) ==> starts_with(s@, p@) && t@ == s@.skip(p@.len() as int),
        r is None ==> !starts_with(s@, p@),
{
    if starts_with_chars(s, p) {
        let t = subrange(s, p.len(), s.len());
        Some(t)
    } else {
        None
    }
}

/// `s` with the first occurrence of `from` replaced by `to`.
pub fn replace_first_chars(s: &Vec<char>, from: &Vec<char>, to: &Vec<char>) -> (r: Vec<char>)
    ensures
        r@ == replace_first(s@, from@, to@),
{
    match find_chars(s, from) {
        Some(k) => {
            proof {
                lemma_find_from_range(s@, from@, 0);
            }
            let flen = from.len();
            assert(k + flen <= s.len());
            let mut r = subrange(s, 0, k);
            extend(&mut r, to);
            let rest = subrange(s, k + flen, s.len());
            extend(&mut r, &rest);
            r
        },
        None => subrange(s, 0, s.len()),
    }
}

// ------------------------------------------------------------------
// Lines
// ------------------------------------------------------------------

/// A line without one trailing carriage return.
pub open spec fn strip_cr(l: Seq<char>) -> Seq<char> {
    if l.len() > 0 && l.last() == '\r' {
        l.drop_last()
    } else {
        l
    }
}

/// The lines completed so far in `s`, and the line in progress.
pub open spec fn lines_state(s: Seq<char>) -> (Seq<Seq<char>>, Seq<char>)
    decreases s.len(),
{
    if s.len() == 0 {
        (seq![], seq![])
    } else {
        let st = lines_state(s.drop_last());
        if s.last() == '\n' {
            (st.0.push(strip_cr(st.1)), seq![])
        } else {
            (st.0, st.1.push(s.last()))
        }
    }
}

/// The lines of `s` (what `str::lines` returns): pieces ended by `\n` or `\r\n`;
/// the last line needs no ending.
pub open spec fn lines(s: Seq<char>) -> Seq<Seq<char>> {
    let st = lines_state(s);
    if st.1.len() > 0 {
        st.0.push(st.1)
    } else {
        st.0
    }
}

/// The character sequences held by a sequence of vectors.
pub open spec fn views(v: Seq<Vec<char>>) -> Seq<Seq<char>> {
    v.map_values(|x: Vec<char>| x@)
}

/// Whether `x` is a contiguous piece of `s`.
pub open spec fn is_piece(s: Seq<char>, x: Seq<char>) -> bool {
    exists|a: int, b: int| 0 <= a <= b <= s.len() && x == s.subrange(a, b)
}

/// The lines of `s`; each is a contiguous piece of `s`.
pub fn split_lines(s: &Vec<char>) -> (r: Vec<Vec<char>>)
    ensures
        views(r@) == lines(s@),
        forall|i: int| 0 <= i < r@.len() ==> is_piece(s@, #[trigger] r@[i]@),
{
    let mut done: Vec<Vec<char>> = Vec::new();
    let mut cur: Vec<char> = Vec::new();
    let mut i: usize = 0;
    let ghost mut cur_start: int = 0;
    while i < s.len()
        invariant
            i <= s.len(),
            views(done@) == lines_state(s@.take(i as int)).0,
            cur@ == lines_state(s@.take(i as int)).1,
            0 <= cur_start <= i,
            cur@ == s@.subrange(cur_start, i as int),
            forall|k: int| 0 <= k < done@.len() ==> is_piece(s@, #[trigger] done@[k]@),
        decreases s.len() - i,
    {
        assert(s@.take(i + 1).drop_last() == s@.take(i as int));
        if s[i] == '\n' {
            let ghost old_done = views(done@);
            let ghost old_vecs = done@;
            let mut line = cur;
            if line.len() > 0 && line[line.len() - 1] == '\r' {
                line.pop();
                assert(line@ == s@.subrange(cur_start, i - 1));
            }
            assert(is_piece(s@, line@));
            done.push(line);
            assert(views(done@) =~= old_done.push(line@));
            assert forall|k: int| 0 <= k < done@.len() implies is_piece(s@, #[trigger] done@[k]@) by {
                if k < old_vecs.len() {
                    assert(done@[k] == old_vecs[k]);
                }
            }
            cur = Vec::new();
            proof {
                cur_start = i + 1;
            }
            assert(cur@ =~= s@.subrange(cur_start, i + 1));
        } else {
            cur.push(s[i]);
            assert(cur@ =~= s@.subrange(cur_start, i + 1));
        }
        i = i + 1;
    }
    assert(s@.take(s.len() as int) == s@);
    if cur.len() > 0 {
        let ghost old_done = views(done@);
        let ghost old_vecs = done@;
        assert(is_piece(s@, cur@));
        done.push(cur);
        assert(views(done@) =~= old_done.push(cur@));
        assert forall|k: int| 0 <= k < done@.len() implies is_piece(s@, #[trigger] done@[k]@) by {
            if k < old_vecs.len() {
                assert(done@[k] == old_vecs[k]);
            }
        }
    }
    done
}

/// The pieces of `ls` joined with `sep` between each two (what `[String]::join` returns).
pub open spec fn join(ls: Seq<Seq<char>>, sep: Seq<char>) -> Seq<char>
    decreases ls.len(),
{
    if ls.len() == 0 {
        seq![]
    } else if ls.len() == 1 {
        ls[0]
    } else {
        join(ls.drop_last(), sep) + sep + ls.last()
    }
}

/// The pieces of `ls` joined with `sep`.
pub fn join_chars(ls: &Vec<Vec<char>>, sep: &Vec<char>) -> (r: Vec<char>)
    ensures
        r@ == join(views(ls@), sep@),
{
    let mut r: Vec<char> = Vec::new();
    let mut i: usize = 0;
    while i < ls.len()
        invariant
            i <= ls.len(),
            r@ == join(views(ls@).take(i as int), sep@),
        decreases ls.len() - i,
    {
        let ghost prev = views(ls@).take(i as int);
        assert(views(ls@).take(i + 1).drop_last() == prev);
        if i > 0 {
            extend(&mut r, sep);
        }
        extend(&mut r, &ls[i]);
        i = i + 1;
    }
    assert(views(ls@).take(ls.len() as int) == views(ls@));
    r
}


// ------------------------------------------------------------------
// Numbers
// ------------------------------------------------------------------

/// Whether `c` is one of `0` to `9`.
pub open spec fn is_digit(c: char) -> bool {
    48 <= (c as u32) <= 57
}

/// Whether every character of `s` is one of `0` to `9`.
pub open spec fn all_digits(s: Seq<char>) -> bool {
    forall|i: int| 0 <= i < s.len() ==> is_digit(#[trigger] s[i])
}

/// The decimal digit that `c` stands for.
pub open spec fn digit_value(c: char) -> int {
    (c as u32) - 48
}

/// The character of the decimal digit `d`.
pub open spec fn digit_char(d: int) -> char {
    (d + 48) as char
}

/// The number that the decimal digits `s` denote.
pub open spec fn digits_value(s: Seq<char>) -> int
    decreases s.len(),
{
    if s.len() == 0 {
        0
    } else {
        digits_value(s.drop_last()) * 10 + digit_value(s.last())
    }
}

/// The decimal notation of `n`, without leading zeros.
pub open spec fn decimal(n: nat) -> Seq<char>
    decreases n,
{
    if n < 10 {
        seq![digit_char(n as int)]
    } else {
        decimal(n / 10).push(digit_char((n % 10) as int))
    }
}

/// `s` without one leading `+`.
pub open spec fn unsigned_part(s: Seq<char>) -> Seq<char> {
    if s.len() > 0 && s[0] == '+' {
        s.drop_first()
    } else {
        s
    }
}

/// What `s.parse::<u64>()` gives: an optional `+`, then one or more decimal
/// digits whose value fits in a `u64`.
pub open spec fn parse_u64(s: Seq<char>) -> Option<u64> {
    let d = unsigned_part(s);
    if d.len() > 0 && all_digits(d) && digits_value(d) <= u64::MAX {
        Some(digits_value(d) as u64)
    } else {
        None
    }
}

/// Whether `c` is one of `0` to `9`.
pub fn is_digit_char(c: char) -> (r: bool)
    ensures
        r == is_digit(c),
{
    let v = c as u32;
    48 <= v && v <= 57
}

/// Whether every character of `s` is one of `0` to `9`.
pub fn all_digit_chars(s: &Vec<char>) -> (r: bool)
    ensures
        r == all_digits(s@),
{
    let mut i: usize = 0;
    while i < s.len()
        invariant
            i <= s.len(),
            forall|j: int| 0 <= j < i ==> is_digit(#[trigger] s@[j]),
        decreases s.len() - i,
    {
        if !is_digit_char(s[i]) {
            return false;
        }
        i = i + 1;
    }
    true
}

/// The value of digits is not negative.
pub proof fn lemma_digits_value_nonneg(s: Seq<char>)
    requires
        all_digits(s),
    ensures
        digits_value(s) >= 0,
    decreases s.len(),
{
    if s.len() > 0 {
        assert(is_digit(s[s.len() - 1]));
        lemma_digits_value_nonneg(s.drop_last());
    }
}

/// The value of a prefix of digits is at most the value of the whole.
pub proof fn lemma_digits_value_prefix(s: Seq<char>, i: int)
    requires
        all_digits(s),
        0 <= i <= s.len(),
    ensures
        digits_value(s.take(i)) <= digits_value(s),
    decreases s.len(),
{
    if i < s.len() {
        assert(is_digit(s[s.len() - 1]));
        assert(all_digits(s.drop_last()));
        lemma_digits_value_prefix(s.drop_last(), i);
        assert(s.drop_last().take(i) == s.take(i));
        lemma_digits_value_nonneg(s.drop_last());
    } else {
        assert(s.take(i) == s);
    }
}

/// `s.parse::<u64>()`.
pub fn parse_u64_chars(s: &Vec<char>) -> (r: Option<u64>)
    ensures
        r == parse_u64(s@),
{
    let start: usize = if s.len() > 0 && s[0] == '+' {
        1
    } else {
        0
    };
    let ghost d = unsigned_part(s@);
    assert(d == s@.skip(start as int));
    if start >= s.len() {
        return None;
    }
    let mut acc: u64 = 0;
    let mut i: usize = start;
    while i < s.len()
        invariant
            start <= i <= s.len(),
            d == s@.skip(start as int),
            d == unsigned_part(s@),
            all_digits(d.take(i - start)),
            acc == digits_value(d.take(i - start)),
        decreases s.len() - i,
    {
        let c = s[i];
        if !is_digit_char(c) {
            assert(d[i - start] == c);
            assert(!is_digit(d[(i - start) as int]));
            assert(!all_digits(d));
            return None;
        }
        let dv = (c as u32 - 48) as u64;
        assert(dv == digit_value(c));
        assert(d.take(i - start + 1).drop_last() == d.take(i - start));
        assert(d.take(i - start + 1).last() == c);
        if acc > (u64::MAX - dv) / 10 {
            proof {
                assert(acc * 10 + dv > u64::MAX) by (nonlinear_arith)
                    requires
                        acc > (u64::MAX - dv) / 10,
                        dv <= 9,
                ;
                if all_digits(d) {
                    lemma_digits_value_prefix(d, i - start + 1);
                }
            }
            return None;
        }
        acc = acc * 10 + dv;
        i = i + 1;
    }
    assert(d.take(i - start) == d);
    Some(acc)
}

/// The decimal form of a number is non-empty digits whose value is the number.
pub proof fn lemma_decimal_digits(n: nat)
    ensures
        all_digits(decimal(n)),
        decimal(n).len() > 0,
        digits_value(decimal(n)) == n,
    decreases n,
{
    assert(digit_value(digit_char((n % 10) as int)) == n % 10);
    assert(n == (n / 10) * 10 + n % 10) by (nonlinear_arith);
    if n >= 10 {
        lemma_decimal_digits(n / 10);
        let d = decimal(n);
        assert(d.drop_last() == decimal(n / 10));
        assert(d.last() == digit_char((n % 10) as int));
        assert(digits_value(d) == digits_value(d.drop_last()) * 10 + digit_value(d.last()));
        assert(digits_value(d) == (n / 10) * 10 + n % 10);
        assert forall|i: int| 0 <= i < d.len() implies is_digit(#[trigger] d[i]) by {
            if i < d.len() - 1 {
                assert(d[i] == decimal(n / 10)[i]);
            }
        }
    } else {
        let d = decimal(n);
        assert(d.drop_last() =~= Seq::<char>::empty());
        assert(digits_value(d.drop_last()) == 0);
        assert(d.last() == digit_char(n as int));
        assert(digits_value(d) == digit_value(d.last()));
    }
}

/// The decimal digit character for `d`.
pub fn digit_char_of(d: u64) -> (c: char)
    requires
        d < 10,
    ensures
        c == digit_char(d as int),
{
    ((d as u8) + 48u8) as char
}

/// The decimal notation of `n`.
pub fn decimal_chars(n: u64) -> (r: Vec<char>)
    ensures
        r@ == decimal(n as nat),
    decreases n,
{
    if n < 10 {
        let v = vec![digit_char_of(n)];
        assert(v@ == seq![digit_char(n as int)]);
        v
    } else {
        let mut v = decimal_chars(n / 10);
        v.push(digit_char_of(n % 10));
        v
    }
}

// ------------------------------------------------------------------
// Case-insensitive comparison
// ------------------------------------------------------------------

/// The code of `c` with ASCII upper-case letters mapped to lower case.
pub open spec fn ascii_lower(c: char) -> int {
    if 65 <= (c as u32) <= 90 {
        (c as u32) + 32
    } else {
        (c as u32) as int
    }
}

/// Whether `a` and `b` are equal up to ASCII case (what `str::eq_ignore_ascii_case` returns).
pub open spec fn eq_ignore_ascii_case(a: Seq<char>, b: Seq<char>) -> bool {
    a.len() == b.len() && forall|i: int| 0 <= i < a.len() ==> ascii_lower(a[i]) == ascii_lower(b[i])
}

fn ascii_lower_of(c: char) -> (r: u32)
    ensures
        r == ascii_lower(c),
{
    let v = c as u32;
    if 65 <= v && v <= 90 {
        v + 32
    } else {
        v
    }
}

/// Whether `a` and `b` are equal up to ASCII case.
pub fn eq_ignore_ascii_case_chars(a: &Vec<char>, b: &Vec<char>) -> (r: bool)
    ensures
        r == eq_ignore_ascii_case(a@, b@),
{
    if a.len() != b.len() {
        return false;
    }
    let mut i: usize = 0;
    while i < a.len()
        invariant
            a.len() == b.len(),
            i <= a.len(),
            forall|j: int| 0 <= j < i ==> ascii_lower(a@[j]) == ascii_lower(b@[j]),
        decreases a.len() - i,
    {
        if ascii_lower_of(a[i]) != ascii_lower_of(b[i]) {
            return false;
        }
        i = i + 1;
    }
    true
}


// ------------------------------------------------------------------
// Words and tokens
// ------------------------------------------------------------------

/// Whether `c` may stand in a marker type: alphanumeric or `_`.
pub open spec fn is_word_char(c: char) -> bool {
    is_alphanumeric_char(c) || c == '_'
}

/// How many characters at the start of `s` are word characters.
pub open spec fn word_len(s: Seq<char>) -> nat
    decreases s.len(),
{
    if s.len() > 0 && is_word_char(s[0]) {
        1 + word_len(s.drop_first())
    } else {
        0
    }
}

/// How many characters at the start of `s` are not whitespace.
pub open spec fn non_ws_len(s: Seq<char>) -> nat
    decreases s.len(),
{
    if s.len() > 0 && !is_white_space(s[0]) {
        1 + non_ws_len(s.drop_first())
    } else {
        0
    }
}

/// The first whitespace-separated token of `s` (what `split_whitespace().next()` returns).
pub open spec fn first_token(s: Seq<char>) -> Option<Seq<char>> {
    let t = trim_start(s);
    if t.len() == 0 {
        None
    } else {
        Some(t.take(non_ws_len(t) as int))
    }
}

/// The word length of a text is at most its length.
pub proof fn lemma_word_len_bound(s: Seq<char>)
    ensures
        word_len(s) <= s.len(),
    decreases s.len(),
{
    if s.len() > 0 && is_word_char(s[0]) {
        lemma_word_len_bound(s.drop_first());
    }
}

/// The length of the leading token of a text is at most its length.
pub proof fn lemma_non_ws_len_bound(s: Seq<char>)
    ensures
        non_ws_len(s) <= s.len(),
    decreases s.len(),
{
    if s.len() > 0 && !is_white_space(s[0]) {
        lemma_non_ws_len_bound(s.drop_first());
    }
}

/// The number of word characters at the start of `s[start..]`.
pub fn word_len_from(s: &Vec<char>, start: usize) -> (r: usize)
    requires
        start <= s.len(),
    ensures
        r == word_len(s@.skip(start as int)),
        start + r <= s.len(),
{
    let mut i: usize = start;
    while i < s.len() && (is_alphanumeric(s[i]) || s[i] == '_')
        invariant
            start <= i <= s.len(),
            word_len(s@.skip(start as int)) == (i - start) + word_len(s@.skip(i as int)),
        decreases s.len() - i,
    {
        assert(s@.skip(i as int).drop_first() == s@.skip(i + 1));
        i = i + 1;
    }
    i - start
}

/// The first whitespace-separated token of `s`.
pub fn first_token_chars(s: &Vec<char>) -> (r: Option<Vec<char>>)
    ensures
        r matches Some(t) ==> first_token(s@) == Some(t@),
        r is None ==> first_token(s@) is None,
{
    let mut a: usize = 0;
    assert(s@.skip(0) == s@);
    while a < s.len() && is_whitespace(s[a])
        invariant
            a <= s.len(),
            trim_start(s@) == trim_start(s@.skip(a as int)),
        decreases s.len() - a,
    {
        assert(s@.skip(a as int).drop_first() == s@.skip(a + 1));
        a = a + 1;
    }
    let ghost t = s@.skip(a as int);
    assert(trim_start(s@) == t);
    if a == s.len() {
        return None;
    }
    let mut b: usize = a;
    assert(t.skip(0) == t);
    while b < s.len() && !is_whitespace(s[b])
        invariant
            a <= b <= s.len(),
            t == s@.skip(a as int),
            non_ws_len(t) == (b - a) + non_ws_len(s@.skip(b as int)),
        decreases s.len() - b,
    {
        assert(s@.skip(b as int).drop_first() == s@.skip(b + 1));
        b = b + 1;
    }
    let r = subrange(s, a, b);
    assert(r@ == t.take(non_ws_len(t) as int));
    Some(r)
}

// ------------------------------------------------------------------
// UTF-8 byte offsets
// ------------------------------------------------------------------

/// The number of bytes of the UTF-8 encoding of `s`.
pub open spec fn utf8_len(s: Seq<char>) -> nat {
    vstd::utf8::encode_utf8(s).len()
}

/// The UTF-8 encoding of two texts one after the other is their encodings one after the other.
pub proof fn lemma_encode_utf8_concat(a: Seq<char>, b: Seq<char>)
    ensures
        vstd::utf8::encode_utf8(a + b) == vstd::utf8::encode_utf8(a) + vstd::utf8::encode_utf8(b),
    decreases a.len(),
{
    if a.len() > 0 {
        assert((a + b).drop_first() == a.drop_first() + b);
        lemma_encode_utf8_concat(a.drop_first(), b);
        assert((a + b)[0] == a[0]);
    } else {
        assert(a + b == b);
    }
}

/// The number of UTF-8 bytes of `c` (what `char::len_utf8` returns).
pub fn utf8_width(c: char) -> (r: usize)
    ensures
        r == vstd::utf8::encode_scalar(c as u32).len(),
        1 <= r <= 4,
{
    proof {
        vstd::utf8::char_is_scalar(c);
    }
    let v = c as u32;
    if v <= 0x7F {
        1
    } else if v <= 0x7FF {
        2
    } else if v <= 0xFFFF {
        3
    } else {
        4
    }
}

/// The UTF-8 length of a piece of `s` is at most that of `s`, and of a prefix at most that of a longer prefix.
pub proof fn lemma_utf8_len_piece(s: Seq<char>, a: int, b: int)
    requires
        0 <= a <= b <= s.len(),
    ensures
        utf8_len(s.subrange(a, b)) <= utf8_len(s),
        utf8_len(s.take(a)) <= utf8_len(s),
{
    lemma_encode_utf8_concat(s.take(a), s.skip(a));
    assert(s.take(a) + s.skip(a) == s);
    lemma_encode_utf8_concat(s.subrange(a, b), s.skip(b));
    assert(s.subrange(a, b) + s.skip(b) == s.skip(a));
}

/// The number of UTF-8 bytes of the characters of `s` before index `k`.
pub fn utf8_len_prefix(s: &Vec<char>, k: usize) -> (r: usize)
    requires
        k <= s.len(),
        utf8_len(s@) <= usize::MAX,
    ensures
        r == utf8_len(s@.take(k as int)),
{
    let mut acc: usize = 0;
    let mut i: usize = 0;
    assert(s@.take(0) =~= Seq::<char>::empty());
    while i < k
        invariant
            i <= k <= s.len(),
            utf8_len(s@) <= usize::MAX,
            acc == utf8_len(s@.take(i as int)),
        decreases k - i,
    {
        let w = utf8_width(s[i]);
        proof {
            lemma_encode_utf8_concat(s@.take(i as int), seq![s@[i as int]]);
            assert(s@.take(i as int) + seq![s@[i as int]] == s@.take(i + 1));
            assert(vstd::utf8::encode_utf8(seq![s@[i as int]]) == vstd::utf8::encode_scalar(
                s@[i as int] as u32,
            ) + vstd::utf8::encode_utf8(Seq::<char>::empty())) by {
                assert(seq![s@[i as int]].drop_first() =~= Seq::<char>::empty());
            }
            lemma_utf8_len_piece(s@, i + 1, i + 1);
        }
        acc = acc + w;
        i = i + 1;
    }
    acc
}

/// The number of UTF-8 bytes of `s` (what `str::len` returns), with the
/// characters of `s`.
pub fn chars_and_len(s: &str) -> (r: (Vec<char>, usize))
    ensures
        r.0@ == s@,
        r.1 == utf8_len(s@),
{
    let b = s.as_bytes();
    let n = b.len();
    (to_chars(s), n)
}


// ------------------------------------------------------------------
// Facts about searching and splitting
// ------------------------------------------------------------------

/// Whether `c` does not occur in `s`.
pub open spec fn lacks(s: Seq<char>, c: char) -> bool {
    forall|i: int| 0 <= i < s.len() ==> s[i] != c
}

/// A match with no earlier match is what `find` returns.
pub proof fn lemma_find_first(s: Seq<char>, p: Seq<char>, m: int)
    requires
        match_at(s, p, m),
        forall|k: int| 0 <= k < m ==> !match_at(s, p, k),
    ensures
        find(s, p) == Some(m),
{
    lemma_find_from_first(s, p, 0, m);
}

proof fn lemma_find_from_first(s: Seq<char>, p: Seq<char>, i: int, m: int)
    requires
        0 <= i <= m,
        match_at(s, p, m),
        forall|k: int| i <= k < m ==> !match_at(s, p, k),
    ensures
        find_from(s, p, i) == Some(m),
    decreases m - i,
{
    if i < m {
        lemma_find_from_first(s, p, i + 1, m);
    }
}

/// A one-character pattern matches where that character stands.
pub proof fn lemma_match_char(s: Seq<char>, c: char, k: int)
    ensures
        match_at(s, seq![c], k) <==> (0 <= k < s.len() && s[k] == c),
{
    if 0 <= k < s.len() && s[k] == c {
        assert(s.subrange(k, k + 1) =~= seq![c]);
    }
    if match_at(s, seq![c], k) {
        assert(s.subrange(k, k + 1)[0] == s[k]);
    }
}

/// Splitting at a character splits at its first occurrence.
pub proof fn lemma_split_char(a: Seq<char>, c: char, b: Seq<char>)
    requires
        lacks(a, c),
    ensures
        split_once(a + seq![c] + b, seq![c]) == Some((a, b)),
{
    let s = a + seq![c] + b;
    lemma_match_char(s, c, a.len() as int);
    assert forall|k: int| 0 <= k < a.len() implies !match_at(s, seq![c], k) by {
        lemma_match_char(s, c, k);
        assert(s[k] == a[k]);
    }
    lemma_find_first(s, seq![c], a.len() as int);
    assert(s.take(a.len() as int) =~= a);
    assert(s.skip(a.len() as int + 1) =~= b);
}

/// The characters ` - `.
pub open spec fn sep_dash() -> Seq<char> {
    seq![' ', '-', ' ']
}

/// Whether no space in `a` starts ` - ` when `a` is followed by more text:
/// each space has two more characters of `a` after it, which are not `- `.
pub open spec fn no_dash_sep_start(a: Seq<char>) -> bool {
    forall|k: int|
        0 <= k < a.len() && #[trigger] a[k] == ' ' ==> k + 2 < a.len() && !(a[k + 1] == '-' && a[k + 2]
            == ' ')
}

/// Splitting at ` - ` splits after a text in which no space starts ` - `.
pub proof fn lemma_split_dash(a: Seq<char>, b: Seq<char>)
    requires
        no_dash_sep_start(a),
    ensures
        split_once(a + sep_dash() + b, sep_dash()) == Some((a, b)),
{
    let s = a + sep_dash() + b;
    assert(s.subrange(a.len() as int, a.len() as int + 3) =~= sep_dash());
    assert forall|k: int| 0 <= k < a.len() implies !match_at(s, sep_dash(), k) by {
        if match_at(s, sep_dash(), k) {
            assert(s.subrange(k, k + 3)[0] == s[k]);
            assert(s.subrange(k, k + 3)[1] == s[k + 1]);
            assert(s.subrange(k, k + 3)[2] == s[k + 2]);
            assert(s[k] == a[k]);
            assert(s[k + 1] == a[k + 1]);
            assert(s[k + 2] == a[k + 2]);
        }
    }
    lemma_find_first(s, sep_dash(), a.len() as int);
    assert(s.take(a.len() as int) =~= a);
    assert(s.skip(a.len() as int + 3) =~= b);
}

/// The decimal form of a number parses back as the number.
pub proof fn lemma_parse_decimal(n: nat)
    requires
        n <= u64::MAX,
    ensures
        parse_u64(decimal(n)) == Some(n as u64),
        all_digits(decimal(n)),
        decimal(n).len() > 0,
{
    lemma_decimal_digits(n);
    let d = decimal(n);
    assert(d[0] != '+') by {
        assert(is_digit(d[0]));
    }
    assert(unsigned_part(d) == d);
}

/// Digits do not hold a character that is not a digit.
pub proof fn lemma_digits_lack(s: Seq<char>, c: char)
    requires
        all_digits(s),
        !is_digit(c),
    ensures
        lacks(s, c),
{
    assert forall|i: int| 0 <= i < s.len() implies s[i] != c by {
        assert(is_digit(s[i]));
    }
}

// ------------------------------------------------------------------
// Facts about lines
// ------------------------------------------------------------------

/// Each line followed by a newline.
pub open spec fn terminated(ls: Seq<Seq<char>>) -> Seq<char>
    decreases ls.len(),
{
    if ls.len() == 0 {
        seq![]
    } else {
        terminated(ls.drop_last()) + ls.last() + seq!['\n']
    }
}

/// Whether `l` can stand as a line: no newline, and no carriage return at its end.
pub open spec fn plain_line(l: Seq<char>) -> bool {
    lacks(l, '\n') && !(l.len() > 0 && l.last() == '\r')
}

/// Reading text without a newline after some text only extends the line in progress.
pub proof fn lemma_lines_state_append(x: Seq<char>, y: Seq<char>)
    requires
        lacks(y, '\n'),
    ensures
        lines_state(x + y) == (lines_state(x).0, lines_state(x).1 + y),
    decreases y.len(),
{
    if y.len() == 0 {
        assert(x + y =~= x);
        assert(lines_state(x).1 + y =~= lines_state(x).1);
    } else {
        assert((x + y).drop_last() =~= x + y.drop_last());
        assert(y.last() == y[y.len() - 1]);
        lemma_lines_state_append(x, y.drop_last());
        assert(lines_state(x).1 + y.drop_last() + seq![y.last()] =~= lines_state(x).1 + y);
        assert((x + y).last() == y.last());
    }
}

/// Reading lines each ended by a newline leaves no line in progress.
pub proof fn lemma_lines_state_terminated(ls: Seq<Seq<char>>)
    requires
        forall|i: int| 0 <= i < ls.len() ==> plain_line(#[trigger] ls[i]),
    ensures
        lines_state(terminated(ls)) == (ls, Seq::<char>::empty()),
    decreases ls.len(),
{
    if ls.len() > 0 {
        let prev = ls.drop_last();
        lemma_lines_state_terminated(prev);
        let l = ls.last();
        assert(plain_line(ls[ls.len() - 1]));
        lemma_lines_state_append(terminated(prev), l);
        let t = terminated(ls);
        assert(t.drop_last() =~= terminated(prev) + l);
        assert(Seq::<char>::empty() + l =~= l);
        assert(prev.push(l) =~= ls);
    }
}

/// The lines of lines each ended by a newline are those lines, when each can stand as a line.
pub proof fn lemma_lines_terminated(ls: Seq<Seq<char>>)
    requires
        forall|i: int| 0 <= i < ls.len() ==> plain_line(#[trigger] ls[i]),
    ensures
        lines(terminated(ls)) == ls,
{
    lemma_lines_state_terminated(ls);
}

/// Ending lines by newlines commutes with putting lines one after the other.
pub proof fn lemma_terminated_concat(a: Seq<Seq<char>>, b: Seq<Seq<char>>)
    ensures
        terminated(a + b) == terminated(a) + terminated(b),
    decreases b.len(),
{
    if b.len() == 0 {
        assert(a + b =~= a);
        assert(terminated(a) + terminated(b) =~= terminated(a));
    } else {
        assert((a + b).drop_last() =~= a + b.drop_last());
        lemma_terminated_concat(a, b.drop_last());
        assert((a + b).last() == b.last());
        assert(terminated(a) + terminated(b) =~= terminated(a) + terminated(b.drop_last()) + b.last()
            + seq!['\n']);
    }
}

proof fn lemma_lines_state_lack_newline(s: Seq<char>)
    ensures
        forall|i: int| 0 <= i < lines_state(s).0.len() ==> lacks(#[trigger] lines_state(s).0[i], '\n'),
        lacks(lines_state(s).1, '\n'),
    decreases s.len(),
{
    if s.len() > 0 {
        lemma_lines_state_lack_newline(s.drop_last());
        let st = lines_state(s.drop_last());
        if s.last() == '\n' {
            assert forall|i: int| 0 <= i < lines_state(s).0.len() implies lacks(#[trigger] lines_state(s).0[i], '\n') by {
                if i < st.0.len() {
                    assert(lines_state(s).0[i] == st.0[i]);
                }
            }
        } else {
            assert forall|i: int| 0 <= i < st.1.push(s.last()).len() implies st.1.push(s.last())[i] != '\n' by {
                if i < st.1.len() {
                    assert(st.1.push(s.last())[i] == st.1[i]);
                }
            }
        }
    }
}

/// No line holds a newline.
pub proof fn lemma_lines_lack_newline(s: Seq<char>)
    ensures
        forall|i: int| 0 <= i < lines(s).len() ==> lacks(#[trigger] lines(s)[i], '\n'),
{
    lemma_lines_state_lack_newline(s);
    let st = lines_state(s);
    if st.1.len() > 0 {
        assert forall|i: int| 0 <= i < lines(s).len() implies lacks(#[trigger] lines(s)[i], '\n') by {
            if i < st.0.len() {
                assert(lines(s)[i] == st.0[i]);
            }
        }
    }
}

/// The word length of word characters followed by a non-word character is their number.
pub proof fn lemma_word_len_words(t: Seq<char>, rest: Seq<char>)
    requires
        forall|i: int| 0 <= i < t.len() ==> is_word_char(#[trigger] t[i]),
        rest.len() == 0 || !is_word_char(rest[0]),
    ensures
        word_len(t + rest) == t.len(),
    decreases t.len(),
{
    if t.len() == 0 {
        assert(t + rest =~= rest);
    } else {
        assert((t + rest).drop_first() =~= t.drop_first() + rest);
        assert((t + rest)[0] == t[0]);
        assert forall|i: int| 0 <= i < t.drop_first().len() implies is_word_char(#[trigger] t.drop_first()[i]) by {
            assert(t.drop_first()[i] == t[i + 1]);
        }
        lemma_word_len_words(t.drop_first(), rest);
    }
}

/// The leading token of a token followed by whitespace or the end is that token.
pub proof fn lemma_non_ws_len_token(t: Seq<char>, rest: Seq<char>)
    requires
        forall|i: int| 0 <= i < t.len() ==> !is_white_space(#[trigger] t[i]),
        rest.len() == 0 || is_white_space(rest[0]),
    ensures
        non_ws_len(t + rest) == t.len(),
    decreases t.len(),
{
    if t.len() == 0 {
        assert(t + rest =~= rest);
    } else {
        assert((t + rest).drop_first() =~= t.drop_first() + rest);
        assert((t + rest)[0] == t[0]);
        assert forall|i: int| 0 <= i < t.drop_first().len() implies !is_white_space(#[trigger] t.drop_first()[i]) by {
            assert(t.drop_first()[i] == t[i + 1]);
        }
        lemma_non_ws_len_token(t.drop_first(), rest);
    }
}

/// The first token of a text that starts with a token `t` ended by whitespace
/// or by the end is `t`.
pub proof fn lemma_first_token_of(t: Seq<char>, rest: Seq<char>)
    requires
        t.len() > 0,
        forall|i: int| 0 <= i < t.len() ==> !is_white_space(#[trigger] t[i]),
        rest.len() == 0 || is_white_space(rest[0]),
    ensures
        first_token(t + rest) == Some(t),
{
    assert((t + rest)[0] == t[0]);
    assert(trim_start(t + rest) == t + rest);
    lemma_non_ws_len_token(t, rest);
    assert((t + rest).take(t.len() as int) =~= t);
}

/// The word length of a text counts its leading word characters: all of them,
/// and no more, since the character after them, if any, is not one.
pub proof fn lemma_word_len_shape(s: Seq<char>)
    ensures
        word_len(s) <= s.len(),
        forall|k: int| 0 <= k < word_len(s) ==> is_word_char(#[trigger] s[k]),
        word_len(s) < s.len() ==> !is_word_char(s[word_len(s) as int]),
    decreases s.len(),
{
    if s.len() > 0 && is_word_char(s[0]) {
        let t = s.drop_first();
        lemma_word_len_shape(t);
        assert forall|k: int| 0 <= k < word_len(s) implies is_word_char(#[trigger] s[k]) by {
            if k > 0 {
                assert(s[k] == t[k - 1]);
            }
        }
        if word_len(s) < s.len() {
            assert(s[word_len(s) as int] == t[word_len(t) as int]);
        }
    }
}

/// Lines joined by newlines, with a newline after the last, are the lines
/// each ended by a newline; without it, the lines before the last each ended
/// by a newline, then the last.
pub proof fn lemma_join_terminated(ls: Seq<Seq<char>>)
    requires
        ls.len() > 0,
    ensures
        join(ls, seq!['\n']) + seq!['\n'] == terminated(ls),
        join(ls, seq!['\n']) == terminated(ls.drop_last()) + ls.last(),
    decreases ls.len(),
{
    if ls.len() == 1 {
        assert(ls.drop_last() =~= Seq::<Seq<char>>::empty());
        assert(terminated(ls.drop_last()) == Seq::<char>::empty());
        assert(Seq::<char>::empty() + ls.last() =~= ls.last());
        assert(ls.last() == ls[0]);
    } else {
        lemma_join_terminated(ls.drop_last());
        assert(ls.drop_last().drop_last() + seq![ls.drop_last().last()] =~= ls.drop_last());
    }
}

/// Lines that can stand as lines, joined by newlines, read back as those lines:
/// with a final newline when there is at least one, and without it when the
/// last is not empty (or there is none).
pub proof fn lemma_lines_of_join(ls: Seq<Seq<char>>)
    requires
        forall|i: int| 0 <= i < ls.len() ==> plain_line(#[trigger] ls[i]),
    ensures
        ls.len() > 0 ==> lines(join(ls, seq!['\n']) + seq!['\n']) == ls,
        (ls.len() == 0 || ls.last().len() > 0) ==> lines(join(ls, seq!['\n'])) == ls,
{
    if ls.len() > 0 {
        lemma_join_terminated(ls);
        lemma_lines_terminated(ls);
        let a = ls.drop_last();
        assert forall|i: int| 0 <= i < a.len() implies plain_line(#[trigger] a[i]) by {
            assert(a[i] == ls[i]);
        }
        lemma_lines_state_terminated(a);
        assert(plain_line(ls[ls.len() - 1]));
        lemma_lines_state_append(terminated(a), ls.last());
        assert(Seq::<char>::empty() + ls.last() =~= ls.last());
        assert(a.push(ls.last()) =~= ls);
    } else {
        assert(join(ls, seq!['\n']) == Seq::<char>::empty());
    }
}

proof fn lemma_lines_state_lack(s: Seq<char>, c: char)
    requires
        lacks(s, c),
    ensures
        forall|i: int| 0 <= i < lines_state(s).0.len() ==> lacks(#[trigger] lines_state(s).0[i], c),
        lacks(lines_state(s).1, c),
    decreases s.len(),
{
    if s.len() > 0 {
        let d = s.drop_last();
        assert forall|i: int| 0 <= i < d.len() implies d[i] != c by {
            assert(d[i] == s[i]);
        }
        lemma_lines_state_lack(d, c);
        let st = lines_state(d);
        assert(s.last() == s[s.len() - 1]);
        if s.last() == '\n' {
            let l = strip_cr(st.1);
            assert forall|k: int| 0 <= k < l.len() implies l[k] != c by {
                assert(l[k] == st.1[k]);
            }
            assert forall|i: int| 0 <= i < lines_state(s).0.len() implies lacks(#[trigger] lines_state(s).0[i], c) by {
                if i < st.0.len() {
                    assert(lines_state(s).0[i] == st.0[i]);
                }
            }
        } else {
            assert forall|i: int| 0 <= i < st.1.push(s.last()).len() implies st.1.push(s.last())[i] != c by {
                if i < st.1.len() {
                    assert(st.1.push(s.last())[i] == st.1[i]);
                }
            }
        }
    }
}

/// The lines of a text lack every character the text lacks.
pub proof fn lemma_lines_lack(s: Seq<char>, c: char)
    requires
        lacks(s, c),
    ensures
        forall|i: int| 0 <= i < lines(s).len() ==> lacks(#[trigger] lines(s)[i], c),
{
    lemma_lines_state_lack(s, c);
    let st = lines_state(s);
    if st.1.len() > 0 {
        assert forall|i: int| 0 <= i < lines(s).len() implies lacks(#[trigger] lines(s)[i], c) by {
            if i < st.0.len() {
                assert(lines(s)[i] == st.0[i]);
            }
        }
    }
}

/// Text that ends with a newline has at least one line; text that does not has
/// a last line that is not empty, when it has any.
pub proof fn lemma_lines_end(s: Seq<char>)
    ensures
        (s.len() > 0 && s.last() == '\n') ==> lines(s).len() > 0,
        !(s.len() > 0 && s.last() == '\n') && lines(s).len() > 0 ==> lines(s).last().len() > 0,
{
    if s.len() > 0 && s.last() != '\n' {
        assert(lines_state(s).1.len() > 0);
    }
}

/// Pieces without a character, joined by a separator without it, lack it.
pub proof fn lemma_join_lack(ls: Seq<Seq<char>>, sep: Seq<char>, c: char)
    requires
        lacks(sep, c),
        forall|i: int| 0 <= i < ls.len() ==> lacks(#[trigger] ls[i], c),
    ensures
        lacks(join(ls, sep), c),
    decreases ls.len(),
{
    if ls.len() == 1 {
        assert(lacks(ls[0], c));
    } else if ls.len() > 1 {
        let a = ls.drop_last();
        assert forall|i: int| 0 <= i < a.len() implies lacks(#[trigger] a[i], c) by {
            assert(a[i] == ls[i]);
        }
        lemma_join_lack(a, sep, c);
        assert(lacks(ls[ls.len() - 1], c));
        let j = join(a, sep) + sep + ls.last();
        assert forall|k: int| 0 <= k < j.len() implies j[k] != c by {
            if k < join(a, sep).len() {
                assert(j[k] == join(a, sep)[k]);
            } else if k < join(a, sep).len() + sep.len() {
                assert(j[k] == sep[k - join(a, sep).len()]);
            } else {
                assert(j[k] == ls.last()[k - join(a, sep).len() - sep.len()]);
            }
        }
    }
}

/// Two texts that lack a character lack it one after the other.
pub proof fn lemma_lacks_concat(a: Seq<char>, b: Seq<char>, c: char)
    requires
        lacks(a, c),
        lacks(b, c),
    ensures
        lacks(a + b, c),
{
    assert forall|i: int| 0 <= i < (a + b).len() implies (a + b)[i] != c by {
        if i < a.len() {
            assert((a + b)[i] == a[i]);
        } else {
            assert((a + b)[i] == b[i - a.len()]);
        }
    }
}

/// `trim_start` drops characters from the front only, and what it keeps does
/// not start with whitespace.
pub proof fn lemma_trim_start_shape(s: Seq<char>)
    ensures
        trim_start(s).len() <= s.len(),
        trim_start(s) == s.skip(s.len() - trim_start(s).len()),
        trim_start(s).len() > 0 ==> !is_white_space(trim_start(s)[0]),
        forall|i: int| 0 <= i < s.len() - trim_start(s).len() ==> is_white_space(#[trigger] s[i]),
    decreases s.len(),
{
    if s.len() > 0 && is_white_space(s[0]) {
        lemma_trim_start_shape(s.drop_first());
        assert forall|i: int| 0 <= i < s.len() - trim_start(s).len() implies is_white_space(#[trigger] s[i]) by {
            if i > 0 {
                assert(s[i] == s.drop_first()[i - 1]);
            }
        }
        assert(s.drop_first().skip(s.drop_first().len() - trim_start(s).len()) =~= s.skip(
            s.len() - trim_start(s).len(),
        ));
    } else {
        assert(s.skip(0) =~= s);
    }
}

/// `trim_end` drops characters from the back only, and what it keeps does not
/// end with whitespace.
pub proof fn lemma_trim_end_shape(s: Seq<char>)
    ensures
        trim_end(s).len() <= s.len(),
        trim_end(s) == s.take(trim_end(s).len() as int),
        trim_end(s).len() > 0 ==> !is_white_space(trim_end(s).last()),
        forall|i: int| trim_end(s).len() <= i < s.len() ==> is_white_space(#[trigger] s[i]),
    decreases s.len(),
{
    if s.len() > 0 && is_white_space(s.last()) {
        lemma_trim_end_shape(s.drop_last());
        assert forall|i: int| trim_end(s).len() <= i < s.len() implies is_white_space(#[trigger] s[i]) by {
            if i < s.len() - 1 {
                assert(s[i] == s.drop_last()[i]);
            }
        }
        assert(s.drop_last().take(trim_end(s).len() as int) =~= s.take(trim_end(s).len() as int));
    } else {
        assert(s.take(s.len() as int) =~= s);
    }
}

/// Trimmed text neither starts nor ends with whitespace.
pub proof fn lemma_trim_ends(s: Seq<char>)
    ensures
        trim(s).len() > 0 ==> !is_white_space(trim(s)[0]) && !is_white_space(trim(s).last()),
{
    let t = trim_start(s);
    lemma_trim_start_shape(s);
    lemma_trim_end_shape(t);
    if trim(s).len() > 0 {
        assert(trim(s)[0] == t[0]);
    }
}

proof fn lemma_trim_start_is(s: Seq<char>, a: int)
    requires
        0 <= a <= s.len(),
        forall|i: int| 0 <= i < a ==> is_white_space(#[trigger] s[i]),
        a < s.len() ==> !is_white_space(s[a]),
    ensures
        trim_start(s) == s.skip(a),
    decreases a,
{
    if a == 0 {
        assert(s.skip(0) =~= s);
    } else {
        let t = s.drop_first();
        assert forall|i: int| 0 <= i < a - 1 implies is_white_space(#[trigger] t[i]) by {
            assert(t[i] == s[i + 1]);
        }
        if a < s.len() {
            assert(t[a - 1] == s[a]);
        }
        lemma_trim_start_is(t, a - 1);
        assert(t.skip(a - 1) =~= s.skip(a));
    }
}

proof fn lemma_trim_end_is(s: Seq<char>, b: int)
    requires
        0 <= b <= s.len(),
        forall|i: int| b <= i < s.len() ==> is_white_space(#[trigger] s[i]),
        b > 0 ==> !is_white_space(s[b - 1]),
    ensures
        trim_end(s) == s.take(b),
    decreases s.len() - b,
{
    if b == s.len() {
        assert(s.take(b) =~= s);
    } else {
        let t = s.drop_last();
        assert(is_white_space(s[s.len() - 1]));
        assert forall|i: int| b <= i < t.len() implies is_white_space(#[trigger] t[i]) by {
            assert(t[i] == s[i]);
        }
        if b > 0 {
            assert(t[b - 1] == s[b - 1]);
        }
        lemma_trim_end_is(t, b);
        assert(t.take(b) =~= s.take(b));
    }
}

/// Trimming keeps exactly the text from the first to the last character that
/// is not whitespace.
pub proof fn lemma_trim_is(s: Seq<char>, a: int, b: int)
    requires
        0 <= a < b <= s.len(),
        forall|i: int| 0 <= i < a ==> is_white_space(#[trigger] s[i]),
        forall|i: int| b <= i < s.len() ==> is_white_space(#[trigger] s[i]),
        !is_white_space(s[a]),
        !is_white_space(s[b - 1]),
    ensures
        trim(s) == s.subrange(a, b),
{
    lemma_trim_start_is(s, a);
    let t = s.skip(a);
    assert forall|i: int| b - a <= i < t.len() implies is_white_space(#[trigger] t[i]) by {
        assert(t[i] == s[a + i]);
    }
    assert(t[b - a - 1] == s[b - 1]);
    lemma_trim_end_is(t, b - a);
    assert(t.take(b - a) =~= s.subrange(a, b));
}

/// Where the trimmed text of `s` stands in `s`, when it is not empty.
pub proof fn lemma_trim_bounds(s: Seq<char>) -> (r: (int, int))
    requires
        trim(s).len() > 0,
    ensures
        0 <= r.0 < r.1 <= s.len(),
        forall|i: int| 0 <= i < r.0 ==> is_white_space(#[trigger] s[i]),
        forall|i: int| r.1 <= i < s.len() ==> is_white_space(#[trigger] s[i]),
        !is_white_space(s[r.0]),
        !is_white_space(s[r.1 - 1]),
        trim(s) == s.subrange(r.0, r.1),
{
    let ts = trim_start(s);
    lemma_trim_start_shape(s);
    lemma_trim_end_shape(ts);
    let a = s.len() - ts.len();
    let k = trim_end(ts).len();
    assert forall|i: int| a + k <= i < s.len() implies is_white_space(#[trigger] s[i]) by {
        assert(s[i] == ts[i - a]);
    }
    assert(s[a] == ts[0]);
    assert(trim(s)[0] == ts[0]);
    assert(s[a + k - 1] == ts[k - 1]);
    assert(trim(s).last() == ts[k - 1]);
    assert(trim(s) =~= s.subrange(a, a + k));
    (a, a + k)
}

} // verus!
