//! Character-level helpers on strings, stated over their `Seq<char>` views.

use vstd::prelude::*;
use vstd::string::*;

verus! {

/// The characters of `s`, in order.
pub fn chars_of(s: &str) -> (r: Vec<char>)
    ensures
        r@ == s@,
{
    let mut r: Vec<char> = Vec::new();
    for c in it: s.chars()
        invariant
            r@ == it.seq().take(it.index() as int),
    {
        r.push(c);
    }
    assert(r@ == s@);
    r
}

/// Appends one character (`String::push`).
#[verifier::external_body]
pub(crate) fn push_char(s: &mut String, c: char)
    ensures
        final(s)@ == old(s)@.push(c),
{
    s.push(c);
}

/// A new string holding `s`.
pub fn owned(s: &str) -> (r: String)
    ensures
        r@ == s@,
{
    s.to_owned()
}

/// A new string holding the characters `cs[from..to]`.
pub fn string_of(cs: &Vec<char>, from: usize, to: usize) -> (r: String)
    requires
        from <= to <= cs@.len(),
    ensures
        r@ == cs@.subrange(from as int, to as int),
{
    let mut r = String::new();
    let mut i = from;
    while i < to
        invariant
            from <= i <= to <= cs@.len(),
            r@ == cs@.subrange(from as int, i as int),
        decreases to - i,
    {
        push_char(&mut r, cs[i]);
        i = i + 1;
        assert(r@ == cs@.subrange(from as int, i as int));
    }
    r
}

/// Appends the characters of `t` to `s`.
pub fn append(s: &mut String, t: &str)
    ensures
        final(s)@ == old(s)@ + t@,
{
    let cs = chars_of(t);
    let ghost start = s@;
    let mut i: usize = 0;
    while i < cs.len()
        invariant
            i <= cs@.len(),
            cs@ == t@,
            s@ == start + cs@.take(i as int),
        decreases cs.len() - i,
    {
        push_char(s, cs[i]);
        i = i + 1;
        assert(s@ == start + cs@.take(i as int));
    }
    assert(cs@.take(i as int) == t@);
}

/// Whether two strings hold the same characters.
pub fn same(a: &str, b: &str) -> (r: bool)
    ensures
        r == (a@ == b@),
{
    let x = a.to_owned();
    let y = b.to_owned();
    x == y
}

/// ASCII letters, digits and `_`: the characters of a ROS name component.
pub open spec fn is_word_char(c: char) -> bool {
    ('a' <= c && c <= 'z') || ('A' <= c && c <= 'Z') || ('0' <= c && c <= '9') || c == '_'
}

pub fn word_char(c: char) -> (r: bool)
    ensures
        r == is_word_char(c),
{
    ('a' <= c && c <= 'z') || ('A' <= c && c <= 'Z') || ('0' <= c && c <= '9') || c == '_'
}

pub open spec fn all_word_chars(s: Seq<char>) -> bool {
    forall|i: int| 0 <= i < s.len() ==> is_word_char(#[trigger] s[i])
}

/// Whether every character of `cs[from..to]` is a word character.
pub fn word_chars(cs: &Vec<char>, from: usize, to: usize) -> (r: bool)
    requires
        from <= to <= cs@.len(),
    ensures
        r == all_word_chars(cs@.subrange(from as int, to as int)),
{
    let mut i = from;
    while i < to
        invariant
            from <= i <= to <= cs@.len(),
            all_word_chars(cs@.subrange(from as int, i as int)),
        decreases to - i,
    {
        if !word_char(cs[i]) {
            assert(cs@.subrange(from as int, to as int)[i - from] == cs@[i as int]);
            return false;
        }
        i = i + 1;
        assert(forall|k: int| 0 <= k < i - from ==> cs@.subrange(from as int, i as int)[k]
            == cs@.subrange(from as int, (i - 1) as int)[k] || k == i - 1 - from);
    }
    true
}

/// Whether `c` occurs in `s`.
pub open spec fn has_char(s: Seq<char>, c: char) -> bool {
    exists|i: int| 0 <= i < s.len() && s[i] == c
}

/// The first index of `c` in `cs[from..]`, or `cs.len()` where it does not occur there.
pub fn find_char(cs: &Vec<char>, from: usize, c: char) -> (r: usize)
    requires
        from <= cs@.len(),
    ensures
        from <= r <= cs@.len(),
        r < cs@.len() ==> cs@[r as int] == c,
        forall|k: int| from <= k < r ==> cs@[k] != c,
{
    let mut i = from;
    while i < cs.len()
        invariant
            from <= i <= cs@.len(),
            forall|k: int| from <= k < i ==> cs@[k] != c,
        decreases cs.len() - i,
    {
        if cs[i] == c {
            return i;
        }
        i = i + 1;
    }
    i
}

} // verus!

verus! {

/// `j` is the first position at or after `from` holding `c`, or the length where none does.
pub open spec fn is_next(s: Seq<char>, c: char, from: int, j: int) -> bool {
    &&& from <= j <= s.len()
    &&& (j < s.len() ==> s[j] == c)
    &&& forall|k: int| from <= k < j ==> s[k] != c
}

pub open spec fn next_index(s: Seq<char>, c: char, from: int) -> int {
    choose|j: int| is_next(s, c, from, j)
}

pub proof fn lemma_next_index(s: Seq<char>, c: char, from: int, j: int)
    requires
        is_next(s, c, from, j),
    ensures
        next_index(s, c, from) == j,
{
    let k = choose|k: int| is_next(s, c, from, k);
    if k < j {
        assert(s[k] != c);
    } else if j < k {
        assert(s[j] != c);
    }
}

/// The pieces of `s[from..]` between occurrences of `c`, as `str::split` gives them.
pub open spec fn pieces(s: Seq<char>, c: char, from: int) -> Seq<Seq<char>>
    decreases s.len() - from,
{
    if from < 0 || from > s.len() {
        Seq::empty()
    } else {
        let j = next_index(s, c, from);
        if from <= j < s.len() {
            seq![s.subrange(from, j)] + pieces(s, c, j + 1)
        } else {
            seq![s.subrange(from, s.len() as int)]
        }
    }
}

/// The pieces of `s` between occurrences of `c`.
pub open spec fn split_at_char(s: Seq<char>, c: char) -> Seq<Seq<char>> {
    pieces(s, c, 0)
}

/// The views of a list of strings.
pub open spec fn views(v: Seq<String>) -> Seq<Seq<char>> {
    Seq::new(v.len(), |i: int| v[i]@)
}

/// Pieces joined back with `c` between them.
pub open spec fn joined_by(ps: Seq<Seq<char>>, c: char) -> Seq<char>
    decreases ps.len(),
{
    if ps.len() == 0 {
        Seq::empty()
    } else if ps.len() == 1 {
        ps[0]
    } else {
        ps[0] + seq![c] + joined_by(ps.drop_first(), c)
    }
}

/// From every position there is a next `c`, or the end.
proof fn lemma_next_exists(s: Seq<char>, c: char, from: int)
    requires
        0 <= from <= s.len(),
    ensures
        is_next(s, c, from, next_index(s, c, from)),
    decreases s.len() - from,
{
    if from == s.len() || s[from] == c {
        assert(is_next(s, c, from, from));
    } else {
        lemma_next_exists(s, c, from + 1);
        assert(is_next(s, c, from, next_index(s, c, from + 1)));
    }
}

proof fn lemma_pieces(s: Seq<char>, c: char, from: int)
    requires
        0 <= from <= s.len(),
    ensures
        pieces(s, c, from).len() >= 1,
        joined_by(pieces(s, c, from), c) == s.subrange(from, s.len() as int),
        forall|i: int, k: int| 0 <= i < pieces(s, c, from).len() && 0 <= k < pieces(s, c, from)[i].len()
            ==> #[trigger] pieces(s, c, from)[i][k] != c,
    decreases s.len() - from,
{
    lemma_next_exists(s, c, from);
    let j = next_index(s, c, from);
    let ps = pieces(s, c, from);
    if j < s.len() {
        lemma_pieces(s, c, j + 1);
        let rest = pieces(s, c, j + 1);
        assert(ps == seq![s.subrange(from, j)] + rest);
        assert(ps.drop_first() =~= rest);
        assert(ps[0] == s.subrange(from, j));
        assert(s.subrange(from, s.len() as int) =~= s.subrange(from, j) + seq![c] + s.subrange(j + 1, s.len() as int));
        assert forall|i: int, k: int| 0 <= i < ps.len() && 0 <= k < ps[i].len() implies #[trigger] ps[i][k] != c by {
            if i > 0 {
                assert(ps[i] == rest[i - 1]);
            } else {
                assert(ps[0][k] == s[from + k]);
            }
        }
    } else {
        assert(ps == seq![s.subrange(from, s.len() as int)]);
        assert forall|i: int, k: int| 0 <= i < ps.len() && 0 <= k < ps[i].len() implies #[trigger] ps[i][k] != c by {
            assert(ps[0][k] == s[from + k]);
        }
    }
}

/// Splitting at `c` gives at least one piece, no piece holds `c`, and the
/// pieces joined with `c` between them give the text back.
pub proof fn lemma_split_rejoins(s: Seq<char>, c: char)
    ensures
        split_at_char(s, c).len() >= 1,
        joined_by(split_at_char(s, c), c) == s,
        forall|i: int, k: int| 0 <= i < split_at_char(s, c).len() && 0 <= k < split_at_char(s, c)[i].len()
            ==> #[trigger] split_at_char(s, c)[i][k] != c,
{
    lemma_pieces(s, c, 0);
    assert(s.subrange(0, s.len() as int) =~= s);
}

/// `s` split at every `c` (`str::split`).
pub fn split(s: &str, c: char) -> (r: Vec<String>)
    ensures
        views(r@) == split_at_char(s@, c),
{
    let cs = chars_of(s);
    let mut out: Vec<String> = Vec::new();
    let mut start: usize = 0;
    loop
        invariant
            cs@ == s@,
            start <= cs@.len(),
            views(out@) + pieces(cs@, c, start as int) == pieces(cs@, c, 0),
        decreases cs@.len() - start,
    {
        let j = find_char(&cs, start, c);
        proof {
            lemma_next_index(cs@, c, start as int, j as int);
        }
        let piece = string_of(&cs, start, j);
        if j < cs.len() {
            let ghost before = views(out@);
            out.push(piece);
            assert(views(out@) == before.push(piece@));
            assert(pieces(cs@, c, start as int) == seq![piece@] + pieces(cs@, c, j + 1));
            assert(views(out@) + pieces(cs@, c, (j + 1) as int) == before + pieces(cs@, c, start as int));
            start = j + 1;
        } else {
            let ghost before = views(out@);
            out.push(piece);
            assert(views(out@) == before.push(piece@));
            assert(pieces(cs@, c, start as int) == seq![piece@]);
            assert(views(out@) == pieces(cs@, c, 0));
            return out;
        }
    }
}

/// `a` and `b` are equal once ASCII letters are lowercased (`eq_ignore_ascii_case`).
pub open spec fn lower(c: char) -> char {
    if 'A' <= c && c <= 'Z' {
        ((c as u32) + 32) as char
    } else {
        c
    }
}

pub open spec fn same_ignoring_case(a: Seq<char>, b: Seq<char>) -> bool {
    &&& a.len() == b.len()
    &&& forall|i: int| 0 <= i < a.len() ==> lower(a[i]) == lower(b[i])
}

fn lower_char(c: char) -> (r: char)
    ensures
        r == lower(c),
{
    if 'A' <= c && c <= 'Z' {
        let n: u8 = (c as u8) + 32;
        n as char
    } else {
        c
    }
}

pub fn eq_ignore_case(a: &str, b: &str) -> (r: bool)
    ensures
        r == same_ignoring_case(a@, b@),
{
    let x = chars_of(a);
    let y = chars_of(b);
    if x.len() != y.len() {
        return false;
    }
    let mut i: usize = 0;
    while i < x.len()
        invariant
            x@ == a@,
            y@ == b@,
            x@.len() == y@.len(),
            i <= x@.len(),
            forall|k: int| 0 <= k < i ==> lower(x@[k]) == lower(y@[k]),
        decreases x.len() - i,
    {
        if lower_char(x[i]) != lower_char(y[i]) {
            return false;
        }
        i = i + 1;
    }
    true
}

} // verus!

verus! {

/// A nonempty run of word characters.
pub open spec fn is_word(s: Seq<char>) -> bool {
    s.len() > 0 && all_word_chars(s)
}

pub fn word(s: &str) -> (r: bool)
    ensures
        r == is_word(s@),
{
    let cs = chars_of(s);
    if cs.len() == 0 {
        return false;
    }
    let r = word_chars(&cs, 0, cs.len());
    assert(cs@.subrange(0, cs@.len() as int) =~= cs@);
    r
}

} // verus!

verus! {

/// Unicode `White_Space` (`char::is_whitespace`).
pub open spec fn is_space(c: char) -> bool {
    let n = c as u32;
    (0x09 <= n <= 0x0d) || n == 0x20 || n == 0x85 || n == 0xa0 || n == 0x1680 || (0x2000 <= n <= 0x200a)
        || n == 0x2028 || n == 0x2029 || n == 0x202f || n == 0x205f || n == 0x3000
}

pub fn space(c: char) -> (r: bool)
    ensures
        r == is_space(c),
{
    let n = c as u32;
    (0x09 <= n && n <= 0x0d) || n == 0x20 || n == 0x85 || n == 0xa0 || n == 0x1680 || (0x2000 <= n && n <= 0x200a)
        || n == 0x2028 || n == 0x2029 || n == 0x202f || n == 0x205f || n == 0x3000
}

/// `s` without its leading whitespace.
pub open spec fn trim_front(s: Seq<char>) -> Seq<char>
    decreases s.len(),
{
    if s.len() > 0 && is_space(s[0]) {
        trim_front(s.drop_first())
    } else {
        s
    }
}

/// `s` without its trailing whitespace.
pub open spec fn trim_back(s: Seq<char>) -> Seq<char>
    decreases s.len(),
{
    if s.len() > 0 && is_space(s.last()) {
        trim_back(s.drop_last())
    } else {
        s
    }
}

/// `s` without leading and trailing whitespace (`str::trim`).
pub open spec fn trimmed(s: Seq<char>) -> Seq<char> {
    trim_back(trim_front(s))
}

proof fn lemma_trim_front(s: Seq<char>)
    ensures
        exists|a: int| 0 <= a <= s.len() && trim_front(s) == s.skip(a)
            && (forall|k: int| 0 <= k < a ==> is_space(#[trigger] s[k]))
            && (a < s.len() ==> !is_space(s[a])),
    decreases s.len(),
{
    if s.len() > 0 && is_space(s[0]) {
        lemma_trim_front(s.drop_first());
        let a = choose|a: int| 0 <= a <= s.drop_first().len() && trim_front(s.drop_first()) == s.drop_first().skip(a)
            && (forall|k: int| 0 <= k < a ==> is_space(#[trigger] s.drop_first()[k]))
            && (a < s.drop_first().len() ==> !is_space(s.drop_first()[a]));
        assert(s.drop_first().skip(a) =~= s.skip(a + 1));
        assert forall|k: int| 0 <= k < a + 1 implies is_space(#[trigger] s[k]) by {
            if k > 0 {
                assert(s[k] == s.drop_first()[k - 1]);
            }
        }
        assert(a + 1 < s.len() ==> s[a + 1] == s.drop_first()[a]);
    } else {
        assert(s.skip(0) =~= s);
    }
}

proof fn lemma_trim_back(s: Seq<char>)
    ensures
        exists|b: int| 0 <= b <= s.len() && trim_back(s) == s.take(b)
            && (forall|k: int| b <= k < s.len() ==> is_space(#[trigger] s[k]))
            && (b > 0 ==> !is_space(s[b - 1])),
    decreases s.len(),
{
    if s.len() > 0 && is_space(s.last()) {
        lemma_trim_back(s.drop_last());
        let b = choose|b: int| 0 <= b <= s.drop_last().len() && trim_back(s.drop_last()) == s.drop_last().take(b)
            && (forall|k: int| b <= k < s.drop_last().len() ==> is_space(#[trigger] s.drop_last()[k]))
            && (b > 0 ==> !is_space(s.drop_last()[b - 1]));
        assert(s.drop_last().take(b) =~= s.take(b));
        assert forall|k: int| b <= k < s.len() implies is_space(#[trigger] s[k]) by {
            if k < s.len() - 1 {
                assert(s[k] == s.drop_last()[k]);
            }
        }
        assert(b > 0 ==> s[b - 1] == s.drop_last()[b - 1]);
    } else {
        assert(s.take(s.len() as int) =~= s);
    }
}

/// Trimming takes off exactly the whitespace at both ends: what is left is a
/// stretch of the text, everything before and after it is whitespace, and it
/// neither begins nor ends with whitespace.
pub proof fn lemma_trimmed(s: Seq<char>)
    ensures
        exists|a: int, b: int| 0 <= a <= b <= s.len() && #[trigger] s.subrange(a, b) == trimmed(s)
            && (forall|k: int| 0 <= k < a ==> is_space(#[trigger] s[k]))
            && (forall|k: int| b <= k < s.len() ==> is_space(#[trigger] s[k]))
            && (a < b ==> !is_space(s[a]) && !is_space(s[b - 1])),
{
    lemma_trim_front(s);
    let a = choose|a: int| 0 <= a <= s.len() && trim_front(s) == s.skip(a)
        && (forall|k: int| 0 <= k < a ==> is_space(#[trigger] s[k]))
        && (a < s.len() ==> !is_space(s[a]));
    let t = s.skip(a);
    lemma_trim_back(t);
    let b = choose|b: int| 0 <= b <= t.len() && trim_back(t) == t.take(b)
        && (forall|k: int| b <= k < t.len() ==> is_space(#[trigger] t[k]))
        && (b > 0 ==> !is_space(t[b - 1]));
    assert(t.take(b) =~= s.subrange(a, a + b));
    assert forall|k: int| a + b <= k < s.len() implies is_space(#[trigger] s[k]) by {
        assert(s[k] == t[k - a]);
    }
    if b > 0 {
        assert(s[a] == t[0]);
        assert(s[a + b - 1] == t[b - 1]);
    }
}

pub fn trim(s: &str) -> (r: String)
    ensures
        r@ == trimmed(s@),
{
    let cs = chars_of(s);
    let n = cs.len();
    let mut i: usize = 0;
    assert(s@.skip(0) == s@);
    while i < n && space(cs[i])
        invariant
            n == cs@.len(),
            cs@ == s@,
            i <= n,
            trim_front(s@) == trim_front(s@.skip(i as int)),
        decreases n - i,
    {
        assert(s@.skip(i as int).drop_first() == s@.skip(i + 1));
        i = i + 1;
    }
    let ghost front = s@.skip(i as int);
    assert(trim_front(front) == front);
    let mut j: usize = n;
    while j > i && space(cs[j - 1])
        invariant
            n == cs@.len(),
            cs@ == s@,
            i <= j <= n,
            front == s@.skip(i as int),
            trim_back(front) == trim_back(s@.subrange(i as int, j as int)),
        decreases j - i,
    {
        assert(s@.subrange(i as int, j as int).drop_last() == s@.subrange(i as int, j - 1));
        j = j - 1;
    }
    assert(trim_back(s@.subrange(i as int, j as int)) == s@.subrange(i as int, j as int));
    assert(s@.subrange(i as int, n as int) == front);
    string_of(&cs, i, j)
}

/// `s` without its leading whitespace (`str::trim_start`).
pub fn trim_start(s: &str) -> (r: String)
    ensures
        r@ == trim_front(s@),
{
    let cs = chars_of(s);
    let n = cs.len();
    let mut i: usize = 0;
    assert(s@.skip(0) == s@);
    while i < n && space(cs[i])
        invariant
            n == cs@.len(),
            cs@ == s@,
            i <= n,
            trim_front(s@) == trim_front(s@.skip(i as int)),
        decreases n - i,
    {
        assert(s@.skip(i as int).drop_first() == s@.skip(i + 1));
        i = i + 1;
    }
    assert(trim_front(s@.skip(i as int)) == s@.skip(i as int));
    assert(s@.subrange(i as int, n as int) == s@.skip(i as int));
    string_of(&cs, i, n)
}

/// `j` is the last position of `c` in `s`, or -1 where `c` does not occur.
pub open spec fn is_last(s: Seq<char>, c: char, j: int) -> bool {
    &&& -1 <= j < s.len()
    &&& (j >= 0 ==> s[j] == c)
    &&& forall|k: int| j < k < s.len() ==> s[k] != c
}

/// What follows the last `c` in `s`, or all of `s` (`s.rsplit(c).next()`).
pub open spec fn after_last(s: Seq<char>, c: char) -> Seq<char> {
    s.skip((choose|j: int| is_last(s, c, j)) + 1)
}

pub proof fn lemma_after_last(s: Seq<char>, c: char, j: int)
    requires
        is_last(s, c, j),
    ensures
        after_last(s, c) == s.skip(j + 1),
{
    let k = choose|k: int| is_last(s, c, k);
    if k < j {
        assert(s[j] != c);
    } else if j < k {
        assert(s[k] != c);
    }
}

pub fn last_segment(s: &str, c: char) -> (r: String)
    ensures
        r@ == after_last(s@, c),
{
    let cs = chars_of(s);
    let mut j: usize = cs.len();
    while j > 0 && cs[j - 1] != c
        invariant
            cs@ == s@,
            j <= cs@.len(),
            forall|k: int| j <= k < cs@.len() ==> cs@[k] != c,
        decreases j,
    {
        j = j - 1;
    }
    proof {
        lemma_after_last(s@, c, j - 1);
    }
    string_of(&cs, j, cs.len())
}

/// `j` is the first position where `a` is followed by `b` in `s`.
pub open spec fn is_first_pair(s: Seq<char>, a: char, b: char, j: int) -> bool {
    &&& 0 <= j && j + 1 < s.len()
    &&& s[j] == a && s[j + 1] == b
    &&& forall|k: int| 0 <= k < j ==> !(#[trigger] s[k] == a && s[k + 1] == b)
}

/// `s` split around the first `a` followed by `b` (`str::split_once` with a two-character pattern).
pub open spec fn split_pair(s: Seq<char>, a: char, b: char) -> Option<(Seq<char>, Seq<char>)> {
    if exists|j: int| is_first_pair(s, a, b, j) {
        let j = choose|j: int| is_first_pair(s, a, b, j);
        Some((s.take(j), s.skip(j + 2)))
    } else {
        None
    }
}

pub fn split_once_pair(s: &str, a: char, b: char) -> (r: Option<(String, String)>)
    ensures
        match r {
            Some((x, y)) => split_pair(s@, a, b) == Some((x@, y@)),
            None => split_pair(s@, a, b) is None,
        },
{
    let cs = chars_of(s);
    let mut j: usize = 0;
    while j < cs.len() && j + 1 < cs.len()
        invariant
            cs@ == s@,
            j <= cs@.len(),
            forall|k: int| 0 <= k < j && k + 1 < cs@.len() ==> !(#[trigger] cs@[k] == a && cs@[k + 1] == b),
        decreases cs.len() - j,
    {
        if cs[j] == a && cs[j + 1] == b {
            proof {
                assert(is_first_pair(s@, a, b, j as int));
                let c = choose|c: int| is_first_pair(s@, a, b, c);
                if c < j {
                    assert(!(s@[c] == a && s@[c + 1] == b));
                } else if j < c {
                    assert(!(s@[j as int] == a && s@[j + 1] == b));
                }
            }
            let x = string_of(&cs, 0, j);
            let y = string_of(&cs, j + 2, cs.len());
            return Some((x, y));
        }
        j = j + 1;
    }
    proof {
        assert forall|c: int| !is_first_pair(s@, a, b, c) by {
            if is_first_pair(s@, a, b, c) {
                assert(c < j);
            }
        }
    }
    None
}

/// `s` split around its first `c` (`str::split_once` with a character).
pub open spec fn split_char(s: Seq<char>, c: char) -> Option<(Seq<char>, Seq<char>)> {
    let j = next_index(s, c, 0);
    if 0 <= j < s.len() {
        Some((s.take(j), s.skip(j + 1)))
    } else {
        None
    }
}

pub fn split_once_char(s: &str, c: char) -> (r: Option<(String, String)>)
    ensures
        match r {
            Some((x, y)) => split_char(s@, c) == Some((x@, y@)),
            None => split_char(s@, c) is None,
        },
{
    let cs = chars_of(s);
    let j = find_char(&cs, 0, c);
    proof {
        lemma_next_index(s@, c, 0, j as int);
    }
    if j < cs.len() {
        let x = string_of(&cs, 0, j);
        let y = string_of(&cs, j + 1, cs.len());
        Some((x, y))
    } else {
        None
    }
}

} // verus!
